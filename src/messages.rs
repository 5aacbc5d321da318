use vstd::prelude::*;
use vstd::pervasive::VecAdditionalExecFns;
use crate::visitor::{namespaces_model, ExtractionResult};
use crate::json::{lookup_model, lookup_path, members_model, value_model, JsonModel, JsonValue};
use crate::text::{
    add_missing, add_missing_strings, copy_string, copy_strings, find_key, index_of, join_strings,
    join_with, keys_unique, lemma_find_key_push, lemma_find_key_range, lemma_find_key_same_keys,
    lemma_join_push, lemma_join_split, lemma_split_dots_nonempty, lemma_unique_push,
    lemma_unique_update, split_dots, split_on_dot, strings_view,
};

verus! {

broadcast use vstd::std_specs::vec::group_vec_axioms;

/// What a leaf of the message trie holds: its value and the file that
/// contributed it.
pub struct MessageInfo {
    pub value: String,
    pub file_path: String,
}

/// One of two things.
pub enum Either<L, R> {
    Left(L),
    Right(R),
}

/// A node of the message trie: a leaf, or a branch with further segments.
pub type MessageNode = Either<MessageInfo, Box<MessageMap>>;

/// One level of the message trie: named nodes in order of first insertion.
pub struct MessageMap {
    pub messages: Vec<(String, MessageNode)>,
}

/// The mathematical value of a trie node: a leaf with its owning file, or a
/// branch with its named children.
pub enum NodeModel {
    Leaf(Seq<char>),
    Branch(Seq<(Seq<char>, NodeModel)>),
}

/// The mathematical value of a trie level, entry by entry.
pub open spec fn level_model(es: Seq<(String, MessageNode)>) -> Seq<(Seq<char>, NodeModel)>
    decreases es, 0nat,
{
    Seq::new(
        es.len(),
        |i: int|
            if 0 <= i < es.len() {
                (es[i].0@, node_model(es[i].1))
            } else {
                (Seq::empty(), NodeModel::Leaf(Seq::empty()))
            },
    )
}

/// The mathematical value of a trie node.
pub open spec fn node_model(n: MessageNode) -> NodeModel
    decreases n, 1nat,
{
    match n {
        Either::Left(info) => NodeModel::Leaf(info.file_path@),
        Either::Right(b) => NodeModel::Branch(level_model(b.messages@)),
    }
}

impl MessageMap {
    /// The level's named nodes as values.
    pub open spec fn view(&self) -> Seq<(Seq<char>, NodeModel)> {
        level_model(self.messages@)
    }
}

/// Whether no two entries of any level of the trie share a name.
pub open spec fn level_unique(es: Seq<(Seq<char>, NodeModel)>) -> bool
    decreases es, 0nat,
{
    keys_unique(es) && forall|i: int| 0 <= i < es.len() ==> node_unique(#[trigger] es[i].1)
}

pub open spec fn node_unique(n: NodeModel) -> bool
    decreases n, 1nat,
{
    match n {
        NodeModel::Leaf(_) => true,
        NodeModel::Branch(sub) => level_unique(sub),
    }
}

/// The owner of the first leaf met in a depth-first walk of the level.
pub open spec fn first_owner(es: Seq<(Seq<char>, NodeModel)>) -> Option<Seq<char>>
    decreases es,
{
    if es.len() == 0 {
        None
    } else {
        match es[0].1 {
            NodeModel::Leaf(o) => Some(o),
            NodeModel::Branch(sub) => match first_owner(sub) {
                Some(o) => Some(o),
                None => first_owner(es.drop_first()),
            },
        }
    }
}

/// The owners that a refused or contested insertion collides with.
pub open spec fn owners_of(o: Option<Seq<char>>) -> Seq<Seq<char>> {
    match o {
        Some(x) => seq![x],
        None => Seq::empty(),
    }
}

/// Inserting the leaf `parts ++ [key]` owned by `file` into a level: the new
/// level, and the collision if there is one (the segment where it happens and
/// the owners met there).
///
/// Missing branches are created at the end of their level. A leaf met where a
/// branch is needed, or a branch met where the leaf belongs, refuses the
/// insertion and leaves the level as it was. A leaf of another file at the
/// key's own place is a collision too, but the new file takes the place.
pub open spec fn insert_level(
    es: Seq<(Seq<char>, NodeModel)>,
    parts: Seq<Seq<char>>,
    key: Seq<char>,
    file: Seq<char>,
) -> (Seq<(Seq<char>, NodeModel)>, Option<(Seq<char>, Seq<Seq<char>>)>)
    decreases parts.len(),
{
    if parts.len() == 0 {
        let i = find_key(es, key, 0);
        if i < 0 {
            (es.push((key, NodeModel::Leaf(file))), None)
        } else {
            match es[i].1 {
                NodeModel::Leaf(o) => (
                    es.update(i, (key, NodeModel::Leaf(file))),
                    if o == file { None } else { Some((key, seq![o])) },
                ),
                NodeModel::Branch(sub) => (es, Some((key, owners_of(first_owner(sub))))),
            }
        }
    } else {
        let i = find_key(es, parts[0], 0);
        if i < 0 {
            let (sub, c) = insert_level(Seq::empty(), parts.drop_first(), key, file);
            (es.push((parts[0], NodeModel::Branch(sub))), c)
        } else {
            match es[i].1 {
                NodeModel::Leaf(o) => (es, Some((parts[0], seq![o]))),
                NodeModel::Branch(sub) => {
                    let (sub2, c) = insert_level(sub, parts.drop_first(), key, file);
                    (es.update(i, (parts[0], NodeModel::Branch(sub2))), c)
                },
            }
        }
    }
}

/// The mathematical value of a collision found while inserting.
pub open spec fn clash_view(c: Option<(String, Vec<String>)>) -> Option<(Seq<char>, Seq<Seq<char>>)> {
    match c {
        Some((s, v)) => Some((s@, strings_view(v@))),
        None => None,
    }
}

/// The index of the first entry named `key`, if any.
fn find_entry(es: &Vec<(String, MessageNode)>, key: &String) -> (r: Option<usize>)
    ensures
        match r {
            Some(i) => i as int == find_key(level_model(es@), key@, 0) && i < es.len(),
            None => find_key(level_model(es@), key@, 0) == -1,
        },
{
    let ghost mm = level_model(es@);
    let mut i: usize = 0;
    while i < es.len()
        invariant
            i <= es.len(),
            mm == level_model(es@),
            find_key(mm, key@, 0) == find_key(mm, key@, i as int),
        decreases es.len() - i,
    {
        if es[i].0 == *key {
            return Some(i);
        }
        i = i + 1;
    }
    None
}

/// The owner of the first leaf in a depth-first walk of the level.
fn first_leaf_owner(es: &Vec<(String, MessageNode)>) -> (r: Option<String>)
    ensures
        match r {
            Some(s) => first_owner(level_model(es@)) == Some(s@),
            None => first_owner(level_model(es@)) is None,
        },
    decreases es,
{
    let ghost mm = level_model(es@);
    assert(mm.subrange(0, mm.len() as int) =~= mm);
    let mut i: usize = 0;
    while i < es.len()
        invariant
            i <= es.len(),
            mm == level_model(es@),
            first_owner(mm) == first_owner(mm.subrange(i as int, mm.len() as int)),
        decreases es.len() - i,
    {
        let ghost rest = mm.subrange(i as int, mm.len() as int);
        assert(rest[0] == mm[i as int]);
        assert(rest.drop_first() =~= mm.subrange(i + 1, mm.len() as int));
        match &es[i].1 {
            Either::Left(info) => {
                return Some(info.file_path.clone());
            },
            Either::Right(b) => {
                proof {
                    assert(decreases_to!(es => es@[i as int]));
                    assert(decreases_to!(es@[i as int] => es@[i as int].1));
                    assert(decreases_to!(es@[i as int].1 => es@[i as int].1->Right_0));
                    assert(decreases_to!(*b => b.messages));
                }
                let o = first_leaf_owner(&b.messages);
                if o.is_some() {
                    return o;
                }
            },
        }
        i = i + 1;
    }
    assert(mm.subrange(i as int, mm.len() as int).len() == 0);
    None
}

fn owners_vec(o: Option<String>) -> (r: Vec<String>)
    ensures
        strings_view(r@) == owners_of(match o { Some(s) => Some(s@), None => None }),
{
    let mut r: Vec<String> = Vec::new();
    match o {
        Some(s) => {
            r.push(s);
        },
        None => {},
    }
    assert(strings_view(r@) =~= owners_of(match o { Some(s) => Some(s@), None => None }));
    r
}

fn new_leaf(key: &String, file: &String) -> (r: (String, MessageNode))
    ensures
        r.0@ == key@,
        node_model(r.1) == NodeModel::Leaf(file@),
{
    (key.clone(), Either::Left(MessageInfo { value: String::new(), file_path: file.clone() }))
}

/// Inserts the leaf `parts[idx..] ++ [key]` owned by `file` into the level.
fn insert_at(
    es: &mut Vec<(String, MessageNode)>,
    parts: &Vec<String>,
    idx: usize,
    key: &String,
    file: &String,
) -> (r: Option<(String, Vec<String>)>)
    requires
        idx <= parts.len(),
    ensures
        (level_model(final(es)@), clash_view(r)) == insert_level(
            level_model(old(es)@),
            strings_view(parts@).skip(idx as int),
            key@,
            file@,
        ),
    decreases parts.len() - idx,
{
    let ghost old_m = level_model(es@);
    let ghost rest = strings_view(parts@).skip(idx as int);
    if idx == parts.len() {
        assert(rest.len() == 0);
        match find_entry(es, key) {
            None => {
                es.push(new_leaf(key, file));
                assert(level_model(es@) =~= old_m.push((key@, NodeModel::Leaf(file@))));
                None
            },
            Some(i) => {
                proof {
                    lemma_find_key_range(old_m, key@, 0);
                }
                let leaf = match &es[i].1 {
                    Either::Left(info) => Some(info.file_path.clone()),
                    Either::Right(_) => None,
                };
                match leaf {
                    Some(owner) => {
                        let same = owner == *file;
                        es.set(i, new_leaf(key, file));
                        assert(level_model(es@) =~= old_m.update(i as int, (key@, NodeModel::Leaf(file@))));
                        if same {
                            None
                        } else {
                            let mut owners: Vec<String> = Vec::new();
                            owners.push(owner);
                            assert(strings_view(owners@) =~= seq![old_m[i as int].1->Leaf_0]);
                            Some((key.clone(), owners))
                        }
                    },
                    None => {
                        let o = match &es[i].1 {
                            Either::Right(b) => first_leaf_owner(&b.messages),
                            Either::Left(_) => None,
                        };
                        Some((key.clone(), owners_vec(o)))
                    },
                }
            },
        }
    } else {
        assert(rest[0] == parts@[idx as int]@);
        assert(rest.drop_first() =~= strings_view(parts@).skip(idx + 1));
        match find_entry(es, &parts[idx]) {
            None => {
                let mut sub: Vec<(String, MessageNode)> = Vec::new();
                assert(level_model(sub@) =~= Seq::empty());
                let c = insert_at(&mut sub, parts, idx + 1, key, file);
                es.push((parts[idx].clone(), Either::Right(Box::new(MessageMap { messages: sub }))));
                assert(level_model(es@) =~= old_m.push((rest[0], NodeModel::Branch(level_model(sub@)))));
                c
            },
            Some(i) => {
                proof {
                    lemma_find_key_range(old_m, rest[0], 0);
                }
                let leaf = match &es[i].1 {
                    Either::Left(info) => Some(info.file_path.clone()),
                    Either::Right(_) => None,
                };
                match leaf {
                    Some(owner) => {
                        let mut owners: Vec<String> = Vec::new();
                        owners.push(owner);
                        assert(strings_view(owners@) =~= seq![old_m[i as int].1->Leaf_0]);
                        Some((parts[idx].clone(), owners))
                    },
                    None => {
                        let mut taken = new_leaf(key, file);
                        es.set_and_swap(i, &mut taken);
                        let (name, node) = taken;
                        match node {
                            Either::Right(b) => {
                                let mut sub = b.messages;
                                let c = insert_at(&mut sub, parts, idx + 1, key, file);
                                es.set(i, (name, Either::Right(Box::new(MessageMap { messages: sub }))));
                                assert(level_model(es@) =~= old_m.update(
                                    i as int,
                                    (rest[0], NodeModel::Branch(level_model(sub@))),
                                ));
                                c
                            },
                            Either::Left(info) => {
                                es.set(i, (name, Either::Left(info)));
                                None
                            },
                        }
                    },
                }
            },
        }
    }
}

/// A key claimed by more than one file, or a clash between a leaf and a
/// branch: the namespace and the segment where it happened, and the files met.
pub struct NamespaceConflict {
    pub namespace: String,
    pub key: String,
    pub files: Vec<String>,
}

/// The mathematical value of a `NamespaceConflict`.
pub struct ConflictModel {
    pub namespace: Seq<char>,
    pub key: Seq<char>,
    pub files: Seq<Seq<char>>,
}

/// The mathematical value of a conflict record.
pub open spec fn conflict_model(c: NamespaceConflict) -> ConflictModel {
    ConflictModel { namespace: c.namespace@, key: c.key@, files: strings_view(c.files@) }
}

/// The mathematical value of a list of conflict records.
pub open spec fn conflicts_model(cs: Seq<NamespaceConflict>) -> Seq<ConflictModel> {
    cs.map_values(|c: NamespaceConflict| conflict_model(c))
}

/// The index of the first record at or after `start` for `namespace` and `key`, or -1.
pub open spec fn find_conflict(cs: Seq<ConflictModel>, namespace: Seq<char>, key: Seq<char>, start: int) -> int
    decreases cs.len() - start,
{
    if start < 0 || start >= cs.len() {
        -1
    } else if cs[start].namespace == namespace && cs[start].key == key {
        start
    } else {
        find_conflict(cs, namespace, key, start + 1)
    }
}

/// The records after a collision at `namespace` / `key` among `files`: one
/// record per namespace and key, whose files grow without repeats.
pub open spec fn record_conflict(
    cs: Seq<ConflictModel>,
    namespace: Seq<char>,
    key: Seq<char>,
    files: Seq<Seq<char>>,
) -> Seq<ConflictModel> {
    let i = find_conflict(cs, namespace, key, 0);
    if i < 0 {
        cs.push(ConflictModel { namespace, key, files: add_missing(Seq::empty(), files) })
    } else {
        cs.update(i, ConflictModel { namespace, key, files: add_missing(cs[i].files, files) })
    }
}

/// The trie and the conflict records after adding `key` under `namespace`
/// from `file`.
pub open spec fn add_message(
    state: (Seq<(Seq<char>, NodeModel)>, Seq<ConflictModel>),
    namespace: Seq<char>,
    key: Seq<char>,
    file: Seq<char>,
) -> (Seq<(Seq<char>, NodeModel)>, Seq<ConflictModel>) {
    let (trie, c) = insert_level(state.0, split_dots(namespace), key, file);
    match c {
        None => (trie, state.1),
        Some((segment, owners)) => (trie, record_conflict(state.1, namespace, segment, owners.push(file))),
    }
}

/// The trie and the records after adding each of `keys` under `namespace`
/// from `file`, in order.
pub open spec fn add_keys_from(
    state: (Seq<(Seq<char>, NodeModel)>, Seq<ConflictModel>),
    namespace: Seq<char>,
    keys: Seq<Seq<char>>,
    file: Seq<char>,
) -> (Seq<(Seq<char>, NodeModel)>, Seq<ConflictModel>)
    decreases keys.len(),
{
    if keys.len() == 0 {
        state
    } else {
        add_message(add_keys_from(state, namespace, keys.drop_last(), file), namespace, keys.last(), file)
    }
}

/// The trie and the records after adding a file's extracted keys, namespace
/// by namespace.
pub open spec fn add_result(
    state: (Seq<(Seq<char>, NodeModel)>, Seq<ConflictModel>),
    res: Seq<(Seq<char>, Seq<Seq<char>>)>,
    file: Seq<char>,
) -> (Seq<(Seq<char>, NodeModel)>, Seq<ConflictModel>)
    decreases res.len(),
{
    if res.len() == 0 {
        state
    } else {
        add_keys_from(add_result(state, res.drop_last(), file), res.last().0, res.last().1, file)
    }
}

/// The message at each leaf of the level: the catalog's value at its path, or
/// else the path itself joined with dots.
pub open spec fn merged_level(
    es: Seq<(Seq<char>, NodeModel)>,
    prefix: Seq<Seq<char>>,
    catalog: Seq<(Seq<char>, JsonModel)>,
) -> Seq<(Seq<char>, JsonModel)>
    decreases es, 0nat,
{
    Seq::new(
        es.len(),
        |i: int|
            if 0 <= i < es.len() {
                (es[i].0, merged_node(es[i].1, prefix.push(es[i].0), catalog))
            } else {
                (Seq::empty(), JsonModel::Other(Seq::empty()))
            },
    )
}

pub open spec fn merged_node(
    n: NodeModel,
    path: Seq<Seq<char>>,
    catalog: Seq<(Seq<char>, JsonModel)>,
) -> JsonModel
    decreases n, 1nat,
{
    match n {
        NodeModel::Leaf(_) => match lookup_model(catalog, path) {
            Some(v) => v,
            None => JsonModel::Str(join_with(path, "."@)),
        },
        NodeModel::Branch(sub) => JsonModel::Object(merged_level(sub, path, catalog)),
    }
}

/// Records a collision at `namespace` / `key` among `files`.
fn record_conflict_exec(cs: &mut Vec<NamespaceConflict>, namespace: &String, key: &String, files: &Vec<String>)
    ensures
        conflicts_model(final(cs)@) == record_conflict(
            conflicts_model(old(cs)@),
            namespace@,
            key@,
            strings_view(files@),
        ),
{
    let ghost cm = conflicts_model(cs@);
    let mut i: usize = 0;
    while i < cs.len()
        invariant
            i <= cs.len(),
            cm == conflicts_model(cs@),
            cs@ == old(cs)@,
            find_conflict(cm, namespace@, key@, 0) == find_conflict(cm, namespace@, key@, i as int),
        decreases cs.len() - i,
    {
        if cs[i].namespace == *namespace && cs[i].key == *key {
            assert(find_conflict(cm, namespace@, key@, i as int) == i);
            assert(cm[i as int] == conflict_model(cs@[i as int]));
            let mut taken = NamespaceConflict { namespace: String::new(), key: String::new(), files: Vec::new() };
            cs.set_and_swap(i, &mut taken);
            let ghost before = taken;
            add_missing_strings(&mut taken.files, files);
            assert(taken.namespace == before.namespace);
            cs.set(i, taken);
            assert(conflicts_model(cs@) =~= record_conflict(cm, namespace@, key@, strings_view(files@)));
            return;
        }
        i = i + 1;
    }
    let mut fresh: Vec<String> = Vec::new();
    assert(strings_view(fresh@) =~= Seq::<Seq<char>>::empty());
    add_missing_strings(&mut fresh, files);
    cs.push(NamespaceConflict { namespace: copy_string(namespace), key: copy_string(key), files: fresh });
    assert(conflicts_model(cs@) =~= record_conflict(cm, namespace@, key@, strings_view(files@)));
}

/// One addition to a handler: namespace, key and the file it came from.
pub type AdditionModel = (Seq<char>, Seq<char>, Seq<char>);

pub open spec fn additions_model(v: Seq<(String, String, String)>) -> Seq<AdditionModel> {
    v.map_values(|a: (String, String, String)| (a.0@, a.1@, a.2@))
}

/// The trie and the conflict records after the additions, in order, starting
/// from nothing.
pub open spec fn replay(adds: Seq<AdditionModel>) -> (Seq<(Seq<char>, NodeModel)>, Seq<ConflictModel>)
    decreases adds.len(),
{
    if adds.len() == 0 {
        (Seq::empty(), Seq::empty())
    } else {
        add_message(replay(adds.drop_last()), adds.last().0, adds.last().1, adds.last().2)
    }
}

/// Whether an addition came from a file other than `file`.
pub open spec fn not_from(file: Seq<char>) -> spec_fn(AdditionModel) -> bool {
    |a: AdditionModel| a.2 != file
}

/// The additions of every file but `file`, in order.
pub open spec fn additions_without(adds: Seq<AdditionModel>, file: Seq<char>) -> Seq<AdditionModel> {
    adds.filter(not_from(file))
}

/// The catalog loaded at start, the additions made so far, and the trie of
/// extracted messages and the conflicts that those additions give.
pub struct MessageHandler {
    source_messages: Vec<(String, JsonValue)>,
    extracted_messages: MessageMap,
    conflicts: Vec<NamespaceConflict>,
    added: Vec<(String, String, String)>,
}

impl MessageHandler {
    /// The catalog's members as values.
    pub closed spec fn catalog_view(&self) -> Seq<(Seq<char>, JsonModel)> {
        members_model(self.source_messages@)
    }

    /// The trie of extracted messages as a value.
    pub closed spec fn trie_view(&self) -> Seq<(Seq<char>, NodeModel)> {
        self.extracted_messages@
    }

    /// The conflict records as values.
    pub closed spec fn conflicts_view(&self) -> Seq<ConflictModel> {
        conflicts_model(self.conflicts@)
    }

    /// The additions made so far, in order.
    pub closed spec fn added_view(&self) -> Seq<AdditionModel> {
        additions_model(self.added@)
    }

    /// Whether the trie and the conflicts are those that the additions give.
    pub open spec fn wf(&self) -> bool {
        (self.trie_view(), self.conflicts_view()) == replay(self.added_view())
    }

    /// A handler over the members of the catalog object, with nothing extracted yet.
    pub fn new(source_messages: Vec<(String, JsonValue)>) -> (r: Self)
        ensures
            r.catalog_view() == members_model(source_messages@),
            r.trie_view() == Seq::<(Seq<char>, NodeModel)>::empty(),
            r.conflicts_view() == Seq::<ConflictModel>::empty(),
            r.added_view() == Seq::<AdditionModel>::empty(),
            r.wf(),
            level_unique(r.trie_view()),
    {
        let r = MessageHandler {
            source_messages,
            extracted_messages: MessageMap { messages: Vec::new() },
            conflicts: Vec::new(),
            added: Vec::new(),
        };
        assert(r.trie_view() =~= Seq::<(Seq<char>, NodeModel)>::empty());
        assert(r.conflicts_view() =~= Seq::<ConflictModel>::empty());
        assert(r.added_view() =~= Seq::<AdditionModel>::empty());
        r
    }

    /// The members of the catalog object.
    pub fn catalog(&self) -> (r: &Vec<(String, JsonValue)>)
        ensures
            members_model(r@) == self.catalog_view(),
    {
        &self.source_messages
    }

    /// Adds `key` under the dotted `namespace` as a leaf owned by `file_path`,
    /// recording a conflict where it collides.
    pub fn add_extracted_message(&mut self, namespace: String, key: String, file_path: String)
        requires
            old(self).wf(),
        ensures
            (final(self).trie_view(), final(self).conflicts_view()) == add_message(
                (old(self).trie_view(), old(self).conflicts_view()),
                namespace@,
                key@,
                file_path@,
            ),
            final(self).added_view() == old(self).added_view().push((namespace@, key@, file_path@)),
            final(self).catalog_view() == old(self).catalog_view(),
            final(self).wf(),
            level_unique(final(self).trie_view()),
    {
        proof {
            lemma_replay_unique(old(self).added_view().push((namespace@, key@, file_path@)));
        }
        let ghost before = self.added_view();
        self.added.push((copy_string(&namespace), copy_string(&key), copy_string(&file_path)));
        assert(self.added_view() =~= before.push((namespace@, key@, file_path@)));
        assert(self.added_view().drop_last() =~= before);
        let parts = split_on_dot(namespace.as_str());
        assert(strings_view(parts@).skip(0) =~= strings_view(parts@));
        let c = insert_at(&mut self.extracted_messages.messages, &parts, 0, &key, &file_path);
        match c {
            None => {},
            Some((segment, owners)) => {
                let mut files = owners;
                let ghost before = strings_view(files@);
                files.push(file_path);
                assert(strings_view(files@) =~= before.push(file_path@));
                record_conflict_exec(&mut self.conflicts, &namespace, &segment, &files);
            },
        }
    }

    /// Adds every key of a file's extraction result, as `add_extracted_message` does.
    pub fn add_extracted_messages(&mut self, messages: ExtractionResult, file_path: String)
        requires
            old(self).wf(),
        ensures
            final(self).wf(),
            level_unique(final(self).trie_view()),
            (final(self).trie_view(), final(self).conflicts_view()) == add_result(
                (old(self).trie_view(), old(self).conflicts_view()),
                messages@,
                file_path@,
            ),
            final(self).catalog_view() == old(self).catalog_view(),
    {
        self.add_result_of(&messages, &file_path);
        proof {
            lemma_replay_unique(self.added_view());
        }
    }

    pub(crate) fn add_result_of(&mut self, messages: &ExtractionResult, file_path: &String)
        requires
            old(self).wf(),
        ensures
            final(self).wf(),
            (final(self).trie_view(), final(self).conflicts_view()) == add_result(
                (old(self).trie_view(), old(self).conflicts_view()),
                messages@,
                file_path@,
            ),
            final(self).catalog_view() == old(self).catalog_view(),
    {
        let entries = messages.namespaces();
        let ghost res = messages@;
        let ghost start = (self.trie_view(), self.conflicts_view());
        let ghost cat = self.catalog_view();
        let mut i: usize = 0;
        assert(res.take(0) =~= Seq::<(Seq<char>, Seq<Seq<char>>)>::empty());
        while i < entries.len()
            invariant
                i <= entries.len(),
                namespaces_model(entries@) == res,
                (self.trie_view(), self.conflicts_view()) == add_result(start, res.take(i as int), file_path@),
                self.catalog_view() == cat,
                self.wf(),
            decreases entries.len() - i,
        {
            assert(res.take(i + 1).drop_last() =~= res.take(i as int));
            assert(res.take(i + 1).last() == res[i as int]);
            let ghost mid = (self.trie_view(), self.conflicts_view());
            let namespace = &entries[i].0;
            let keys = &entries[i].1;
            let ghost kv = strings_view(keys@);
            let mut j: usize = 0;
            assert(kv.take(0) =~= Seq::<Seq<char>>::empty());
            while j < keys.len()
                invariant
                    j <= keys.len(),
                    kv == strings_view(keys@),
                    (self.trie_view(), self.conflicts_view()) == add_keys_from(mid, namespace@, kv.take(j as int), file_path@),
                    self.catalog_view() == cat,
                    self.wf(),
                decreases keys.len() - j,
            {
                assert(kv.take(j + 1).drop_last() =~= kv.take(j as int));
                assert(kv.take(j + 1).last() == keys@[j as int]@);
                self.add_extracted_message(copy_string(namespace), copy_string(&keys[j]), copy_string(file_path));
                j = j + 1;
            }
            assert(kv.take(keys.len() as int) =~= kv);
            i = i + 1;
        }
        assert(res.take(entries.len() as int) =~= res);
    }

    /// The conflicts recorded so far.
    pub fn get_conflicts(&self) -> (r: &[NamespaceConflict])
        ensures
            conflicts_model(r@) == self.conflicts_view(),
    {
        self.conflicts.as_slice()
    }

    /// The nested object of all extracted messages: each leaf holds the
    /// catalog's value at its dotted path, or else that path itself.
    pub fn merge_messages(&self) -> (r: Vec<(String, JsonValue)>)
        ensures
            members_model(r@) == merged_level(self.trie_view(), Seq::empty(), self.catalog_view()),
    {
        let prefix: Vec<String> = Vec::new();
        assert(strings_view(prefix@) =~= Seq::<Seq<char>>::empty());
        self.merge_recursive(&self.extracted_messages.messages, &prefix)
    }

    fn merge_recursive(&self, es: &Vec<(String, MessageNode)>, prefix: &Vec<String>) -> (r: Vec<(String, JsonValue)>)
        ensures
            members_model(r@) == merged_level(level_model(es@), strings_view(prefix@), self.catalog_view()),
        decreases es,
    {
        let ghost em = level_model(es@);
        let ghost pv = strings_view(prefix@);
        let mut out: Vec<(String, JsonValue)> = Vec::new();
        let mut i: usize = 0;
        while i < es.len()
            invariant
                i <= es.len(),
                em == level_model(es@),
                pv == strings_view(prefix@),
                out.len() == i,
                forall|j: int|
                    0 <= j < i ==> (#[trigger] out@[j]).0@ == em[j].0 && value_model(out@[j].1) == merged_node(
                        em[j].1,
                        pv.push(em[j].0),
                        self.catalog_view(),
                    ),
            decreases es.len() - i,
        {
            let mut path = copy_strings(prefix);
            path.push(copy_string(&es[i].0));
            assert(strings_view(path@) =~= pv.push(em[i as int].0));
            let value = match &es[i].1 {
                Either::Left(_) => match self.lookup_in_source(&path) {
                    Some(v) => v,
                    None => JsonValue::Str(join_strings(&path, ".")),
                },
                Either::Right(b) => {
                    proof {
                        assert(decreases_to!(es => es@[i as int]));
                        assert(decreases_to!(es@[i as int] => es@[i as int].1));
                        assert(decreases_to!(es@[i as int].1 => es@[i as int].1->Right_0));
                        assert(decreases_to!(*b => b.messages));
                    }
                    JsonValue::Object(self.merge_recursive(&b.messages, &path))
                },
            };
            out.push((copy_string(&es[i].0), value));
            i = i + 1;
        }
        assert(members_model(out@) =~= merged_level(em, pv, self.catalog_view()));
        out
    }

    /// The catalog's value at the path, copied.
    fn lookup_in_source(&self, path: &Vec<String>) -> (r: Option<JsonValue>)
        ensures
            match r {
                Some(v) => lookup_model(self.catalog_view(), strings_view(path@)) == Some(value_model(v)),
                None => lookup_model(self.catalog_view(), strings_view(path@)) is None,
            },
    {
        lookup_path(&self.source_messages, path)
    }

    /// Forgets every addition that came from `file_path` and rebuilds the trie
    /// and the conflicts from the other additions, in their order: the state
    /// is as if the file had never been processed.
    pub fn remove_messages_for_file(&mut self, file_path: &str)
        requires
            old(self).wf(),
        ensures
            final(self).added_view() == additions_without(old(self).added_view(), file_path@),
            (final(self).trie_view(), final(self).conflicts_view()) == replay(
                additions_without(old(self).added_view(), file_path@),
            ),
            final(self).catalog_view() == old(self).catalog_view(),
            final(self).wf(),
            level_unique(final(self).trie_view()),
    {
        proof {
            lemma_replay_unique(additions_without(old(self).added_view(), file_path@));
        }
        let file = file_path.to_owned();
        let ghost am = self.added_view();
        let mut all: Vec<(String, String, String)> = Vec::new();
        std::mem::swap(&mut all, &mut self.added);
        let ghost orig = all@;
        let mut kept: Vec<(String, String, String)> = Vec::new();
        let n = all.len();
        let mut i: usize = 0;
        proof {
            reveal(Seq::filter);
        }
        assert(am.take(0).filter(not_from(file@)) =~= Seq::<AdditionModel>::empty());
        assert(additions_model(kept@) =~= Seq::<AdditionModel>::empty());
        while i < n
            invariant
                i <= n,
                n == all.len(),
                n == orig.len(),
                am == additions_model(orig),
                forall|j: int| i <= j < n ==> all@[j] == orig[j],
                additions_model(kept@) == am.take(i as int).filter(not_from(file@)),
                self.catalog_view() == old(self).catalog_view(),
            decreases n - i,
        {
            let ghost prev = additions_model(kept@);
            assert(am.take(i + 1).drop_last() =~= am.take(i as int));
            proof {
                reveal(Seq::filter);
            }
            let mut taken: (String, String, String) = (String::new(), String::new(), String::new());
            all.set_and_swap(i, &mut taken);
            assert((taken.0@, taken.1@, taken.2@) == am[i as int]);
            if taken.2 != file {
                kept.push(taken);
                assert(additions_model(kept@) =~= prev.push(am[i as int]));
            }
            i = i + 1;
        }
        assert(am.take(n as int) =~= am);
        let ghost km = additions_model(kept@);
        let mut catalog: Vec<(String, JsonValue)> = Vec::new();
        std::mem::swap(&mut catalog, &mut self.source_messages);
        let mut fresh = MessageHandler::new(catalog);
        let mut j: usize = 0;
        assert(km.take(0) =~= Seq::<AdditionModel>::empty());
        while j < kept.len()
            invariant
                j <= kept.len(),
                km == additions_model(kept@),
                fresh.added_view() == km.take(j as int),
                fresh.wf(),
                fresh.catalog_view() == old(self).catalog_view(),
            decreases kept.len() - j,
        {
            assert(km.take(j + 1) =~= km.take(j as int).push(km[j as int]));
            fresh.add_extracted_message(copy_string(&kept[j].0), copy_string(&kept[j].1), copy_string(&kept[j].2));
            j = j + 1;
        }
        assert(km.take(kept.len() as int) =~= km);
        *self = fresh;
    }
}

/// The owner of the leaf at `path`, if a leaf is there.
pub open spec fn leaf_owner(es: Seq<(Seq<char>, NodeModel)>, path: Seq<Seq<char>>) -> Option<Seq<char>>
    decreases path.len(),
{
    if path.len() == 0 {
        None
    } else {
        let i = find_key(es, path[0], 0);
        if i < 0 {
            None
        } else {
            match es[i].1 {
                NodeModel::Leaf(o) => if path.len() == 1 {
                    Some(o)
                } else {
                    None
                },
                NodeModel::Branch(sub) => if path.len() == 1 {
                    None
                } else {
                    leaf_owner(sub, path.drop_first())
                },
            }
        }
    }
}

/// Whether inserting `parts ++ [key]` meets a leaf where a branch is needed,
/// or a branch where the leaf belongs.
pub open spec fn insert_refused(es: Seq<(Seq<char>, NodeModel)>, parts: Seq<Seq<char>>, key: Seq<char>) -> bool
    decreases parts.len(),
{
    if parts.len() == 0 {
        let i = find_key(es, key, 0);
        i >= 0 && es[i].1 is Branch
    } else {
        let i = find_key(es, parts[0], 0);
        if i < 0 {
            false
        } else {
            match es[i].1 {
                NodeModel::Leaf(_) => true,
                NodeModel::Branch(sub) => insert_refused(sub, parts.drop_first(), key),
            }
        }
    }
}

/// What the merged object holds at a leaf's path: the catalog's value there,
/// or else the path joined with dots.
pub open spec fn message_for(path: Seq<Seq<char>>, catalog: Seq<(Seq<char>, JsonModel)>) -> JsonModel {
    match lookup_model(catalog, path) {
        Some(v) => v,
        None => JsonModel::Str(join_with(path, "."@)),
    }
}

proof fn lemma_insert_places_leaf(
    es: Seq<(Seq<char>, NodeModel)>,
    parts: Seq<Seq<char>>,
    key: Seq<char>,
    file: Seq<char>,
)
    requires
        !insert_refused(es, parts, key),
    ensures
        leaf_owner(insert_level(es, parts, key, file).0, parts.push(key)) == Some(file),
    decreases parts.len(),
{
    let path = parts.push(key);
    let new = insert_level(es, parts, key, file).0;
    if parts.len() == 0 {
        let i = find_key(es, key, 0);
        lemma_find_key_range(es, key, 0);
        if i < 0 {
            lemma_find_key_push(es, (key, NodeModel::Leaf(file)), key, 0);
        } else {
            lemma_find_key_same_keys(new, es, key, 0);
        }
        assert(path[0] == key);
    } else {
        let i = find_key(es, parts[0], 0);
        lemma_find_key_range(es, parts[0], 0);
        assert(path[0] == parts[0]);
        assert(path.drop_first() =~= parts.drop_first().push(key));
        if i < 0 {
            let empty = Seq::<(Seq<char>, NodeModel)>::empty();
            lemma_refused_needs_entries(parts.drop_first(), key);
            lemma_insert_places_leaf(empty, parts.drop_first(), key, file);
            let sub = insert_level(empty, parts.drop_first(), key, file).0;
            lemma_find_key_push(es, (parts[0], NodeModel::Branch(sub)), parts[0], 0);
        } else {
            match es[i].1 {
                NodeModel::Leaf(_) => {},
                NodeModel::Branch(sub) => {
                    lemma_insert_places_leaf(sub, parts.drop_first(), key, file);
                    lemma_find_key_same_keys(new, es, parts[0], 0);
                },
            }
        }
    }
}

proof fn lemma_refused_needs_entries(parts: Seq<Seq<char>>, key: Seq<char>)
    ensures
        !insert_refused(Seq::empty(), parts, key),
{
}

proof fn lemma_leaf_in_merged(
    es: Seq<(Seq<char>, NodeModel)>,
    prefix: Seq<Seq<char>>,
    path: Seq<Seq<char>>,
    catalog: Seq<(Seq<char>, JsonModel)>,
)
    requires
        leaf_owner(es, path) is Some,
    ensures
        lookup_model(merged_level(es, prefix, catalog), path) == Some(message_for(prefix + path, catalog)),
    decreases path.len(),
{
    let m = merged_level(es, prefix, catalog);
    let i = find_key(es, path[0], 0);
    lemma_find_key_range(es, path[0], 0);
    assert forall|j: int| 0 <= j < m.len() implies m[j].0 == es[j].0 by {}
    lemma_find_key_same_keys(m, es, path[0], 0);
    if path.len() == 1 {
        assert(prefix + path =~= prefix.push(es[i].0));
    } else {
        match es[i].1 {
            NodeModel::Leaf(_) => {},
            NodeModel::Branch(sub) => {
                lemma_leaf_in_merged(sub, prefix.push(es[i].0), path.drop_first(), catalog);
                assert(prefix.push(es[i].0) + path.drop_first() =~= prefix + path);
            },
        }
    }
}

/// A key added under a namespace, where no leaf on the way and no branch at
/// its place refuses it, stands in the merged object at the namespace's
/// segments followed by the key: with the catalog's value at that path, or
/// else with the text `namespace.key`.
pub proof fn lemma_added_key_in_merged_output(
    trie: Seq<(Seq<char>, NodeModel)>,
    conflicts: Seq<ConflictModel>,
    namespace: Seq<char>,
    key: Seq<char>,
    file: Seq<char>,
    catalog: Seq<(Seq<char>, JsonModel)>,
)
    requires
        !insert_refused(trie, split_dots(namespace), key),
    ensures
        lookup_model(
            merged_level(add_message((trie, conflicts), namespace, key, file).0, Seq::empty(), catalog),
            split_dots(namespace).push(key),
        ) == Some(match lookup_model(catalog, split_dots(namespace).push(key)) {
            Some(v) => v,
            None => JsonModel::Str(namespace + "."@ + key),
        }),
{
    let parts = split_dots(namespace);
    let path = parts.push(key);
    lemma_insert_places_leaf(trie, parts, key, file);
    lemma_leaf_in_merged(insert_level(trie, parts, key, file).0, Seq::empty(), path, catalog);
    assert(Seq::<Seq<char>>::empty() + path =~= path);
    lemma_split_dots_nonempty(namespace);
    lemma_join_push(parts, "."@, key);
    lemma_join_split(namespace);
}

proof fn lemma_insert_into_empty_is_quiet(parts: Seq<Seq<char>>, key: Seq<char>, file: Seq<char>)
    ensures
        insert_level(Seq::empty(), parts, key, file).1 is None,
    decreases parts.len(),
{
    if parts.len() > 0 {
        lemma_insert_into_empty_is_quiet(parts.drop_first(), key, file);
    }
}

proof fn lemma_insert_over_leaf(
    es: Seq<(Seq<char>, NodeModel)>,
    parts: Seq<Seq<char>>,
    key: Seq<char>,
    owner: Seq<char>,
    file: Seq<char>,
)
    requires
        leaf_owner(es, parts.push(key)) == Some(owner),
    ensures
        insert_level(es, parts, key, file).1 == (if owner == file {
            None
        } else {
            Some((key, seq![owner]))
        }),
    decreases parts.len(),
{
    let path = parts.push(key);
    lemma_find_key_range(es, path[0], 0);
    if parts.len() == 0 {
        assert(path[0] == key);
    } else {
        assert(path[0] == parts[0]);
        assert(path.drop_first() =~= parts.drop_first().push(key));
        let i = find_key(es, parts[0], 0);
        match es[i].1 {
            NodeModel::Leaf(_) => {},
            NodeModel::Branch(sub) => {
                lemma_insert_over_leaf(sub, parts.drop_first(), key, owner, file);
            },
        }
    }
}

/// Adding the same key under the same namespace from two different files,
/// starting from nothing, records exactly one conflict, for that namespace
/// and key, naming both files in order; forgetting the first file's addition
/// leaves none.
pub proof fn lemma_same_key_from_two_files(namespace: Seq<char>, key: Seq<char>, a: Seq<char>, b: Seq<char>)
    requires
        a != b,
    ensures
        ({
            let adds = seq![(namespace, key, a), (namespace, key, b)];
            &&& replay(adds.take(1)).1 == Seq::<ConflictModel>::empty()
            &&& replay(adds).1 == seq![ConflictModel { namespace, key, files: seq![a, b] }]
            &&& replay(additions_without(adds, a)).1 == Seq::<ConflictModel>::empty()
        }),
{
    let adds = seq![(namespace, key, a), (namespace, key, b)];
    let parts = split_dots(namespace);
    let empty = Seq::<(Seq<char>, NodeModel)>::empty();
    lemma_insert_into_empty_is_quiet(parts, key, a);
    lemma_insert_into_empty_is_quiet(parts, key, b);
    lemma_refused_needs_entries(parts, key);
    lemma_insert_places_leaf(empty, parts, key, a);
    let trie = insert_level(empty, parts, key, a).0;
    lemma_insert_over_leaf(trie, parts, key, a, b);
    let files = seq![a].push(b);
    let none = Seq::<Seq<char>>::empty();
    assert(files.drop_last() =~= seq![a]);
    assert(seq![a].drop_last() =~= none);
    assert(add_missing(none, none) == none);
    assert(index_of(none, a) == -1);
    assert(index_of(none, b) == -1);
    assert(seq![a].last() == a);
    assert(add_missing(none, seq![a]) =~= seq![a]);
    assert(index_of(seq![a], b) == -1);
    assert(add_missing(none, files) =~= seq![a, b]);
    let cs = seq![ConflictModel { namespace, key, files: seq![a, b] }];
    let one = adds.take(1);
    assert(one.drop_last() =~= Seq::<AdditionModel>::empty());
    assert(adds.drop_last() =~= one);
    assert(replay(Seq::<AdditionModel>::empty()) == (empty, Seq::<ConflictModel>::empty()));
    assert(one.last() == (namespace, key, a));
    assert(adds.last() == (namespace, key, b));
    let first = replay(one);
    assert(first == add_message((empty, Seq::<ConflictModel>::empty()), namespace, key, a));
    assert(first.1 == Seq::<ConflictModel>::empty());
    assert(first.0 == trie);
    assert(find_conflict(Seq::<ConflictModel>::empty(), namespace, key, 0) == -1);
    assert(replay(adds).1 =~= cs);
    reveal(Seq::filter);
    let kept = seq![(namespace, key, b)];
    assert(Seq::<AdditionModel>::empty().filter(not_from(a)) =~= Seq::<AdditionModel>::empty());
    assert(one.filter(not_from(a)) =~= Seq::<AdditionModel>::empty());
    assert(additions_without(adds, a) =~= kept);
    assert(kept.drop_last() =~= Seq::<AdditionModel>::empty());
    assert(kept.last() == (namespace, key, b));
}

proof fn lemma_without_absent(adds: Seq<AdditionModel>, file: Seq<char>)
    requires
        forall|i: int| 0 <= i < adds.len() ==> adds[i].2 != file,
    ensures
        additions_without(adds, file) == adds,
    decreases adds.len(),
{
    reveal(Seq::filter);
    if adds.len() > 0 {
        lemma_without_absent(adds.drop_last(), file);
        assert(adds.drop_last().push(adds.last()) =~= adds);
    }
}

/// Adding a key from a file and then removing that file leaves the trie and
/// the conflicts of the other files' additions; where the file had added
/// nothing before, that is the state before the addition.
pub proof fn lemma_add_then_remove(adds: Seq<AdditionModel>, namespace: Seq<char>, key: Seq<char>, file: Seq<char>)
    ensures
        additions_without(adds.push((namespace, key, file)), file) == additions_without(adds, file),
        replay(additions_without(adds.push((namespace, key, file)), file)) == replay(additions_without(adds, file)),
        (forall|i: int| 0 <= i < adds.len() ==> adds[i].2 != file) ==> replay(
            additions_without(adds.push((namespace, key, file)), file),
        ) == replay(adds),
{
    reveal(Seq::filter);
    assert(adds.push((namespace, key, file)).drop_last() =~= adds);
    if forall|i: int| 0 <= i < adds.len() ==> adds[i].2 != file {
        lemma_without_absent(adds, file);
    }
}

/// Inserting keeps the names of every level unique.
pub proof fn lemma_insert_unique(
    es: Seq<(Seq<char>, NodeModel)>,
    parts: Seq<Seq<char>>,
    key: Seq<char>,
    file: Seq<char>,
)
    requires
        level_unique(es),
    ensures
        level_unique(insert_level(es, parts, key, file).0),
    decreases parts.len(),
{
    let new = insert_level(es, parts, key, file).0;
    if parts.len() == 0 {
        let i = find_key(es, key, 0);
        lemma_find_key_range(es, key, 0);
        if i < 0 {
            lemma_unique_push(es, (key, NodeModel::Leaf(file)));
            assert forall|j: int| 0 <= j < new.len() implies node_unique(#[trigger] new[j].1) by {
                if j < es.len() {
                    assert(new[j] == es[j]);
                }
            }
        } else {
            match es[i].1 {
                NodeModel::Leaf(_) => {
                    lemma_unique_update(es, i, (key, NodeModel::Leaf(file)));
                    assert forall|j: int| 0 <= j < new.len() implies node_unique(#[trigger] new[j].1) by {
                        if j != i {
                            assert(new[j] == es[j]);
                        }
                    }
                },
                NodeModel::Branch(_) => {},
            }
        }
    } else {
        let i = find_key(es, parts[0], 0);
        lemma_find_key_range(es, parts[0], 0);
        if i < 0 {
            let empty = Seq::<(Seq<char>, NodeModel)>::empty();
            lemma_insert_unique(empty, parts.drop_first(), key, file);
            let sub = insert_level(empty, parts.drop_first(), key, file).0;
            lemma_unique_push(es, (parts[0], NodeModel::Branch(sub)));
            assert forall|j: int| 0 <= j < new.len() implies node_unique(#[trigger] new[j].1) by {
                if j < es.len() {
                    assert(new[j] == es[j]);
                }
            }
        } else {
            match es[i].1 {
                NodeModel::Leaf(_) => {},
                NodeModel::Branch(sub) => {
                    assert(node_unique(es[i].1));
                    lemma_insert_unique(sub, parts.drop_first(), key, file);
                    let sub2 = insert_level(sub, parts.drop_first(), key, file).0;
                    lemma_unique_update(es, i, (parts[0], NodeModel::Branch(sub2)));
                    assert forall|j: int| 0 <= j < new.len() implies node_unique(#[trigger] new[j].1) by {
                        if j != i {
                            assert(new[j] == es[j]);
                        }
                    }
                },
            }
        }
    }
}

/// Every trie that additions give has unique names at every level.
pub proof fn lemma_replay_unique(adds: Seq<AdditionModel>)
    ensures
        level_unique(replay(adds).0),
    decreases adds.len(),
{
    if adds.len() > 0 {
        lemma_replay_unique(adds.drop_last());
        lemma_insert_unique(replay(adds.drop_last()).0, split_dots(adds.last().0), adds.last().1, adds.last().2);
    }
}

proof fn lemma_refused_clashes(
    es: Seq<(Seq<char>, NodeModel)>,
    parts: Seq<Seq<char>>,
    key: Seq<char>,
    file: Seq<char>,
)
    requires
        insert_refused(es, parts, key),
    ensures
        insert_level(es, parts, key, file).1 is Some,
    decreases parts.len(),
{
    if parts.len() > 0 {
        let i = find_key(es, parts[0], 0);
        match es[i].1 {
            NodeModel::Leaf(_) => {},
            NodeModel::Branch(sub) => lemma_refused_clashes(sub, parts.drop_first(), key, file),
        }
    }
}

proof fn lemma_leaf_kept(
    es: Seq<(Seq<char>, NodeModel)>,
    parts: Seq<Seq<char>>,
    key: Seq<char>,
    file: Seq<char>,
    p: Seq<Seq<char>>,
)
    requires
        leaf_owner(es, p) is Some,
        insert_level(es, parts, key, file).1 is None,
    ensures
        leaf_owner(insert_level(es, parts, key, file).0, p) is Some,
    decreases parts.len(),
{
    let new = insert_level(es, parts, key, file).0;
    let j = find_key(es, p[0], 0);
    lemma_find_key_range(es, p[0], 0);
    let k = if parts.len() == 0 { key } else { parts[0] };
    let i = find_key(es, k, 0);
    lemma_find_key_range(es, k, 0);
    if i < 0 {
        lemma_find_key_push(es, new.last(), p[0], 0);
        assert(new =~= es.push(new.last()));
        assert(new[j] == es[j]);
    } else {
        lemma_find_key_same_keys(new, es, p[0], 0);
        if j != i {
            assert(new[j] == es[j]);
        } else if parts.len() > 0 {
            match es[i].1 {
                NodeModel::Leaf(_) => {},
                NodeModel::Branch(sub) => {
                    lemma_leaf_kept(sub, parts.drop_first(), key, file, p.drop_first());
                },
            }
        }
    }
}

proof fn lemma_record_nonempty(cs: Seq<ConflictModel>, namespace: Seq<char>, key: Seq<char>, files: Seq<Seq<char>>)
    ensures
        record_conflict(cs, namespace, key, files).len() >= 1,
        record_conflict(cs, namespace, key, files).len() >= cs.len(),
{
    lemma_find_conflict_range(cs, namespace, key, 0);
}

proof fn lemma_find_conflict_range(cs: Seq<ConflictModel>, namespace: Seq<char>, key: Seq<char>, start: int)
    ensures
        find_conflict(cs, namespace, key, start) == -1 || 0 <= find_conflict(cs, namespace, key, start) < cs.len(),
    decreases cs.len() - start,
{
    if 0 <= start < cs.len() && !(cs[start].namespace == namespace && cs[start].key == key) {
        lemma_find_conflict_range(cs, namespace, key, start + 1);
    }
}

proof fn lemma_replay_leaves(adds: Seq<AdditionModel>)
    requires
        replay(adds).1.len() == 0,
    ensures
        forall|k: int|
            0 <= k < adds.len() ==> leaf_owner(replay(adds).0, #[trigger] split_dots(adds[k].0).push(adds[k].1))
                is Some,
    decreases adds.len(),
{
    if adds.len() > 0 {
        let prev = adds.drop_last();
        let x = adds.last();
        let (trie, c) = insert_level(replay(prev).0, split_dots(x.0), x.1, x.2);
        match c {
            Some((segment, owners)) => {
                lemma_record_nonempty(replay(prev).1, x.0, segment, owners.push(x.2));
            },
            None => {},
        }
        lemma_replay_leaves(prev);
        assert forall|k: int| 0 <= k < adds.len() implies leaf_owner(
            replay(adds).0,
            #[trigger] split_dots(adds[k].0).push(adds[k].1),
        ) is Some by {
            if k < adds.len() - 1 {
                assert(adds[k] == prev[k]);
                lemma_leaf_kept(replay(prev).0, split_dots(x.0), x.1, x.2, split_dots(prev[k].0).push(prev[k].1));
            } else {
                if insert_refused(replay(prev).0, split_dots(x.0), x.1) {
                    lemma_refused_clashes(replay(prev).0, split_dots(x.0), x.1, x.2);
                }
                lemma_insert_places_leaf(replay(prev).0, split_dots(x.0), x.1, x.2);
            }
        }
    }
}

/// Where a run of additions recorded no conflict, every key added stands in
/// the merged object at its namespace's segments followed by the key: with
/// the catalog's value at that path, or else with the text `namespace.key`.
pub proof fn lemma_merged_output_of_additions(
    adds: Seq<AdditionModel>,
    k: int,
    catalog: Seq<(Seq<char>, JsonModel)>,
)
    requires
        replay(adds).1.len() == 0,
        0 <= k < adds.len(),
    ensures
        ({
            let path = split_dots(adds[k].0).push(adds[k].1);
            lookup_model(merged_level(replay(adds).0, Seq::empty(), catalog), path) == Some(
                match lookup_model(catalog, path) {
                    Some(v) => v,
                    None => JsonModel::Str(adds[k].0 + "."@ + adds[k].1),
                },
            )
        }),
{
    let parts = split_dots(adds[k].0);
    let path = parts.push(adds[k].1);
    lemma_replay_leaves(adds);
    assert(leaf_owner(replay(adds).0, path) is Some);
    lemma_leaf_in_merged(replay(adds).0, Seq::empty(), path, catalog);
    assert(Seq::<Seq<char>>::empty() + path =~= path);
    lemma_split_dots_nonempty(adds[k].0);
    lemma_join_push(parts, "."@, adds[k].1);
    lemma_join_split(adds[k].0);
}

} // verus!
