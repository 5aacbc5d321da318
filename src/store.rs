use vstd::prelude::*;
use vstd::pervasive::VecAdditionalExecFns;
use crate::json::{copy_members, members_model, JsonModel, JsonValue};
use crate::messages::{
    add_result, conflicts_model, merged_level, ConflictModel, MessageHandler, NamespaceConflict,
    NodeModel,
};
use crate::syntax::Node;
use crate::text::{
    find_key, keys_unique, lemma_find_key_push, lemma_find_key_range, lemma_find_key_same_keys,
    lemma_unique_push, lemma_unique_update,
};
use crate::visitor::{extract, extraction, ExtractionResult};

verus! {

broadcast use vstd::std_specs::vec::group_vec_axioms;

/// What a file contributed: its path and its extracted keys by namespace.
pub type EntryModel = (Seq<char>, Seq<(Seq<char>, Seq<Seq<char>>)>);

/// The mathematical value of the tracked files' contributions, in order.
pub open spec fn entries_model(v: Seq<(String, ExtractionResult)>) -> Seq<EntryModel> {
    v.map_values(|e: (String, ExtractionResult)| (e.0@, e.1@))
}

/// The trie and the conflict records built from the files' contributions in
/// order, starting from nothing.
pub open spec fn build(entries: Seq<EntryModel>) -> (Seq<(Seq<char>, NodeModel)>, Seq<ConflictModel>)
    decreases entries.len(),
{
    if entries.len() == 0 {
        (Seq::empty(), Seq::empty())
    } else {
        add_result(build(entries.drop_last()), entries.last().1, entries.last().0)
    }
}

/// The contributions with the one of `path` set to `res`: replaced in place
/// where the file is tracked, added at the end where it is not.
pub open spec fn upsert(entries: Seq<EntryModel>, path: Seq<char>, res: Seq<(Seq<char>, Seq<Seq<char>>)>) -> Seq<EntryModel> {
    let i = find_key(entries, path, 0);
    if i < 0 {
        entries.push((path, res))
    } else {
        entries.update(i, (path, res))
    }
}

/// Whether a contribution is of a file other than `path`.
pub open spec fn other_than(path: Seq<char>) -> spec_fn(EntryModel) -> bool {
    |e: EntryModel| e.0 != path
}

/// The contributions of every file but `path`.
pub open spec fn without(entries: Seq<EntryModel>, path: Seq<char>) -> Seq<EntryModel> {
    entries.filter(other_than(path))
}

/// Each tracked file with its last extraction result, the catalog, and the
/// trie and conflicts rebuilt from all of them after every change.
pub struct IncrementalStore {
    entries: Vec<(String, ExtractionResult)>,
    handler: MessageHandler,
}

impl IncrementalStore {
    /// The tracked files' contributions as values, in order of first tracking.
    pub closed spec fn entries_view(&self) -> Seq<EntryModel> {
        entries_model(self.entries@)
    }

    /// The catalog's members as values.
    pub closed spec fn catalog_view(&self) -> Seq<(Seq<char>, JsonModel)> {
        self.handler.catalog_view()
    }

    /// The current trie as a value.
    pub closed spec fn trie_view(&self) -> Seq<(Seq<char>, NodeModel)> {
        self.handler.trie_view()
    }

    /// The current conflict records as values.
    pub closed spec fn conflicts_view(&self) -> Seq<ConflictModel> {
        self.handler.conflicts_view()
    }

    /// Whether the trie and the conflicts are those built from the tracked files.
    pub open spec fn rebuilt(&self) -> bool {
        (self.trie_view(), self.conflicts_view()) == build(self.entries_view())
    }

    /// A store over the members of the catalog object, tracking no file.
    pub fn new(catalog: Vec<(String, JsonValue)>) -> (r: Self)
        ensures
            r.catalog_view() == members_model(catalog@),
            r.entries_view() == Seq::<EntryModel>::empty(),
            keys_unique(r.entries_view()),
            r.rebuilt(),
    {
        let handler = MessageHandler::new(catalog);
        let r = IncrementalStore { entries: Vec::new(), handler };
        assert(r.entries_view() =~= Seq::<EntryModel>::empty());
        r
    }

    /// Rebuilds the trie and the conflicts from all tracked files.
    fn rebuild(&mut self)
        ensures
            final(self).rebuilt(),
            final(self).entries_view() == old(self).entries_view(),
            final(self).catalog_view() == old(self).catalog_view(),
    {
        let mut handler = MessageHandler::new(copy_members(self.handler.catalog()));
        let ghost em = self.entries_view();
        let mut i: usize = 0;
        assert(em.take(0) =~= Seq::<EntryModel>::empty());
        while i < self.entries.len()
            invariant
                i <= self.entries.len(),
                em == self.entries_view(),
                (handler.trie_view(), handler.conflicts_view()) == build(em.take(i as int)),
                handler.catalog_view() == old(self).catalog_view(),
                handler.wf(),
                self.catalog_view() == old(self).catalog_view(),
            decreases self.entries.len() - i,
        {
            assert(em.take(i + 1).drop_last() =~= em.take(i as int));
            assert(em.take(i + 1).last() == em[i as int]);
            handler.add_result_of(&self.entries[i].1, &self.entries[i].0);
            i = i + 1;
        }
        assert(em.take(self.entries.len() as int) =~= em);
        self.handler = handler;
    }

    /// Extracts the keys of a changed or created file, puts them in place of
    /// what the file contributed before, and rebuilds.
    pub fn on_file_changed(&mut self, path: String, program: &Vec<Node>)
        ensures
            final(self).entries_view() == upsert(old(self).entries_view(), path@, extraction(program@)),
            final(self).catalog_view() == old(self).catalog_view(),
            final(self).rebuilt(),
            keys_unique(old(self).entries_view()) ==> keys_unique(final(self).entries_view()),
    {
        proof {
            lemma_upsert_unique(self.entries_view(), path@, extraction(program@));
        }
        let res = extract(program);
        let ghost em = self.entries_view();
        match self.find_entry(&path) {
            Some(i) => {
                proof {
                    lemma_find_key_range(em, path@, 0);
                }
                self.entries.set(i, (path, res));
            },
            None => {
                self.entries.push((path, res));
            },
        }
        assert(self.entries_view() =~= upsert(em, path@, extraction(program@)));
        self.rebuild();
    }

    fn find_entry(&self, path: &String) -> (r: Option<usize>)
        ensures
            match r {
                Some(i) => i as int == find_key(self.entries_view(), path@, 0) && i < self.entries@.len(),
                None => find_key(self.entries_view(), path@, 0) == -1,
            },
    {
        let ghost em = self.entries_view();
        let mut i: usize = 0;
        while i < self.entries.len()
            invariant
                i <= self.entries.len(),
                em == self.entries_view(),
                find_key(em, path@, 0) == find_key(em, path@, i as int),
            decreases self.entries.len() - i,
        {
            if self.entries[i].0 == *path {
                return Some(i);
            }
            i = i + 1;
        }
        None
    }

    /// Drops what a removed file contributed, and rebuilds.
    pub fn on_file_removed(&mut self, path: &String)
        ensures
            final(self).entries_view() == without(old(self).entries_view(), path@),
            final(self).catalog_view() == old(self).catalog_view(),
            final(self).rebuilt(),
            keys_unique(old(self).entries_view()) ==> keys_unique(final(self).entries_view()),
    {
        proof {
            if keys_unique(self.entries_view()) {
                lemma_unique_filter(self.entries_view(), other_than(path@));
            }
        }
        let ghost em = self.entries_view();
        let mut all: Vec<(String, ExtractionResult)> = Vec::new();
        std::mem::swap(&mut all, &mut self.entries);
        let ghost orig = all@;
        let n = all.len();
        let mut i: usize = 0;
        proof {
            reveal(Seq::filter);
        }
        assert(em.take(0).filter(other_than(path@)) =~= Seq::<EntryModel>::empty());
        assert(self.entries_view() =~= Seq::<EntryModel>::empty());
        while i < n
            invariant
                i <= n,
                n == all.len(),
                n == orig.len(),
                em == entries_model(orig),
                forall|j: int| i <= j < n ==> all@[j] == orig[j],
                self.entries_view() == em.take(i as int).filter(other_than(path@)),
                self.catalog_view() == old(self).catalog_view(),
            decreases n - i,
        {
            let ghost prev = self.entries_view();
            assert(em.take(i + 1).drop_last() =~= em.take(i as int));
            proof {
                reveal(Seq::filter);
            }
            let mut taken: (String, ExtractionResult) = (String::new(), ExtractionResult::new());
            all.set_and_swap(i, &mut taken);
            assert((taken.0@, taken.1@) == em[i as int]);
            if taken.0 != *path {
                self.entries.push(taken);
                assert(self.entries_view() =~= prev.push(em[i as int]));
            }
            i = i + 1;
        }
        assert(em.take(n as int) =~= em);
        self.rebuild();
    }

    /// The merged catalog object: the catalog's value at each extracted key's
    /// path, or else the path itself.
    pub fn output(&self) -> (r: Vec<(String, JsonValue)>)
        ensures
            members_model(r@) == merged_level(self.trie_view(), Seq::empty(), self.catalog_view()),
    {
        self.handler.merge_messages()
    }

    /// The conflicts among the tracked files.
    pub fn conflicts(&self) -> (r: &[NamespaceConflict])
        ensures
            conflicts_model(r@) == self.conflicts_view(),
    {
        self.handler.get_conflicts()
    }
}

proof fn lemma_filter_update_excluded<A>(s: Seq<A>, i: int, x: A, pred: spec_fn(A) -> bool)
    requires
        0 <= i < s.len(),
        !pred(s[i]),
        !pred(x),
    ensures
        s.update(i, x).filter(pred) == s.filter(pred),
    decreases s.len(),
{
    reveal(Seq::filter);
    let u = s.update(i, x);
    if i == s.len() - 1 {
        assert(u.drop_last() =~= s.drop_last());
    } else {
        assert(u.drop_last() =~= s.drop_last().update(i, x));
        lemma_filter_update_excluded(s.drop_last(), i, x, pred);
        assert(u.last() == s.last());
    }
}

/// Handling the same change of a file twice leaves the tracked
/// contributions, and so the trie and the conflicts built from them, as
/// handling it once does.
pub proof fn lemma_change_idempotent(entries: Seq<EntryModel>, path: Seq<char>, res: Seq<(Seq<char>, Seq<Seq<char>>)>)
    ensures
        upsert(upsert(entries, path, res), path, res) == upsert(entries, path, res),
        build(upsert(upsert(entries, path, res), path, res)) == build(upsert(entries, path, res)),
{
    let u = upsert(entries, path, res);
    let i = find_key(entries, path, 0);
    lemma_find_key_range(entries, path, 0);
    if i < 0 {
        lemma_find_key_push(entries, (path, res), path, 0);
        assert(u.update(entries.len() as int, (path, res)) =~= u);
    } else {
        lemma_find_key_same_keys(u, entries, path, 0);
        assert(u.update(i, (path, res)) =~= u);
    }
}

/// A change of a file followed by its removal leaves the contributions of
/// the other files, as if the file had never been seen: the trie and the
/// conflicts are those built without it.
pub proof fn lemma_change_then_remove(entries: Seq<EntryModel>, path: Seq<char>, res: Seq<(Seq<char>, Seq<Seq<char>>)>)
    ensures
        without(upsert(entries, path, res), path) == without(entries, path),
        build(without(upsert(entries, path, res), path)) == build(without(entries, path)),
        find_key(entries, path, 0) < 0 ==> without(entries, path) == entries,
{
    let pred = other_than(path);
    let i = find_key(entries, path, 0);
    lemma_find_key_range(entries, path, 0);
    reveal(Seq::filter);
    if i < 0 {
        let u = entries.push((path, res));
        assert(u.drop_last() =~= entries);
        assert(!pred(u.last()));
        assert(u.filter(pred) == entries.filter(pred));
        lemma_filter_absent(entries, path);
    } else {
        lemma_filter_update_excluded(entries, i, (path, res), pred);
    }
}

proof fn lemma_filter_absent(entries: Seq<EntryModel>, path: Seq<char>)
    requires
        find_key(entries, path, 0) < 0,
    ensures
        without(entries, path) == entries,
    decreases entries.len(),
{
    reveal(Seq::filter);
    if entries.len() > 0 {
        let d = entries.drop_last();
        lemma_find_key_push(d, entries.last(), path, 0);
        assert(d.push(entries.last()) =~= entries);
        lemma_filter_absent(d, path);
    }
}

proof fn lemma_upsert_unique(entries: Seq<EntryModel>, path: Seq<char>, res: Seq<(Seq<char>, Seq<Seq<char>>)>)
    ensures
        keys_unique(entries) ==> keys_unique(upsert(entries, path, res)),
{
    if keys_unique(entries) {
        lemma_find_key_range(entries, path, 0);
        let i = find_key(entries, path, 0);
        if i < 0 {
            lemma_unique_push(entries, (path, res));
        } else {
            lemma_unique_update(entries, i, (path, res));
        }
    }
}

proof fn lemma_unique_filter(s: Seq<EntryModel>, pred: spec_fn(EntryModel) -> bool)
    requires
        keys_unique(s),
    ensures
        keys_unique(s.filter(pred)),
    decreases s.len(),
{
    reveal(Seq::filter);
    if s.len() > 0 {
        let d = s.drop_last();
        assert(keys_unique(d)) by {
            assert forall|i: int, j: int|
                0 <= i < d.len() && 0 <= j < d.len() && #[trigger] d[i].0 == #[trigger] d[j].0 implies i == j by {
                assert(s[i].0 == s[j].0);
            }
        }
        lemma_unique_filter(d, pred);
        if pred(s.last()) {
            let df = d.filter(pred);
            let f = df.push(s.last());
            assert forall|a: int, b: int|
                0 <= a < f.len() && 0 <= b < f.len() && #[trigger] f[a].0 == #[trigger] f[b].0 implies a == b by {
                if a < df.len() && b == df.len() {
                    lemma_in_filter(d, pred, a);
                } else if b < df.len() && a == df.len() {
                    lemma_in_filter(d, pred, b);
                }
            }
        }
    }
}

proof fn lemma_in_filter(d: Seq<EntryModel>, pred: spec_fn(EntryModel) -> bool, a: int)
    requires
        0 <= a < d.filter(pred).len(),
    ensures
        exists|j: int| 0 <= j < d.len() && d[j] == d.filter(pred)[a],
{
    assert(d.filter(pred).contains(d.filter(pred)[a]));
    d.lemma_filter_contains_rev(pred, d.filter(pred)[a]);
}

} // verus!
