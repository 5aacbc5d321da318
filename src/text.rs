use vstd::prelude::*;
use vstd::string::StringExecFns;

verus! {

/// The characters of each string of a sequence.
pub open spec fn strings_view(v: Seq<String>) -> Seq<Seq<char>> {
    v.map_values(|s: String| s@)
}

/// The pieces of `s` between its `.` characters, in order; an empty piece stands
/// for two adjacent dots or a dot at either end.
pub open spec fn split_dots(s: Seq<char>) -> Seq<Seq<char>>
    decreases s.len(),
{
    if s.len() == 0 {
        seq![Seq::empty()]
    } else {
        let prev = split_dots(s.drop_last());
        if s.last() == '.' {
            prev.push(Seq::empty())
        } else {
            prev.update(prev.len() - 1, prev.last().push(s.last()))
        }
    }
}

/// The parts joined with `sep` between each two neighbours.
pub open spec fn join_with(parts: Seq<Seq<char>>, sep: Seq<char>) -> Seq<char>
    decreases parts.len(),
{
    if parts.len() == 0 {
        Seq::empty()
    } else if parts.len() == 1 {
        parts[0]
    } else {
        join_with(parts.drop_last(), sep) + sep + parts.last()
    }
}

/// The index of the first entry at or after `start` whose key is `k`, or -1.
pub open spec fn find_key<T>(entries: Seq<(Seq<char>, T)>, k: Seq<char>, start: int) -> int
    decreases entries.len() - start,
{
    if start < 0 || start >= entries.len() {
        -1
    } else if entries[start].0 == k {
        start
    } else {
        find_key(entries, k, start + 1)
    }
}

/// The first index of `k` in `entries`, or -1.
pub open spec fn index_of(entries: Seq<Seq<char>>, k: Seq<char>) -> int
    decreases entries.len(),
{
    if entries.len() == 0 {
        -1
    } else if index_of(entries.drop_last(), k) >= 0 {
        index_of(entries.drop_last(), k)
    } else if entries.last() == k {
        entries.len() - 1
    } else {
        -1
    }
}

/// `items` with each element of `extra` added at the end unless already present.
pub open spec fn add_missing(items: Seq<Seq<char>>, extra: Seq<Seq<char>>) -> Seq<Seq<char>>
    decreases extra.len(),
{
    if extra.len() == 0 {
        items
    } else {
        let prev = add_missing(items, extra.drop_last());
        if index_of(prev, extra.last()) >= 0 {
            prev
        } else {
            prev.push(extra.last())
        }
    }
}

pub proof fn lemma_find_key_range<T>(entries: Seq<(Seq<char>, T)>, k: Seq<char>, start: int)
    ensures
        find_key(entries, k, start) == -1 || (0 <= start <= find_key(entries, k, start) < entries.len()
            && entries[find_key(entries, k, start)].0 == k),
    decreases entries.len() - start,
{
    if 0 <= start < entries.len() && entries[start].0 != k {
        lemma_find_key_range(entries, k, start + 1);
    }
}

pub proof fn lemma_index_of_range(entries: Seq<Seq<char>>, k: Seq<char>)
    ensures
        index_of(entries, k) == -1 || (0 <= index_of(entries, k) < entries.len()
            && entries[index_of(entries, k)] == k),
        index_of(entries, k) == -1 ==> forall|j: int| 0 <= j < entries.len() ==> entries[j] != k,
    decreases entries.len(),
{
    if entries.len() > 0 {
        lemma_index_of_range(entries.drop_last(), k);
        assert forall|j: int| 0 <= j < entries.len() - 1 implies entries[j] == entries.drop_last()[j] by {}
    }
}

pub proof fn lemma_split_dots_nonempty(s: Seq<char>)
    ensures
        split_dots(s).len() >= 1,
    decreases s.len(),
{
    if s.len() > 0 {
        lemma_split_dots_nonempty(s.drop_last());
    }
}

/// Relies on `str::split` with a `char` pattern: the pieces between the
/// occurrences of the pattern, in order, empty pieces included.
#[verifier::external_body]
pub(crate) fn split_on_dot(s: &str) -> (r: Vec<String>)
    ensures
        strings_view(r@) == split_dots(s@),
{
    s.split('.').map(|p| p.to_string()).collect()
}

/// Joins the parts with `sep` between each two neighbours.
pub fn join_strings(parts: &Vec<String>, sep: &str) -> (r: String)
    ensures
        r@ == join_with(strings_view(parts@), sep@),
{
    let mut r = String::new();
    let mut i: usize = 0;
    while i < parts.len()
        invariant
            i <= parts.len(),
            r@ == join_with(strings_view(parts@).take(i as int), sep@),
        decreases parts.len() - i,
    {
        let ghost before = r@;
        if i > 0 {
            r.append(sep);
        }
        r.append(parts[i].as_str());
        proof {
            let sv = strings_view(parts@);
            assert(sv.take(i + 1).drop_last() =~= sv.take(i as int));
            if i == 0 {
                assert(r@ =~= sv.take(1)[0]);
            } else {
                assert(r@ =~= before + sep@ + sv.take(i + 1).last());
            }
        }
        i = i + 1;
    }
    proof {
        assert(strings_view(parts@).take(parts.len() as int) =~= strings_view(parts@));
    }
    r
}

/// Copies a string: the copy holds the same characters.
pub fn copy_string(s: &String) -> (r: String)
    ensures
        r@ == s@,
{
    s.clone()
}

/// Copies a vector of strings, element by element.
pub fn copy_strings(v: &Vec<String>) -> (r: Vec<String>)
    ensures
        strings_view(r@) == strings_view(v@),
        r@.len() == v@.len(),
{
    let mut r: Vec<String> = Vec::new();
    let mut i: usize = 0;
    while i < v.len()
        invariant
            i <= v.len(),
            r@.len() == i,
            forall|j: int| 0 <= j < i ==> (#[trigger] r@[j])@ == v@[j]@,
        decreases v.len() - i,
    {
        r.push(v[i].clone());
        i = i + 1;
    }
    assert(strings_view(r@) =~= strings_view(v@));
    r
}

/// Whether `files` names `file`.
pub fn contains_string(files: &Vec<String>, file: &String) -> (r: bool)
    ensures
        r == (index_of(strings_view(files@), file@) >= 0),
{
    proof {
        lemma_index_of_range(strings_view(files@), file@);
    }
    let mut i: usize = 0;
    while i < files.len()
        invariant
            i <= files.len(),
            forall|j: int| 0 <= j < i ==> files@[j]@ != file@,
        decreases files.len() - i,
    {
        if files[i] == *file {
            assert(strings_view(files@)[i as int] == file@);
            proof {
                lemma_index_of_range(strings_view(files@), file@);
            }
            return true;
        }
        i = i + 1;
    }
    false
}

/// Adds each of `extra` to `files` unless it is there already.
pub fn add_missing_strings(files: &mut Vec<String>, extra: &Vec<String>)
    ensures
        strings_view(final(files)@) == add_missing(strings_view(old(files)@), strings_view(extra@)),
{
    let ghost start = strings_view(files@);
    let mut i: usize = 0;
    while i < extra.len()
        invariant
            i <= extra.len(),
            strings_view(files@) == add_missing(start, strings_view(extra@).take(i as int)),
        decreases extra.len() - i,
    {
        let ghost ev = strings_view(extra@);
        assert(ev.take(i + 1).drop_last() =~= ev.take(i as int));
        if !contains_string(files, &extra[i]) {
            let ghost before = files@;
            files.push(extra[i].clone());
            assert(strings_view(files@) =~= strings_view(before).push(extra@[i as int]@));
        }
        i = i + 1;
    }
    assert(strings_view(extra@).take(extra.len() as int) =~= strings_view(extra@));
}

pub proof fn lemma_find_key_same_keys<T, U>(
    a: Seq<(Seq<char>, T)>,
    b: Seq<(Seq<char>, U)>,
    k: Seq<char>,
    start: int,
)
    requires
        a.len() == b.len(),
        forall|j: int| 0 <= j < a.len() ==> a[j].0 == b[j].0,
    ensures
        find_key(a, k, start) == find_key(b, k, start),
    decreases a.len() - start,
{
    if 0 <= start < a.len() && a[start].0 != k {
        lemma_find_key_same_keys(a, b, k, start + 1);
    }
}

pub proof fn lemma_find_key_push<T>(s: Seq<(Seq<char>, T)>, x: (Seq<char>, T), k: Seq<char>, start: int)
    requires
        0 <= start <= s.len(),
    ensures
        find_key(s.push(x), k, start) == (if find_key(s, k, start) >= 0 {
            find_key(s, k, start)
        } else if x.0 == k {
            s.len() as int
        } else {
            -1
        }),
    decreases s.len() - start,
{
    if start < s.len() {
        assert(s.push(x)[start] == s[start]);
        if s[start].0 != k {
            lemma_find_key_push(s, x, k, start + 1);
        }
    } else {
        assert(s.push(x)[start] == x);
        if x.0 != k {
            assert(find_key(s.push(x), k, start + 1) == -1);
        }
    }
}

proof fn lemma_join_extend_last(p: Seq<Seq<char>>, sep: Seq<char>, c: char)
    requires
        p.len() >= 1,
    ensures
        join_with(p.update(p.len() - 1, p.last().push(c)), sep) == join_with(p, sep).push(c),
{
    let q = p.update(p.len() - 1, p.last().push(c));
    if p.len() == 1 {
        assert(q[0] == p[0].push(c));
    } else {
        assert(q.drop_last() =~= p.drop_last());
        assert(q.last() == p.last().push(c));
        assert(join_with(q, sep) =~= join_with(p, sep).push(c));
    }
}

/// Joining the pieces of a string split at its dots gives the string back.
pub proof fn lemma_join_split(s: Seq<char>)
    ensures
        join_with(split_dots(s), "."@) == s,
    decreases s.len(),
{
    reveal_strlit(".");
    if s.len() == 0 {
        assert(split_dots(s)[0] =~= s);
    } else {
        let prev = split_dots(s.drop_last());
        lemma_split_dots_nonempty(s.drop_last());
        lemma_join_split(s.drop_last());
        if s.last() == '.' {
            assert(prev.push(Seq::empty()).drop_last() =~= prev);
            assert(join_with(prev.push(Seq::empty()), "."@) =~= s);
        } else {
            lemma_join_extend_last(prev, "."@, s.last());
            assert(s.drop_last().push(s.last()) =~= s);
        }
    }
}

/// Joining parts and one more part: the joined parts, the separator, the part.
pub proof fn lemma_join_push(p: Seq<Seq<char>>, sep: Seq<char>, x: Seq<char>)
    requires
        p.len() >= 1,
    ensures
        join_with(p.push(x), sep) == join_with(p, sep) + sep + x,
{
    assert(p.push(x).drop_last() =~= p);
}

/// Whether no two entries share a key.
pub open spec fn keys_unique<T>(entries: Seq<(Seq<char>, T)>) -> bool {
    forall|i: int, j: int|
        0 <= i < entries.len() && 0 <= j < entries.len() && #[trigger] entries[i].0 == #[trigger] entries[j].0
            ==> i == j
}

pub proof fn lemma_find_key_absent<T>(entries: Seq<(Seq<char>, T)>, k: Seq<char>, start: int)
    requires
        0 <= start,
        find_key(entries, k, start) == -1,
    ensures
        forall|j: int| start <= j < entries.len() ==> entries[j].0 != k,
    decreases entries.len() - start,
{
    if start < entries.len() {
        lemma_find_key_absent(entries, k, start + 1);
    }
}

/// Adding an entry under a key that is not there keeps keys unique.
pub proof fn lemma_unique_push<T>(entries: Seq<(Seq<char>, T)>, x: (Seq<char>, T))
    requires
        keys_unique(entries),
        find_key(entries, x.0, 0) == -1,
    ensures
        keys_unique(entries.push(x)),
{
    lemma_find_key_absent(entries, x.0, 0);
    let s = entries.push(x);
    assert forall|i: int, j: int|
        0 <= i < s.len() && 0 <= j < s.len() && #[trigger] s[i].0 == #[trigger] s[j].0 implies i == j by {
        if i < entries.len() && j < entries.len() {
            assert(entries[i].0 == entries[j].0);
        }
    }
}

/// Replacing an entry by one with the same key keeps keys unique.
pub proof fn lemma_unique_update<T>(entries: Seq<(Seq<char>, T)>, i: int, x: (Seq<char>, T))
    requires
        keys_unique(entries),
        0 <= i < entries.len(),
        entries[i].0 == x.0,
    ensures
        keys_unique(entries.update(i, x)),
{
    let s = entries.update(i, x);
    assert forall|a: int, b: int|
        0 <= a < s.len() && 0 <= b < s.len() && #[trigger] s[a].0 == #[trigger] s[b].0 implies a == b by {
        assert(s[a].0 == entries[a].0);
        assert(s[b].0 == entries[b].0);
    }
}

} // verus!
