use vstd::prelude::*;
use crate::text::{find_key, lemma_find_key_range, strings_view};

verus! {

broadcast use vstd::std_specs::vec::group_vec_axioms;

/// A JSON value as the catalog holds it: a translated string, an object of
/// named members, or any other value kept as its JSON text.
pub enum JsonValue {
    Str(String),
    Object(Vec<(String, JsonValue)>),
    Other(String),
}

/// The mathematical value of a `JsonValue`.
pub enum JsonModel {
    Str(Seq<char>),
    Object(Seq<(Seq<char>, JsonModel)>),
    Other(Seq<char>),
}

/// The mathematical value of an object's members, in order.
pub open spec fn members_model(m: Seq<(String, JsonValue)>) -> Seq<(Seq<char>, JsonModel)>
    decreases m, 0nat,
{
    Seq::new(
        m.len(),
        |i: int|
            if 0 <= i < m.len() {
                (m[i].0@, value_model(m[i].1))
            } else {
                (Seq::empty(), JsonModel::Other(Seq::empty()))
            },
    )
}

/// The mathematical value of a JSON value.
pub open spec fn value_model(v: JsonValue) -> JsonModel
    decreases v, 1nat,
{
    match v {
        JsonValue::Str(s) => JsonModel::Str(s@),
        JsonValue::Other(s) => JsonModel::Other(s@),
        JsonValue::Object(m) => JsonModel::Object(members_model(m@)),
    }
}

/// The value reached from an object's members by following `path`, one member
/// name per step; the first member of a name counts. A value that is not an
/// object where the path goes on gives no match.
pub open spec fn lookup_model(members: Seq<(Seq<char>, JsonModel)>, path: Seq<Seq<char>>) -> Option<JsonModel>
    decreases path.len(),
{
    if path.len() == 0 {
        None
    } else {
        let i = find_key(members, path[0], 0);
        if i < 0 {
            None
        } else if path.len() == 1 {
            Some(members[i].1)
        } else {
            match members[i].1 {
                JsonModel::Object(m) => lookup_model(m, path.drop_first()),
                _ => None,
            }
        }
    }
}

impl JsonValue {
    /// A copy of the value, equal to it as a model.
    pub fn copy_value(&self) -> (r: JsonValue)
        ensures
            value_model(r) == value_model(*self),
        decreases self,
    {
        match self {
            JsonValue::Str(s) => JsonValue::Str(s.clone()),
            JsonValue::Other(s) => JsonValue::Other(s.clone()),
            JsonValue::Object(m) => {
                let mut out: Vec<(String, JsonValue)> = Vec::new();
                let mut i: usize = 0;
                while i < m.len()
                    invariant
                        i <= m.len(),
                        *self == JsonValue::Object(*m),
                        out.len() == i,
                        forall|j: int|
                            0 <= j < i ==> (#[trigger] out@[j]).0@ == m@[j].0@ && value_model(out@[j].1)
                                == value_model(m@[j].1),
                    decreases m.len() - i,
                {
                    proof {
                        assert(decreases_to!(m => m@[i as int]));
                        assert(decreases_to!(m@[i as int] => m@[i as int].1));
                        assert(decreases_to!(*self => (*self)->Object_0));
                    }
                    let c = m[i].1.copy_value();
                    out.push((m[i].0.clone(), c));
                    i = i + 1;
                }
                assert(members_model(out@) =~= members_model(m@));
                JsonValue::Object(out)
            }
        }
    }
}

/// The index of the first member named `key`, if any.
pub fn find_member(members: &Vec<(String, JsonValue)>, key: &String) -> (r: Option<usize>)
    ensures
        match r {
            Some(i) => i as int == find_key(members_model(members@), key@, 0),
            None => find_key(members_model(members@), key@, 0) == -1,
        },
{
    let ghost mm = members_model(members@);
    let mut i: usize = 0;
    while i < members.len()
        invariant
            i <= members.len(),
            mm == members_model(members@),
            find_key(mm, key@, 0) == find_key(mm, key@, i as int),
        decreases members.len() - i,
    {
        if members[i].0 == *key {
            return Some(i);
        }
        i = i + 1;
    }
    None
}

/// The value at `path[idx..]` below the members, copied.
fn lookup_from(members: &Vec<(String, JsonValue)>, path: &Vec<String>, idx: usize) -> (r: Option<JsonValue>)
    requires
        idx < path.len(),
    ensures
        match r {
            Some(v) => lookup_model(members_model(members@), strings_view(path@).skip(idx as int))
                == Some(value_model(v)),
            None => lookup_model(members_model(members@), strings_view(path@).skip(idx as int)) is None,
        },
    decreases path.len() - idx,
{
    let ghost rest = strings_view(path@).skip(idx as int);
    assert(rest[0] == path@[idx as int]@);
    match find_member(members, &path[idx]) {
        None => None,
        Some(i) => {
            proof {
                lemma_find_key_range(members_model(members@), path@[idx as int]@, 0);
            }
            if idx + 1 == path.len() {
                Some(members[i].1.copy_value())
            } else {
                assert(rest.drop_first() =~= strings_view(path@).skip(idx + 1));
                match &members[i].1 {
                    JsonValue::Object(m) => lookup_from(m, path, idx + 1),
                    _ => None,
                }
            }
        }
    }
}

/// The value found by following `path` from the members, copied; `None` where
/// the path is empty or leads nowhere.
pub fn lookup_path(members: &Vec<(String, JsonValue)>, path: &Vec<String>) -> (r: Option<JsonValue>)
    ensures
        match r {
            Some(v) => lookup_model(members_model(members@), strings_view(path@)) == Some(value_model(v)),
            None => lookup_model(members_model(members@), strings_view(path@)) is None,
        },
{
    if path.len() == 0 {
        None
    } else {
        let r = lookup_from(members, path, 0);
        assert(strings_view(path@).skip(0) =~= strings_view(path@));
        r
    }
}

/// A copy of an object's members.
pub fn copy_members(members: &Vec<(String, JsonValue)>) -> (r: Vec<(String, JsonValue)>)
    ensures
        members_model(r@) == members_model(members@),
{
    let mut out: Vec<(String, JsonValue)> = Vec::new();
    let mut i: usize = 0;
    while i < members.len()
        invariant
            i <= members.len(),
            out.len() == i,
            forall|j: int|
                0 <= j < i ==> (#[trigger] out@[j]).0@ == members@[j].0@ && value_model(out@[j].1)
                    == value_model(members@[j].1),
        decreases members.len() - i,
    {
        out.push((members[i].0.clone(), members[i].1.copy_value()));
        i = i + 1;
    }
    assert(members_model(out@) =~= members_model(members@));
    out
}

impl JsonValue {
    /// The members, where the value is an object.
    pub fn as_object(&self) -> (r: Option<&Vec<(String, JsonValue)>>)
        ensures
            match r {
                Some(m) => *self == JsonValue::Object(*m),
                None => !(*self is Object),
            },
    {
        match self {
            JsonValue::Object(m) => Some(m),
            _ => None,
        }
    }

    /// The text, where the value is a string.
    pub fn as_str(&self) -> (r: Option<&str>)
        ensures
            match r {
                Some(s) => self is Str && s@ == self->Str_0@,
                None => !(*self is Str),
            },
    {
        match self {
            JsonValue::Str(s) => Some(s.as_str()),
            _ => None,
        }
    }
}

/// The value of the first member named `key`, if any.
pub fn get_member<'a>(members: &'a Vec<(String, JsonValue)>, key: &str) -> (r: Option<&'a JsonValue>)
    ensures
        match r {
            Some(v) => find_key(members_model(members@), key@, 0) >= 0 && value_model(*v) == members_model(
                members@,
            )[find_key(members_model(members@), key@, 0)].1,
            None => find_key(members_model(members@), key@, 0) == -1,
        },
{
    let k = key.to_owned();
    match find_member(members, &k) {
        Some(i) => {
            proof {
                lemma_find_key_range(members_model(members@), key@, 0);
            }
            Some(&members[i].1)
        },
        None => None,
    }
}

} // verus!
