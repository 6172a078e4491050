//! A JSON document model and the operations the settings editor and the
//! config loader perform on it: reading, writing and removing the value at
//! a key path, and the two merges that combine defaults, themes and
//! profiles.

use vstd::prelude::*;

use crate::text::{chars_of, parse_usize, parse_usize_spec, str_eq};

verus! {

broadcast use vstd::string::group_string_axioms;

/// A JSON value. Numbers keep their JSON text; object members keep their
/// order.
#[derive(Debug, PartialEq)]
pub enum Json {
    Null,
    Bool(bool),
    Number(String),
    Str(String),
    Array(Vec<Json>),
    Object(Vec<(String, Json)>),
}

/// The mathematical value of a [`Json`].
pub enum JsonV {
    Null,
    Bool(bool),
    Number(Seq<char>),
    Str(Seq<char>),
    Array(Seq<JsonV>),
    Object(Seq<(Seq<char>, JsonV)>),
}

/// Object members, as a sequence of key and value.
pub type Members = Seq<(Seq<char>, JsonV)>;

pub open spec fn view_json(j: Json) -> JsonV
    decreases j, 1int,
{
    match j {
        Json::Null => JsonV::Null,
        Json::Bool(b) => JsonV::Bool(b),
        Json::Number(n) => JsonV::Number(n@),
        Json::Str(s) => JsonV::Str(s@),
        Json::Array(v) => JsonV::Array(view_elems(v@)),
        Json::Object(m) => JsonV::Object(view_members(m@)),
    }
}

pub open spec fn view_elems(s: Seq<Json>) -> Seq<JsonV>
    decreases s, 0int,
{
    if s.len() == 0 {
        Seq::empty()
    } else {
        view_elems(s.drop_last()).push(view_json(s.last()))
    }
}

pub open spec fn view_members(s: Seq<(String, Json)>) -> Members
    decreases s, 0int,
{
    if s.len() == 0 {
        Seq::empty()
    } else {
        view_members(s.drop_last()).push((s.last().0@, view_json(s.last().1)))
    }
}

impl View for Json {
    type V = JsonV;

    open spec fn view(&self) -> JsonV {
        view_json(*self)
    }
}

pub proof fn lemma_view_elems(s: Seq<Json>)
    ensures
        view_elems(s).len() == s.len(),
        forall|i: int| 0 <= i < s.len() ==> #[trigger] view_elems(s)[i] == view_json(s[i]),
    decreases s.len(),
{
    if s.len() > 0 {
        lemma_view_elems(s.drop_last());
    }
}

pub proof fn lemma_view_elems_push(s: Seq<Json>, x: Json)
    ensures
        view_elems(s.push(x)) == view_elems(s).push(view_json(x)),
{
    assert(s.push(x).drop_last() =~= s);
}

pub proof fn lemma_view_members_push(s: Seq<(String, Json)>, x: (String, Json))
    ensures
        view_members(s.push(x)) == view_members(s).push((x.0@, view_json(x.1))),
{
    assert(s.push(x).drop_last() =~= s);
}

pub proof fn lemma_view_members(s: Seq<(String, Json)>)
    ensures
        view_members(s).len() == s.len(),
        forall|i: int|
            0 <= i < s.len() ==> #[trigger] view_members(s)[i] == (s[i].0@, view_json(s[i].1)),
    decreases s.len(),
{
    if s.len() > 0 {
        lemma_view_members(s.drop_last());
    }
}

// ---------------------------------------------------------------------------
// Members and paths
// ---------------------------------------------------------------------------

/// Position of the first member named `k`, or -1.
pub open spec fn key_pos(m: Members, k: Seq<char>) -> int
    decreases m.len(),
{
    if m.len() == 0 {
        -1
    } else {
        let p = key_pos(m.drop_last(), k);
        if p >= 0 {
            p
        } else if m.last().0 == k {
            m.len() - 1
        } else {
            -1
        }
    }
}

/// The value of the first member named `k`.
pub open spec fn member(m: Members, k: Seq<char>) -> Option<JsonV> {
    if key_pos(m, k) >= 0 {
        Some(m[key_pos(m, k)].1)
    } else {
        None
    }
}

/// Map insertion: the member named `k` takes the value `v` where it stands,
/// or is appended when there is none.
pub open spec fn insert_member(m: Members, k: Seq<char>, v: JsonV) -> Members {
    if key_pos(m, k) >= 0 {
        m.update(key_pos(m, k), (k, v))
    } else {
        m.push((k, v))
    }
}

/// Map removal: no member named `k` is left.
pub open spec fn remove_member(m: Members, k: Seq<char>) -> Members
    decreases m.len(),
{
    if m.len() == 0 {
        m
    } else if m.last().0 == k {
        remove_member(m.drop_last(), k)
    } else {
        remove_member(m.drop_last(), k).push(m.last())
    }
}

/// An array segment: what `str::parse::<usize>` makes of it.
pub open spec fn index_of(part: Seq<char>) -> Option<nat> {
    match parse_usize_spec(part) {
        Some(i) => Some(i as nat),
        None => None,
    }
}

/// The value at `path`: each segment names an object member, or an array
/// element by its decimal index.
pub open spec fn get_at(doc: JsonV, path: Seq<Seq<char>>) -> Option<JsonV>
    decreases path.len(),
{
    if path.len() == 0 {
        Some(doc)
    } else {
        let next = match doc {
            JsonV::Object(m) => member(m, path[0]),
            JsonV::Array(a) => match index_of(path[0]) {
                Some(i) => if i < a.len() {
                    Some(a[i as int])
                } else {
                    None
                },
                None => None,
            },
            _ => None,
        };
        match next {
            Some(c) => get_at(c, path.drop_first()),
            None => None,
        }
    }
}

/// `a`, extended with nulls until it has an element at index `i`.
pub open spec fn pad(a: Seq<JsonV>, i: nat) -> Seq<JsonV> {
    if i < a.len() {
        a
    } else {
        a + Seq::new((i + 1 - a.len()) as nat, |k: int| JsonV::Null)
    }
}

/// The container made for a missing intermediate segment: an array when the
/// segment after it is an index, an object otherwise.
pub open spec fn container_for(next: Seq<char>) -> JsonV {
    if index_of(next) is Some {
        JsonV::Array(Seq::empty())
    } else {
        JsonV::Object(Seq::empty())
    }
}

/// `doc` with `value` written at `path`. An index segment writes into an
/// array (padding it with nulls); any other segment, or an index on
/// something that is not an array, writes an object member, turning a
/// non-object into an empty object first. Missing or scalar intermediates
/// become the container that the next segment calls for. The empty path
/// leaves `doc` as it is.
pub open spec fn set_at(doc: JsonV, path: Seq<Seq<char>>, value: JsonV) -> JsonV
    decreases path.len(),
{
    if path.len() == 0 {
        doc
    } else {
        let part = path[0];
        let rest = path.drop_first();
        if doc is Array && index_of(part) is Some {
            let i = index_of(part)->0;
            let a = pad(doc->Array_0, i);
            if rest.len() == 0 {
                JsonV::Array(a.update(i as int, value))
            } else {
                JsonV::Array(a.update(i as int, set_at(a[i as int], rest, value)))
            }
        } else {
            let m = match doc {
                JsonV::Object(m) => m,
                _ => Seq::empty(),
            };
            if rest.len() == 0 {
                JsonV::Object(insert_member(m, part, value))
            } else {
                let slot = match member(m, part) {
                    Some(c) => if c is Object || c is Array {
                        c
                    } else {
                        container_for(rest[0])
                    },
                    None => container_for(rest[0]),
                };
                JsonV::Object(insert_member(m, part, set_at(slot, rest, value)))
            }
        }
    }
}

/// `doc` with the value at `path` removed: the member deleted from its
/// object, or the element taken out of its array (later elements move down).
/// Nothing changes when the path does not lead anywhere, or is empty.
pub open spec fn remove_at(doc: JsonV, path: Seq<Seq<char>>) -> JsonV
    decreases path.len(),
{
    if path.len() == 0 {
        doc
    } else {
        let part = path[0];
        let rest = path.drop_first();
        match doc {
            JsonV::Object(m) => if rest.len() == 0 {
                JsonV::Object(remove_member(m, part))
            } else {
                match member(m, part) {
                    Some(c) => JsonV::Object(m.update(key_pos(m, part), (part, remove_at(c, rest)))),
                    None => doc,
                }
            },
            JsonV::Array(a) => match index_of(part) {
                Some(i) => if i < a.len() {
                    if rest.len() == 0 {
                        JsonV::Array(a.remove(i as int))
                    } else {
                        JsonV::Array(a.update(i as int, remove_at(a[i as int], rest)))
                    }
                } else {
                    doc
                },
                None => doc,
            },
            _ => doc,
        }
    }
}

pub open spec fn path_view(path: Seq<&str>) -> Seq<Seq<char>> {
    path.map_values(|s: &str| s@)
}

// ---------------------------------------------------------------------------
// Facts about the views
// ---------------------------------------------------------------------------

pub proof fn lemma_elems_update(s: Seq<Json>, i: int, x: Json)
    requires
        0 <= i < s.len(),
    ensures
        view_elems(s.update(i, x)) == view_elems(s).update(i, view_json(x)),
{
    lemma_view_elems(s);
    lemma_view_elems(s.update(i, x));
    assert(view_elems(s.update(i, x)) =~= view_elems(s).update(i, view_json(x)));
}

pub proof fn lemma_elems_remove(s: Seq<Json>, i: int)
    requires
        0 <= i < s.len(),
    ensures
        view_elems(s.remove(i)) == view_elems(s).remove(i),
{
    lemma_view_elems(s);
    lemma_view_elems(s.remove(i));
    assert(view_elems(s.remove(i)) =~= view_elems(s).remove(i));
}

pub proof fn lemma_members_update(s: Seq<(String, Json)>, i: int, x: (String, Json))
    requires
        0 <= i < s.len(),
    ensures
        view_members(s.update(i, x)) == view_members(s).update(i, (x.0@, view_json(x.1))),
{
    lemma_view_members(s);
    lemma_view_members(s.update(i, x));
    assert(view_members(s.update(i, x)) =~= view_members(s).update(i, (x.0@, view_json(x.1))));
}

/// Facts about the first position of a key.
pub proof fn lemma_key_pos(m: Members, k: Seq<char>)
    ensures
        -1 <= key_pos(m, k) < m.len(),
        key_pos(m, k) >= 0 ==> m[key_pos(m, k)].0 == k,
        forall|i: int|
            0 <= i < m.len() && (key_pos(m, k) < 0 || i < key_pos(m, k)) ==> #[trigger] m[i].0
                != k,
    decreases m.len(),
{
    if m.len() > 0 {
        lemma_key_pos(m.drop_last(), k);
        assert forall|i: int|
            0 <= i < m.len() && (key_pos(m, k) < 0 || i < key_pos(m, k)) implies #[trigger] m[i].0
            != k by {
            if i < m.len() - 1 {
                assert(m.drop_last()[i] == m[i]);
            }
        }
    }
}

/// Where the keys agree, so do the key positions.
pub proof fn lemma_key_pos_same_keys(m1: Members, m2: Members, k: Seq<char>)
    requires
        m1.len() == m2.len(),
        forall|i: int| 0 <= i < m1.len() ==> #[trigger] m1[i].0 == m2[i].0,
    ensures
        key_pos(m1, k) == key_pos(m2, k),
    decreases m1.len(),
{
    if m1.len() > 0 {
        lemma_key_pos_same_keys(m1.drop_last(), m2.drop_last(), k);
    }
}

pub proof fn lemma_member_insert(m: Members, k: Seq<char>, v: JsonV)
    ensures
        member(insert_member(m, k, v), k) == Some(v),
{
    lemma_key_pos(m, k);
    let p = key_pos(m, k);
    if p >= 0 {
        let m2 = m.update(p, (k, v));
        lemma_key_pos_same_keys(m, m2, k);
    } else {
        assert(m.push((k, v)).drop_last() =~= m);
    }
}

pub proof fn lemma_member_insert_other(m: Members, k: Seq<char>, k2: Seq<char>, v: JsonV)
    requires
        k != k2,
    ensures
        member(insert_member(m, k2, v), k) == member(m, k),
{
    lemma_key_pos(m, k);
    lemma_key_pos(m, k2);
    let p2 = key_pos(m, k2);
    if p2 >= 0 {
        let m2 = m.update(p2, (k2, v));
        lemma_key_pos_same_keys(m, m2, k);
    } else {
        assert(m.push((k2, v)).drop_last() =~= m);
    }
}

pub proof fn lemma_member_remove(m: Members, k: Seq<char>)
    ensures
        member(remove_member(m, k), k) is None,
    decreases m.len(),
{
    if m.len() > 0 {
        lemma_member_remove(m.drop_last(), k);
        if m.last().0 != k {
            let r = remove_member(m.drop_last(), k);
            assert(r.push(m.last()).drop_last() =~= r);
        }
    }
}

pub proof fn lemma_member_remove_other(m: Members, k: Seq<char>, k2: Seq<char>)
    requires
        k != k2,
    ensures
        member(remove_member(m, k2), k) == member(m, k),
    decreases m.len(),
{
    if m.len() > 0 {
        lemma_member_remove_other(m.drop_last(), k, k2);
        lemma_member_not_last_or_last(m, k);
        let r = remove_member(m.drop_last(), k2);
        if m.last().0 != k2 {
            assert(r.push(m.last()).drop_last() =~= r);
            lemma_key_pos(r, k);
        }
    }
}

/// `member` on a non-empty sequence, split on its last element.
pub proof fn lemma_member_not_last_or_last(m: Members, k: Seq<char>)
    requires
        m.len() > 0,
    ensures
        member(m, k) == match member(m.drop_last(), k) {
            Some(v) => Some(v),
            None => if m.last().0 == k {
                Some(m.last().1)
            } else {
                None
            },
        },
{
    lemma_key_pos(m.drop_last(), k);
}

/// Writing a member in place keeps every key where it was.
pub proof fn lemma_member_update_same_key(m: Members, k: Seq<char>, v: JsonV)
    requires
        key_pos(m, k) >= 0,
    ensures
        member(m.update(key_pos(m, k), (k, v)), k) == Some(v),
{
    lemma_key_pos(m, k);
    lemma_key_pos_same_keys(m, m.update(key_pos(m, k), (k, v)), k);
}

/// Reading a path right after writing a value there gives that value back.
pub proof fn law_get_after_set(doc: JsonV, path: Seq<Seq<char>>, value: JsonV)
    requires
        path.len() > 0,
    ensures
        get_at(set_at(doc, path, value), path) == Some(value),
    decreases path.len(),
{
    let part = path[0];
    let rest = path.drop_first();
    let r = set_at(doc, path, value);
    if doc is Array && index_of(part) is Some {
        let i = index_of(part)->0;
        let a = pad(doc->Array_0, i);
        if rest.len() == 0 {
            assert(get_at(value, rest) == Some(value));
        } else {
            law_get_after_set(a[i as int], rest, value);
        }
    } else {
        let m = match doc {
            JsonV::Object(m) => m,
            _ => Seq::empty(),
        };
        if rest.len() == 0 {
            lemma_member_insert(m, part, value);
            assert(get_at(value, rest) == Some(value));
        } else {
            let slot = match member(m, part) {
                Some(c) => if c is Object || c is Array {
                    c
                } else {
                    container_for(rest[0])
                },
                None => container_for(rest[0]),
            };
            lemma_member_insert(m, part, set_at(slot, rest, value));
            law_get_after_set(slot, rest, value);
        }
    }
}

/// Removing the value at the end of `path` shifts later elements of its
/// array down into its place.
pub open spec fn removal_shifts(doc: JsonV, path: Seq<Seq<char>>) -> bool {
    match get_at(doc, path.drop_last()) {
        Some(JsonV::Array(a)) => match index_of(path.last()) {
            Some(i) => i + 1 < a.len(),
            None => false,
        },
        _ => false,
    }
}

/// After a removal nothing is left at the path, unless the removal took an
/// element out of the middle of an array and its successor moved up.
pub proof fn law_get_after_remove(doc: JsonV, path: Seq<Seq<char>>)
    requires
        path.len() > 0,
        !removal_shifts(doc, path),
    ensures
        get_at(remove_at(doc, path), path) is None,
    decreases path.len(),
{
    let part = path[0];
    let rest = path.drop_first();
    assert(path.drop_last().len() == 0 ==> path.drop_last() =~= Seq::<Seq<char>>::empty());
    if rest.len() == 0 {
        assert(path.drop_last() =~= Seq::<Seq<char>>::empty());
        assert(path.last() == part);
        match doc {
            JsonV::Object(m) => {
                lemma_member_remove(m, part);
            },
            _ => {},
        }
    } else {
        assert(path.drop_last()[0] == part);
        assert(path.drop_last().drop_first() =~= rest.drop_last());
        assert(path.last() == rest.last());
        match doc {
            JsonV::Object(m) => {
                match member(m, part) {
                    Some(c) => {
                        lemma_member_update_same_key(m, part, remove_at(c, rest));
                        law_get_after_remove(c, rest);
                    },
                    None => {},
                }
            },
            JsonV::Array(a) => {
                match index_of(part) {
                    Some(i) => if i < a.len() {
                        assert(a.update(i as int, remove_at(a[i as int], rest))[i as int]
                            == remove_at(a[i as int], rest));
                        law_get_after_remove(a[i as int], rest);
                    },
                    None => {},
                }
            },
            _ => {},
        }
    }
}

// ---------------------------------------------------------------------------
// Merges
// ---------------------------------------------------------------------------

/// `user` deep-merged over `defaults`: two objects merge member by member,
/// recursively; anything else is replaced by the user's value.
pub open spec fn deep_merge_spec(defaults: JsonV, user: JsonV) -> JsonV
    decreases user, 1int,
{
    match user {
        JsonV::Object(um) => match defaults {
            JsonV::Object(dm) => JsonV::Object(merge_members(dm, um)),
            _ => user,
        },
        _ => user,
    }
}

/// The user's members folded into `acc` in order, each deep-merged over the
/// member of the same name when there is one.
pub open spec fn merge_members(acc: Members, um: Members) -> Members
    decreases um, 0int,
{
    if um.len() == 0 {
        acc
    } else {
        let r = merge_members(acc, um.drop_last());
        let k = um.last().0;
        let v = um.last().1;
        insert_member(
            r,
            k,
            match member(r, k) {
                Some(e) => deep_merge_spec(e, v),
                None => v,
            },
        )
    }
}

/// No two members share a key.
pub open spec fn unique_keys(m: Members) -> bool {
    forall|i: int, j: int| 0 <= i < j < m.len() ==> #[trigger] m[i].0 != #[trigger] m[j].0
}

pub proof fn lemma_member_last(m: Members)
    requires
        m.len() > 0,
        unique_keys(m),
    ensures
        member(m, m.last().0) == Some(m.last().1),
        member(m.drop_last(), m.last().0) is None,
{
    let k = m.last().0;
    lemma_key_pos(m.drop_last(), k);
    assert forall|i: int| 0 <= i < m.drop_last().len() implies #[trigger] m.drop_last()[i].0
        != k by {
        assert(m[i].0 != m[m.len() - 1].0);
    }
}

pub proof fn lemma_member_not_last(m: Members, k: Seq<char>)
    requires
        m.len() > 0,
        m.last().0 != k,
    ensures
        member(m, k) == member(m.drop_last(), k),
{
    lemma_key_pos(m.drop_last(), k);
}

/// What a deep merge gives for one key of two objects: the user's member,
/// merged over the default's when both have it, or else whichever exists.
pub proof fn law_deep_merge_member(dm: Members, um: Members, k: Seq<char>)
    requires
        unique_keys(um),
    ensures
        member(merge_members(dm, um), k) == match member(um, k) {
            Some(uv) => Some(
                match member(dm, k) {
                    Some(dv) => deep_merge_spec(dv, uv),
                    None => uv,
                },
            ),
            None => member(dm, k),
        },
    decreases um.len(),
{
    if um.len() > 0 {
        let up = um.drop_last();
        assert(unique_keys(up));
        law_deep_merge_member(dm, up, k);
        let r = merge_members(dm, up);
        let k2 = um.last().0;
        let v2 = um.last().1;
        let x = match member(r, k2) {
            Some(e) => deep_merge_spec(e, v2),
            None => v2,
        };
        if k2 == k {
            lemma_member_last(um);
            lemma_member_insert(r, k, x);
        } else {
            lemma_member_insert_other(r, k, k2, x);
            lemma_member_not_last(um, k);
        }
    }
}

/// Anything but two objects: the user's value replaces the default.
pub proof fn law_deep_merge_replaces(defaults: JsonV, user: JsonV)
    requires
        !(defaults is Object && user is Object),
    ensures
        deep_merge_spec(defaults, user) == user,
{
}

/// `patch` applied over `base`, member by member: map insertion in order.
pub open spec fn insert_all(base: Members, patch: Members) -> Members
    decreases patch.len(),
{
    if patch.len() == 0 {
        base
    } else {
        insert_member(insert_all(base, patch.drop_last()), patch.last().0, patch.last().1)
    }
}

/// The value a shallow merge stores for a patch member: two objects are
/// combined one level deep; anything else replaces what was there.
pub open spec fn shallow_value(old: Option<JsonV>, next: JsonV) -> JsonV {
    match old {
        Some(JsonV::Object(b)) => match next {
            JsonV::Object(p) => JsonV::Object(insert_all(b, p)),
            _ => next,
        },
        _ => next,
    }
}

/// The patch's members folded into `acc` in order, each combined with the
/// existing member by [`shallow_value`].
pub open spec fn merge_shallow_spec(acc: Members, patch: Members) -> Members
    decreases patch.len(),
{
    if patch.len() == 0 {
        acc
    } else {
        let r = merge_shallow_spec(acc, patch.drop_last());
        let k = patch.last().0;
        insert_member(r, k, shallow_value(member(r, k), patch.last().1))
    }
}

/// One level of merging: after applying `patch`, a key has the patch's
/// value where the patch has it, else keeps its old one.
pub proof fn law_insert_all_member(base: Members, patch: Members, k: Seq<char>)
    requires
        unique_keys(patch),
    ensures
        member(insert_all(base, patch), k) == match member(patch, k) {
            Some(v) => Some(v),
            None => member(base, k),
        },
    decreases patch.len(),
{
    if patch.len() > 0 {
        let pp = patch.drop_last();
        assert(unique_keys(pp));
        law_insert_all_member(base, pp, k);
        let r = insert_all(base, pp);
        if patch.last().0 == k {
            lemma_member_last(patch);
            lemma_member_insert(r, k, patch.last().1);
        } else {
            lemma_member_insert_other(r, k, patch.last().0, patch.last().1);
            lemma_member_not_last(patch, k);
        }
    }
}

/// What a shallow merge gives for one key: untouched when the patch does
/// not name it, otherwise the patch's value, combined one level deep with
/// an existing object when both are objects.
pub proof fn law_merge_shallow_member(acc: Members, patch: Members, k: Seq<char>)
    requires
        unique_keys(patch),
    ensures
        member(merge_shallow_spec(acc, patch), k) == match member(patch, k) {
            Some(v) => Some(shallow_value(member(acc, k), v)),
            None => member(acc, k),
        },
    decreases patch.len(),
{
    if patch.len() > 0 {
        let pp = patch.drop_last();
        assert(unique_keys(pp));
        law_merge_shallow_member(acc, pp, k);
        let r = merge_shallow_spec(acc, pp);
        let k2 = patch.last().0;
        let x = shallow_value(member(r, k2), patch.last().1);
        if k2 == k {
            lemma_member_last(patch);
            lemma_member_insert(r, k, x);
        } else {
            lemma_member_insert_other(r, k, k2, x);
            lemma_member_not_last(patch, k);
        }
    }
}

// ---------------------------------------------------------------------------
// Executable operations
// ---------------------------------------------------------------------------

/// Position of the first member named `k`.
pub fn find_member(m: &Vec<(String, Json)>, k: &str) -> (r: Option<usize>)
    ensures
        match r {
            Some(j) => j == key_pos(view_members(m@), k@) && j < m@.len(),
            None => key_pos(view_members(m@), k@) < 0,
        },
{
    let ghost vm = view_members(m@);
    proof {
        lemma_view_members(m@);
        lemma_key_pos(vm, k@);
    }
    let mut i: usize = 0;
    while i < m.len()
        invariant
            0 <= i <= m@.len(),
            vm == view_members(m@),
            vm.len() == m@.len(),
            forall|j: int| 0 <= j < m@.len() ==> #[trigger] vm[j] == (m@[j].0@, view_json(m@[j].1)),
            forall|j: int| 0 <= j < i ==> #[trigger] vm[j].0 != k@,
            -1 <= key_pos(vm, k@) < vm.len(),
            key_pos(vm, k@) >= 0 ==> vm[key_pos(vm, k@)].0 == k@,
            forall|j: int|
                0 <= j < vm.len() && (key_pos(vm, k@) < 0 || j < key_pos(vm, k@)) ==> #[trigger] vm[j].0
                    != k@,
        decreases m@.len() - i,
    {
        if str_eq(m[i].0.as_str(), k) {
            assert(vm[i as int].0 == k@);
            return Some(i);
        }
        i = i + 1;
    }
    None
}

/// The value at `path`, if the path leads to one.
pub fn get_path<'a>(doc: &'a Json, path: &[&str]) -> (r: Option<&'a Json>)
    ensures
        match r {
            Some(v) => get_at(doc@, path_view(path@)) == Some(v@),
            None => get_at(doc@, path_view(path@)) is None,
        },
{
    let ghost p = path_view(path@);
    let mut current = doc;
    let mut i: usize = 0;
    assert(p.skip(0) =~= p);
    while i < path.len()
        invariant
            0 <= i <= path@.len(),
            p == path_view(path@),
            get_at(doc@, p) == get_at(current@, p.skip(i as int)),
        decreases path@.len() - i,
    {
        let part = path[i];
        let ghost s = p.skip(i as int);
        assert(s[0] == part@);
        assert(s.drop_first() =~= p.skip(i + 1));
        let next: &Json = match current {
            Json::Object(m) => match find_member(m, part) {
                Some(j) => {
                    proof {
                        lemma_view_members(m@);
                    }
                    &m[j].1
                },
                None => {
                    return None;
                },
            },
            Json::Array(a) => {
                let pc = chars_of(part);
                match parse_usize(&pc) {
                    Some(ix) => if ix < a.len() {
                        proof {
                            lemma_view_elems(a@);
                        }
                        &a[ix]
                    } else {
                        proof {
                            lemma_view_elems(a@);
                        }
                        return None;
                    },
                    None => {
                        return None;
                    },
                }
            },
            _ => {
                return None;
            },
        };
        current = next;
        i = i + 1;
    }
    assert(p.skip(i as int) =~= Seq::<Seq<char>>::empty());
    Some(current)
}

/// Whether the segment is an array index.
fn index_segment(part: &str) -> (r: Option<usize>)
    ensures
        match r {
            Some(i) => index_of(part@) == Some(i as nat),
            None => index_of(part@) is None,
        },
{
    let pc = chars_of(part);
    parse_usize(&pc)
}

fn set_rec(doc: Json, path: &[&str], i: usize, value: Json) -> (r: Json)
    requires
        i <= path@.len(),
    ensures
        r@ == set_at(doc@, path_view(path@).skip(i as int), value@),
    decreases path@.len() - i,
{
    let ghost p = path_view(path@);
    let ghost s = p.skip(i as int);
    if i >= path.len() {
        assert(s.len() == 0);
        return doc;
    }
    let part = path[i];
    assert(s[0] == part@);
    assert(s.drop_first() =~= p.skip(i + 1));
    let last = i + 1 == path.len();
    let index = index_segment(part);
    let is_array = match &doc {
        Json::Array(_) => true,
        _ => false,
    };
    if is_array && index.is_some() {
        let ix = index.unwrap();
        let mut a = match doc {
            Json::Array(a) => a,
            _ => Vec::new(),
        };
        let ghost a0 = a@;
        let ghost va = pad(view_elems(a0), ix as nat);
        proof {
            lemma_view_elems(a0);
        }
        while a.len() <= ix
            invariant
                a0.len() <= a@.len(),
                a@.len() <= ix + 1 || a@.len() == a0.len(),
                forall|k: int| 0 <= k < a0.len() ==> #[trigger] a@[k] == a0[k],
                forall|k: int| a0.len() <= k < a@.len() ==> #[trigger] a@[k] == Json::Null,
            decreases ix + 1 - a@.len(),
        {
            a.push(Json::Null);
        }
        let ghost ap = a@;
        proof {
            lemma_view_elems(ap);
            assert(view_elems(ap) =~= va);
            assert(doc@ == JsonV::Array(view_elems(a0)));
        }
        if last {
            proof {
                lemma_elems_update(ap, ix as int, value);
            }
            a.set(ix, value);
        } else {
            let mut child = Json::Null;
            a.set_and_swap(ix, &mut child);
            assert(view_json(child) == va[ix as int]);
            let nc = set_rec(child, path, i + 1, value);
            a.set(ix, nc);
            proof {
                assert(a@ =~= ap.update(ix as int, nc));
                lemma_elems_update(ap, ix as int, nc);
            }
        }
        return Json::Array(a);
    }
    assert(!(doc@ is Array && index_of(part@) is Some));
    let mut m = match doc {
        Json::Object(m) => m,
        _ => Vec::new(),
    };
    let ghost m0 = m@;
    assert(view_members(m0) =~= match doc@ {
        JsonV::Object(mm) => mm,
        _ => Seq::empty(),
    });
    proof {
        lemma_view_members(m0);
        lemma_key_pos(view_members(m0), part@);
    }
    if last {
        insert_member_exec(&mut m, part, value);
        return Json::Object(m);
    }
    let next_is_index = index_segment(path[i + 1]).is_some();
    assert(s.drop_first()[0] == path@[i + 1]@);
    match find_member(&m, part) {
        Some(j) => {
            let mut entry = (String::new(), Json::Null);
            m.set_and_swap(j, &mut entry);
            let (key, slot) = entry;
            let slot2 = match slot {
                Json::Object(o) => Json::Object(o),
                Json::Array(v) => Json::Array(v),
                _ => if next_is_index {
                    Json::Array(Vec::new())
                } else {
                    Json::Object(Vec::new())
                },
            };
            proof {
                lemma_view_elems(Seq::<Json>::empty());
                lemma_view_members(Seq::<(String, Json)>::empty());
            }
            let nv = set_rec(slot2, path, i + 1, value);
            let ghost m1 = m@;
            m.set(j, (key, nv));
            proof {
                assert(m@ =~= m0.update(j as int, (key, nv)));
                lemma_members_update(m0, j as int, (key, nv));
            }
            Json::Object(m)
        },
        None => {
            let slot2 = if next_is_index {
                Json::Array(Vec::new())
            } else {
                Json::Object(Vec::new())
            };
            let nv = set_rec(slot2, path, i + 1, value);
            let key = String::from_str(part);
            m.push((key, nv));
            proof {
                assert(m@.drop_last() =~= m0);
            }
            Json::Object(m)
        },
    }
}

/// Map insertion on object members.
fn insert_member_exec(m: &mut Vec<(String, Json)>, k: &str, v: Json)
    ensures
        view_members(final(m)@) == insert_member(view_members(old(m)@), k@, v@),
{
    let ghost m0 = m@;
    proof {
        lemma_view_members(m0);
        lemma_key_pos(view_members(m0), k@);
    }
    match find_member(m, k) {
        Some(j) => {
            let key = String::from_str(k);
            let ghost entry = (key, v);
            m.set(j, (key, v));
            proof {
                lemma_members_update(m0, j as int, entry);
            }
        },
        None => {
            let key = String::from_str(k);
            m.push((key, v));
            proof {
                assert(m@.drop_last() =~= m0);
            }
        },
    }
}

/// Write `value` at `path` (see [`set_at`]): an index segment writes into
/// an array, padding it with nulls; any other segment writes an object
/// member; missing intermediates become arrays or objects as the next
/// segment calls for.
pub fn set_path(doc: &mut Json, path: &[&str], value: Json)
    ensures
        final(doc)@ == set_at(old(doc)@, path_view(path@), value@),
{
    let mut d = Json::Null;
    std::mem::swap(&mut d, doc);
    let r = set_rec(d, path, 0, value);
    assert(path_view(path@).skip(0) =~= path_view(path@));
    *doc = r;
}

/// The members not named `k`, in order (map removal).
pub fn remove_member_exec(m: Vec<(String, Json)>, k: &str) -> (r: Vec<(String, Json)>)
    ensures
        view_members(r@) == remove_member(view_members(m@), k@),
{
    let ghost m0 = m@;
    let mut m = m;
    let mut out: Vec<(String, Json)> = Vec::new();
    let mut i: usize = 0;
    assert(m0.subrange(0, 0) =~= Seq::<(String, Json)>::empty());
    while i < m.len()
        invariant
            0 <= i <= m0.len(),
            m@.len() == m0.len(),
            forall|j: int| i <= j < m0.len() ==> #[trigger] m@[j] == m0[j],
            view_members(out@) == remove_member(view_members(m0.subrange(0, i as int)), k@),
        decreases m0.len() - i,
    {
        let mut e = (String::new(), Json::Null);
        m.set_and_swap(i, &mut e);
        let ghost pre = m0.subrange(0, i as int);
        let ghost next = m0.subrange(0, i + 1);
        assert(next.drop_last() =~= pre);
        assert(next.last() == e);
        assert(view_members(next) == view_members(pre).push((e.0@, view_json(e.1))));
        assert(view_members(next).drop_last() =~= view_members(pre));
        assert(view_members(next).last() == (e.0@, view_json(e.1)));
        if !str_eq(e.0.as_str(), k) {
            let ghost out0 = out@;
            out.push(e);
            assert(out@.drop_last() =~= out0);
        }
        i = i + 1;
    }
    assert(m0.subrange(0, i as int) =~= m0);
    out
}

fn remove_rec(doc: Json, path: &[&str], i: usize) -> (r: Json)
    requires
        i <= path@.len(),
    ensures
        r@ == remove_at(doc@, path_view(path@).skip(i as int)),
    decreases path@.len() - i,
{
    let ghost p = path_view(path@);
    let ghost s = p.skip(i as int);
    if i >= path.len() {
        assert(s.len() == 0);
        return doc;
    }
    let part = path[i];
    assert(s[0] == part@);
    assert(s.drop_first() =~= p.skip(i + 1));
    let last = i + 1 == path.len();
    match doc {
        Json::Object(m) => {
            proof {
                lemma_view_members(m@);
            }
            if last {
                return Json::Object(remove_member_exec(m, part));
            }
            match find_member(&m, part) {
                Some(j) => {
                    let ghost m0 = m@;
                    let mut m = m;
                    let mut entry = (String::new(), Json::Null);
                    m.set_and_swap(j, &mut entry);
                    let (key, child) = entry;
                    let nc = remove_rec(child, path, i + 1);
                    m.set(j, (key, nc));
                    proof {
                        assert(m@ =~= m0.update(j as int, (key, nc)));
                        lemma_members_update(m0, j as int, (key, nc));
                        lemma_key_pos(view_members(m0), part@);
                    }
                    Json::Object(m)
                },
                None => Json::Object(m),
            }
        },
        Json::Array(a) => {
            proof {
                lemma_view_elems(a@);
            }
            match index_segment(part) {
                Some(ix) => if ix < a.len() {
                    let ghost a0 = a@;
                    let mut a = a;
                    if last {
                        a.remove(ix);
                        proof {
                            lemma_elems_remove(a0, ix as int);
                        }
                    } else {
                        let mut child = Json::Null;
                        a.set_and_swap(ix, &mut child);
                        let nc = remove_rec(child, path, i + 1);
                        a.set(ix, nc);
                        proof {
                            assert(a@ =~= a0.update(ix as int, nc));
                            lemma_elems_update(a0, ix as int, nc);
                        }
                    }
                    Json::Array(a)
                } else {
                    Json::Array(a)
                },
                None => Json::Array(a),
            }
        },
        other => other,
    }
}

/// Remove the value at `path` (see [`remove_at`]): an object member is
/// deleted, an array element taken out; a path that leads nowhere changes
/// nothing.
pub fn remove_path(doc: &mut Json, path: &[&str])
    ensures
        final(doc)@ == remove_at(old(doc)@, path_view(path@)),
{
    let mut d = Json::Null;
    std::mem::swap(&mut d, doc);
    let r = remove_rec(d, path, 0);
    assert(path_view(path@).skip(0) =~= path_view(path@));
    *doc = r;
}

impl Json {
    /// A deep copy.
    pub fn copy(&self) -> (r: Json)
        ensures
            r@ == self@,
        decreases self,
    {
        match self {
            Json::Null => Json::Null,
            Json::Bool(b) => Json::Bool(*b),
            Json::Number(n) => Json::Number(n.clone()),
            Json::Str(t) => Json::Str(t.clone()),
            Json::Array(v) => Json::Array(copy_elems(v)),
            Json::Object(m) => Json::Object(copy_members(m)),
        }
    }
}

impl Json {
    /// Structural equality of two documents.
    pub fn same(&self, other: &Json) -> (r: bool)
        ensures
            r == (self@ == other@),
        decreases self,
    {
        match (self, other) {
            (Json::Null, Json::Null) => true,
            (Json::Bool(a), Json::Bool(b)) => *a == *b,
            (Json::Number(a), Json::Number(b)) => crate::text::str_eq(a.as_str(), b.as_str()),
            (Json::Str(a), Json::Str(b)) => crate::text::str_eq(a.as_str(), b.as_str()),
            (Json::Array(a), Json::Array(b)) => same_elems(a, b),
            (Json::Object(a), Json::Object(b)) => same_members(a, b),
            _ => false,
        }
    }
}

fn same_elems(a: &Vec<Json>, b: &Vec<Json>) -> (r: bool)
    ensures
        r == (view_elems(a@) == view_elems(b@)),
    decreases a,
{
    proof {
        lemma_view_elems(a@);
        lemma_view_elems(b@);
    }
    if a.len() != b.len() {
        return false;
    }
    let mut i: usize = 0;
    while i < a.len()
        invariant
            0 <= i <= a@.len(),
            a@.len() == b@.len(),
            view_elems(a@).len() == a@.len(),
            view_elems(b@).len() == b@.len(),
            forall|j: int| 0 <= j < a@.len() ==> #[trigger] view_elems(a@)[j] == view_json(a@[j]),
            forall|j: int| 0 <= j < b@.len() ==> #[trigger] view_elems(b@)[j] == view_json(b@[j]),
            forall|j: int| 0 <= j < i ==> view_json(#[trigger] a@[j]) == view_json(b@[j]),
        decreases a@.len() - i,
    {
        proof {
            vstd::std_specs::vec::axiom_vec_index_decreases(*a, i as int);
        }
        if !a[i].same(&b[i]) {
            assert(view_elems(a@)[i as int] != view_elems(b@)[i as int]);
            return false;
        }
        i = i + 1;
    }
    assert(view_elems(a@) =~= view_elems(b@));
    true
}

fn same_members(a: &Vec<(String, Json)>, b: &Vec<(String, Json)>) -> (r: bool)
    ensures
        r == (view_members(a@) == view_members(b@)),
    decreases a,
{
    proof {
        lemma_view_members(a@);
        lemma_view_members(b@);
    }
    if a.len() != b.len() {
        return false;
    }
    let mut i: usize = 0;
    while i < a.len()
        invariant
            0 <= i <= a@.len(),
            a@.len() == b@.len(),
            view_members(a@).len() == a@.len(),
            view_members(b@).len() == b@.len(),
            forall|j: int| 0 <= j < a@.len() ==> #[trigger] view_members(a@)[j] == (a@[j].0@, view_json(a@[j].1)),
            forall|j: int| 0 <= j < b@.len() ==> #[trigger] view_members(b@)[j] == (b@[j].0@, view_json(b@[j].1)),
            forall|j: int| 0 <= j < i ==> #[trigger] view_members(a@)[j] == view_members(b@)[j],
        decreases a@.len() - i,
    {
        proof {
            vstd::std_specs::vec::axiom_vec_index_decreases(*a, i as int);
            assert(decreases_to!(a[i as int] => a[i as int].1));
        }
        if !crate::text::str_eq(a[i].0.as_str(), b[i].0.as_str()) {
            assert(view_members(a@)[i as int] != view_members(b@)[i as int]);
            return false;
        }
        if !a[i].1.same(&b[i].1) {
            assert(view_members(a@)[i as int] != view_members(b@)[i as int]);
            return false;
        }
        i = i + 1;
    }
    assert(view_members(a@) =~= view_members(b@));
    true
}

/// A deep copy of array elements.
pub fn copy_elems(v: &Vec<Json>) -> (r: Vec<Json>)
    ensures
        view_elems(r@) == view_elems(v@),
    decreases v,
{
    let mut out: Vec<Json> = Vec::new();
    let mut i: usize = 0;
    proof {
        lemma_view_elems(v@);
    }
    while i < v.len()
        invariant
            0 <= i <= v@.len(),
            out@.len() == i,
            forall|j: int| 0 <= j < i ==> view_json(#[trigger] out@[j]) == view_json(v@[j]),
        decreases v@.len() - i,
    {
        proof {
            vstd::std_specs::vec::axiom_vec_index_decreases(*v, i as int);
        }
        let c = v[i].copy();
        out.push(c);
        i = i + 1;
    }
    proof {
        lemma_view_elems(out@);
        assert(view_elems(out@) =~= view_elems(v@));
    }
    out
}

/// A deep copy of object members.
pub fn copy_members(m: &Vec<(String, Json)>) -> (r: Vec<(String, Json)>)
    ensures
        view_members(r@) == view_members(m@),
    decreases m,
{
    let mut out: Vec<(String, Json)> = Vec::new();
    let mut i: usize = 0;
    proof {
        lemma_view_members(m@);
    }
    while i < m.len()
        invariant
            0 <= i <= m@.len(),
            out@.len() == i,
            forall|j: int|
                0 <= j < i ==> (#[trigger] out@[j]).0@ == m@[j].0@ && view_json(out@[j].1)
                    == view_json(m@[j].1),
        decreases m@.len() - i,
    {
        proof {
            vstd::std_specs::vec::axiom_vec_index_decreases(*m, i as int);
        }
        let k = m[i].0.clone();
        let c = m[i].1.copy();
        out.push((k, c));
        i = i + 1;
    }
    proof {
        lemma_view_members(out@);
        assert(view_members(out@) =~= view_members(m@));
    }
    out
}

/// Deep-merge `user` over `defaults`: objects merge recursively,
/// arrays and scalars replace.
pub fn deep_merge(defaults: &Json, user: &Json) -> (r: Json)
    ensures
        r@ == deep_merge_spec(defaults@, user@),
    decreases user,
{
    match user {
        Json::Object(u) => match defaults {
            Json::Object(d) => Json::Object(merge_members_exec(d, u)),
            _ => user.copy(),
        },
        _ => user.copy(),
    }
}

fn merge_members_exec(d: &Vec<(String, Json)>, u: &Vec<(String, Json)>) -> (r: Vec<(String, Json)>)
    ensures
        view_members(r@) == merge_members(view_members(d@), view_members(u@)),
    decreases u,
{
    let mut out = copy_members(d);
    let ghost dm = view_members(d@);
    let ghost um = view_members(u@);
    proof {
        lemma_view_members(u@);
        assert(um.subrange(0, 0) =~= Seq::<(Seq<char>, JsonV)>::empty());
    }
    let mut i: usize = 0;
    while i < u.len()
        invariant
            0 <= i <= u@.len(),
            dm == view_members(d@),
            um == view_members(u@),
            um.len() == u@.len(),
            forall|j: int| 0 <= j < u@.len() ==> #[trigger] um[j] == (u@[j].0@, view_json(u@[j].1)),
            view_members(out@) == merge_members(dm, um.subrange(0, i as int)),
        decreases u@.len() - i,
    {
        let ghost pre = um.subrange(0, i as int);
        let ghost next = um.subrange(0, i + 1);
        assert(next.drop_last() =~= pre);
        assert(next.last() == um[i as int]);
        let key = u[i].0.as_str();
        proof {
            vstd::std_specs::vec::axiom_vec_index_decreases(*u, i as int);
            lemma_view_members(out@);
        }
        let merged = match find_member(&out, key) {
            Some(j) => deep_merge(&out[j].1, &u[i].1),
            None => u[i].1.copy(),
        };
        insert_member_exec(&mut out, key, merged);
        i = i + 1;
    }
    assert(um.subrange(0, i as int) =~= um);
    out
}

/// Shallow-merge `patch` into `acc`: each patch member replaces the member
/// of the same name, except that two objects are combined one level deep
/// (the patch's members over the existing ones).
pub fn merge_shallow(acc: &mut Vec<(String, Json)>, patch: &Vec<(String, Json)>)
    ensures
        view_members(final(acc)@) == merge_shallow_spec(view_members(old(acc)@), view_members(patch@)),
{
    let ghost am = view_members(acc@);
    let ghost pm = view_members(patch@);
    proof {
        lemma_view_members(patch@);
        assert(pm.subrange(0, 0) =~= Seq::<(Seq<char>, JsonV)>::empty());
    }
    let mut i: usize = 0;
    while i < patch.len()
        invariant
            0 <= i <= patch@.len(),
            pm == view_members(patch@),
            pm.len() == patch@.len(),
            forall|j: int|
                0 <= j < patch@.len() ==> #[trigger] pm[j] == (patch@[j].0@, view_json(patch@[j].1)),
            view_members(acc@) == merge_shallow_spec(am, pm.subrange(0, i as int)),
        decreases patch@.len() - i,
    {
        let ghost pre = pm.subrange(0, i as int);
        let ghost next = pm.subrange(0, i + 1);
        assert(next.drop_last() =~= pre);
        assert(next.last() == pm[i as int]);
        let key = patch[i].0.as_str();
        let next_value = &patch[i].1;
        proof {
            lemma_view_members(acc@);
        }
        let merged = match find_member(acc, key) {
            Some(j) => match (&acc[j].1, next_value) {
                (Json::Object(base), Json::Object(p)) => {
                    let mut combined = copy_members(base);
                    insert_all_exec(&mut combined, p);
                    Json::Object(combined)
                },
                _ => next_value.copy(),
            },
            None => next_value.copy(),
        };
        insert_member_exec(acc, key, merged);
        i = i + 1;
    }
    assert(pm.subrange(0, i as int) =~= pm);
}

/// Map insertion of every member of `patch`, in order.
fn insert_all_exec(base: &mut Vec<(String, Json)>, patch: &Vec<(String, Json)>)
    ensures
        view_members(final(base)@) == insert_all(view_members(old(base)@), view_members(patch@)),
{
    let ghost bm = view_members(base@);
    let ghost pm = view_members(patch@);
    proof {
        lemma_view_members(patch@);
        assert(pm.subrange(0, 0) =~= Seq::<(Seq<char>, JsonV)>::empty());
    }
    let mut i: usize = 0;
    while i < patch.len()
        invariant
            0 <= i <= patch@.len(),
            pm == view_members(patch@),
            pm.len() == patch@.len(),
            forall|j: int|
                0 <= j < patch@.len() ==> #[trigger] pm[j] == (patch@[j].0@, view_json(patch@[j].1)),
            view_members(base@) == insert_all(bm, pm.subrange(0, i as int)),
        decreases patch@.len() - i,
    {
        let ghost pre = pm.subrange(0, i as int);
        let ghost next = pm.subrange(0, i + 1);
        assert(next.drop_last() =~= pre);
        assert(next.last() == pm[i as int]);
        let v = patch[i].1.copy();
        insert_member_exec(base, patch[i].0.as_str(), v);
        i = i + 1;
    }
    assert(pm.subrange(0, i as int) =~= pm);
}

/// Whether a document can be saved as the config file: its root must be an
/// object, and its `config` member, when present and not null, an object.
pub open spec fn root_error(doc: JsonV) -> Option<Seq<char>> {
    match doc {
        JsonV::Object(m) => match member(m, "config"@) {
            Some(JsonV::Object(_)) | Some(JsonV::Null) | None => None,
            Some(_) => Some("`config` must be a JSON object."@),
        },
        _ => Some("Configuration root must be a JSON object."@),
    }
}

/// Reject documents the app can't represent before they reach the file.
pub fn validate_root(value: &Json) -> (r: Result<(), String>)
    ensures
        match root_error(value@) {
            None => r is Ok,
            Some(e) => r matches Err(msg) && msg@ == e,
        },
{
    match value {
        Json::Object(m) => {
            proof {
                lemma_view_members(m@);
            }
            match find_member(m, "config") {
                Some(j) => match &m[j].1 {
                    Json::Object(_) | Json::Null => Ok(()),
                    _ => Err(String::from_str("`config` must be a JSON object.")),
                },
                None => Ok(()),
            }
        },
        _ => Err(String::from_str("Configuration root must be a JSON object.")),
    }
}

// ---------------------------------------------------------------------------
// JSON text, read and written by serde_json
// ---------------------------------------------------------------------------

#[verifier::external_type_specification]
#[verifier::external_body]
pub struct ExJsonValue(serde_json::Value);

/// What serde_json reads from `text`, as this model: the value
/// (`serde_json::from_str::<serde_json::Value>`, numbers kept as the text
/// serde_json prints for them), or the text of its error. A function of the
/// text alone.
pub uninterp spec fn json_of_text(text: Seq<char>) -> Result<JsonV, Seq<char>>;

/// serde_json's value as this model, variant by variant (numbers as the
/// text serde_json prints for them).
#[verifier::external_body]
fn json_from_value(v: serde_json::Value) -> Json {
    match v {
        serde_json::Value::Null => Json::Null,
        serde_json::Value::Bool(b) => Json::Bool(b),
        serde_json::Value::Number(n) => Json::Number(n.to_string()),
        serde_json::Value::String(s) => Json::Str(s),
        serde_json::Value::Array(a) => Json::Array(a.into_iter().map(json_from_value).collect()),
        serde_json::Value::Object(m) => Json::Object(m.into_iter().map(|(k, v)| (k, json_from_value(v))).collect()),
    }
}

/// Calls `serde_json::from_str::<serde_json::Value>`: the contract names
/// its result (`json_of_text`), the value or the error's text; what text
/// parses, and to what, is not stated.
#[verifier::external_body]
pub(crate) fn parse_json(text: &str) -> (r: Result<Json, String>)
    ensures
        match r {
            Ok(j) => json_of_text(text@) == Ok::<JsonV, Seq<char>>(j@),
            Err(e) => json_of_text(text@) == Err::<JsonV, Seq<char>>(e@),
        },
{
    serde_json::from_str::<serde_json::Value>(text).map(json_from_value).map_err(|e| e.to_string())
}

/// The text `serde_json::to_string_pretty` writes for `v` (two-space
/// indentation, no trailing newline). A function of the value alone.
pub uninterp spec fn json_pretty(v: JsonV) -> Seq<char>;

/// This model as serde_json's value, variant by variant; a number text
/// serde_json does not read becomes `null`.
#[verifier::external_body]
fn value_of_json(j: &Json) -> serde_json::Value {
    match j {
        Json::Null => serde_json::Value::Null,
        Json::Bool(b) => serde_json::Value::Bool(*b),
        Json::Number(t) => serde_json::from_str::<serde_json::Value>(t).unwrap_or(serde_json::Value::Null),
        Json::Str(s) => serde_json::Value::String(s.clone()),
        Json::Array(a) => serde_json::Value::Array(a.iter().map(value_of_json).collect()),
        Json::Object(m) => serde_json::Value::Object(m.iter().map(|(k, v)| (k.clone(), value_of_json(v))).collect()),
    }
}

/// Calls `serde_json::to_string_pretty` on the value: the contract names
/// its result (`json_pretty`); the layout is not stated.
#[verifier::external_body]
fn pretty_json(j: &Json) -> (r: String)
    ensures
        r@ == json_pretty(j@),
{
    serde_json::to_string_pretty(&value_of_json(j)).unwrap_or_default()
}

/// A document as the config file holds it: pretty JSON and a newline.
pub fn format_json(j: &Json) -> (r: String)
    ensures
        r@ == json_pretty(j@).push('\n'),
{
    let mut v = crate::text::chars_of(pretty_json(j).as_str());
    v.push('\n');
    crate::text::string_of(&v)
}

} // verus!
