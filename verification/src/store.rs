//! Named values: the variables of the executor and the properties of an
//! object. Names are looked up by their first occurrence; setting a name
//! replaces that value in place or adds the name at the end, so a list
//! built this way never holds a name twice.
use vstd::prelude::*;
use crate::value::{Type, Val, val_of, fields_of, lemma_fields_of};
use crate::text::{copy_string, same_text};

verus! {

broadcast use vstd::std_specs::vec::group_vec_axioms;

/// No name occurs twice.
pub open spec fn unique_names(s: Seq<(Seq<char>, Val)>) -> bool {
    forall|i: int, j: int| 0 <= i < j < s.len() ==> s[i].0 != s[j].0
}

/// The index of the first occurrence of a name, if it occurs.
pub open spec fn index_of_name(s: Seq<(Seq<char>, Val)>, k: Seq<char>) -> Option<int>
    decreases s.len(),
{
    if s.len() == 0 {
        None
    } else {
        match index_of_name(s.drop_last(), k) {
            Some(i) => Some(i),
            None => if s.last().0 == k {
                Some(s.len() - 1)
            } else {
                None
            },
        }
    }
}

/// `index_of_name` finds the first occurrence.
pub proof fn lemma_index_of_name(s: Seq<(Seq<char>, Val)>, k: Seq<char>)
    ensures
        match index_of_name(s, k) {
            Some(i) => 0 <= i < s.len() && s[i].0 == k && forall|j: int| 0 <= j < i ==> s[j].0 != k,
            None => forall|j: int| 0 <= j < s.len() ==> s[j].0 != k,
        },
    decreases s.len(),
{
    if s.len() > 0 {
        lemma_index_of_name(s.drop_last(), k);
        assert forall|j: int| 0 <= j < s.len() - 1 implies s.drop_last()[j] == s[j] by {}
    }
}

/// The first occurrence is the only index with those properties.
pub proof fn lemma_first_index(s: Seq<(Seq<char>, Val)>, k: Seq<char>, i: int)
    requires
        0 <= i < s.len(),
        s[i].0 == k,
        forall|j: int| 0 <= j < i ==> s[j].0 != k,
    ensures
        index_of_name(s, k) == Some(i),
{
    lemma_index_of_name(s, k);
}

/// The value of a name, if it occurs.
pub open spec fn lookup(s: Seq<(Seq<char>, Val)>, k: Seq<char>) -> Option<Val> {
    match index_of_name(s, k) {
        Some(i) => Some(s[i].1),
        None => None,
    }
}

/// The names after setting `k` to `v`: replaced in place, or added at the end.
pub open spec fn assign(s: Seq<(Seq<char>, Val)>, k: Seq<char>, v: Val) -> Seq<(Seq<char>, Val)> {
    match index_of_name(s, k) {
        Some(i) => s.update(i, (k, v)),
        None => s.push((k, v)),
    }
}

/// The names after removing `k`.
pub open spec fn unassign(s: Seq<(Seq<char>, Val)>, k: Seq<char>) -> Seq<(Seq<char>, Val)> {
    match index_of_name(s, k) {
        Some(i) => s.remove(i),
        None => s,
    }
}

/// The names, in order.
pub open spec fn names_of(s: Seq<(Seq<char>, Val)>) -> Seq<Seq<char>> {
    s.map_values(|f: (Seq<char>, Val)| f.0)
}

pub proof fn lemma_remove_unique(s: Seq<(Seq<char>, Val)>, i: int)
    requires
        unique_names(s),
        0 <= i < s.len(),
    ensures
        unique_names(s.remove(i)),
{
    let t = s.remove(i);
    assert forall|a: int, b: int| 0 <= a < b < t.len() implies t[a].0 != t[b].0 by {
        let a2 = if a < i { a } else { a + 1 };
        let b2 = if b < i { b } else { b + 1 };
        assert(t[a] == s[a2]);
        assert(t[b] == s[b2]);
    }
}

/// Finds the first occurrence of a name among named values.
pub fn find_name(fields: &Vec<(String, Type)>, key: &str) -> (r: Option<usize>)
    ensures
        r matches Some(i) ==> i < fields@.len() && fields@[i as int].0@ == key@
            && forall|j: int| 0 <= j < i ==> fields@[j].0@ != key@,
        r is None ==> forall|i: int| 0 <= i < fields@.len() ==> fields@[i].0@ != key@,
{
    let mut i: usize = 0;
    while i < fields.len()
        invariant
            i <= fields@.len(),
            forall|j: int| 0 <= j < i ==> fields@[j].0@ != key@,
        decreases fields@.len() - i,
    {
        if same_text(fields[i].0.as_str(), key) {
            return Some(i);
        }
        i = i + 1;
    }
    None
}

pub proof fn lemma_find_matches(fields: Seq<(String, Type)>, key: Seq<char>, r: Option<usize>)
    requires
        r matches Some(i) ==> i < fields.len() && fields[i as int].0@ == key
            && forall|j: int| 0 <= j < i ==> fields[j].0@ != key,
        r is None ==> forall|i: int| 0 <= i < fields.len() ==> fields[i].0@ != key,
    ensures
        match r {
            Some(i) => index_of_name(fields_of(fields), key) == Some(i as int),
            None => index_of_name(fields_of(fields), key) is None,
        },
{
    lemma_fields_of(fields);
    match r {
        Some(i) => {
            lemma_first_index(fields_of(fields), key, i as int);
        },
        None => {
            lemma_index_of_name(fields_of(fields), key);
            if index_of_name(fields_of(fields), key) is Some {
                let i = index_of_name(fields_of(fields), key)->0;
                assert(fields_of(fields)[i].0 == fields[i].0@);
            }
        },
    }
}

/// The value of a name, copied.
pub fn get_named(fields: &Vec<(String, Type)>, key: &str) -> (r: Option<Type>)
    ensures
        match r {
            Some(v) => lookup(fields_of(fields@), key@) == Some(v@),
            None => lookup(fields_of(fields@), key@) is None,
        },
{
    let found = find_name(fields, key);
    proof {
        lemma_find_matches(fields@, key@, found);
        lemma_fields_of(fields@);
    }
    match found {
        Some(i) => Some(fields[i].1.duplicate()),
        None => None,
    }
}

/// Sets a name to a value.
pub fn set_named(fields: &mut Vec<(String, Type)>, key: String, value: Type)
    ensures
        fields_of(final(fields)@) == assign(fields_of(old(fields)@), key@, value@),
        unique_names(fields_of(old(fields)@)) ==> unique_names(fields_of(final(fields)@)),
{
    let found = find_name(fields, key.as_str());
    proof {
        lemma_find_matches(fields@, key@, found);
        lemma_fields_of(fields@);
    }
    let ghost old_fields = fields@;
    let ghost kv = key@;
    let ghost vv = value@;
    match found {
        Some(i) => {
            fields.set(i, (key, value));
            proof {
                lemma_fields_of(fields@);
                assert(fields_of(fields@) =~= fields_of(old_fields).update(i as int, (kv, vv)));
                assert forall|j: int| 0 <= j < fields@.len() implies #[trigger] fields_of(fields@)[j].0 == fields_of(old_fields)[j].0 by {
                    lemma_fields_of(old_fields);
                }
            }
        },
        None => {
            fields.push((key, value));
            proof {
                lemma_fields_of(fields@);
                assert(fields_of(fields@) =~= fields_of(old_fields).push((kv, vv)));
            }
        },
    }
}

/// Removes a name.
pub fn remove_named(fields: &mut Vec<(String, Type)>, key: &str)
    ensures
        fields_of(final(fields)@) == unassign(fields_of(old(fields)@), key@),
        unique_names(fields_of(old(fields)@)) ==> unique_names(fields_of(final(fields)@)),
{
    let found = find_name(fields, key);
    proof {
        lemma_find_matches(fields@, key@, found);
        lemma_fields_of(fields@);
    }
    let ghost old_fields = fields@;
    match found {
        Some(i) => {
            fields.remove(i);
            proof {
                lemma_fields_of(fields@);
                assert(fields_of(fields@) =~= fields_of(old_fields).remove(i as int));
                if unique_names(fields_of(old_fields)) {
                    lemma_remove_unique(fields_of(old_fields), i as int);
                }
            }
        },
        None => {},
    }
}

/// The names, copied, in order.
pub fn names(fields: &Vec<(String, Type)>) -> (r: Vec<String>)
    ensures
        crate::text::views(r@) == names_of(fields_of(fields@)),
{
    let mut r: Vec<String> = Vec::new();
    let mut i: usize = 0;
    proof {
        lemma_fields_of(fields@);
    }
    while i < fields.len()
        invariant
            i <= fields@.len(),
            r@.len() == i,
            forall|j: int| 0 <= j < i ==> (#[trigger] r@[j])@ == fields@[j].0@,
        decreases fields@.len() - i,
    {
        r.push(copy_string(&fields[i].0));
        i = i + 1;
    }
    proof {
        lemma_fields_of(fields@);
        assert(crate::text::views(r@) =~= names_of(fields_of(fields@)));
    }
    r
}

// ---------------------------------------------------------------------------
// Laws

/// After setting a name, looking it up gives the value set; a list with
/// no name twice keeps that property.
pub proof fn law_lookup_assign(s: Seq<(Seq<char>, Val)>, k: Seq<char>, v: Val)
    ensures
        lookup(assign(s, k, v), k) == Some(v),
        unique_names(s) ==> unique_names(assign(s, k, v)),
{
    let t = assign(s, k, v);
    lemma_index_of_name(s, k);
    match index_of_name(s, k) {
        Some(i) => {
            assert forall|j: int| 0 <= j < i implies t[j].0 != k by {
                assert(t[j] == s[j]);
            }
            lemma_first_index(t, k, i);
        },
        None => {
            assert forall|j: int| 0 <= j < s.len() implies t[j].0 != k by {
                assert(t[j] == s[j]);
            }
            lemma_first_index(t, k, s.len() as int);
        },
    }
}

/// Setting a name leaves every other name as it was.
pub proof fn law_lookup_assign_other(s: Seq<(Seq<char>, Val)>, k: Seq<char>, v: Val, other: Seq<char>)
    requires
        other != k,
    ensures
        lookup(assign(s, k, v), other) == lookup(s, other),
{
    let t = assign(s, k, v);
    lemma_index_of_name(s, k);
    lemma_index_of_name(s, other);
    assert forall|j: int| 0 <= j < s.len() implies #[trigger] t[j].0 == s[j].0 && (s[j].0 == other ==> t[j] == s[j]) by {
    }
    match index_of_name(s, other) {
        Some(j) => {
            lemma_first_index(t, other, j);
        },
        None => {
            lemma_index_of_name(t, other);
            if index_of_name(t, other) is Some {
                let j = index_of_name(t, other)->0;
                if j < s.len() {
                } else {
                    assert(t[j].0 == k);
                }
            }
        },
    }
}

/// After removing a name it is gone, and other names keep their values.
pub proof fn law_lookup_unassign(s: Seq<(Seq<char>, Val)>, k: Seq<char>, other: Seq<char>)
    requires
        unique_names(s),
    ensures
        lookup(unassign(s, k), k) is None,
        other != k ==> lookup(unassign(s, k), other) == lookup(s, other),
        unique_names(unassign(s, k)),
{
    let t = unassign(s, k);
    lemma_index_of_name(s, k);
    lemma_index_of_name(s, other);
    lemma_index_of_name(t, k);
    lemma_index_of_name(t, other);
    match index_of_name(s, k) {
        Some(i) => {
            lemma_remove_unique(s, i);
            assert forall|j: int| 0 <= j < t.len() implies t[j].0 != k by {
                if j < i {
                    assert(t[j] == s[j]);
                } else {
                    assert(t[j] == s[j + 1]);
                }
            }
            if other != k {
                match index_of_name(s, other) {
                    Some(j) => {
                        let j2 = if j < i { j } else { j - 1 };
                        assert(t[j2] == s[j]);
                        assert forall|q: int| 0 <= q < j2 implies t[q].0 != other by {
                            if q < i {
                                assert(t[q] == s[q]);
                            } else {
                                assert(t[q] == s[q + 1]);
                            }
                        }
                        lemma_first_index(t, other, j2);
                    },
                    None => {
                        assert forall|j: int| 0 <= j < t.len() implies t[j].0 != other by {
                            if j < i {
                                assert(t[j] == s[j]);
                            } else {
                                assert(t[j] == s[j + 1]);
                            }
                        }
                    },
                }
            }
        },
        None => {},
    }
}

} // verus!
