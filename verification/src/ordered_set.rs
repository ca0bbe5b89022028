//! The insertion-ordered set of strings that backs dictionaries and name
//! lists: `indexmap::IndexSet`, with a contract for each method in use.

use vstd::prelude::*;
use indexmap::IndexSet;
use std::collections::hash_map::RandomState;
use crate::text::ascending;

verus! {

/// `indexmap::IndexSet`, of which nothing but the contracts below is known.
#[verifier::external_type_specification]
#[verifier::external_body]
#[verifier::reject_recursive_types(T)]
#[verifier::reject_recursive_types(S)]
pub struct ExIndexSet<T, S>(IndexSet<T, S>);

/// The strings of a set, in the order in which the set holds them.
pub uninterp spec fn set_items(s: IndexSet<String, RandomState>) -> Seq<Seq<char>>;

/// `IndexSet::new`: a set that holds nothing.
#[verifier::external_body]
pub(crate) fn set_new() -> (s: IndexSet<String, RandomState>)
    ensures
        set_items(s) == Seq::<Seq<char>>::empty(),
{
    IndexSet::new()
}

/// `IndexSet::len`: how many strings the set holds.
#[verifier::external_body]
pub(crate) fn set_len(s: &IndexSet<String, RandomState>) -> (n: usize)
    ensures
        n == set_items(*s).len(),
{
    s.len()
}

/// `IndexSet::insert_full`: a string that the set lacks goes to the end and
/// the call returns its position and `true`; for one that it holds the
/// set stays as it is and the call returns a position of that string and
/// `false`.
#[verifier::external_body]
pub(crate) fn set_insert_full(s: &mut IndexSet<String, RandomState>, value: String) -> (r: (
    usize,
    bool,
))
    ensures
        r.1 == !set_items(*old(s)).contains(value@),
        r.1 ==> set_items(*final(s)) == set_items(*old(s)).push(value@) && r.0 == set_items(
            *old(s),
        ).len(),
        !r.1 ==> set_items(*final(s)) == set_items(*old(s)) && r.0 < set_items(*old(s)).len()
            && set_items(*old(s))[r.0 as int] == value@,
{
    s.insert_full(value)
}

/// `IndexSet::get_index`: the string at a position, or nothing where the
/// position is past the end.
#[verifier::external_body]
pub(crate) fn set_get_index(s: &IndexSet<String, RandomState>, index: usize) -> (r: Option<
    &String,
>)
    ensures
        match r {
            Some(v) => index < set_items(*s).len() && v@ == set_items(*s)[index as int],
            None => index >= set_items(*s).len(),
        },
{
    s.get_index(index)
}

/// The string at a position that the set has.
pub(crate) fn set_at(s: &IndexSet<String, RandomState>, index: usize) -> (v: &String)
    requires
        index < set_items(*s).len(),
    ensures
        v@ == set_items(*s)[index as int],
{
    set_get_index(s, index).unwrap()
}

/// `IndexSet::get_full`: a position of the string in the set together with
/// the stored string, or nothing where the set lacks it.
#[verifier::external_body]
pub(crate) fn set_get_full<'a>(s: &'a IndexSet<String, RandomState>, value: &String) -> (r:
    Option<(usize, &'a String)>)
    ensures
        match r {
            Some((i, v)) => i < set_items(*s).len() && set_items(*s)[i as int] == value@ && v@
                == value@,
            None => !set_items(*s).contains(value@),
        },
{
    s.get_full(value)
}

/// `IndexSet::contains`: whether the set holds the string.
#[verifier::external_body]
pub(crate) fn set_contains(s: &IndexSet<String, RandomState>, value: &String) -> (b: bool)
    ensures
        b == set_items(*s).contains(value@),
{
    s.contains(value)
}

/// `IndexSet::sort`: the same strings, each as often as before, in the
/// order of `String`, which compares code point by code point.
#[verifier::external_body]
pub(crate) fn set_sort(s: &mut IndexSet<String, RandomState>)
    ensures
        set_items(*final(s)).to_multiset() == set_items(*old(s)).to_multiset(),
        ascending(set_items(*final(s))),
{
    s.sort()
}

} // verus!
