use indexmap::IndexSet;
use vstd::prelude::*;

verus! {

#[verifier::external_type_specification]
#[verifier::external_body]
#[verifier::reject_recursive_types(T)]
#[verifier::reject_recursive_types(S)]
pub struct ExIndexSet<T, S>(IndexSet<T, S>);

/// The items of an insertion-ordered set of strings, in insertion order.
pub uninterp spec fn set_items(s: IndexSet<String>) -> Seq<Seq<char>>;

/// `x` appended to `s` unless `s` already holds it.
pub open spec fn add_unique(s: Seq<Seq<char>>, x: Seq<char>) -> Seq<Seq<char>> {
    if s.contains(x) {
        s
    } else {
        s.push(x)
    }
}

/// Relies on indexmap::IndexSet::new: a new set holds nothing.
#[verifier::external_body]
pub(crate) fn empty_set() -> (r: IndexSet<String>)
    ensures
        set_items(r) == Seq::<Seq<char>>::empty(),
{
    IndexSet::new()
}

/// Relies on indexmap::IndexSet::insert: a value not yet present is appended
/// at the end; an equal value already present leaves the set unchanged.
#[verifier::external_body]
pub(crate) fn set_insert(s: &mut IndexSet<String>, v: String) -> (r: bool)
    ensures
        r == !set_items(*old(s)).contains(v@),
        set_items(*final(s)) == add_unique(set_items(*old(s)), v@),
{
    s.insert(v)
}

/// Relies on indexmap::IndexSet::contains: whether an equal value is present.
#[verifier::external_body]
pub(crate) fn set_contains(s: &IndexSet<String>, v: &str) -> (r: bool)
    ensures
        r == set_items(*s).contains(v@),
{
    s.contains(v)
}

/// Relies on indexmap::IndexSet::len: the number of values held.
#[verifier::external_body]
pub(crate) fn set_len(s: &IndexSet<String>) -> (r: usize)
    ensures
        r == set_items(*s).len(),
{
    s.len()
}

/// Relies on indexmap::IndexSet::get_index: the value at a position in
/// insertion order, if the position is below the length.
#[verifier::external_body]
pub(crate) fn set_get(s: &IndexSet<String>, i: usize) -> (r: Option<&String>)
    ensures
        r is Some <==> i < set_items(*s).len(),
        r matches Some(x) ==> x@ == set_items(*s)[i as int],
{
    s.get_index(i)
}

/// Relies on indexmap::IndexSet::get_index_of: the position of an equal
/// value in insertion order, if one is present.
#[verifier::external_body]
pub(crate) fn set_position(s: &IndexSet<String>, v: &str) -> (r: Option<usize>)
    ensures
        r is None <==> !set_items(*s).contains(v@),
        r matches Some(i) ==> i < set_items(*s).len() && set_items(*s)[i as int] == v@,
{
    s.get_index_of(v)
}

} // verus!
