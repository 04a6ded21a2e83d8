use vstd::prelude::*;
use indexmap::IndexSet;

verus! {

#[verifier::external_type_specification]
#[verifier::external_body]
#[verifier::reject_recursive_types(T)]
#[verifier::reject_recursive_types(S)]
pub struct ExIndexSet<T, S>(IndexSet<T, S>);

/// The names a set holds, in the order they were first inserted.
pub uninterp spec fn names_in(s: IndexSet<Vec<u8>>) -> Seq<Seq<u8>>;

/// Relies on `IndexSet::new`: a new set holds nothing.
#[verifier::external_body]
pub(crate) fn new_name_set() -> (r: IndexSet<Vec<u8>>)
    ensures
        names_in(r) == Seq::<Seq<u8>>::empty(),
{
    IndexSet::new()
}

/// Relies on `IndexSet::len`: the number of items held.
#[verifier::external_body]
pub(crate) fn name_count(set: &IndexSet<Vec<u8>>) -> (r: usize)
    ensures
        r == names_in(*set).len(),
{
    set.len()
}

/// Relies on `IndexSet::insert_full`: an item already held keeps its index and leaves the set as
/// it was; a new item goes at the end and gets the next index.
#[verifier::external_body]
pub(crate) fn insert_name(set: &mut IndexSet<Vec<u8>>, name: Vec<u8>) -> (r: (usize, bool))
    ensures
        names_in(*old(set)).contains(name@) ==> !r.1 && r.0 < names_in(*old(set)).len()
            && names_in(*old(set))[r.0 as int] == name@ && names_in(*final(set)) == names_in(
            *old(set),
        ),
        !names_in(*old(set)).contains(name@) ==> r.1 && r.0 == names_in(*old(set)).len()
            && names_in(*final(set)) == names_in(*old(set)).push(name@),
{
    set.insert_full(name)
}

/// Relies on `IndexSet`'s `IntoIterator`: the items come out in insertion order.
#[verifier::external_body]
pub(crate) fn into_names(set: IndexSet<Vec<u8>>) -> (r: Vec<Vec<u8>>)
    ensures
        r@.len() == names_in(set).len(),
        forall|i: int| 0 <= i < r@.len() ==> (#[trigger] r@[i])@ == names_in(set)[i],
{
    set.into_iter().collect()
}

} // verus!
