use vstd::prelude::*;

use core::hash::BuildHasherDefault;
use rustc_hash::{FxHashSet, FxHasher};

verus! {

#[verifier::external_type_specification]
#[verifier::external_body]
pub struct ExFxHasher(FxHasher);

#[verifier::external_type_specification]
#[verifier::external_body]
#[verifier::reject_recursive_types(H)]
pub struct ExBuildHasherDefault<H>(BuildHasherDefault<H>);

/// Calls `FxHashSet::default` (std `HashSet` with rustc-hash's hasher):
/// the new set is empty.
#[verifier::external_body]
pub(crate) fn cut_new() -> (cut: FxHashSet<(usize, usize)>)
    ensures
        cut@ == Set::<(usize, usize)>::empty(),
{
    FxHashSet::default()
}

/// Calls `HashSet::insert` on an `FxHashSet`: afterwards the set also holds the pair.
#[verifier::external_body]
pub(crate) fn cut_insert(cut: &mut FxHashSet<(usize, usize)>, from: usize, to: usize)
    ensures
        final(cut)@ == old(cut)@.insert((from, to)),
{
    cut.insert((from, to));
}

/// Calls `HashSet::clear` on an `FxHashSet`: afterwards the set is empty.
#[verifier::external_body]
pub(crate) fn cut_clear(cut: &mut FxHashSet<(usize, usize)>)
    ensures
        final(cut)@ == Set::<(usize, usize)>::empty(),
{
    cut.clear();
}

} // verus!
