use vstd::prelude::*;

verus! {

/// Minutes relative to a reference timestamp.
pub type Mtime = i32;

} // verus!
