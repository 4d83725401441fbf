use vstd::prelude::*;

use crate::connection::Station;
use crate::types::Mtime;

verus! {

/// Entry point for a plain connection scan between two stations. No such
/// scan is implemented: the call computes nothing and changes nothing.
pub fn query(origin: &Station, destination: &Station, start_time: Mtime, max_time: Mtime, now: Mtime) {
}

} // verus!
