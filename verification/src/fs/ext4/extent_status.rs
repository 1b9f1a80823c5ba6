//! States of an extent.

use vstd::prelude::*;

verus! {

pub const EXTENT_STATUS_INIT: u8 = 0;
pub const EXTENT_STATUS_LOADING: u8 = 1;
pub const EXTENT_STATUS_LOADED: u8 = 2;
pub const EXTENT_STATUS_UNWRITTEN: u8 = 3;
pub const EXTENT_STATUS_HOLE: u8 = 4;

} // verus!
