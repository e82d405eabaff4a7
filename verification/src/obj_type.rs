//! Schema object type numbers (see `schema.txt`).

use vstd::prelude::*;

verus! {

pub const PROGRAM: u16 = 3;

pub const SERIES: u16 = 4;

pub const STATION: u16 = 5;

pub const SHOWING: u16 = 7;

pub const RECORDING: u16 = 14;

} // verus!
