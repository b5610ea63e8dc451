//! The type codes of the compact protocol.
use vstd::prelude::*;

verus! {

/// A boolean field whose value is true.
pub const BOOL_TRUE: u8 = 1;

/// A boolean field whose value is false.
pub const BOOL_FALSE: u8 = 2;

pub const I8: u8 = 3;

pub const I16: u8 = 4;

pub const I32: u8 = 5;

pub const I64: u8 = 6;

pub const DOUBLE: u8 = 7;

pub const BINARY: u8 = 8;

pub const LIST: u8 = 9;

pub const SET: u8 = 10;

pub const MAP: u8 = 11;

pub const STRUCT: u8 = 12;

} // verus!
