//! Fixed-width values of the chain, held as plain integers.
use vstd::prelude::*;

verus! {

/// A 256-bit word (hash, root or unsigned integer), as four 64-bit limbs,
/// most significant first.
#[derive(Clone, Copy, Debug, PartialEq, Eq, Structural)]
pub struct Word {
    pub w0: u64,
    pub w1: u64,
    pub w2: u64,
    pub w3: u64,
}

/// A 160-bit account address, most significant bits first.
#[derive(Clone, Copy, Debug, PartialEq, Eq, Structural)]
pub struct Address {
    pub hi: u64,
    pub mid: u64,
    pub lo: u32,
}

} // verus!
