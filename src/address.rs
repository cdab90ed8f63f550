use vstd::prelude::*;

verus! {

/// A chain-native account identifier. The 160 bits of an account address are held
/// big-endian in three words: the top 32 bits, then two 64-bit words.
#[derive(Clone, Copy, Debug, PartialEq, Eq, Structural, Hash)]
pub struct Address {
    pub high: u32,
    pub middle: u64,
    pub low: u64,
}

} // verus!
