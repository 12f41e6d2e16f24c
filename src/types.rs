//! Fixed-width values of the node: addresses, 256-bit words and hashes.

use vstd::prelude::*;

verus! {

/// A 20-byte account address: the top 4 bytes and the low 16 bytes.
#[derive(Debug, Clone, Copy, PartialEq, Eq, Structural, Hash)]
pub struct Address {
    pub high: u32,
    pub low: u128,
}

/// An unsigned 256-bit integer: its high and low 128 bits.
#[derive(Debug, Clone, Copy, PartialEq, Eq, Structural, Hash)]
pub struct U256 {
    pub high: u128,
    pub low: u128,
}

/// A 32-byte hash: its first and last 16 bytes, big-endian.
#[derive(Debug, Clone, Copy, PartialEq, Eq, Structural, Hash)]
pub struct H256 {
    pub high: u128,
    pub low: u128,
}

pub open spec fn pow2_128() -> nat {
    0x1_0000_0000_0000_0000_0000_0000_0000_0000nat
}

impl Address {
    /// The address read as a big-endian 160-bit number.
    pub open spec fn value(self) -> nat {
        self.high as nat * pow2_128() + self.low as nat
    }
}

impl U256 {
    pub open spec fn value(self) -> nat {
        self.high as nat * pow2_128() + self.low as nat
    }

    pub fn zero() -> (r: U256)
        ensures
            r.value() == 0,
            r == (U256 { high: 0, low: 0 }),
    {
        U256 { high: 0, low: 0 }
    }

    pub fn from_u64(v: u64) -> (r: U256)
        ensures
            r.value() == v as nat,
            r.high == 0,
    {
        U256 { high: 0, low: v as u128 }
    }

    pub fn from_u128(v: u128) -> (r: U256)
        ensures
            r.value() == v as nat,
            r.high == 0,
    {
        U256 { high: 0, low: v }
    }

    pub fn is_zero(&self) -> (r: bool)
        ensures
            r == (self.value() == 0),
    {
        self.high == 0 && self.low == 0
    }

    /// `self - other`, or `None` where that would be negative.
    pub fn checked_sub(self, other: U256) -> (r: Option<U256>)
        ensures
            match r {
                Some(d) => self.value() >= other.value() && d.value() == self.value()
                    - other.value(),
                None => self.value() < other.value(),
            },
    {
        if self.high > other.high || (self.high == other.high && self.low >= other.low) {
            if self.low >= other.low {
                Some(U256 { high: self.high - other.high, low: self.low - other.low })
            } else {
                let low = (u128::MAX - other.low) + self.low + 1;
                proof {
                    assert(self.high as nat * pow2_128() - other.high as nat * pow2_128() == (
                    self.high - other.high) as nat * pow2_128()) by (nonlinear_arith)
                        requires
                            self.high >= other.high,
                    ;
                }
                Some(U256 { high: self.high - other.high - 1, low })
            }
        } else {
            proof {
                if self.high < other.high {
                    assert(self.high as nat * pow2_128() + pow2_128() <= other.high as nat
                        * pow2_128()) by (nonlinear_arith)
                        requires
                            self.high < other.high,
                    ;
                }
            }
            None
        }
    }
}

impl H256 {
    pub open spec fn value(self) -> nat {
        self.high as nat * pow2_128() + self.low as nat
    }

    pub fn zero() -> (r: H256)
        ensures
            r.value() == 0,
    {
        H256 { high: 0, low: 0 }
    }
}

/// The hash of empty code.
pub open spec fn spec_keccak_empty() -> H256 {
    H256 { high: 0xc5d2460186f7233c927e7db2dcc703c0, low: 0xe500b653ca82273b7bfad8045d85a470 }
}

/// The hash of empty code: keccak-256 of no bytes.
pub fn keccak_empty() -> (r: H256)
    ensures
        r == spec_keccak_empty(),
{
    H256 { high: 0xc5d2460186f7233c927e7db2dcc703c0, low: 0xe500b653ca82273b7bfad8045d85a470 }
}

} // verus!
