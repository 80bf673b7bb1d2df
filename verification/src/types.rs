//! Core chain identifiers and quantities: 20-byte account addresses,
//! 32-byte transaction hashes, and 256-bit unsigned amounts.

use vstd::prelude::*;
use crate::bytes::pow256;

verus! {

/// A 20-byte account or contract identifier.
#[derive(Clone, Debug)]
pub struct Address {
    pub bytes: Vec<u8>,
}

/// A 32-byte transaction identifier.
#[derive(Clone, Debug)]
pub struct TxHash {
    pub bytes: Vec<u8>,
}

/// A 256-bit unsigned amount in the chain's smallest unit, held as the two
/// 128-bit halves of its big-endian form.
#[derive(Clone, Copy, Debug, PartialEq, Eq, Structural)]
pub struct Uint256 {
    pub hi: u128,
    pub lo: u128,
}

impl Address {
    pub open spec fn wf(self) -> bool {
        self.bytes@.len() == 20
    }

    /// Wraps raw bytes; exactly the 20-byte strings are accepted.
    pub fn from_bytes(bytes: Vec<u8>) -> (r: Option<Address>)
        ensures
            match r {
                Some(a) => a.wf() && a.bytes@ == bytes@ && bytes@.len() == 20,
                None => bytes@.len() != 20,
            },
    {
        if bytes.len() == 20 {
            Some(Address { bytes })
        } else {
            None
        }
    }
}

impl TxHash {
    pub open spec fn wf(self) -> bool {
        self.bytes@.len() == 32
    }

    /// Wraps raw bytes; exactly the 32-byte strings are accepted.
    pub fn from_bytes(bytes: Vec<u8>) -> (r: Option<TxHash>)
        ensures
            match r {
                Some(h) => h.wf() && h.bytes@ == bytes@ && bytes@.len() == 32,
                None => bytes@.len() != 32,
            },
    {
        if bytes.len() == 32 {
            Some(TxHash { bytes })
        } else {
            None
        }
    }
}

impl Uint256 {
    /// The number this amount denotes.
    pub open spec fn value(self) -> nat {
        (self.hi * pow256(16) + self.lo) as nat
    }

    pub fn zero() -> (r: Uint256)
        ensures
            r.value() == 0,
    {
        Uint256 { hi: 0, lo: 0 }
    }

    pub fn from_u64(v: u64) -> (r: Uint256)
        ensures
            r.value() == v,
    {
        Uint256 { hi: 0, lo: v as u128 }
    }

    pub fn from_u128(v: u128) -> (r: Uint256)
        ensures
            r.value() == v,
    {
        Uint256 { hi: 0, lo: v }
    }

    /// The amount as a `u128`, when it fits.
    pub fn to_u128(&self) -> (r: Option<u128>)
        ensures
            match r {
                Some(v) => v as nat == self.value(),
                None => self.value() >= pow256(16),
            },
    {
        proof {
            crate::bytes::lemma_pow256_pos(16);
            if self.hi > 0 {
                assert(self.hi * pow256(16) >= pow256(16)) by (nonlinear_arith)
                    requires
                        self.hi >= 1,
                        pow256(16) >= 1,
                ;
            } else {
                assert(self.hi * pow256(16) == 0) by (nonlinear_arith)
                    requires
                        self.hi == 0,
                ;
            }
        }
        if self.hi == 0 {
            Some(self.lo)
        } else {
            None
        }
    }

    /// Whether the amount is exactly zero.
    pub fn is_zero(&self) -> (r: bool)
        ensures
            r == (self.value() == 0),
    {
        proof {
            crate::bytes::lemma_pow256_pos(16);
            if self.hi > 0 {
                assert(self.hi * pow256(16) >= pow256(16)) by (nonlinear_arith)
                    requires
                        self.hi >= 1,
                        pow256(16) >= 1,
                ;
            } else {
                assert(self.hi * pow256(16) == 0) by (nonlinear_arith)
                    requires
                        self.hi == 0,
                ;
            }
        }
        self.hi == 0 && self.lo == 0
    }
}

/// Any amount held as two 128-bit halves denotes below 256 to the 32nd.
pub proof fn lemma_uint_fits(u: Uint256)
    ensures
        u.value() < pow256(32),
{
    crate::bytes::lemma_u128_fits(u.hi);
    crate::bytes::lemma_u128_fits(u.lo);
    crate::bytes::lemma_pow256_add(16, 16);
    assert((u.hi as nat) * pow256(16) + (u.lo as nat) < pow256(16) * pow256(16))
        by (nonlinear_arith)
        requires
            (u.hi as nat) < pow256(16),
            (u.lo as nat) < pow256(16),
    ;
}

/// Byte-string equality, decided index by index.
pub fn bytes_eq(a: &Vec<u8>, b: &Vec<u8>) -> (r: bool)
    ensures
        r == (a@ == b@),
{
    if a.len() != b.len() {
        assert(a@ != b@);
        return false;
    }
    let n = a.len();
    let mut i: usize = 0;
    while i < n
        invariant
            n == a.len() == b.len(),
            i <= n,
            forall|j: int| 0 <= j < i ==> a@[j] == b@[j],
        decreases n - i,
    {
        if a[i] != b[i] {
            return false;
        }
        i += 1;
    }
    proof {
        assert(a@ =~= b@);
    }
    true
}

} // verus!
