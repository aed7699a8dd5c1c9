//! A set of small indices packed into one word.

use vstd::prelude::*;
use vstd::std_specs::convert::FromSpecImpl;

verus! {

/// A set of indices below 128, bit `i` standing for index `i`.
#[derive(Copy, Clone, Debug, PartialEq, Eq, Structural)]
pub struct BitMask {
    pub bits: u128,
}

impl Default for BitMask {
    fn default() -> (b: Self)
        ensures
            b.bits == 0,
    {
        BitMask { bits: 0 }
    }
}

/// The number of ones in the binary representation of `x`.
pub open spec fn ones(x: u128) -> nat
    decreases x,
{
    if x == 0 {
        0
    } else {
        ((x % 2) + ones(x / 2)) as nat
    }
}

/// `u128::count_ones`: the number of ones in the binary representation.
#[verifier::external_body]
fn count_ones_u128(x: u128) -> (n: u32)
    ensures
        n == ones(x),
{
    x.count_ones()
}

impl BitMask {
    /// The empty set.
    pub fn new() -> (b: Self)
        ensures
            b.bits == 0,
    {
        BitMask { bits: 0 }
    }

    /// The set whose members are the bits set in `bits`.
    pub fn with_bits(bits: u128) -> (b: Self)
        ensures
            b.bits == bits,
    {
        BitMask { bits }
    }

    /// Whether index `i` is a member.
    pub open spec fn has(&self, i: u32) -> bool {
        (self.bits >> (i as u128)) & 1u128 == 1u128
    }

    /// Adds index `i`.
    pub fn set(&mut self, i: u32)
        requires
            i < 128,
        ensures
            final(self).bits == old(self).bits | (1u128 << (i as u128)),
            final(self).has(i),
            forall|j: u32| j < 128 && j != i ==> final(self).has(j) == old(self).has(j),
    {
        let ghost before = self.bits;
        self.bits = self.bits | (1u128 << (i as u128));
        proof {
            let after = self.bits;
            let s = i as u128;
            assert((after >> s) & 1u128 == 1u128) by (bit_vector)
                requires
                    s < 128,
                    after == before | (1u128 << s),
            ;
            assert forall|j: u32| j < 128 && j != i implies self.has(j) == old(self).has(j) by {
                let t = j as u128;
                assert(((after >> t) & 1u128 == 1u128) == ((before >> t) & 1u128 == 1u128))
                    by (bit_vector)
                    requires
                        s < 128,
                        t < 128,
                        s != t,
                        after == before | (1u128 << s),
                ;
            }
        }
    }

    /// Removes index `i`.
    pub fn clear(&mut self, i: u32)
        requires
            i < 128,
        ensures
            final(self).bits == old(self).bits & !(1u128 << (i as u128)),
            !final(self).has(i),
            forall|j: u32| j < 128 && j != i ==> final(self).has(j) == old(self).has(j),
    {
        let ghost before = self.bits;
        self.bits = self.bits & !(1u128 << (i as u128));
        proof {
            let after = self.bits;
            let s = i as u128;
            assert((after >> s) & 1u128 != 1u128) by (bit_vector)
                requires
                    s < 128,
                    after == before & !(1u128 << s),
            ;
            assert forall|j: u32| j < 128 && j != i implies self.has(j) == old(self).has(j) by {
                let t = j as u128;
                assert(((after >> t) & 1u128 == 1u128) == ((before >> t) & 1u128 == 1u128))
                    by (bit_vector)
                    requires
                        s < 128,
                        t < 128,
                        s != t,
                        after == before & !(1u128 << s),
                ;
            }
        }
    }

    /// Adds index `i` when it is missing and removes it when it is there.
    pub fn toggle(&mut self, i: u32)
        requires
            i < 128,
        ensures
            final(self).bits == old(self).bits ^ (1u128 << (i as u128)),
            final(self).has(i) == !old(self).has(i),
            forall|j: u32| j < 128 && j != i ==> final(self).has(j) == old(self).has(j),
    {
        let ghost before = self.bits;
        self.bits = self.bits ^ (1u128 << (i as u128));
        proof {
            let after = self.bits;
            let s = i as u128;
            assert(((after >> s) & 1u128 == 1u128) == !((before >> s) & 1u128 == 1u128))
                by (bit_vector)
                requires
                    s < 128,
                    after == before ^ (1u128 << s),
            ;
            assert forall|j: u32| j < 128 && j != i implies self.has(j) == old(self).has(j) by {
                let t = j as u128;
                assert(((after >> t) & 1u128 == 1u128) == ((before >> t) & 1u128 == 1u128))
                    by (bit_vector)
                    requires
                        s < 128,
                        t < 128,
                        s != t,
                        after == before ^ (1u128 << s),
                ;
            }
        }
    }

    /// Whether index `i` is a member.
    pub fn test(&self, i: u32) -> (member: bool)
        requires
            i < 128,
        ensures
            member == self.has(i),
    {
        (self.bits >> (i as u128)) & 1u128 == 1u128
    }

    /// The number of members.
    pub fn count_ones(&self) -> (n: u32)
        ensures
            n == ones(self.bits),
    {
        count_ones_u128(self.bits)
    }

    /// The members as bits of one word.
    pub fn value(&self) -> (bits: u128)
        ensures
            bits == self.bits,
    {
        self.bits
    }
}

impl From<u128> for BitMask {
    fn from(v: u128) -> (b: Self) {
        BitMask { bits: v }
    }
}

impl FromSpecImpl<u128> for BitMask {
    open spec fn obeys_from_spec() -> bool {
        true
    }

    open spec fn from_spec(v: u128) -> Self {
        BitMask { bits: v }
    }
}

} // verus!
