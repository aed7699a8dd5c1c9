//! Polynomial hashes of the substrings of a byte string, each from two
//! table look-ups.

use vstd::prelude::*;
use vstd::arithmetic::div_mod::{
    lemma_add_mod_noop, lemma_mod_add_multiples_vanish, lemma_mod_bound, lemma_mul_mod_noop_general,
    lemma_sub_mod_noop,
};
use vstd::string::StringSliceAdditionalSpecFns;

verus! {

/// The polynomial in `base` whose coefficients are the first `n` bytes of
/// `s`, the first byte with the highest power.
pub open spec fn poly(s: Seq<u8>, base: int, n: int) -> int
    decreases n,
{
    if n <= 0 {
        0
    } else {
        poly(s, base, n - 1) * base + s[n - 1]
    }
}

/// `base` to the power `k`.
pub open spec fn power(base: int, k: int) -> int
    decreases k,
{
    if k <= 0 {
        1
    } else {
        power(base, k - 1) * base
    }
}

/// The hash of the bytes of `s` from `l` up to `r`.
pub open spec fn piece_hash(s: Seq<u8>, base: int, modulus: int, l: int, r: int) -> int {
    poly(s.subrange(l, r), base, r - l) % modulus
}

/// The polynomial of a prefix splits at any earlier place: the part before
/// it, raised by the length of the part after it, plus the part after it.
pub proof fn lemma_poly_split(s: Seq<u8>, base: int, l: int, r: int)
    requires
        0 <= l <= r <= s.len(),
    ensures
        poly(s, base, r) == poly(s, base, l) * power(base, r - l) + poly(
            s.subrange(l, r),
            base,
            r - l,
        ),
    decreases r - l,
{
    if l < r {
        lemma_poly_split(s, base, l, r - 1);
        lemma_poly_same(s.subrange(l, r), s.subrange(l, r - 1), base, r - 1 - l);
        let a = poly(s, base, l);
        let w = power(base, r - 1 - l);
        let q = poly(s.subrange(l, r - 1), base, r - 1 - l);
        assert(s.subrange(l, r)[r - l - 1] == s[r - 1]);
        assert((a * w + q) * base == a * (w * base) + q * base) by (nonlinear_arith);
    } else {
        assert(poly(s, base, l) * 1 == poly(s, base, l));
    }
}

/// The polynomial reads only the first `n` bytes.
pub proof fn lemma_poly_same(a: Seq<u8>, b: Seq<u8>, base: int, n: int)
    requires
        n <= a.len(),
        n <= b.len(),
        forall|k: int| 0 <= k < n ==> a[k] == b[k],
    ensures
        poly(a, base, n) == poly(b, base, n),
    decreases n,
{
    if n > 0 {
        lemma_poly_same(a, b, base, n - 1);
    }
}

/// One more byte: the hash of the longer prefix from that of the shorter.
proof fn lemma_next_prefix(before: int, base: int, byte: int, modulus: int)
    requires
        modulus > 0,
    ensures
        ((before % modulus) * base + byte) % modulus == (before * base + byte) % modulus,
{
    lemma_mul_mod_noop_general(before, base, modulus);
    lemma_add_mod_noop((before % modulus) * base, byte, modulus);
    lemma_add_mod_noop(before * base, byte, modulus);
}

/// One more factor: the next power's remainder from the last one's.
proof fn lemma_next_power(before: int, held: int, base: int, modulus: int)
    requires
        modulus > 0,
        held % modulus == before % modulus,
    ensures
        (held * base) % modulus == (before * base) % modulus,
{
    lemma_mul_mod_noop_general(before, base, modulus);
    lemma_mul_mod_noop_general(held, base, modulus);
}

/// The hash of a piece from the hashes of the two prefixes that end where
/// it begins and where it ends.
proof fn lemma_piece(whole: int, front: int, raised: int, held: int, piece: int, modulus: int)
    requires
        modulus > 0,
        whole == front * raised + piece,
        held % modulus == raised % modulus,
    ensures
        ((whole % modulus) + modulus - ((front % modulus) * held) % modulus) % modulus == piece
            % modulus,
{
    let x = ((front % modulus) * held) % modulus;
    lemma_mul_mod_noop_general(front, held, modulus);
    lemma_mul_mod_noop_general(front, raised, modulus);
    assert(x == (front * raised) % modulus);
    lemma_sub_mod_noop(whole, front * raised, modulus);
    lemma_mod_add_multiples_vanish((whole % modulus) - x, modulus);
    assert((whole % modulus) + modulus - x == modulus + ((whole % modulus) - x));
}

/// The tables of a byte string for one base and one modulus.
pub struct RollingHash {
    base: u64,
    modu: u64,
    pref: Vec<u64>,
    pow: Vec<u64>,
    text: Ghost<Seq<u8>>,
}

impl RollingHash {
    /// The bytes that were hashed.
    pub closed spec fn text(&self) -> Seq<u8> {
        self.text@
    }

    /// The base of the polynomial.
    pub closed spec fn base(&self) -> u64 {
        self.base
    }

    /// The modulus of the hashes.
    pub closed spec fn modulus(&self) -> u64 {
        self.modu
    }

    /// The tables hold, for each length, the hash of the prefix of that
    /// length and the remainder of the base's power.
    pub closed spec fn wf(&self) -> bool {
        &&& self.modu > 0
        &&& self.pref@.len() == self.text@.len() + 1
        &&& self.pow@.len() == self.text@.len() + 1
        &&& forall|i: int|
            0 <= i <= self.text@.len() ==> #[trigger] self.pref@[i] == poly(
                self.text@,
                self.base as int,
                i,
            ) % (self.modu as int)
        &&& forall|i: int|
            0 <= i <= self.text@.len() ==> (#[trigger] self.pow@[i]) % self.modu == power(
                self.base as int,
                i,
            ) % (self.modu as int)
    }

    /// The tables of `s`.
    pub fn new(s: &str, base: u64, modu: u64) -> (h: RollingHash)
        requires
            modu > 0,
        ensures
            h.wf(),
            h.text() == s.spec_bytes(),
            h.base() == base,
            h.modulus() == modu,
    {
        let bytes = s.as_bytes();
        let mut pref: Vec<u64> = Vec::new();
        let mut pow: Vec<u64> = Vec::new();
        pref.push(0);
        pow.push(1);
        let mut i: usize = 0;
        assert(0int % (modu as int) == 0) by (nonlinear_arith)
            requires
                modu > 0,
        ;
        while i < bytes.len()
            invariant
                modu > 0,
                i <= bytes@.len(),
                pref@.len() == i + 1,
                pow@.len() == i + 1,
                forall|k: int|
                    0 <= k <= i ==> #[trigger] pref@[k] == poly(bytes@, base as int, k) % (
                    modu as int),
                forall|k: int|
                    0 <= k <= i ==> (#[trigger] pow@[k]) % modu == power(base as int, k) % (
                    modu as int),
            decreases bytes@.len() - i,
        {
            let byte = bytes[i];
            let last = pref[i];
            let held = pow[i];
            assert(last as u128 * base as u128 <= 0xffff_ffff_ffff_ffff * 0xffff_ffff_ffff_ffff)
                by (nonlinear_arith)
                requires
                    last <= 0xffff_ffff_ffff_ffff,
                    base <= 0xffff_ffff_ffff_ffff,
            ;
            assert(held as u128 * base as u128 <= 0xffff_ffff_ffff_ffff * 0xffff_ffff_ffff_ffff)
                by (nonlinear_arith)
                requires
                    held <= 0xffff_ffff_ffff_ffff,
                    base <= 0xffff_ffff_ffff_ffff,
            ;
            let next = ((last as u128 * base as u128 + byte as u128) % (modu as u128)) as u64;
            let raised = ((held as u128 * base as u128) % (modu as u128)) as u64;
            proof {
                lemma_next_prefix(poly(bytes@, base as int, i as int), base as int, byte as int, modu as int);
                lemma_next_power(power(base as int, i as int), held as int, base as int, modu as int);
                lemma_mod_bound(held as int * base as int, modu as int);
                vstd::arithmetic::div_mod::lemma_mod_twice(held as int * base as int, modu as int);
            }
            pref.push(next);
            pow.push(raised);
            i += 1;
        }
        RollingHash { base, modu, pref, pow, text: Ghost(bytes@) }
    }

    /// The hash of the bytes from `l` up to `r`.
    pub fn hash(&self, l: usize, r: usize) -> (h: u64)
        requires
            self.wf(),
            l <= r <= self.text().len(),
        ensures
            h == piece_hash(self.text(), self.base() as int, self.modulus() as int, l as int, r as int),
    {
        let whole = self.pref[r];
        let front = self.pref[l];
        let held = self.pow[r - l];
        assert(front as u128 * held as u128 <= 0xffff_ffff_ffff_ffff * 0xffff_ffff_ffff_ffff)
            by (nonlinear_arith)
            requires
                front <= 0xffff_ffff_ffff_ffff,
                held <= 0xffff_ffff_ffff_ffff,
        ;
        let taken = (front as u128 * held as u128) % (self.modu as u128);
        proof {
            let m = self.modu as int;
            let b = self.base as int;
            lemma_poly_split(self.text@, b, l as int, r as int);
            lemma_piece(
                poly(self.text@, b, r as int),
                poly(self.text@, b, l as int),
                power(b, r - l),
                held as int,
                poly(self.text@.subrange(l as int, r as int), b, r - l),
                m,
            );
            vstd::arithmetic::div_mod::lemma_mod_twice(poly(self.text@, b, r as int), m);
            vstd::arithmetic::div_mod::lemma_mod_twice(poly(self.text@, b, l as int), m);
            lemma_mod_bound(front as int * held as int, m);
            lemma_mod_bound(poly(self.text@.subrange(l as int, r as int), b, r - l), m);
        }
        ((whole as u128 + self.modu as u128 - taken) % (self.modu as u128)) as u64
    }
}

} // verus!
