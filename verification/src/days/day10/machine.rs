//! The machine model: buttons, an indicator pattern and counter targets.

use vstd::prelude::*;

verus! {

/// One machine of the factory.
#[derive(Debug)]
pub struct Machine {
    /// The indicator pattern to reach, bit `i` for light `i`.
    pub target: u128,
    /// For each button, the lights it toggles and the counters it
    /// increments, bit `i` for index `i`.
    pub buttons: Vec<u128>,
    /// The required total of each counter.
    pub joltage: Vec<u64>,
}

/// Whether `mask` names index `r`.
pub open spec fn mask_bit(mask: u128, r: int) -> bool {
    0 <= r < 128 && (mask >> (r as u128)) & 1u128 == 1u128
}

/// Whether `mask` names index `row`.
pub fn has_bit(mask: u128, row: usize) -> (b: bool)
    ensures
        b == mask_bit(mask, row as int),
{
    row < 128 && (mask >> (row as u128)) & 1u128 == 1u128
}

/// The empty mask names nothing.
pub proof fn lemma_no_bit(r: int)
    ensures
        !mask_bit(0, r),
{
    if 0 <= r < 128 {
        let s = r as u128;
        assert((0u128 >> s) & 1u128 != 1u128) by (bit_vector);
    }
}

/// Adding index `r` to a mask makes it name `r` and changes nothing else.
pub proof fn lemma_set_bit(mask: u128, r: int, j: int)
    requires
        0 <= r < 128,
    ensures
        mask_bit(mask | (1u128 << (r as u128)), j) == (j == r || mask_bit(mask, j)),
{
    let s = r as u128;
    let after = mask | (1u128 << s);
    if 0 <= j < 128 {
        let t = j as u128;
        if j == r {
            assert((after >> s) & 1u128 == 1u128) by (bit_vector)
                requires
                    s < 128,
                    after == mask | (1u128 << s),
            ;
        } else {
            assert(((after >> t) & 1u128 == 1u128) == ((mask >> t) & 1u128 == 1u128))
                by (bit_vector)
                requires
                    s < 128,
                    t < 128,
                    s != t,
                    after == mask | (1u128 << s),
            ;
        }
    }
}

/// The matrix of the increment puzzle: entry `[r][b]` is one when button `b`
/// increments counter `r`.
pub open spec fn machine_matrix(buttons: Seq<u128>, rows: int) -> Seq<Seq<u8>> {
    Seq::new(
        rows as nat,
        |r: int|
            Seq::new(
                buttons.len(),
                |b: int|
                    if mask_bit(buttons[b], r) {
                        1u8
                    } else {
                        0u8
                    },
            ),
    )
}

} // verus!
