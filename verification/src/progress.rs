//! A fixed-width progress bar, rendered into a caller's buffer of cells.
//!
//! The bar occupies the whole buffer: a delimiter at each end and, between
//! them, fill glyphs followed by blank glyphs. How many cells are filled is
//! the floor of the interior length times the completion fraction, the
//! fraction first clamped to the range from zero to one.

use crate::binary32::{
    lemma_magnitude_at_least, lemma_magnitude_below, lemma_quotient_cancels_pow2, unit, Binary32,
};
use vstd::arithmetic::div_mod::{lemma_basic_div, lemma_div_by_multiple, lemma_div_is_ordered};
use vstd::arithmetic::mul::{lemma_mul_inequality, lemma_mul_is_associative};
use vstd::arithmetic::power2::{
    lemma2_to64, lemma_pow2_adds, lemma_pow2_pos, lemma_pow2_strictly_increases, pow2,
};
use vstd::bits::lemma_u128_shr_is_div;
use vstd::prelude::*;

verus! {

/// The glyph of a cell that stands for completed progress.
pub const FILL: char = '=';

/// The glyph of a cell that stands for progress still to be made.
pub const BLANK: char = ' ';

/// Why a bar could not be rendered.
#[derive(Clone, Copy, Debug, PartialEq, Eq, Structural)]
pub enum RenderError {
    /// The buffer has fewer than two cells, so the delimiters do not fit.
    BufferTooSmall,
    /// Fewer than two delimiters were given.
    InsufficientDelimiters,
}

/// The completion fraction clamped to the range from zero to one, in the
/// unit of `Binary32::scaled`. Negative numbers and negative infinity clamp
/// to zero, positive infinity clamps to one, and a NaN counts as zero.
pub open spec fn clamped(frac: Binary32) -> nat {
    if frac.is_nan() || frac.negative() {
        0
    } else if frac.is_infinite() || frac.magnitude() >= unit() {
        unit()
    } else {
        frac.magnitude()
    }
}

/// The number of interior cells that are filled: the floor of the interior
/// length times the clamped fraction.
pub open spec fn fill_count(interior: nat, frac: Binary32) -> nat {
    (interior * clamped(frac)) / unit()
}

/// Computes the number of filled cells for an interior of the given length.
pub fn count_filled(interior: usize, frac: Binary32) -> (count: usize)
    ensures
        count == fill_count(interior as nat, frac),
        count <= interior,
{
    proof {
        lemma_fill_count_bounded(interior as nat, frac);
        lemma_pow2_pos(149);
    }
    let exponent: u32 = frac.exponent_bits();
    let fraction: u32 = frac.fraction_bits();
    if frac.sign_bit() || (exponent == 0xff && fraction != 0) {
        // Negative or a NaN: clamped to zero.
        proof {
            assert(interior * 0 == 0);
            lemma_basic_div(0, unit() as int);
        }
        return 0;
    }
    if exponent >= 127 {
        // One or more: clamped to one.
        proof {
            lemma_magnitude_at_least(frac, 127);
            lemma_div_by_multiple(interior as int, unit() as int);
        }
        return interior;
    }
    // Below one: the fraction is `significand * 2^scale / 2^149`, so the
    // count is `interior * significand` without its lowest `149 - scale` bits.
    let significand: u32 = if exponent == 0 {
        fraction
    } else {
        0x80_0000 + fraction
    };
    let scale: u32 = if exponent == 0 {
        0
    } else {
        exponent - 1
    };
    let shift: u32 = 149 - scale;
    assert(interior * significand < 0x1_0000_0000_0000_0000 * 0x100_0000) by (nonlinear_arith)
        requires
            interior < 0x1_0000_0000_0000_0000,
            significand < 0x100_0000,
    ;
    let product: u128 = (interior as u128) * (significand as u128);
    proof {
        lemma_magnitude_below(frac, 126);
        lemma_mul_is_associative(interior as int, significand as int, pow2(scale as nat) as int);
        lemma_quotient_cancels_pow2(product as nat, scale as nat, shift as nat);
        assert(fill_count(interior as nat, frac) == product as nat / pow2(shift as nat));
    }
    if shift >= 128 {
        // The product is below 2^88: nothing is left of it.
        proof {
            lemma2_to64();
            lemma_pow2_adds(64, 24);
            lemma_pow2_strictly_increases(88, shift as nat);
            lemma_basic_div(product as int, pow2(shift as nat) as int);
        }
        return 0;
    }
    proof {
        lemma_u128_shr_is_div(product, shift as u128);
    }
    (product >> shift) as usize
}

/// A bar of `len` cells: `left` in the first cell, `right` in the last, and
/// between them `filled` fill glyphs followed by blank glyphs.
pub open spec fn bar(len: nat, left: char, right: char, filled: nat) -> Seq<char> {
    Seq::new(
        len,
        |i: int|
            if i == 0 {
                left
            } else if i == len - 1 {
                right
            } else if i <= filled {
                FILL
            } else {
                BLANK
            },
    )
}

/// Whether rendering succeeds, from the number of cells and of delimiters.
/// The buffer is looked at first: with both too short, the error is
/// `BufferTooSmall`.
pub open spec fn render_outcome(cells: nat, delims: nat) -> Result<(), RenderError> {
    if cells < 2 {
        Err(RenderError::BufferTooSmall)
    } else if delims < 2 {
        Err(RenderError::InsufficientDelimiters)
    } else {
        Ok(())
    }
}

/// The buffer after rendering over the contents `before`: the bar where
/// rendering succeeds, and `before` itself where it fails.
pub open spec fn rendered(before: Seq<char>, delims: Seq<char>, frac: Binary32) -> Seq<char> {
    if render_outcome(before.len(), delims.len()) is Ok {
        bar(
            before.len(),
            delims[0],
            delims[1],
            fill_count((before.len() - 2) as nat, frac),
        )
    } else {
        before
    }
}

/// Renders a progress bar over the whole of `buf`: the first two characters
/// of `delims` at the two ends and, between them, the completed share `frac`
/// of the cells filled from the left. A share below zero counts as zero, one
/// above one as one, and a NaN as zero. Characters of `delims` after the
/// second are ignored. On an error nothing is written.
pub fn fill_progress_bar(buf: &mut [char], delims: &[char], frac: Binary32) -> (r: Result<
    (),
    RenderError,
>)
    ensures
        r == render_outcome(old(buf)@.len(), delims@.len()),
        final(buf)@ == rendered(old(buf)@, delims@, frac),
        final(buf)@.len() == old(buf)@.len(),
        r is Ok ==> final(buf)@[0] == delims@[0] && final(buf)@[final(buf)@.len() - 1]
            == delims@[1],
{
    let len: usize = buf.len();
    let interior: usize = match len.checked_sub(2) {
        Some(interior) => interior,
        None => {
            return Err(RenderError::BufferTooSmall);
        },
    };
    if delims.len() < 2 {
        return Err(RenderError::InsufficientDelimiters);
    }
    let left: char = delims[0];
    let right: char = delims[1];
    let filled: usize = count_filled(interior, frac);
    let ghost target = bar(len as nat, left, right, filled as nat);
    let mut i: usize = 0;
    while i < len
        invariant
            i <= len,
            len >= 2,
            buf@.len() == len,
            target == bar(len as nat, left, right, filled as nat),
            forall|j: int| 0 <= j < i ==> buf@[j] == target[j],
        decreases len - i,
    {
        let cell: char = if i == 0 {
            left
        } else if i == len - 1 {
            right
        } else if i <= filled {
            FILL
        } else {
            BLANK
        };
        buf[i] = cell;
        i += 1;
    }
    assert(buf@ =~= target);
    Ok(())
}

/// The number of filled cells never exceeds the interior length.
pub proof fn lemma_fill_count_bounded(interior: nat, frac: Binary32)
    ensures
        fill_count(interior, frac) <= interior,
{
    lemma_pow2_pos(149);
    lemma_mul_inequality(clamped(frac) as int, unit() as int, interior as int);
    assert(interior * clamped(frac) <= interior * unit()) by (nonlinear_arith)
        requires
            clamped(frac) * interior <= unit() * interior,
    ;
    lemma_div_is_ordered(
        (interior * clamped(frac)) as int,
        (interior * unit()) as int,
        unit() as int,
    );
    lemma_div_by_multiple(interior as int, unit() as int);
}

/// For a fixed interior length, the number of filled cells does not decrease
/// as the fraction increases.
pub proof fn lemma_fill_count_monotonic(interior: nat, a: Binary32, b: Binary32)
    requires
        a.is_finite(),
        b.is_finite(),
        a.scaled() <= b.scaled(),
    ensures
        fill_count(interior, a) <= fill_count(interior, b),
{
    lemma_pow2_pos(149);
    assert(clamped(a) <= clamped(b));
    lemma_mul_inequality(clamped(a) as int, clamped(b) as int, interior as int);
    assert(interior * clamped(a) <= interior * clamped(b)) by (nonlinear_arith)
        requires
            clamped(a) * interior <= clamped(b) * interior,
    ;
    lemma_div_is_ordered(
        (interior * clamped(a)) as int,
        (interior * clamped(b)) as int,
        unit() as int,
    );
}

/// With a fraction of zero or less, every interior cell of a rendered bar is
/// blank.
pub proof fn lemma_no_progress_is_blank(before: Seq<char>, delims: Seq<char>, frac: Binary32)
    requires
        before.len() >= 2,
        delims.len() >= 2,
        frac.is_finite(),
        frac.scaled() <= 0,
    ensures
        fill_count((before.len() - 2) as nat, frac) == 0,
        forall|i: int| 0 < i < before.len() - 1 ==> rendered(before, delims, frac)[i] == BLANK,
{
    let interior: nat = (before.len() - 2) as nat;
    lemma_pow2_pos(149);
    assert(clamped(frac) == 0);
    assert(interior * 0 == 0);
    lemma_basic_div(0, unit() as int);
}

/// With a fraction of one or more, every interior cell of a rendered bar is
/// filled.
pub proof fn lemma_full_progress_is_filled(before: Seq<char>, delims: Seq<char>, frac: Binary32)
    requires
        before.len() >= 2,
        delims.len() >= 2,
        frac.is_finite(),
        frac.scaled() >= unit(),
    ensures
        fill_count((before.len() - 2) as nat, frac) == before.len() - 2,
        forall|i: int| 0 < i < before.len() - 1 ==> rendered(before, delims, frac)[i] == FILL,
{
    let interior: nat = (before.len() - 2) as nat;
    lemma_pow2_pos(149);
    assert(clamped(frac) == unit());
    lemma_div_by_multiple(interior as int, unit() as int);
}

/// A buffer of two cells holds exactly the two delimiters after rendering,
/// whatever the fraction.
pub proof fn lemma_two_cells_hold_delimiters(before: Seq<char>, delims: Seq<char>, frac: Binary32)
    requires
        before.len() == 2,
        delims.len() >= 2,
    ensures
        rendered(before, delims, frac) == seq![delims[0], delims[1]],
{
    assert(rendered(before, delims, frac) =~= seq![delims[0], delims[1]]);
}

/// Where rendering succeeds, the result depends on the buffer's length and
/// not on what it held: two buffers of one length come out identical.
pub proof fn lemma_render_ignores_contents(
    first: Seq<char>,
    second: Seq<char>,
    delims: Seq<char>,
    frac: Binary32,
)
    requires
        first.len() == second.len(),
        render_outcome(first.len(), delims.len()) is Ok,
    ensures
        rendered(first, delims, frac) == rendered(second, delims, frac),
{
}

/// Rendering again over a rendered buffer, with the same delimiters and
/// fraction, changes nothing.
pub proof fn lemma_render_idempotent(before: Seq<char>, delims: Seq<char>, frac: Binary32)
    ensures
        rendered(rendered(before, delims, frac), delims, frac) == rendered(before, delims, frac),
{
}

} // verus!
