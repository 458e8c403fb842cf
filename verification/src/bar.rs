//! Fixed-width bar rendering with nine fill levels per cell.
//!
//! A bar of `len` cells shows a fraction `num / den` (with `num <= den`)
//! of the width.  `len * num / den` whole cells are full; if the division
//! leaves a remainder, the next cell shows the remainder rounded to the
//! nearest eighth (ties away from zero); every further cell is blank.

use vstd::arithmetic::div_mod::{
    lemma_div_is_ordered, lemma_div_multiples_vanish, lemma_div_of0, lemma_fundamental_div_mod,
    lemma_mod_division_less_than_divisor, lemma_mod_multiples_basic, lemma_remainder_lower,
    lemma_small_mod,
};
use vstd::prelude::*;

verus! {

/// Number of fully filled cells: the whole part of `len * num / den`.
pub open spec fn full_cells(num: int, den: int, len: int) -> int {
    (len * num) / den
}

/// Fill level, in eighths, of the one partial cell: the fractional part of
/// `len * num / den`, scaled by 8 and rounded to nearest, ties away from zero.
pub open spec fn partial_level(num: int, den: int, len: int) -> int {
    (16 * ((len * num) % den) + den) / (2 * den)
}

/// Fill level (0 = blank .. 8 = full) of cell `i` of the bar.
pub open spec fn level_at(num: int, den: int, len: int, i: int) -> int {
    if i < full_cells(num, den, len) {
        8
    } else if i == full_cells(num, den, len) && (len * num) % den != 0 {
        partial_level(num, den, len)
    } else {
        0
    }
}

/// The glyph that shows a fill level: blank, the eight left-block eighths,
/// full block.
pub open spec fn level_glyph(level: int) -> char {
    if level <= 0 {
        ' '
    } else if level == 1 {
        '\u{258f}'
    } else if level == 2 {
        '\u{258e}'
    } else if level == 3 {
        '\u{258d}'
    } else if level == 4 {
        '\u{258c}'
    } else if level == 5 {
        '\u{258b}'
    } else if level == 6 {
        '\u{258a}'
    } else if level == 7 {
        '\u{2589}'
    } else {
        '\u{2588}'
    }
}

/// The whole bar, one glyph per cell.
pub open spec fn bar_chars(num: int, den: int, len: int) -> Seq<char> {
    Seq::new(len as nat, |i: int| level_glyph(level_at(num, den, len, i)))
}

/// The glyph for one fill level, as a one-character string slice.
fn level_glyph_str(level: u128) -> (r: &'static str)
    requires
        level <= 8,
    ensures
        r@.len() == 1,
        r@[0] == level_glyph(level as int),
{
    proof {
        reveal_strlit(" ");
        reveal_strlit("\u{258f}");
        reveal_strlit("\u{258e}");
        reveal_strlit("\u{258d}");
        reveal_strlit("\u{258c}");
        reveal_strlit("\u{258b}");
        reveal_strlit("\u{258a}");
        reveal_strlit("\u{2589}");
        reveal_strlit("\u{2588}");
    }
    match level {
        0 => " ",
        1 => "\u{258f}",
        2 => "\u{258e}",
        3 => "\u{258d}",
        4 => "\u{258c}",
        5 => "\u{258b}",
        6 => "\u{258a}",
        7 => "\u{2589}",
        _ => "\u{2588}",
    }
}

/// Renders the fraction `num / den` as a bar of exactly `len` cells.
pub fn frac_to_bar(num: usize, den: usize, len: usize) -> (r: String)
    requires
        1 <= den,
        num <= den,
        1 <= len,
    ensures
        r@ == bar_chars(num as int, den as int, len as int),
        r@.len() == len,
{
    let lx: u128 = len as u128;
    let nx: u128 = num as u128;
    proof {
        assert(lx <= u64::MAX && nx <= u64::MAX);
        assert(lx * nx <= u64::MAX * u64::MAX) by (nonlinear_arith)
            requires
                lx <= u64::MAX,
                nx <= u64::MAX,
        ;
    }
    let x: u128 = lx * nx;
    let d: u128 = den as u128;
    let full: u128 = x / d;
    let rem: u128 = x % d;
    let partial: u128 = (16 * rem + d) / (2 * d);
    proof {
        lemma_fundamental_div_mod(x as int, d as int);
        lemma_mod_division_less_than_divisor(x as int, d as int);
        // num <= den gives x <= len * d, so full <= len
        assert((len as int) * (num as int) <= (len as int) * (den as int)) by (nonlinear_arith)
            requires
                num as int <= den as int,
                0 <= len as int,
        ;
        lemma_div_is_ordered(x as int, (len as int) * (den as int), d as int);
        lemma_div_multiples_vanish(len as int, d as int);
        assert(full <= len);
        // 16 * rem + d < 18 * d, so partial <= 8
        lemma_div_is_ordered(16 * (rem as int) + d as int, 17 * (d as int) - 16, 2 * (d as int));
        assert((17 * (d as int) - 16) / (2 * (d as int)) <= 8) by (nonlinear_arith)
            requires
                1 <= d as int,
        ;
        assert(partial <= 8);
        // a nonzero remainder means the bar is not entirely full
        if rem != 0 {
            assert(full < len) by {
                if full == len {
                    assert((len as int) * (den as int) < x as int);
                }
            }
        }
    }
    let full_n: usize = full as usize;
    let ghost gnum = num as int;
    let ghost gden = den as int;
    let ghost glen = len as int;
    let mut bar = String::new();
    let mut i: usize = 0;
    while i < full_n
        invariant
            i <= full_n,
            full_n == full_cells(gnum, gden, glen),
            full_n <= len,
            bar@.len() == i,
            forall|j: int| 0 <= j < i ==> bar@[j] == level_glyph(level_at(gnum, gden, glen, j)),
        decreases full_n - i,
    {
        bar.append(level_glyph_str(8));
        i += 1;
    }
    let mut cells: usize = full_n;
    if rem != 0 {
        bar.append(level_glyph_str(partial));
        cells += 1;
    }
    while cells < len
        invariant
            full_cells(gnum, gden, glen) <= cells <= len,
            bar@.len() == cells,
            forall|j: int| 0 <= j < cells ==> bar@[j] == level_glyph(level_at(gnum, gden, glen, j)),
            glen * gnum % gden != 0 ==> full_cells(gnum, gden, glen) < cells,
        decreases len - cells,
    {
        proof {
            let q = full_cells(gnum, gden, glen);
            assert(q <= cells as int);
            if glen * gnum % gden != 0 {
                assert(q < cells as int);
            }
            assert(level_at(gnum, gden, glen, cells as int) == 0);
        }
        bar.append(level_glyph_str(0));
        cells += 1;
    }
    proof {
        assert(bar@ =~= bar_chars(gnum, gden, glen));
    }
    bar
}

/// A zero fraction draws an all-blank bar: every cell is the blank glyph.
pub proof fn lemma_zero_frac_all_blank(den: int, len: int, i: int)
    requires
        1 <= den,
        1 <= len,
        0 <= i < len,
    ensures
        level_at(0, den, len, i) == 0,
        bar_chars(0, den, len)[i] == ' ',
{
    lemma_div_of0(den);
    lemma_small_mod(0, den as nat);
    assert(len * 0 == 0);
}

/// A full fraction draws an all-full bar: every cell is the full glyph.
pub proof fn lemma_full_frac_all_full(den: int, len: int, i: int)
    requires
        1 <= den,
        1 <= len,
        0 <= i < len,
    ensures
        level_at(den, den, len, i) == 8,
        bar_chars(den, den, len)[i] == '\u{2588}',
{
    lemma_div_multiples_vanish(len, den);
    lemma_mod_multiples_basic(len, den);
    assert(len * den == den * len) by (nonlinear_arith);
    assert(full_cells(den, den, len) == len);
    assert((len * den) % den == 0);
}

/// Quotients of nonnegative fractions are ordered as the fractions are:
/// if `a1 / b1 <= a2 / b2` as rationals, the same holds of the floors.
proof fn lemma_div_cross(a1: int, b1: int, a2: int, b2: int)
    requires
        0 <= a1,
        0 <= a2,
        1 <= b1,
        1 <= b2,
        a1 * b2 <= a2 * b1,
    ensures
        a1 / b1 <= a2 / b2,
{
    let q = a1 / b1;
    lemma_remainder_lower(a1, b1);
    assert(q * b1 <= a1);
    assert(q * b2 <= a2) by (nonlinear_arith)
        requires
            1 <= b1,
            1 <= b2,
            q * b1 <= a1,
            a1 * b2 <= a2 * b1,
    ;
    lemma_div_multiples_vanish(q, b2);
    lemma_div_is_ordered(q * b2, a2, b2);
}

/// A larger fraction never shows a smaller fill level in any cell:
/// for a fixed width, every cell of the bar for `num1 / den1` is at most as
/// filled as the same cell of the bar for the larger fraction `num2 / den2`.
pub proof fn lemma_frac_to_bar_monotonic(
    num1: int,
    den1: int,
    num2: int,
    den2: int,
    len: int,
    i: int,
)
    requires
        0 <= num1 <= den1,
        0 <= num2 <= den2,
        1 <= den1,
        1 <= den2,
        1 <= len,
        num1 * den2 <= num2 * den1,
        0 <= i < len,
    ensures
        level_at(num1, den1, len, i) <= level_at(num2, den2, len, i),
{
    let x1 = len * num1;
    let x2 = len * num2;
    let q1 = x1 / den1;
    let q2 = x2 / den2;
    assert(0 <= x1 && 0 <= x2 && x1 * den2 <= x2 * den1) by (nonlinear_arith)
        requires
            0 <= num1,
            0 <= num2,
            1 <= len,
            num1 * den2 <= num2 * den1,
            x1 == len * num1,
            x2 == len * num2,
    ;
    lemma_div_cross(x1, den1, x2, den2);
    assert(q1 <= q2);
    lemma_fundamental_div_mod(x1, den1);
    lemma_mod_division_less_than_divisor(x1, den1);
    lemma_fundamental_div_mod(x2, den2);
    lemma_mod_division_less_than_divisor(x2, den2);
    let r1 = x1 % den1;
    let r2 = x2 % den2;
    if i < q1 {
        // both cells are full
        assert(i < q2);
    } else if i == q1 && r1 != 0 {
        if i < q2 {
            // the right bar is full here, and no level exceeds 8
            lemma_div_is_ordered(16 * r1 + den1, 17 * den1 - 16, 2 * den1);
            assert((17 * den1 - 16) / (2 * den1) <= 8) by (nonlinear_arith)
                requires
                    1 <= den1,
            ;
        } else {
            assert(i == q2);
            if r2 == 0 {
                // then x1 / den1 strictly exceeds x2 / den2 == q, impossible
                assert(false) by (nonlinear_arith)
                    requires
                        x1 == den1 * q1 + r1,
                        x2 == den2 * q2,
                        q1 == q2,
                        0 < r1,
                        1 <= den1,
                        1 <= den2,
                        x1 * den2 <= x2 * den1,
                ;
            } else {
                // both bars show a partial cell here; compare the levels
                assert(r1 * den2 <= r2 * den1) by (nonlinear_arith)
                    requires
                        x1 == den1 * q1 + r1,
                        x2 == den2 * q2 + r2,
                        q1 == q2,
                        x1 * den2 <= x2 * den1,
                ;
                assert((16 * r1 + den1) * (2 * den2) <= (16 * r2 + den2) * (2 * den1))
                    by (nonlinear_arith)
                    requires
                        r1 * den2 <= r2 * den1,
                        1 <= den1,
                        1 <= den2,
                ;
                lemma_div_cross(16 * r1 + den1, 2 * den1, 16 * r2 + den2, 2 * den2);
            }
        }
    }
}

} // verus!
