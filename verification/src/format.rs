//! Decimal and percentage formatting, in exact integer arithmetic.
//!
//! A percentage is carried in hundredths of a percent: `count / total`
//! becomes `round(20000 * count / (2 * total))`, rounded to nearest with
//! ties away from zero, so 10000 stands for 100.00%.

use vstd::arithmetic::div_mod::{lemma_div_is_ordered, lemma_fundamental_div_mod_converse};
use vstd::prelude::*;

verus! {

/// The decimal digit character for `d`.
pub open spec fn digit_char(d: int) -> char {
    if d == 0 {
        '0'
    } else if d == 1 {
        '1'
    } else if d == 2 {
        '2'
    } else if d == 3 {
        '3'
    } else if d == 4 {
        '4'
    } else if d == 5 {
        '5'
    } else if d == 6 {
        '6'
    } else if d == 7 {
        '7'
    } else if d == 8 {
        '8'
    } else {
        '9'
    }
}

/// The decimal digits of `n`, most significant first, with no sign and no
/// leading zero (except for `n == 0`, written "0").
pub open spec fn dec_chars(n: int) -> Seq<char>
    recommends
        0 <= n,
    decreases n,
{
    if n < 10 {
        seq![digit_char(n)]
    } else {
        dec_chars(n / 10).push(digit_char(n % 10))
    }
}

/// How many decimal digits `n` has.
pub open spec fn num_digits(n: int) -> int {
    dec_chars(n).len() as int
}

/// `n` copies of the character `c`.
pub open spec fn repeat_char(c: char, n: int) -> Seq<char> {
    Seq::new(n as nat, |i: int| c)
}

pub proof fn lemma_num_digits_pos(n: int)
    ensures
        1 <= num_digits(n),
    decreases n,
{
    if n >= 10 {
        lemma_num_digits_pos(n / 10);
    }
}

/// A number with more digits is not smaller; digit counts are monotonic.
pub proof fn lemma_num_digits_monotonic(a: int, b: int)
    requires
        0 <= a <= b,
    ensures
        num_digits(a) <= num_digits(b),
    decreases b,
{
    if a < 10 {
        lemma_num_digits_pos(b);
        if b >= 10 {
            lemma_num_digits_pos(b / 10);
        }
    } else {
        lemma_div_is_ordered(a, b, 10);
        lemma_num_digits_monotonic(a / 10, b / 10);
    }
}

/// The single-digit string for `d`.
fn digit_str(d: usize) -> (r: &'static str)
    requires
        d < 10,
    ensures
        r@.len() == 1,
        r@[0] == digit_char(d as int),
{
    proof {
        reveal_strlit("0");
        reveal_strlit("1");
        reveal_strlit("2");
        reveal_strlit("3");
        reveal_strlit("4");
        reveal_strlit("5");
        reveal_strlit("6");
        reveal_strlit("7");
        reveal_strlit("8");
        reveal_strlit("9");
    }
    match d {
        0 => "0",
        1 => "1",
        2 => "2",
        3 => "3",
        4 => "4",
        5 => "5",
        6 => "6",
        7 => "7",
        8 => "8",
        _ => "9",
    }
}

/// Writes `n` in decimal, most significant digit first.
pub fn to_decimal(n: usize) -> (r: String)
    ensures
        r@ == dec_chars(n as int),
    decreases n,
{
    if n < 10 {
        let r = digit_str(n).to_owned();
        proof {
            assert(r@ =~= dec_chars(n as int));
        }
        r
    } else {
        let mut s = to_decimal(n / 10);
        s.append(digit_str(n % 10));
        proof {
            assert(s@ =~= dec_chars(n as int));
        }
        s
    }
}

/// Counts the decimal digits of `n`.
pub fn count_digits(n: usize) -> (r: usize)
    ensures
        r as int == num_digits(n as int),
        1 <= r,
        n >= 1 ==> r as int <= n as int,
    decreases n,
{
    if n < 10 {
        1
    } else {
        let d = count_digits(n / 10);
        1 + d
    }
}

/// A run of `n` blanks.
pub fn spaces(n: usize) -> (r: String)
    ensures
        r@ == repeat_char(' ', n as int),
{
    let mut s = String::new();
    let mut i: usize = 0;
    while i < n
        invariant
            i <= n,
            s@.len() == i,
            forall|j: int| 0 <= j < i ==> s@[j] == ' ',
        decreases n - i,
    {
        proof {
            reveal_strlit(" ");
        }
        s.append(" ");
        i += 1;
    }
    proof {
        assert(s@ =~= repeat_char(' ', n as int));
    }
    s
}

/// A run of `n` equals signs.
pub fn equals_signs(n: usize) -> (r: String)
    ensures
        r@ == repeat_char('=', n as int),
{
    let mut s = String::new();
    let mut i: usize = 0;
    while i < n
        invariant
            i <= n,
            s@.len() == i,
            forall|j: int| 0 <= j < i ==> s@[j] == '=',
        decreases n - i,
    {
        proof {
            reveal_strlit("=");
        }
        s.append("=");
        i += 1;
    }
    proof {
        assert(s@ =~= repeat_char('=', n as int));
    }
    s
}

/// `count / total` in hundredths of a percent, rounded to nearest with
/// ties away from zero: `round(10000 * count / total)`.
pub open spec fn percent_hundredths(count: int, total: int) -> int {
    (20000 * count + total) / (2 * total)
}

/// Computes `percent_hundredths` exactly.
pub fn compute_percent_hundredths(count: usize, total: usize) -> (r: usize)
    requires
        1 <= total,
        count <= total,
    ensures
        r as int == percent_hundredths(count as int, total as int),
        r <= 10000,
{
    let c: u128 = count as u128;
    let t: u128 = total as u128;
    proof {
        assert(c <= u64::MAX && t <= u64::MAX);
    }
    let h: u128 = (20000 * c + t) / (2 * t);
    proof {
        let gc = c as int;
        let gt = t as int;
        // 20000 * count + total <= 10000 * (2 * total) + total, so h <= 10000
        assert(20000 * gc + gt <= 10000 * (2 * gt) + gt) by (nonlinear_arith)
            requires
                gc <= gt,
        ;
        lemma_fundamental_div_mod_converse(10000 * (2 * gt) + gt, 2 * gt, 10000, gt);
        lemma_div_is_ordered(20000 * gc + gt, 10000 * (2 * gt) + gt, 2 * gt);
        assert(h <= 10000);
    }
    h as usize
}

/// The percentage `h` (in hundredths), written with two decimal places
/// and right-aligned with blanks to six characters, as in " 75.00".
pub open spec fn percent_chars(h: int) -> Seq<char> {
    let ip = dec_chars(h / 100);
    repeat_char(' ', 3 - ip.len()) + ip + seq!['.'] + seq![
        digit_char(h / 10 % 10),
        digit_char(h % 10),
    ]
}

/// Formats the percentage `h` (in hundredths) as six characters.
pub fn format_percent(h: usize) -> (r: String)
    requires
        h <= 10000,
    ensures
        r@ == percent_chars(h as int),
        r@.len() == 6,
{
    proof {
        reveal_strlit(".");
        lemma_num_digits_monotonic(h as int / 100, 100);
        lemma_num_digits_pos(h as int / 100);
        assert(num_digits(100) == 3) by {
            reveal_with_fuel(dec_chars, 4);
        }
    }
    let ip = to_decimal(h / 100);
    let nd: usize = count_digits(h / 100);
    let mut s = spaces(3 - nd);
    s.append(ip.as_str());
    s.append(".");
    s.append(digit_str(h / 10 % 10));
    s.append(digit_str(h % 10));
    proof {
        assert(s@ =~= percent_chars(h as int));
    }
    s
}

} // verus!
