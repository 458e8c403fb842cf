//! Report rendering: a title banner and one line per ranked entry.
//!
//! Percentages are relative to the sum of all counts in the full table,
//! and every bar is normalized by the largest count in the full table,
//! whether or not that entry is among the displayed top-K.

use crate::bar::{bar_chars, frac_to_bar};
use crate::format::{
    compute_percent_hundredths, count_digits, dec_chars, equals_signs, format_percent,
    lemma_num_digits_monotonic, num_digits, percent_chars, percent_hundredths, repeat_char,
    spaces, to_decimal,
};
use crate::rank::from_table;
use crate::table::{sum_ints, Entry, FrequencyTable};
use vstd::arithmetic::div_mod::{lemma_fundamental_div_mod, lemma_mod_division_less_than_divisor};
use vstd::prelude::*;
use vstd::string::StringSliceAdditionalSpecFns;

verus! {

/// The banner padding: the title is sized to the bar width plus the count
/// column plus eleven fixed characters, and the file name takes up
/// `name_len` of those columns.
pub open spec fn title_pad(name_len: int, width: int, max_digits: int) -> int {
    if width + max_digits + 11 >= name_len {
        width + max_digits + 11 - name_len
    } else {
        0
    }
}

/// The banner: the file name in backticks, flanked by runs of `=`.
pub open spec fn title_chars(name: Seq<char>, pad: int) -> Seq<char> {
    repeat_char('=', pad / 2) + seq![' ', '`'] + name + seq!['`', ' '] + repeat_char(
        '=',
        pad - pad / 2,
    )
}

/// One report line: bar, percentage, right-aligned raw count, emoji.
pub open spec fn row_chars(
    key: Seq<char>,
    count: int,
    total: int,
    max_count: int,
    max_digits: int,
    width: int,
) -> Seq<char> {
    seq!['+', ' '] + bar_chars(count, max_count, width) + seq![' '] + percent_chars(
        percent_hundredths(count, total),
    ) + seq!['%', ' '] + repeat_char(' ', max_digits - num_digits(count)) + dec_chars(count)
        + seq!['x', ' '] + key
}

/// Renders the title banner for `name`.
pub fn render_title(name: &str, width: usize, max_digits: usize) -> (r: String)
    requires
        width + max_digits + 11 <= usize::MAX,
        name.spec_bytes().len() <= usize::MAX,
    ensures
        r@ == title_chars(
            name@,
            title_pad(name.spec_bytes().len() as int, width as int, max_digits as int),
        ),
{
    let target: usize = width + max_digits + 11;
    let name_len: usize = name.len();
    let pad: usize = if target >= name_len {
        target - name_len
    } else {
        0
    };
    let mut s = equals_signs(pad / 2);
    s.append(" `");
    s.append(name);
    s.append("` ");
    s.append(equals_signs(pad - pad / 2).as_str());
    proof {
        reveal_strlit(" `");
        reveal_strlit("` ");
        assert(s@ =~= title_chars(
            name@,
            title_pad(name.spec_bytes().len() as int, width as int, max_digits as int),
        ));
    }
    s
}

/// Renders one report line for an entry with `count` occurrences.
pub fn render_row(
    key: &String,
    count: usize,
    total: usize,
    max_count: usize,
    max_digits: usize,
    width: usize,
) -> (r: String)
    requires
        1 <= count,
        count <= max_count,
        max_count <= total,
        1 <= width,
        num_digits(count as int) <= max_digits as int,
    ensures
        r@ == row_chars(
            key@,
            count as int,
            total as int,
            max_count as int,
            max_digits as int,
            width as int,
        ),
{
    let bar = frac_to_bar(count, max_count, width);
    let h = compute_percent_hundredths(count, total);
    let pct = format_percent(h);
    let nd = count_digits(count);
    let pad = spaces(max_digits - nd);
    let digits = to_decimal(count);
    let mut s = String::new();
    s.append("+ ");
    s.append(bar.as_str());
    s.append(" ");
    s.append(pct.as_str());
    s.append("% ");
    s.append(pad.as_str());
    s.append(digits.as_str());
    s.append("x ");
    s.append(key.as_str());
    proof {
        reveal_strlit("+ ");
        reveal_strlit(" ");
        reveal_strlit("% ");
        reveal_strlit("x ");
        assert(s@ =~= row_chars(
            key@,
            count as int,
            total as int,
            max_count as int,
            max_digits as int,
            width as int,
        ));
    }
    s
}

/// Renders the whole report: the banner, then one line per ranked entry,
/// in the ranked order.  Percentages are taken against the sum of all
/// counts in the table, bars against its largest count.
pub fn render_report(
    t: &FrequencyTable,
    ranked: &Vec<Entry>,
    file_name: &str,
    width: usize,
) -> (r: Vec<String>)
    requires
        t.wf(),
        1 <= t.num_keys(),
        1 <= width,
        width + 41 <= usize::MAX,
        file_name.spec_bytes().len() <= usize::MAX,
        forall|j: int| 0 <= j < ranked@.len() ==> from_table(*t, #[trigger] ranked@[j]),
    ensures
        r@.len() == 1 + ranked@.len(),
        r@[0]@ == title_chars(
            file_name@,
            title_pad(
                file_name.spec_bytes().len() as int,
                width as int,
                num_digits(t.counts_seq().max()),
            ),
        ),
        forall|j: int|
            0 <= j < ranked@.len() ==> (#[trigger] r@[j + 1])@ == row_chars(
                ranked@[j].key@,
                ranked@[j].count as int,
                t.spec_total(),
                t.counts_seq().max(),
                num_digits(t.counts_seq().max()),
                width as int,
            ),
{
    let total = t.total_count();
    let max_count = t.max_count();
    let max_digits = count_digits(max_count);
    proof {
        t.lemma_count_le_total(choose|i: int|
            0 <= i < t.num_keys() && t.count(i) == max_count);
        assert(max_count <= total);
        // the largest count fits in a machine word, so its digit count is small
        lemma_num_digits_monotonic(max_count as int, usize::MAX as int);
        assert(num_digits(usize::MAX as int) <= 30) by {
            reveal_with_fuel(dec_chars, 31);
        }
    }
    let mut lines: Vec<String> = Vec::new();
    lines.push(render_title(file_name, width, max_digits));
    let n: usize = ranked.len();
    let mut j: usize = 0;
    while j < n
        invariant
            j <= n,
            n == ranked@.len(),
            t.wf(),
            1 <= t.num_keys(),
            1 <= width,
            total == t.spec_total(),
            max_count as int == t.counts_seq().max(),
            max_count <= total,
            1 <= max_count,
            max_digits as int == num_digits(max_count as int),
            forall|j2: int| 0 <= j2 < ranked@.len() ==> from_table(*t, #[trigger] ranked@[j2]),
            forall|i: int| 0 <= i < t.num_keys() ==> #[trigger] t.count(i) <= max_count,
            lines@.len() == j + 1,
            lines@[0]@ == title_chars(
                file_name@,
                title_pad(
                    file_name.spec_bytes().len() as int,
                    width as int,
                    num_digits(t.counts_seq().max()),
                ),
            ),
            forall|j2: int|
                0 <= j2 < j ==> (#[trigger] lines@[j2 + 1])@ == row_chars(
                    ranked@[j2].key@,
                    ranked@[j2].count as int,
                    t.spec_total(),
                    t.counts_seq().max(),
                    num_digits(t.counts_seq().max()),
                    width as int,
                ),
        decreases n - j,
    {
        let e_count = ranked[j].count;
        proof {
            let w = choose|w: int|
                0 <= w < t.num_keys() && t.key(w) == ranked@[j as int].key@ && t.count(w)
                    == ranked@[j as int].count;
            assert(t.count(w) <= max_count);
            lemma_num_digits_monotonic(e_count as int, max_count as int);
        }
        let row = render_row(&ranked[j].key, e_count, total, max_count, max_digits, width);
        lines.push(row);
        j += 1;
    }
    lines
}

/// Sum of the rounded percentages (in hundredths of a percent) of a
/// sequence of counts against `total`.
pub open spec fn sum_percent_hundredths(counts: Seq<int>, total: int) -> int
    decreases counts.len(),
{
    if counts.len() == 0 {
        0
    } else {
        sum_percent_hundredths(counts.drop_last(), total) + percent_hundredths(
            counts.last(),
            total,
        )
    }
}

proof fn lemma_sum_percent_bounds(counts: Seq<int>, total: int)
    requires
        1 <= total,
        forall|i: int| 0 <= i < counts.len() ==> 0 <= #[trigger] counts[i],
    ensures
        20000 * sum_ints(counts) - counts.len() * total <= 2 * total * sum_percent_hundredths(
            counts,
            total,
        ),
        2 * total * sum_percent_hundredths(counts, total) <= 20000 * sum_ints(counts)
            + counts.len() * total,
    decreases counts.len(),
{
    if counts.len() > 0 {
        let rest = counts.drop_last();
        let c = counts.last();
        assert(forall|i: int| 0 <= i < rest.len() ==> 0 <= #[trigger] rest[i]);
        lemma_sum_percent_bounds(rest, total);
        let q = percent_hundredths(c, total);
        lemma_fundamental_div_mod(20000 * c + total, 2 * total);
        lemma_mod_division_less_than_divisor(20000 * c + total, 2 * total);
        assert(20000 * c - total < 2 * total * q <= 20000 * c + total) by (nonlinear_arith)
            requires
                1 <= total,
                20000 * c + total == 2 * total * q + (20000 * c + total) % (2 * total),
                0 <= (20000 * c + total) % (2 * total) < 2 * total,
        ;
        assert(2 * total * sum_percent_hundredths(counts, total) == 2 * total
            * sum_percent_hundredths(rest, total) + 2 * total * q) by (nonlinear_arith)
            requires
                sum_percent_hundredths(counts, total) == sum_percent_hundredths(rest, total) + q,
        ;
        assert(counts.len() * total == rest.len() * total + total) by (nonlinear_arith)
            requires
                counts.len() == rest.len() + 1,
        ;
        assert(20000 * sum_ints(counts) == 20000 * sum_ints(rest) + 20000 * c) by (nonlinear_arith)
            requires
                sum_ints(counts) == sum_ints(rest) + c,
        ;
    }
}

/// The percentages of all entries sum to 100% up to rounding: with `n`
/// entries and total `T`, the sum `S` of the rounded per-entry values (in
/// hundredths of a percent, so 10000 is 100%) satisfies
/// `|2 T S - 20000 T| <= n T`, a deviation of at most half a hundredth
/// per entry.
pub proof fn lemma_percentages_sum_to_100(t: FrequencyTable)
    requires
        t.wf(),
        1 <= t.num_keys(),
    ensures
        20000 * t.spec_total() - t.num_keys() * t.spec_total() <= 2 * t.spec_total()
            * sum_percent_hundredths(t.counts_seq(), t.spec_total()),
        2 * t.spec_total() * sum_percent_hundredths(t.counts_seq(), t.spec_total()) <= 20000
            * t.spec_total() + t.num_keys() * t.spec_total(),
{
    t.lemma_total_is_sum();
    t.lemma_count_le_total(0);
    assert(t.counts_seq()[0] == t.count(0));
    lemma_sum_percent_bounds(t.counts_seq(), t.spec_total());
}

} // verus!
