use emoji_stat::frac_to_bar;

fn fill_level(c: char) -> usize {
    match c {
        ' ' => 0,
        '\u{258f}' => 1,
        '\u{258e}' => 2,
        '\u{258d}' => 3,
        '\u{258c}' => 4,
        '\u{258b}' => 5,
        '\u{258a}' => 6,
        '\u{2589}' => 7,
        '\u{2588}' => 8,
        _ => panic!("not a bar glyph: {c:?}"),
    }
}

#[test]
fn bar_has_exact_width() {
    for den in 1..=9usize {
        for num in 0..=den {
            for len in 1..=12usize {
                let bar = frac_to_bar(num, den, len);
                assert_eq!(bar.chars().count(), len, "num={num} den={den} len={len}");
            }
        }
    }
}

#[test]
fn zero_fraction_is_all_blank() {
    assert_eq!(frac_to_bar(0, 7, 10), " ".repeat(10));
    assert_eq!(frac_to_bar(0, 1, 1), " ");
}

#[test]
fn full_fraction_is_all_full() {
    assert_eq!(frac_to_bar(5, 5, 10), "\u{2588}".repeat(10));
    assert_eq!(frac_to_bar(1, 1, 3), "\u{2588}".repeat(3));
}

#[test]
fn one_third_of_ten_cells() {
    // 10 * 1/3 = 3.33...: three full cells, remainder 1/3 -> round(8/3) = 3
    assert_eq!(frac_to_bar(1, 3, 10), "\u{2588}\u{2588}\u{2588}\u{258d}      ");
}

#[test]
fn rounding_ties_go_away_from_zero() {
    // one cell at 1/16: partial 1/16 * 8 = 0.5 rounds up to one eighth
    assert_eq!(frac_to_bar(1, 16, 1), "\u{258f}");
    // just under the tie: 1/17 * 8 < 0.5 rounds down to a blank partial cell
    assert_eq!(frac_to_bar(1, 17, 1), " ");
}

#[test]
fn half_fraction_is_half_bar() {
    assert_eq!(frac_to_bar(1, 2, 8), "\u{2588}\u{2588}\u{2588}\u{2588}    ");
}

#[test]
fn fill_is_monotonic_in_the_fraction() {
    for len in [1usize, 3, 8, 10] {
        let den = 24usize;
        let mut last: Vec<usize> = vec![0; len];
        for num in 0..=den {
            let bar = frac_to_bar(num, den, len);
            let levels: Vec<usize> = bar.chars().map(fill_level).collect();
            for (a, b) in last.iter().zip(levels.iter()) {
                assert!(b >= a, "fill dropped at num={num} den={den} len={len}");
            }
            last = levels;
        }
    }
}
