use emoji_stat::format::{compute_percent_hundredths, count_digits, format_percent, to_decimal};
use emoji_stat::report::{render_report, render_row, render_title};
use emoji_stat::{process_line, top_k, FrequencyTable};

#[test]
fn decimal_formatting_is_exact() {
    assert_eq!(to_decimal(0), "0");
    assert_eq!(to_decimal(7), "7");
    assert_eq!(to_decimal(10), "10");
    assert_eq!(to_decimal(90210), "90210");
    assert_eq!(count_digits(0), 1);
    assert_eq!(count_digits(9), 1);
    assert_eq!(count_digits(10), 2);
    assert_eq!(count_digits(99), 2);
    assert_eq!(count_digits(100), 3);
}

#[test]
fn percentages_round_to_nearest() {
    assert_eq!(compute_percent_hundredths(3, 4), 7500);
    assert_eq!(compute_percent_hundredths(1, 4), 2500);
    assert_eq!(compute_percent_hundredths(1, 3), 3333);
    assert_eq!(compute_percent_hundredths(2, 3), 6667);
    assert_eq!(compute_percent_hundredths(1, 1), 10000);
    // 1/8000 = 1.25 hundredths rounds down to the nearest
    assert_eq!(compute_percent_hundredths(1, 8000), 1);
    // a tie: 1/4000 = 2.5 hundredths rounds away from zero
    assert_eq!(compute_percent_hundredths(1, 4000), 3);
}

#[test]
fn thirds_sum_to_exactly_100_percent() {
    let a = compute_percent_hundredths(1, 3);
    let b = compute_percent_hundredths(2, 3);
    assert_eq!(a + b, 10000);
}

#[test]
fn percent_is_right_aligned_to_six_chars() {
    assert_eq!(format_percent(7500), " 75.00");
    assert_eq!(format_percent(10000), "100.00");
    assert_eq!(format_percent(205), "  2.05");
    assert_eq!(format_percent(0), "  0.00");
    assert_eq!(format_percent(3333), " 33.33");
}

#[test]
fn title_is_padded_with_equals_signs() {
    // pad = width + digits + 11 - name length = 10 + 1 + 11 - 9 = 13
    let title = render_title("pizza.txt", 10, 1);
    assert_eq!(title, "====== `pizza.txt` =======");
}

#[test]
fn long_names_get_no_padding() {
    let name = "a".repeat(60);
    let title = render_title(&name, 10, 1);
    assert_eq!(title, format!(" `{name}` "));
}

#[test]
fn row_shows_bar_percent_count_and_emoji() {
    let row = render_row(&"\u{1f355}".to_string(), 3, 4, 3, 1, 10);
    assert_eq!(row, format!("+ {}  75.00% 3x \u{1f355}", "\u{2588}".repeat(10)));
}

#[test]
fn row_pads_count_to_widest() {
    let row = render_row(&"\u{1f389}".to_string(), 7, 100, 12, 2, 4);
    // 4 * 7/12 = 2.33..: two full cells, remainder 1/3 -> round(8/3) = 3
    assert_eq!(row, "+ \u{2588}\u{2588}\u{258d}    7.00%  7x \u{1f389}");
}

#[test]
fn full_report_for_the_pizza_scenario() {
    let mut t = FrequencyTable::new();
    assert!(process_line(&mut t, "I love \u{1f355} and \u{1f355} and \u{1f389}"));
    assert!(process_line(&mut t, "\u{1f355} again"));
    let ranked = top_k(&t, 2);
    let lines = render_report(&t, &ranked, "pizza.txt", 10);
    assert_eq!(lines.len(), 3);
    assert_eq!(lines[0], "====== `pizza.txt` =======");
    assert_eq!(lines[1], format!("+ {}  75.00% 3x \u{1f355}", "\u{2588}".repeat(10)));
    assert_eq!(lines[2], "+ \u{2588}\u{2588}\u{2588}\u{258d}        25.00% 1x \u{1f389}");
}

#[test]
fn rounded_percentages_sum_near_100() {
    // three equal counts: each rounds to 33.33%, summing to 99.99%,
    // within half a hundredth of a percent per entry of 100%
    let total = 3usize;
    let sum: usize = (0..3).map(|_| compute_percent_hundredths(1, total)).sum();
    assert_eq!(sum, 9999);
    assert!((10000 - sum) * 2 <= 3);
}
