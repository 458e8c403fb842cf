use emoji_stat::{extract_emojis, process_line, top_k, FrequencyTable};

fn find_count(t: &FrequencyTable, key: &str) -> Option<usize> {
    let mut i = 0;
    while i < t.len() {
        if t.key_at(i) == key {
            return Some(t.count_at(i));
        }
        i += 1;
    }
    None
}

#[test]
fn ascii_text_has_no_emoji() {
    assert!(extract_emojis("just plain ascii text 123 :-)").is_empty());
    let mut t = FrequencyTable::new();
    assert!(process_line(&mut t, "only ascii here"));
    assert!(t.is_empty());
    assert_eq!(t.total_count(), 0);
}

#[test]
fn pizza_lines_are_counted() {
    let mut t = FrequencyTable::new();
    assert!(process_line(&mut t, "I love \u{1f355} and \u{1f355} and \u{1f389}"));
    assert!(process_line(&mut t, "\u{1f355} again"));
    assert_eq!(t.len(), 2);
    assert_eq!(t.total_count(), 4);
    assert_eq!(find_count(&t, "\u{1f355}"), Some(3));
    assert_eq!(find_count(&t, "\u{1f389}"), Some(1));
    assert_eq!(t.max_count(), 3);
}

#[test]
fn extraction_keeps_order_and_drops_text() {
    let emo = extract_emojis("a\u{1f355}b\u{1f389}c\u{1f355}");
    assert_eq!(emo, ["\u{1f355}", "\u{1f389}", "\u{1f355}"]);
}

#[test]
fn counting_is_order_independent() {
    let mut t1 = FrequencyTable::new();
    process_line(&mut t1, "\u{1f355}\u{1f389}\u{1f355}");
    process_line(&mut t1, "\u{1f389}\u{1f49c}");
    let mut t2 = FrequencyTable::new();
    process_line(&mut t2, "\u{1f49c}\u{1f389}");
    process_line(&mut t2, "\u{1f355}\u{1f355}\u{1f389}");
    for key in ["\u{1f355}", "\u{1f389}", "\u{1f49c}"] {
        assert_eq!(find_count(&t1, key), find_count(&t2, key));
    }
    assert_eq!(t1.total_count(), t2.total_count());
}

#[test]
fn multi_codepoint_clusters_count_as_one_key() {
    // a skin-tone modifier sequence is one grapheme cluster, one key
    let mut t = FrequencyTable::new();
    assert!(process_line(&mut t, "ok \u{1f44d}\u{1f3fd} done"));
    assert_eq!(t.len(), 1);
    assert_eq!(find_count(&t, "\u{1f44d}\u{1f3fd}"), Some(1));
    // a flag is two regional indicators forming one cluster
    let emo = extract_emojis("go \u{1f1e9}\u{1f1ea}!");
    assert_eq!(emo, ["\u{1f1e9}\u{1f1ea}"]);
}

#[test]
fn skin_tone_variants_are_distinct_keys() {
    let mut t = FrequencyTable::new();
    assert!(process_line(&mut t, "\u{1f44d} vs \u{1f44d}\u{1f3fd}"));
    assert_eq!(t.len(), 2);
    assert_eq!(find_count(&t, "\u{1f44d}"), Some(1));
    assert_eq!(find_count(&t, "\u{1f44d}\u{1f3fd}"), Some(1));
}

#[test]
fn top_k_ranks_by_count_descending() {
    let mut t = FrequencyTable::new();
    process_line(&mut t, "\u{1f355}\u{1f355}\u{1f355}\u{1f389}\u{1f49c}\u{1f49c}");
    let ranked = top_k(&t, 2);
    assert_eq!(ranked.len(), 2);
    assert_eq!(ranked[0].key, "\u{1f355}");
    assert_eq!(ranked[0].count, 3);
    assert_eq!(ranked[1].key, "\u{1f49c}");
    assert_eq!(ranked[1].count, 2);
}

#[test]
fn top_k_larger_than_distinct_returns_all() {
    let mut t = FrequencyTable::new();
    process_line(&mut t, "\u{1f355}\u{1f355}\u{1f389}");
    let ranked = top_k(&t, 20);
    assert_eq!(ranked.len(), 2);
    assert_eq!(ranked[0].count, 2);
    assert_eq!(ranked[1].count, 1);
}

#[test]
fn top_k_zero_returns_nothing() {
    let mut t = FrequencyTable::new();
    process_line(&mut t, "\u{1f355}");
    assert!(top_k(&t, 0).is_empty());
}

#[test]
fn ties_rank_first_seen_first() {
    let mut t = FrequencyTable::new();
    process_line(&mut t, "\u{1f389}\u{1f355}\u{1f389}\u{1f355}");
    let ranked = top_k(&t, 2);
    assert_eq!(ranked[0].key, "\u{1f389}");
    assert_eq!(ranked[1].key, "\u{1f355}");
}
