use pdfscan::matching::find_matches;
use pdfscan::panel::SearchPanel;

#[test]
fn single_match_at_start() {
    let ms = find_matches("hello world", "hello", true);
    assert_eq!(ms.len(), 1);
    assert_eq!(ms[0].position, 0);
    assert_eq!(ms[0].text, "hello world");
}

#[test]
fn non_overlapping_occurrences() {
    // "aaaa" holds "aa" twice without overlap: at 0 and at 2.
    let ms = find_matches("aaaa", "aa", true);
    assert_eq!(ms.len(), 2);
    assert_eq!(ms[0].position, 0);
    assert_eq!(ms[1].position, 2);
}

#[test]
fn count_of_repeated_phrase() {
    let ms = find_matches("ab ab ab", "ab", true);
    assert_eq!(ms.len(), 3);
    assert_eq!(ms[0].position, 0);
    assert_eq!(ms[1].position, 3);
    assert_eq!(ms[2].position, 6);
}

#[test]
fn case_insensitive_finds_folded() {
    let ms = find_matches("HeLLo world", "hello", false);
    assert_eq!(ms.len(), 1);
    assert_eq!(ms[0].position, 0);
}

#[test]
fn case_sensitive_misses_differently_cased() {
    let ms = find_matches("HeLLo world", "hello", true);
    assert_eq!(ms.len(), 0);
}

#[test]
fn no_match_in_unrelated_text() {
    let ms = find_matches("goodbye", "hello", false);
    assert_eq!(ms.len(), 0);
}

#[test]
fn match_at_very_end_clamps_window() {
    let text = "the end is nigh";
    let ms = find_matches(text, "nigh", true);
    assert_eq!(ms.len(), 1);
    assert_eq!(ms[0].position, 11);
    // The window is clamped to the text bounds.
    assert_eq!(ms[0].text, text);
}

#[test]
fn long_text_window_is_40_each_side() {
    // 50 'a's, then "needle", then 50 'b's.
    let mut text = String::new();
    for _ in 0..50 {
        text.push('a');
    }
    text.push_str("needle");
    for _ in 0..50 {
        text.push('b');
    }
    let ms = find_matches(&text, "needle", true);
    assert_eq!(ms.len(), 1);
    assert_eq!(ms[0].position, 50);
    // 40 before + 6 of the phrase + 40 after.
    assert_eq!(ms[0].text.len(), 86);
    let expected: String = text.chars().skip(10).take(86).collect();
    assert_eq!(ms[0].text, expected);
}

#[test]
fn window_near_start_is_clamped_to_zero() {
    // The match sits 5 characters in: the window reaches back only to
    // the start of the text, and 40 characters past the phrase.
    let mut text = String::from("01234needle");
    for _ in 0..50 {
        text.push('x');
    }
    let ms = find_matches(&text, "needle", true);
    assert_eq!(ms.len(), 1);
    assert_eq!(ms[0].position, 5);
    let expected: String = text.chars().take(5 + 6 + 40).collect();
    assert_eq!(ms[0].text, expected);
}

#[test]
fn latin1_capitals_fold_like_ascii() {
    // The case rule covers the Latin-1 capitals as well: 'É' folds to
    // 'é', while characters outside the two ranges stay distinct.
    let ms = find_matches("un Éclair fin", "éclair", false);
    assert_eq!(ms.len(), 1);
    assert_eq!(ms[0].position, 3);
    // Case pairs outside the two ranges are not equated: the Greek
    // capital omega does not fold to its lower case form.
    let none = find_matches("ΩΜΕΓΑ", "ωμεγα", false);
    assert_eq!(none.len(), 0);
}

#[test]
fn offsets_are_character_offsets() {
    // Multi-byte characters before the match: offsets count characters,
    // not bytes, so the reported offset is a valid character index.
    let text = "ééé hello";
    let ms = find_matches(text, "hello", true);
    assert_eq!(ms.len(), 1);
    assert_eq!(ms[0].position, 4);
    let tail: String = text.chars().skip(4).take(5).collect();
    assert_eq!(tail, "hello");
}

#[test]
fn panel_search_in_text_uses_configuration() {
    let mut panel = SearchPanel::new();
    panel.search_query = String::from("world");
    panel.case_sensitive = false;
    let ms = panel.search_in_text("Hello World");
    assert_eq!(ms.len(), 1);
    assert_eq!(ms[0].position, 6);
}

#[test]
fn panel_new_is_empty() {
    let panel = SearchPanel::new();
    assert_eq!(panel.search_query, "");
    assert!(!panel.case_sensitive);
    assert!(panel.search_paths.is_empty());
    assert!(!panel.create_zip);
}

#[test]
fn panel_to_config_carries_fields() {
    let mut panel = SearchPanel::new();
    panel.search_query = String::from("abc");
    panel.case_sensitive = true;
    panel.search_paths.push(String::from("/tmp/x"));
    panel.create_zip = true;
    let config = panel.to_config();
    assert_eq!(config.phrase, "abc");
    assert!(config.case_sensitive);
    assert_eq!(config.roots, vec![String::from("/tmp/x")]);
    assert!(config.build_archive);
}
