use msgbus::is_matching;

#[test]
fn test_is_matching_star_star() {
    assert!(is_matching("*", "*"));
}

#[test]
fn test_is_matching_letter_star() {
    assert!(is_matching("a", "*"));
}

#[test]
fn test_is_matching_same_letter() {
    assert!(is_matching("a", "a"));
}

#[test]
fn test_is_matching_other_letter() {
    assert!(!is_matching("a", "b"));
}

#[test]
fn test_is_matching_trailing_star() {
    assert!(is_matching("data.quotes.BINANCE", "data.*"));
}

#[test]
fn test_is_matching_prefix_star() {
    assert!(is_matching("data.quotes.BINANCE", "data.quotes*"));
}

#[test]
fn test_is_matching_inner_star() {
    assert!(is_matching("data.quotes.BINANCE", "data.*.BINANCE"));
}

#[test]
fn test_is_matching_two_stars() {
    assert!(is_matching("data.trades.BINANCE.ETHUSDT", "data.*.BINANCE.*"));
}

#[test]
fn test_is_matching_star_then_prefix() {
    assert!(is_matching(
        "data.trades.BINANCE.ETHUSDT",
        "data.*.BINANCE.ETH*"
    ));
}

#[test]
fn empty_topic_and_pattern() {
    assert!(is_matching("", ""));
    assert!(is_matching("", "*"));
    assert!(is_matching("", "***"));
    assert!(!is_matching("", "?"));
    assert!(!is_matching("a", ""));
    assert!(!is_matching("", "a*"));
}

#[test]
fn question_mark_matches_one_character() {
    assert!(is_matching("camp", "c?mp"));
    assert!(is_matching("coop", "c??p"));
    assert!(!is_matching("cp", "c?p"));
    assert!(!is_matching("caamp", "c?mp"));
}

#[test]
fn star_matches_empty_run() {
    assert!(is_matching("comp", "comp*"));
    assert!(is_matching("computer", "comp*"));
    assert!(is_matching("ab", "a*b"));
    assert!(!is_matching("ba", "a*"));
}

#[test]
fn matching_is_case_sensitive() {
    assert!(!is_matching("Data", "data"));
    assert!(!is_matching("data.X", "data.x"));
}

#[test]
fn literal_pattern_matches_only_itself() {
    assert!(is_matching("data.quotes", "data.quotes"));
    assert!(!is_matching("data.quotesX", "data.quotes"));
    assert!(!is_matching("data.quote", "data.quotes"));
}

#[test]
fn long_inputs_have_no_length_limit() {
    let topic = "x".repeat(600) + ".end";
    assert!(is_matching(&topic, "x*.end"));
    assert!(is_matching(&topic, &topic));
    assert!(!is_matching(&topic, "x*.ent"));
    let pattern = "?".repeat(604);
    assert!(is_matching(&topic, &pattern));
    assert!(!is_matching(&topic, &"?".repeat(603)));
}

#[test]
fn non_ascii_characters_count_once() {
    assert!(is_matching("é", "?"));
    assert!(is_matching("данные.котировки", "данные.*"));
}
