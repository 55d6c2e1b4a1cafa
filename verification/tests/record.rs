use tile_grid::record::{high_score_or_zero, parse_high_score};

#[test]
fn a_stored_number_is_read_back() {
    assert_eq!(parse_high_score("1234"), 1234);
    assert_eq!(parse_high_score("0"), 0);
    assert_eq!(parse_high_score("4294967295"), u32::MAX);
}

#[test]
fn white_space_at_the_ends_is_dropped() {
    assert_eq!(parse_high_score("  512\n"), 512);
    assert_eq!(parse_high_score("\t2048 \r\n"), 2048);
}

#[test]
fn a_text_without_a_number_counts_as_zero() {
    assert_eq!(parse_high_score(""), 0);
    assert_eq!(parse_high_score("   "), 0);
    assert_eq!(parse_high_score("abc"), 0);
    assert_eq!(parse_high_score("12 34"), 0);
    assert_eq!(parse_high_score("-5"), 0);
    assert_eq!(parse_high_score("4294967296"), 0);
}

#[test]
fn a_missing_number_is_zero() {
    assert_eq!(high_score_or_zero(Some(77)), 77);
    assert_eq!(high_score_or_zero(None), 0);
}
