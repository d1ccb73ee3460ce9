use esp_monitor::stats::StatsExtractor;

#[test]
fn extracts_stat_block() {
    let e = StatsExtractor::new();
    assert_eq!(
        e.feed_line("/* heap=1234 uptime=56 */"),
        Some(" heap=1234 uptime=56 ".to_string())
    );
}

#[test]
fn extracts_stat_block_with_surrounding_text() {
    let e = StatsExtractor::new();
    assert_eq!(
        e.feed_line("prefix /*stat*/ suffix"),
        Some("stat".to_string())
    );
}

#[test]
fn ordinary_line_returns_none() {
    let e = StatsExtractor::new();
    assert_eq!(e.feed_line("just a normal boot log line"), None);
}

#[test]
fn unterminated_block_returns_none() {
    let e = StatsExtractor::new();
    assert_eq!(e.feed_line("/* never closed"), None);
}

#[test]
fn only_close_marker_returns_none() {
    let e = StatsExtractor::new();
    assert_eq!(e.feed_line("no open marker */"), None);
}

#[test]
fn marks_that_share_a_star_do_not_close() {
    let e = StatsExtractor::default();
    assert_eq!(e.feed_line("/*/ open"), None);
    assert_eq!(e.feed_line("/*/*/"), Some("/".to_string()));
    assert_eq!(e.feed_line("/**/"), Some(String::new()));
}

#[test]
fn first_block_of_several_is_taken() {
    let e = StatsExtractor::new();
    assert_eq!(e.feed_line("*/ /* a */ /* b */"), Some(" a ".to_string()));
    assert_eq!(e.feed_line("/* x /* y */"), Some(" x /* y ".to_string()));
}

#[test]
fn block_with_multibyte_text() {
    let e = StatsExtractor::new();
    assert_eq!(
        e.feed_line("\u{1F980}/*t=20\u{b0}*/\u{fc}"),
        Some("t=20\u{b0}".to_string())
    );
}
