use feed_relay::ledger::{is_recordable, DedupLedger};

#[test]
fn new_ledger_holds_nothing() {
    let ledger = DedupLedger::new();
    assert_eq!(ledger.len(), 0);
    assert!(!ledger.contains("a"));
    assert!(!ledger.contains(""));
}

#[test]
fn parse_empty_text() {
    let ledger = DedupLedger::parse("");
    assert_eq!(ledger.len(), 0);
    assert!(!ledger.contains(""));
}

#[test]
fn parse_one_identifier_per_line() {
    let ledger = DedupLedger::parse("https://example.com/1\nhttps://example.com/2\n");
    assert_eq!(ledger.len(), 2);
    assert!(ledger.contains("https://example.com/1"));
    assert!(ledger.contains("https://example.com/2"));
    assert!(!ledger.contains("https://example.com/3"));
    assert!(!ledger.contains(""));
}

#[test]
fn parse_last_line_without_line_feed() {
    let ledger = DedupLedger::parse("a\nb");
    assert_eq!(ledger.len(), 2);
    assert!(ledger.contains("a"));
    assert!(ledger.contains("b"));
}

#[test]
fn parse_takes_a_carriage_return_off_before_a_line_feed() {
    let ledger = DedupLedger::parse("a\r\nb\r\r\nc\r");
    assert_eq!(ledger.len(), 3);
    assert!(ledger.contains("a"));
    assert!(ledger.contains("b\r"));
    assert!(ledger.contains("c\r"));
    assert!(!ledger.contains("a\r"));
    assert!(!ledger.contains("c"));
}

#[test]
fn parse_keeps_an_inner_carriage_return() {
    let ledger = DedupLedger::parse("a\rb\n");
    assert_eq!(ledger.len(), 1);
    assert!(ledger.contains("a\rb"));
}

#[test]
fn parse_counts_a_repeated_identifier_once() {
    let ledger = DedupLedger::parse("a\nb\na\n");
    assert_eq!(ledger.len(), 2);
}

#[test]
fn parse_reads_an_empty_line_as_the_empty_identifier() {
    let ledger = DedupLedger::parse("a\n\nb\n");
    assert_eq!(ledger.len(), 3);
    assert!(ledger.contains(""));
    let only = DedupLedger::parse("\n");
    assert_eq!(only.len(), 1);
    assert!(only.contains(""));
}

#[test]
fn parse_matches_exactly() {
    let ledger = DedupLedger::parse("Item 1\n");
    assert!(ledger.contains("Item 1"));
    assert!(!ledger.contains("item 1"));
    assert!(!ledger.contains("Item 1 "));
    assert!(!ledger.contains("Item"));
}

#[test]
fn parse_agrees_with_the_lines_of_the_text() {
    let texts = ["", "a", "a\n", "a\n\n", "\n\na", "a\r\nb\r", "\r\n", "日本\n😀\r\nx", "a\r\r\nb"];
    for text in texts {
        let ledger = DedupLedger::parse(text);
        let mut lines: Vec<&str> = text.lines().collect();
        for line in &lines {
            assert!(ledger.contains(line));
        }
        lines.sort();
        lines.dedup();
        assert_eq!(ledger.len(), lines.len());
    }
}

#[test]
fn record_line_is_the_identifier_and_a_line_feed() {
    assert_eq!(DedupLedger::record_line("a"), "a\n");
    assert_eq!(DedupLedger::record_line("https://example.com/s/1"), "https://example.com/s/1\n");
    assert_eq!(DedupLedger::record_line(""), "\n");
}

#[test]
fn insert_adds_the_identifier() {
    let mut ledger = DedupLedger::parse("a\n");
    ledger.insert("b");
    ledger.insert("a");
    assert_eq!(ledger.len(), 2);
    assert!(ledger.contains("a"));
    assert!(ledger.contains("b"));
}

#[test]
fn recorded_identifiers_are_read_back() {
    let mut log = String::new();
    log.push_str(&DedupLedger::record_line("a"));
    log.push_str(&DedupLedger::record_line("b"));
    let ledger = DedupLedger::parse(&log);
    assert_eq!(ledger.len(), 2);
    assert!(ledger.contains("a"));
    assert!(ledger.contains("b"));
    // A later run reads the same text anew.
    let again = DedupLedger::parse(&log);
    assert_eq!(again.len(), 2);
    assert!(again.contains("a"));
    assert!(again.contains("b"));
    assert!(!again.contains("c"));
}

#[test]
fn record_appended_to_an_older_ledger_adds_one_identifier() {
    let mut log = String::from("x\ny\n");
    log.push_str(&DedupLedger::record_line("日本語/1"));
    let ledger = DedupLedger::parse(&log);
    assert_eq!(ledger.len(), 3);
    assert!(ledger.contains("x"));
    assert!(ledger.contains("y"));
    assert!(ledger.contains("日本語/1"));
}

#[test]
fn is_recordable_refuses_what_a_line_cannot_hold() {
    assert!(is_recordable(""));
    assert!(is_recordable("https://example.com/s/1"));
    assert!(is_recordable("a\rb"));
    assert!(is_recordable("日本語 1"));
    assert!(!is_recordable("a\nb"));
    assert!(!is_recordable("a\n"));
    assert!(!is_recordable("\n"));
    assert!(!is_recordable("a\r"));
    assert!(!is_recordable("a\r\n"));
}

#[test]
fn a_recordable_identifier_is_read_back_as_it_is() {
    for identifier in ["", "a", "a\rb", " spaced out ", "日本語/1", "tab\there"] {
        assert!(is_recordable(identifier));
        let mut log = String::from("before\n");
        log.push_str(&DedupLedger::record_line(identifier));
        let ledger = DedupLedger::parse(&log);
        assert!(ledger.contains(identifier));
        assert_eq!(ledger.len(), 2);
    }
}

#[test]
fn an_identifier_that_is_not_recordable_is_not_read_back() {
    for identifier in ["a\nb", "a\r"] {
        assert!(!is_recordable(identifier));
        let ledger = DedupLedger::parse(&DedupLedger::record_line(identifier));
        assert!(!ledger.contains(identifier));
    }
}
