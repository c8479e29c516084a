use feed_relay::text::{
    collate, copy_texts, ends_in_return, holds_line_feed, split_line, trim_return, Rank,
};

#[test]
fn collate_equal_texts() {
    assert_eq!(collate("rust", "rust"), Rank::Same);
    assert_eq!(collate("", ""), Rank::Same);
}

#[test]
fn collate_orders_by_first_difference() {
    assert_eq!(collate("news", "rust"), Rank::Before);
    assert_eq!(collate("rust", "news"), Rank::After);
    assert_eq!(collate("rusa", "rust"), Rank::Before);
}

#[test]
fn collate_puts_prefix_first() {
    assert_eq!(collate("", "a"), Rank::Before);
    assert_eq!(collate("rust", "rustacean"), Rank::Before);
    assert_eq!(collate("rustacean", "rust"), Rank::After);
}

#[test]
fn collate_is_case_sensitive() {
    assert_eq!(collate("Rust", "rust"), Rank::Before);
    assert_ne!(collate("Rust", "rust"), Rank::Same);
}

#[test]
fn collate_orders_by_code_point() {
    assert_eq!(collate("z", "é"), Rank::Before);
    assert_eq!(collate("é", "日"), Rank::Before);
    assert_eq!(collate("日", "😀"), Rank::Before);
    assert_eq!(collate("😀", "日"), Rank::After);
}

#[test]
fn collate_agrees_with_the_order_of_strings() {
    let samples = ["", "a", "ab", "b", "B", "é", "日本", "😀", "a😀", "zz"];
    for a in samples {
        for b in samples {
            let expected = if a < b {
                Rank::Before
            } else if a == b {
                Rank::Same
            } else {
                Rank::After
            };
            assert_eq!(collate(a, b), expected);
        }
    }
}

#[test]
fn split_line_without_line_feed() {
    assert_eq!(split_line("abc"), ("abc", None));
    assert_eq!(split_line(""), ("", None));
}

#[test]
fn split_line_at_first_line_feed() {
    assert_eq!(split_line("a\nb\nc"), ("a", Some("b\nc")));
    assert_eq!(split_line("a\n"), ("a", Some("")));
    assert_eq!(split_line("\nrest"), ("", Some("rest")));
}

#[test]
fn split_line_keeps_wide_characters_whole() {
    assert_eq!(split_line("日本語\né😀"), ("日本語", Some("é😀")));
}

#[test]
fn trim_return_takes_one_carriage_return() {
    assert_eq!(trim_return("a\r"), "a");
    assert_eq!(trim_return("a\r\r"), "a\r");
    assert_eq!(trim_return("\r"), "");
}

#[test]
fn trim_return_leaves_other_lines_alone() {
    assert_eq!(trim_return("a"), "a");
    assert_eq!(trim_return(""), "");
    assert_eq!(trim_return("\ra"), "\ra");
    assert_eq!(trim_return("日本"), "日本");
}

#[test]
fn copy_texts_copies_each_text() {
    let texts = vec!["b".to_string(), "a".to_string(), "b".to_string()];
    assert_eq!(copy_texts(&texts), texts);
    assert_eq!(copy_texts(&Vec::new()), Vec::<String>::new());
}

#[test]
fn ends_in_return_looks_at_the_last_character_only() {
    assert!(ends_in_return("a\r"));
    assert!(ends_in_return("\r"));
    assert!(!ends_in_return(""));
    assert!(!ends_in_return("a"));
    assert!(!ends_in_return("\ra"));
    assert!(!ends_in_return("a\r\n"));
    assert!(!ends_in_return("日本"));
    assert!(ends_in_return("日本\r"));
}

#[test]
fn holds_line_feed_finds_one_anywhere() {
    assert!(holds_line_feed("\n"));
    assert!(holds_line_feed("a\nb"));
    assert!(holds_line_feed("ab\n"));
    assert!(holds_line_feed("日本\n😀"));
    assert!(!holds_line_feed(""));
    assert!(!holds_line_feed("ab"));
    assert!(!holds_line_feed("a\rb"));
    assert!(!holds_line_feed("日本😀"));
}
