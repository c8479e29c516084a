use feed_relay::feed::{collect_items, count_start_tags, parse_feed, FeedEntry, FeedError, START_TAG_LIMIT};

fn entry(guid: Option<&str>, title: Option<&str>, link: Option<&str>, categories: &[&str]) -> FeedEntry {
    FeedEntry {
        guid: guid.map(|text| text.to_string()),
        title: title.map(|text| text.to_string()),
        link: link.map(|text| text.to_string()),
        categories: categories.iter().map(|name| name.to_string()).collect(),
    }
}

fn channel(items: &str) -> Vec<u8> {
    format!(
        "<?xml version=\"1.0\" encoding=\"UTF-8\"?>\n<rss version=\"2.0\"><channel>\
         <title>Stories</title><link>https://example.com/</link>\
         <description>Latest stories</description>{}</channel></rss>",
        items
    )
    .into_bytes()
}

#[test]
fn entry_with_all_fields_is_an_item() {
    let item = entry(Some("id-1"), Some("One"), Some("https://example.com/1"), &["rust", "news", "rust"])
        .to_item()
        .unwrap();
    assert_eq!(item.identifier, "id-1");
    assert_eq!(item.title, "One");
    assert_eq!(item.link, "https://example.com/1");
    assert_eq!(item.categories.len(), 2);
    assert!(item.categories.contains("rust"));
    assert!(item.categories.contains("news"));
}

#[test]
fn entry_without_categories_is_an_item() {
    let item = entry(Some("id-1"), Some("One"), Some("https://example.com/1"), &[]).to_item().unwrap();
    assert!(item.categories.is_empty());
}

#[test]
fn entry_without_a_required_field_is_no_item() {
    assert!(entry(None, Some("One"), Some("https://example.com/1"), &[]).to_item().is_none());
    assert!(entry(Some("id-1"), None, Some("https://example.com/1"), &[]).to_item().is_none());
    assert!(entry(Some("id-1"), Some("One"), None, &["rust"]).to_item().is_none());
    assert!(entry(None, None, None, &[]).to_item().is_none());
}

#[test]
fn collect_items_keeps_the_order_and_counts_the_rest() {
    let entries = vec![
        entry(Some("a"), Some("A"), Some("https://example.com/a"), &[]),
        entry(None, Some("B"), Some("https://example.com/b"), &[]),
        entry(Some("c"), Some("C"), Some("https://example.com/c"), &["x"]),
        entry(Some("d"), Some("D"), None, &[]),
        entry(Some("e"), Some("E"), Some("https://example.com/e"), &[]),
    ];
    let feed = collect_items(&entries);
    let identifiers: Vec<&str> = feed.items.iter().map(|item| item.identifier.as_str()).collect();
    assert_eq!(identifiers, vec!["a", "c", "e"]);
    assert_eq!(feed.malformed, 2);
}

#[test]
fn collect_items_of_nothing() {
    let feed = collect_items(&Vec::new());
    assert!(feed.items.is_empty());
    assert_eq!(feed.malformed, 0);
}

#[test]
fn parse_feed_reads_the_items_of_a_channel() {
    let document = channel(
        "<item><title>First story</title><link>https://example.com/1</link>\
         <guid>https://example.com/s/1</guid><category>rust</category>\
         <category>news</category></item>\
         <item><title>Second &amp; last</title><link>https://example.com/2</link>\
         <guid isPermaLink=\"false\">second</guid></item>",
    );
    let feed = parse_feed(&document).unwrap();
    assert_eq!(feed.malformed, 0);
    assert_eq!(feed.items.len(), 2);
    assert_eq!(feed.items[0].identifier, "https://example.com/s/1");
    assert_eq!(feed.items[0].title, "First story");
    assert_eq!(feed.items[0].link, "https://example.com/1");
    assert_eq!(feed.items[0].categories.names(), &vec!["news".to_string(), "rust".to_string()]);
    assert_eq!(feed.items[1].identifier, "second");
    assert_eq!(feed.items[1].title, "Second & last");
    assert!(feed.items[1].categories.is_empty());
}

#[test]
fn parse_feed_passes_over_entries_that_lack_a_field() {
    let document = channel(
        "<item><title>No identifier</title><link>https://example.com/1</link></item>\
         <item><title>Whole</title><link>https://example.com/2</link><guid>two</guid></item>\
         <item><link>https://example.com/3</link><guid>three</guid></item>\
         <item><title>No link</title><guid>four</guid></item>",
    );
    let feed = parse_feed(&document).unwrap();
    assert_eq!(feed.items.len(), 1);
    assert_eq!(feed.items[0].identifier, "two");
    assert_eq!(feed.malformed, 3);
}

#[test]
fn parse_feed_of_a_channel_without_items() {
    let feed = parse_feed(&channel("")).unwrap();
    assert!(feed.items.is_empty());
    assert_eq!(feed.malformed, 0);
}

#[test]
fn parse_feed_refuses_what_is_no_channel() {
    assert_eq!(parse_feed(b"").unwrap_err(), FeedError::Malformed);
    assert_eq!(parse_feed(b"not a feed at all").unwrap_err(), FeedError::Malformed);
    assert_eq!(parse_feed(b"<html><body>Gateway timeout</body></html>").unwrap_err(), FeedError::Malformed);
    assert_eq!(parse_feed(b"<rss version=\"2.0\"></rss>").unwrap_err(), FeedError::Malformed);
}

#[test]
fn parse_feed_refuses_broken_markup() {
    let document = b"<rss version=\"2.0\"><channel><item><title>Broken</wrong></item></channel></rss>";
    assert_eq!(parse_feed(document).unwrap_err(), FeedError::Malformed);
}

/// A channel with an element of a prefixed name in which `depth` elements are
/// nested one in another.
fn nested(depth: usize, closed: bool) -> Vec<u8> {
    let mut text = String::from("<rss version=\"2.0\"><channel><a:b>");
    for _ in 0..depth {
        text.push_str("<c>");
    }
    if closed {
        for _ in 0..depth {
            text.push_str("</c>");
        }
        text.push_str("</a:b></channel></rss>");
    }
    text.into_bytes()
}

#[test]
fn entry_with_a_line_feed_in_its_identifier_is_no_item() {
    assert!(entry(Some("a\nb"), Some("One"), Some("https://example.com/1"), &[]).to_item().is_none());
    assert!(entry(Some("\n"), Some("One"), Some("https://example.com/1"), &[]).to_item().is_none());
    assert!(entry(Some("a\n"), Some("One"), Some("https://example.com/1"), &[]).to_item().is_none());
}

#[test]
fn entry_with_a_carriage_return_at_the_end_of_its_identifier_is_no_item() {
    assert!(entry(Some("a\r"), Some("One"), Some("https://example.com/1"), &[]).to_item().is_none());
    assert!(entry(Some("a\rb"), Some("One"), Some("https://example.com/1"), &[]).to_item().is_some());
    assert!(entry(Some(""), Some("One"), Some("https://example.com/1"), &[]).to_item().is_some());
}

#[test]
fn line_feeds_in_title_and_link_do_no_harm() {
    let item = entry(Some("a"), Some("One\nTwo"), Some("https://example.com/\r"), &["x\ny"]).to_item().unwrap();
    assert_eq!(item.title, "One\nTwo");
    assert_eq!(item.link, "https://example.com/\r");
    assert!(item.categories.contains("x\ny"));
}

#[test]
fn parse_feed_passes_over_an_identifier_with_a_line_feed_inside() {
    let document = channel(
        "<item><title>Split</title><link>https://example.com/1</link><guid>one\ntwo</guid></item>\
         <item><title>Whole</title><link>https://example.com/2</link><guid>\n  three \n</guid></item>",
    );
    let feed = parse_feed(&document).unwrap();
    assert_eq!(feed.items.len(), 1);
    assert_eq!(feed.items[0].identifier, "three");
    assert_eq!(feed.malformed, 1);
}

#[test]
fn the_limit_on_start_tags_is_512() {
    assert_eq!(START_TAG_LIMIT, 512);
}

#[test]
fn count_start_tags_counts_what_can_begin_an_element() {
    assert_eq!(count_start_tags(b""), 0);
    assert_eq!(count_start_tags(b"no markup"), 0);
    assert_eq!(count_start_tags(b"<a>"), 1);
    assert_eq!(count_start_tags(b"<a><b/></a>"), 2);
    assert_eq!(count_start_tags(b"<a>text</a><b>text</b>"), 2);
    assert_eq!(count_start_tags(b"<<<"), 2);
    assert_eq!(count_start_tags(b"<"), 0);
    assert_eq!(count_start_tags(b"a<"), 0);
}

#[test]
fn count_start_tags_leaves_out_end_tags_comments_and_instructions() {
    assert_eq!(count_start_tags(b"</a>"), 0);
    assert_eq!(count_start_tags(b"<?xml version=\"1.0\"?>"), 0);
    assert_eq!(count_start_tags(b"<!-- note -->"), 0);
    assert_eq!(count_start_tags(b"<![CDATA[text]]>"), 0);
    assert_eq!(count_start_tags(b"<![CDATA[<p>text</p>]]>"), 1);
    assert_eq!(count_start_tags(b"<?xml version=\"1.0\"?><rss><channel></channel></rss>"), 2);
}

#[test]
fn count_start_tags_of_nested_documents() {
    assert_eq!(count_start_tags(&nested(0, true)), 3);
    assert_eq!(count_start_tags(&nested(509, true)), 512);
    assert_eq!(count_start_tags(&nested(509, false)), 512);
    assert_eq!(count_start_tags(&nested(510, false)), 513);
}

#[test]
fn parse_feed_reads_a_document_nested_as_deep_as_the_limit() {
    let feed = parse_feed(&nested(START_TAG_LIMIT - 3, true)).unwrap();
    assert!(feed.items.is_empty());
    assert_eq!(parse_feed(&nested(START_TAG_LIMIT - 3, false)).unwrap_err(), FeedError::Malformed);
}

#[test]
fn parse_feed_refuses_a_document_over_the_limit_unread() {
    assert_eq!(parse_feed(&nested(START_TAG_LIMIT - 2, true)).unwrap_err(), FeedError::TooManyTags);
    assert_eq!(parse_feed(&nested(START_TAG_LIMIT - 2, false)).unwrap_err(), FeedError::TooManyTags);
    assert_eq!(parse_feed(&nested(20_000, false)).unwrap_err(), FeedError::TooManyTags);
    assert_eq!(parse_feed(&nested(200_000, true)).unwrap_err(), FeedError::TooManyTags);
}

#[test]
fn parse_feed_refuses_a_flat_document_over_the_limit() {
    let mut items = String::new();
    for i in 0..200 {
        items.push_str(&format!(
            "<item><title>t</title><link>https://example.com/{0}</link><guid>{0}</guid></item>",
            i
        ));
    }
    assert_eq!(parse_feed(&channel(&items)).unwrap_err(), FeedError::TooManyTags);
}

#[test]
fn parse_feed_reads_a_feed_of_a_hundred_items() {
    let mut items = String::new();
    for i in 0..100 {
        items.push_str(&format!(
            "<item><title>t</title><link>https://example.com/{0}</link><guid>{0}</guid></item>",
            i
        ));
    }
    let feed = parse_feed(&channel(&items)).unwrap();
    assert_eq!(feed.items.len(), 100);
    assert_eq!(feed.items[99].identifier, "99");
}
