use feed_relay::batch::{plan_batch, Story, BATCH_CAP};
use feed_relay::feed::FeedItem;
use feed_relay::ledger::DedupLedger;
use feed_relay::string_set::StringSet;

fn set_of(names: &[&str]) -> StringSet {
    StringSet::from_names(names.iter().map(|name| name.to_string()).collect())
}

fn item(identifier: &str, categories: &[&str]) -> FeedItem {
    FeedItem {
        identifier: identifier.to_string(),
        title: format!("Title of {}", identifier),
        link: format!("https://example.com/{}", identifier),
        categories: set_of(categories),
    }
}

fn identifiers(batch: &[Story]) -> Vec<&str> {
    batch.iter().map(|story| story.identifier.as_str()).collect()
}

#[test]
fn the_cap_is_five() {
    assert_eq!(BATCH_CAP, 5);
}

#[test]
fn plan_turns_an_item_into_a_story() {
    let items = vec![item("a", &["rust", "news"])];
    let batch = plan_batch(&items, &DedupLedger::new(), &set_of(&["rust", "tech"]), 5);
    assert_eq!(
        batch,
        vec![Story {
            identifier: "a".to_string(),
            title: "Title of a".to_string(),
            url: "https://example.com/a".to_string(),
            tags: vec!["rust".to_string(), "automated".to_string()],
        }]
    );
}

#[test]
fn plan_leaves_out_what_the_ledger_holds() {
    let items = vec![item("a", &[]), item("b", &[]), item("c", &[]), item("d", &[])];
    let ledger = DedupLedger::parse("b\nd\nz\n");
    let batch = plan_batch(&items, &ledger, &StringSet::new(), 5);
    assert_eq!(identifiers(&batch), vec!["a", "c"]);
}

#[test]
fn plan_takes_the_first_fresh_items_up_to_the_cap() {
    let items: Vec<FeedItem> = (1..=12).map(|i| item(&format!("item-{}", i), &[])).collect();
    let batch = plan_batch(&items, &DedupLedger::new(), &StringSet::new(), BATCH_CAP);
    assert_eq!(identifiers(&batch), vec!["item-1", "item-2", "item-3", "item-4", "item-5"]);
}

#[test]
fn plan_counts_only_fresh_items_towards_the_cap() {
    let items: Vec<FeedItem> = (1..=12).map(|i| item(&format!("item-{}", i), &[])).collect();
    let ledger = DedupLedger::parse("item-1\nitem-3\nitem-4\nitem-9\n");
    let batch = plan_batch(&items, &ledger, &StringSet::new(), 5);
    assert_eq!(identifiers(&batch), vec!["item-2", "item-5", "item-6", "item-7", "item-8"]);
}

#[test]
fn plan_with_fewer_fresh_items_than_the_cap() {
    let items = vec![item("a", &[]), item("b", &[]), item("c", &[])];
    let batch = plan_batch(&items, &DedupLedger::parse("a\n"), &StringSet::new(), 5);
    assert_eq!(identifiers(&batch), vec!["b", "c"]);
}

#[test]
fn plan_with_cap_zero_or_no_items() {
    let items = vec![item("a", &[])];
    assert!(plan_batch(&items, &DedupLedger::new(), &StringSet::new(), 0).is_empty());
    assert!(plan_batch(&Vec::new(), &DedupLedger::new(), &StringSet::new(), 5).is_empty());
}

#[test]
fn plan_with_everything_in_the_ledger() {
    let items = vec![item("a", &[]), item("b", &[])];
    assert!(plan_batch(&items, &DedupLedger::parse("a\nb\n"), &StringSet::new(), 5).is_empty());
}

#[test]
fn plan_gives_each_story_its_own_tags() {
    let items = vec![item("a", &["web", "ai"]), item("b", &["cooking"]), item("c", &[])];
    let batch = plan_batch(&items, &DedupLedger::new(), &set_of(&["ai", "web"]), 5);
    assert_eq!(batch[0].tags, vec!["ai", "web", "automated"]);
    assert_eq!(batch[1].tags, vec!["random", "automated"]);
    assert_eq!(batch[2].tags, vec!["random", "automated"]);
}

#[test]
fn second_plan_after_recording_the_first_is_empty() {
    let items = vec![item("a", &[]), item("b", &[]), item("c", &[])];
    let mut ledger = DedupLedger::parse("b\n");
    let first = plan_batch(&items, &ledger, &StringSet::new(), 5);
    assert_eq!(identifiers(&first), vec!["a", "c"]);
    for story in &first {
        ledger.insert(&story.identifier);
    }
    assert!(plan_batch(&items, &ledger, &StringSet::new(), 5).is_empty());
}

#[test]
fn duplicate_is_an_equal_story() {
    let story = Story {
        identifier: "a".to_string(),
        title: "A".to_string(),
        url: "https://example.com/a".to_string(),
        tags: vec!["random".to_string(), "automated".to_string()],
    };
    assert_eq!(story.duplicate(), story);
}
