use feed_relay::string_set::StringSet;
use feed_relay::tags::{reconcile, FALLBACK_TAG, MARKER_TAG};

fn set_of(names: &[&str]) -> StringSet {
    StringSet::from_names(names.iter().map(|name| name.to_string()).collect())
}

fn tags(categories: &[&str], vocabulary: &[&str]) -> Vec<String> {
    reconcile(&set_of(categories), &set_of(vocabulary))
}

#[test]
fn sentinels_have_their_fixed_names() {
    assert_eq!(FALLBACK_TAG, "random");
    assert_eq!(MARKER_TAG, "automated");
}

#[test]
fn reconcile_partial_overlap() {
    assert_eq!(tags(&["rust", "news"], &["rust", "tech"]), vec!["rust", "automated"]);
}

#[test]
fn reconcile_no_overlap() {
    assert_eq!(tags(&["politics"], &["rust", "tech"]), vec!["random", "automated"]);
}

#[test]
fn reconcile_empty_categories() {
    assert_eq!(tags(&[], &["rust"]), vec!["random", "automated"]);
}

#[test]
fn reconcile_empty_vocabulary() {
    assert_eq!(tags(&["rust"], &[]), vec!["random", "automated"]);
    assert_eq!(tags(&[], &[]), vec!["random", "automated"]);
}

#[test]
fn reconcile_full_overlap() {
    assert_eq!(tags(&["rust", "tech"], &["rust", "tech"]), vec!["rust", "tech", "automated"]);
}

#[test]
fn reconcile_lists_common_tags_in_ascending_order() {
    let vocabulary = ["web", "rust", "Zig", "ai", "databases"];
    assert_eq!(
        tags(&["web", "ai", "rust", "cooking", "Zig"], &vocabulary),
        vec!["Zig", "ai", "rust", "web", "automated"]
    );
    assert_eq!(
        tags(&["Zig", "rust", "ai", "web"], &vocabulary),
        vec!["Zig", "ai", "rust", "web", "automated"]
    );
}

#[test]
fn reconcile_does_not_normalize() {
    assert_eq!(tags(&["Rust", "tech "], &["rust", "tech"]), vec!["random", "automated"]);
    assert_eq!(tags(&[" rust", "rust"], &["rust"]), vec!["rust", "automated"]);
}

#[test]
fn reconcile_is_the_same_on_every_call() {
    let categories = set_of(&["c", "a", "b", "d"]);
    let vocabulary = set_of(&["d", "b", "a", "x"]);
    let first = reconcile(&categories, &vocabulary);
    let second = reconcile(&categories, &vocabulary);
    assert_eq!(first, second);
    assert_eq!(first, vec!["a", "b", "d", "automated"]);
}

#[test]
fn reconcile_keeps_the_marker_last_when_the_sentinels_are_categories() {
    assert_eq!(
        tags(&["automated", "random", "zeta"], &["automated", "random", "zeta"]),
        vec!["automated", "random", "zeta", "automated"]
    );
}
