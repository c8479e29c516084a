use feed_relay::string_set::StringSet;

fn set_of(names: &[&str]) -> StringSet {
    StringSet::from_names(names.iter().map(|name| name.to_string()).collect())
}

fn listing(set: &StringSet) -> Vec<&str> {
    set.names().iter().map(|name| name.as_str()).collect()
}

#[test]
fn new_set_is_empty() {
    let set = StringSet::new();
    assert!(set.is_empty());
    assert_eq!(set.len(), 0);
    assert!(!set.contains(""));
    assert!(!set.contains("rust"));
}

#[test]
fn insert_adds_a_member_once() {
    let mut set = StringSet::new();
    assert!(set.insert("rust".to_string()));
    assert!(!set.insert("rust".to_string()));
    assert!(set.insert("news".to_string()));
    assert_eq!(set.len(), 2);
    assert!(set.contains("rust"));
    assert!(set.contains("news"));
    assert!(!set.contains("tech"));
    assert!(!set.is_empty());
}

#[test]
fn members_are_listed_in_ascending_order() {
    let set = set_of(&["zebra", "apple", "mango", "apple", "Apple", ""]);
    assert_eq!(listing(&set), vec!["", "Apple", "apple", "mango", "zebra"]);
    assert_eq!(set.len(), 5);
}

#[test]
fn from_names_of_nothing_is_empty() {
    let set = set_of(&[]);
    assert!(set.is_empty());
    assert_eq!(listing(&set), Vec::<&str>::new());
}

#[test]
fn contains_finds_every_member_of_a_larger_set() {
    let names: Vec<String> = (0..200).map(|i| format!("tag-{}", (i * 37) % 200)).collect();
    let set = StringSet::from_names(names);
    assert_eq!(set.len(), 200);
    for i in 0..200 {
        assert!(set.contains(&format!("tag-{}", i)));
    }
    assert!(!set.contains("tag-200"));
    assert!(!set.contains("tag"));
    let listed = listing(&set);
    for pair in listed.windows(2) {
        assert!(pair[0] < pair[1]);
    }
}

#[test]
fn contains_matches_exactly() {
    let set = set_of(&["rust"]);
    assert!(!set.contains("Rust"));
    assert!(!set.contains("rust "));
    assert!(!set.contains(" rust"));
    assert!(!set.contains("rus"));
}

#[test]
fn intersection_holds_the_common_members() {
    let left = set_of(&["rust", "news", "web"]);
    let right = set_of(&["web", "tech", "rust"]);
    assert_eq!(listing(&left.intersection(&right)), vec!["rust", "web"]);
    assert_eq!(listing(&right.intersection(&left)), vec!["rust", "web"]);
}

#[test]
fn intersection_with_nothing_in_common_is_empty() {
    let left = set_of(&["politics"]);
    let right = set_of(&["rust", "tech"]);
    assert!(left.intersection(&right).is_empty());
    assert!(left.intersection(&StringSet::new()).is_empty());
    assert!(StringSet::new().intersection(&right).is_empty());
}

#[test]
fn into_names_hands_out_the_listing() {
    let set = set_of(&["b", "c", "a"]);
    assert_eq!(set.into_names(), vec!["a".to_string(), "b".to_string(), "c".to_string()]);
}
