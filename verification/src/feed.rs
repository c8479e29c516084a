//! The items of a feed document.
//!
//! A feed document is read by the `rss` crate. What it hands out for each
//! `<item>` is held here as plain strings, so that the rest of the crate never
//! sees a value of that crate. An entry cannot be relayed, and is passed over,
//! where it lacks its identifier, its title or its link, or where its
//! identifier is one that no line of the ledger can hold.
//!
//! Feed documents come from outside and are not trusted. The `rss` crate goes
//! one call deeper for every start tag that is nested in an element with a
//! prefixed name, so a document is handed to it only where the number of its
//! start tags is within a limit.

use crate::ledger::{is_recordable, recordable};
use crate::string_set::StringSet;
use crate::text::copy_texts;
use vstd::prelude::*;

verus! {

/// One `<item>` of a feed document, as it was read.
#[derive(Debug, PartialEq, Eq)]
pub struct FeedEntry {
    /// The text of its `<guid>`.
    pub guid: Option<String>,
    pub title: Option<String>,
    pub link: Option<String>,
    /// The names of its `<category>` elements, in the order in which the `rss`
    /// crate lists them.
    pub categories: Vec<String>,
}

/// A [`FeedEntry`] as a mathematical value.
pub struct FeedEntryView {
    pub guid: Option<Seq<char>>,
    pub title: Option<Seq<char>>,
    pub link: Option<Seq<char>>,
    pub categories: Seq<Seq<char>>,
}

impl DeepView for FeedEntry {
    type V = FeedEntryView;

    open spec fn deep_view(&self) -> FeedEntryView {
        FeedEntryView {
            guid: self.guid.deep_view(),
            title: self.title.deep_view(),
            link: self.link.deep_view(),
            categories: self.categories.deep_view(),
        }
    }
}

/// A feed entry that can be relayed.
#[derive(Debug)]
pub struct FeedItem {
    /// What tells this item from every other item of the feed, run after run.
    pub identifier: String,
    pub title: String,
    pub link: String,
    pub categories: StringSet,
}

/// A [`FeedItem`] as a mathematical value.
pub struct FeedItemView {
    pub identifier: Seq<char>,
    pub title: Seq<char>,
    pub link: Seq<char>,
    pub categories: Set<Seq<char>>,
}

impl DeepView for FeedItem {
    type V = FeedItemView;

    open spec fn deep_view(&self) -> FeedItemView {
        FeedItemView {
            identifier: self.identifier@,
            title: self.title@,
            link: self.link@,
            categories: self.categories@,
        }
    }
}

/// The items of a feed document, in the order in which the `rss` crate lists
/// the entries of the channel.
#[derive(Debug)]
pub struct Feed {
    pub items: Vec<FeedItem>,
    /// How many entries of the document were passed over.
    pub malformed: usize,
}

/// Why a document yields no feed.
#[derive(Clone, Copy, Debug, PartialEq, Eq, Structural)]
pub enum FeedError {
    /// The document has more start tags than [`START_TAG_LIMIT`] and was not
    /// looked at any further.
    TooManyTags,
    /// The document is not a well-formed channel.
    Malformed,
}

/// The greatest number of start tags in a document that is read.
pub const START_TAG_LIMIT: usize = 512;

/// A start tag can begin at the byte `at`: a `<` stands there, and the byte
/// after it is none of `/`, `!` and `?`, which begin an end tag, a comment or
/// the like, and a processing instruction.
pub open spec fn opens_tag(document: Seq<u8>, at: int) -> bool {
    &&& 0 <= at
    &&& at + 1 < document.len()
    &&& document[at] == 0x3Cu8
    &&& document[at + 1] != 0x2Fu8
    &&& document[at + 1] != 0x21u8
    &&& document[at + 1] != 0x3Fu8
}

/// The number of places among the first `end` bytes at which a start tag can
/// begin.
pub open spec fn start_tags_before(document: Seq<u8>, end: nat) -> nat
    decreases end,
{
    if end == 0 {
        0
    } else {
        start_tags_before(document, (end - 1) as nat) + if opens_tag(document, end - 1) {
            1nat
        } else {
            0nat
        }
    }
}

/// The number of places in the document at which a start tag can begin. No
/// element of the document is nested deeper than this.
pub open spec fn start_tags(document: Seq<u8>) -> nat {
    start_tags_before(document, document.len())
}

/// The item that an entry stands for: none where the identifier, the title or
/// the link is missing, and none where the identifier is one that a line of the
/// ledger cannot hold.
pub open spec fn item_of(entry: FeedEntryView) -> Option<FeedItemView> {
    if entry.guid is Some && entry.title is Some && entry.link is Some && recordable(
        entry.guid->0,
    ) {
        Some(
            FeedItemView {
                identifier: entry.guid->0,
                title: entry.title->0,
                link: entry.link->0,
                categories: entry.categories.to_set(),
            },
        )
    } else {
        None
    }
}

/// The items among the given entries, in the order of the entries.
pub open spec fn items_of(entries: Seq<FeedEntryView>) -> Seq<FeedItemView> {
    entries.filter_map(|entry: FeedEntryView| item_of(entry))
}

/// What `rss::Channel::read_from` makes of a document: the items of the
/// channel, in the order in which the channel lists them, or nothing where it
/// reports an error.
pub uninterp spec fn channel_entries(document: Seq<u8>) -> Option<Seq<FeedEntryView>>;

/// The entries of a feed document: those of the channel that the `rss` crate
/// reads out of it, where the document is within the limit on start tags.
pub open spec fn feed_entries(document: Seq<u8>) -> Result<Seq<FeedEntryView>, FeedError> {
    if start_tags(document) > START_TAG_LIMIT {
        Err(FeedError::TooManyTags)
    } else {
        match channel_entries(document) {
            Some(entries) => Ok(entries),
            None => Err(FeedError::Malformed),
        }
    }
}

/// Every item that is picked out of the entries of a document has an
/// identifier that a line of the ledger can hold.
pub proof fn lemma_items_recordable(entries: Seq<FeedEntryView>)
    ensures
        forall|i: int|
            0 <= i < items_of(entries).len() ==> recordable(
                (#[trigger] items_of(entries)[i]).identifier,
            ),
        items_of(entries).len() <= entries.len(),
    decreases entries.len(),
{
    if entries.len() > 0 {
        lemma_items_recordable(entries.drop_last());
    }
}

/// The error of `rss::Channel::read_from`. Nothing is read out of it: a
/// document that the `rss` crate refuses is malformed, whatever the reason.
#[verifier::external_type_specification]
#[verifier::external_body]
pub struct ExChannelError(rss::Error);

/// Calls `rss::Channel::read_from` on the document and copies out of each of
/// the channel's items the value of its guid, its title, its link and the names
/// of its categories. The contract claims only that the outcome depends on the
/// bytes of the document alone: it is what [`channel_entries`] names.
///
/// The call nests as deep as the start tags inside an element with a prefixed
/// name are nested, and the value it builds is dropped as deep. The reader
/// beneath it takes for a start tag only a `<` that is followed by none of `/`,
/// `!` and `?`, so the depth is at most [`start_tags`], which is kept within
/// [`START_TAG_LIMIT`] here.
#[verifier::external_body]
fn read_channel(document: &[u8]) -> (read: Result<Vec<FeedEntry>, rss::Error>)
    requires
        start_tags(document@) <= START_TAG_LIMIT,
    ensures
        match read {
            Ok(entries) => channel_entries(document@) == Some(entries.deep_view()),
            Err(_) => channel_entries(document@) is None,
        },
{
    let channel = rss::Channel::read_from(document)?;
    Ok(
        channel.items().iter().map(
            |item|
                FeedEntry {
                    guid: item.guid().map(|guid| guid.value().to_owned()),
                    title: item.title().map(|title| title.to_owned()),
                    link: item.link().map(|link| link.to_owned()),
                    categories: item.categories().iter().map(|c| c.name().to_owned()).collect(),
                },
        ).collect(),
    )
}

impl FeedEntry {
    /// The item that this entry stands for, if it has all that an item needs.
    pub fn to_item(&self) -> (item: Option<FeedItem>)
        ensures
            item.deep_view() == item_of(self.deep_view()),
    {
        match (&self.guid, &self.title, &self.link) {
            (Some(guid), Some(title), Some(link)) => {
                if is_recordable(guid.as_str()) {
                    let categories = StringSet::from_names(copy_texts(&self.categories));
                    Some(
                        FeedItem {
                            identifier: guid.clone(),
                            title: title.clone(),
                            link: link.clone(),
                            categories,
                        },
                    )
                } else {
                    None
                }
            },
            _ => None,
        }
    }
}

/// Picks the items out of the entries of a document.
pub fn collect_items(entries: &Vec<FeedEntry>) -> (feed: Feed)
    ensures
        feed.items.deep_view() == items_of(entries.deep_view()),
        feed.items.len() + feed.malformed == entries.len(),
{
    let ghost all = entries.deep_view();
    let ghost pick = |entry: FeedEntryView| item_of(entry);
    let mut items: Vec<FeedItem> = Vec::new();
    let mut malformed: usize = 0;
    let mut i: usize = 0;
    while i < entries.len()
        invariant
            i <= entries.len(),
            all == entries.deep_view(),
            pick == |entry: FeedEntryView| item_of(entry),
            items.deep_view() == all.take(i as int).filter_map(pick),
            items.len() + malformed == i,
        decreases entries.len() - i,
    {
        let ghost before = items.deep_view();
        proof {
            all.lemma_filter_map_take_succ(pick, i as int);
        }
        match entries[i].to_item() {
            Some(item) => {
                items.push(item);
                proof {
                    assert(items.deep_view() =~= before + seq![item.deep_view()]);
                }
            },
            None => {
                malformed += 1;
                proof {
                    assert(items.deep_view() =~= before + Seq::<FeedItemView>::empty());
                }
            },
        }
        i += 1;
    }
    proof {
        assert(all.take(i as int) =~= all);
    }
    Feed { items, malformed }
}

/// Counts the places in a document at which a start tag can begin.
pub fn count_start_tags(document: &[u8]) -> (count: usize)
    ensures
        count == start_tags(document@),
{
    let mut count: usize = 0;
    let mut i: usize = 0;
    while i < document.len()
        invariant
            i <= document.len(),
            count <= i,
            count == start_tags_before(document@, i as nat),
        decreases document.len() - i,
    {
        if document[i] == 0x3Cu8 && i + 1 < document.len() {
            let next = document[i + 1];
            if next != 0x2Fu8 && next != 0x21u8 && next != 0x3Fu8 {
                count += 1;
            }
        }
        i += 1;
    }
    count
}

/// Reads a feed document. A document with more start tags than
/// [`START_TAG_LIMIT`] is refused unread; any other yields a feed exactly where
/// the `rss` crate reads a channel out of it.
pub fn parse_feed(document: &[u8]) -> (parsed: Result<Feed, FeedError>)
    ensures
        match feed_entries(document@) {
            Ok(entries) => {
                &&& parsed matches Ok(feed)
                &&& feed.items.deep_view() == items_of(entries)
                &&& feed.items.len() + feed.malformed == entries.len()
            },
            Err(error) => parsed == Err::<Feed, FeedError>(error),
        },
{
    if count_start_tags(document) > START_TAG_LIMIT {
        return Err(FeedError::TooManyTags);
    }
    match read_channel(document) {
        Ok(entries) => Ok(collect_items(&entries)),
        Err(_) => Err(FeedError::Malformed),
    }
}

} // verus!
