//! The stories of one run: which items of the feed are posted, and as what.
//!
//! Of the items of the feed, those whose identifier the ledger holds are left
//! out. Of the rest, the first few are posted, in the order of the feed; the
//! others wait for a later run.

use crate::feed::{FeedItem, FeedItemView};
use crate::ledger::DedupLedger;
use crate::string_set::StringSet;
use crate::tags::{reconcile, reconciled};
use crate::text::copy_texts;
use vstd::prelude::*;

verus! {

/// The greatest number of stories that one run posts.
pub const BATCH_CAP: usize = 5;

/// A story to post.
#[derive(Debug, PartialEq, Eq)]
pub struct Story {
    /// The identifier of the feed item that the story relays.
    pub identifier: String,
    pub title: String,
    pub url: String,
    pub tags: Vec<String>,
}

/// A [`Story`] as a mathematical value.
pub struct StoryView {
    pub identifier: Seq<char>,
    pub title: Seq<char>,
    pub url: Seq<char>,
    pub tags: Seq<Seq<char>>,
}

impl DeepView for Story {
    type V = StoryView;

    open spec fn deep_view(&self) -> StoryView {
        StoryView {
            identifier: self.identifier@,
            title: self.title@,
            url: self.url@,
            tags: self.tags.deep_view(),
        }
    }
}

impl Story {
    /// A second copy of the story.
    pub fn duplicate(&self) -> (copy: Story)
        ensures
            copy.deep_view() == self.deep_view(),
    {
        Story {
            identifier: self.identifier.clone(),
            title: self.title.clone(),
            url: self.url.clone(),
            tags: copy_texts(&self.tags),
        }
    }
}

/// The story that relays `item` under the given vocabulary.
pub open spec fn story_of(item: FeedItemView, vocabulary: Set<Seq<char>>) -> StoryView {
    StoryView {
        identifier: item.identifier,
        title: item.title,
        url: item.link,
        tags: reconciled(item.categories, vocabulary),
    }
}

/// The test that an item passes when the ledger does not hold its identifier.
pub open spec fn unseen(ledger: Set<Seq<char>>) -> spec_fn(FeedItemView) -> bool {
    |item: FeedItemView| !ledger.contains(item.identifier)
}

/// The items that were not relayed yet, in the order of the feed.
pub open spec fn fresh(items: Seq<FeedItemView>, ledger: Set<Seq<char>>) -> Seq<FeedItemView> {
    items.filter(unseen(ledger))
}

/// The stories of a run: one for each of the first `cap` fresh items, in the
/// order of the feed.
pub open spec fn planned(
    items: Seq<FeedItemView>,
    ledger: Set<Seq<char>>,
    vocabulary: Set<Seq<char>>,
    cap: nat,
) -> Seq<StoryView> {
    let waiting = fresh(items, ledger);
    let chosen = if waiting.len() <= cap {
        waiting
    } else {
        waiting.take(cap as int)
    };
    chosen.map_values(|item: FeedItemView| story_of(item, vocabulary))
}

/// The identifiers of the given stories.
pub open spec fn identifiers(stories: Seq<StoryView>) -> Set<Seq<char>> {
    Set::new(
        |identifier: Seq<char>|
            exists|i: int| 0 <= i < stories.len() && (#[trigger] stories[i]).identifier == identifier,
    )
}

/// What one more item adds to the fresh items.
proof fn lemma_fresh_next(items: Seq<FeedItemView>, ledger: Set<Seq<char>>, i: int)
    requires
        0 <= i < items.len(),
    ensures
        fresh(items.take(i + 1), ledger) == if ledger.contains(items[i].identifier) {
            fresh(items.take(i), ledger)
        } else {
            fresh(items.take(i), ledger).push(items[i])
        },
{
    reveal(Seq::filter);
    assert(items.take(i + 1).drop_last() =~= items.take(i));
    assert(items.take(i + 1).last() == items[i]);
}

/// The fresh items of the whole feed begin with the fresh items of any of its
/// beginnings.
proof fn lemma_fresh_prefix(items: Seq<FeedItemView>, ledger: Set<Seq<char>>, i: int)
    requires
        0 <= i <= items.len(),
    ensures
        fresh(items, ledger).len() >= fresh(items.take(i), ledger).len(),
        fresh(items, ledger).take(fresh(items.take(i), ledger).len() as int) == fresh(
            items.take(i),
            ledger,
        ),
{
    let head = items.take(i);
    let tail = items.skip(i);
    assert(items =~= head + tail);
    Seq::filter_distributes_over_add(head, tail, unseen(ledger));
    assert((head.filter(unseen(ledger)) + tail.filter(unseen(ledger))).take(
        head.filter(unseen(ledger)).len() as int,
    ) =~= head.filter(unseen(ledger)));
}

/// No planned story relays an item that the ledger holds, and a run plans no
/// more stories than its cap.
pub proof fn lemma_planned_within_bounds(
    items: Seq<FeedItemView>,
    ledger: Set<Seq<char>>,
    vocabulary: Set<Seq<char>>,
    cap: nat,
)
    ensures
        planned(items, ledger, vocabulary, cap).len() <= cap,
        planned(items, ledger, vocabulary, cap).len() <= fresh(items, ledger).len(),
        planned(items, ledger, vocabulary, cap).len() == cap || planned(
            items,
            ledger,
            vocabulary,
            cap,
        ).len() == fresh(items, ledger).len(),
        forall|i: int|
            0 <= i < planned(items, ledger, vocabulary, cap).len() ==> {
                &&& #[trigger] planned(items, ledger, vocabulary, cap)[i] == story_of(
                    fresh(items, ledger)[i],
                    vocabulary,
                )
                &&& !ledger.contains(planned(items, ledger, vocabulary, cap)[i].identifier)
            },
{
    let waiting = fresh(items, ledger);
    assert forall|i: int| 0 <= i < waiting.len() implies !ledger.contains(
        (#[trigger] waiting[i]).identifier,
    ) by {
        items.lemma_filter_pred(unseen(ledger), i);
    }
}

/// A run that posts every fresh item of the feed leaves nothing for a second
/// run over the same feed: once the identifiers of its stories are in the
/// ledger, whatever else has come into it, no story is planned.
pub proof fn lemma_second_run_plans_nothing(
    items: Seq<FeedItemView>,
    ledger: Set<Seq<char>>,
    later: Set<Seq<char>>,
    vocabulary: Set<Seq<char>>,
    cap: nat,
)
    requires
        fresh(items, ledger).len() <= cap,
        ledger.union(identifiers(planned(items, ledger, vocabulary, cap))).subset_of(later),
    ensures
        forall|other: Set<Seq<char>>|
            #[trigger] planned(items, later, other, cap) == Seq::<StoryView>::empty(),
{
    let first = planned(items, ledger, vocabulary, cap);
    let waiting = fresh(items, ledger);
    assert forall|k: int| 0 <= k < items.len() implies !unseen(later)(#[trigger] items[k]) by {
        if !ledger.contains(items[k].identifier) {
            items.lemma_filter_contains(unseen(ledger), k);
            let j = choose|j: int| 0 <= j < waiting.len() && waiting[j] == items[k];
            assert(first[j].identifier == items[k].identifier);
            assert(identifiers(first).contains(items[k].identifier));
        }
        assert(ledger.union(identifiers(first)).contains(items[k].identifier));
    }
    lemma_none_pass(items, unseen(later));
    assert forall|other: Set<Seq<char>>|
        #[trigger] planned(items, later, other, cap) == Seq::<StoryView>::empty() by {
        assert(planned(items, later, other, cap) =~= Seq::<StoryView>::empty());
    }
}

/// Whatever a run posted, a later run does not post again, as long as the
/// ledger still holds it.
pub proof fn lemma_recorded_never_planned(
    items: Seq<FeedItemView>,
    ledger: Set<Seq<char>>,
    vocabulary: Set<Seq<char>>,
    cap: nat,
    identifier: Seq<char>,
)
    requires
        ledger.contains(identifier),
    ensures
        !identifiers(planned(items, ledger, vocabulary, cap)).contains(identifier),
{
    lemma_planned_within_bounds(items, ledger, vocabulary, cap);
}

/// Where no member passes a test, nothing is left of the sequence.
proof fn lemma_none_pass<A>(s: Seq<A>, test: spec_fn(A) -> bool)
    requires
        forall|k: int| 0 <= k < s.len() ==> !test(#[trigger] s[k]),
    ensures
        s.filter(test) == Seq::<A>::empty(),
    decreases s.len(),
{
    reveal(Seq::filter);
    if s.len() > 0 {
        assert(!test(s[s.len() - 1]));
        assert forall|k: int| 0 <= k < s.drop_last().len() implies !test(
            #[trigger] s.drop_last()[k],
        ) by {
            assert(s.drop_last()[k] == s[k]);
        }
        lemma_none_pass(s.drop_last(), test);
    }
}

/// Plans the stories of a run.
pub fn plan_batch(
    items: &Vec<FeedItem>,
    ledger: &DedupLedger,
    vocabulary: &StringSet,
    cap: usize,
) -> (batch: Vec<Story>)
    ensures
        batch.deep_view() == planned(items.deep_view(), ledger@, vocabulary@, cap as nat),
        batch.len() <= cap,
{
    let ghost all = items.deep_view();
    let ghost relay = |item: FeedItemView| story_of(item, vocabulary@);
    let mut batch: Vec<Story> = Vec::new();
    let mut i: usize = 0;
    while i < items.len() && batch.len() < cap
        invariant
            i <= items.len(),
            all == items.deep_view(),
            relay == |item: FeedItemView| story_of(item, vocabulary@),
            batch.len() <= cap,
            batch.deep_view() == fresh(all.take(i as int), ledger@).map_values(relay),
        decreases items.len() - i,
    {
        let ghost before = batch.deep_view();
        let item = &items[i];
        proof {
            lemma_fresh_next(all, ledger@, i as int);
        }
        if !ledger.contains(item.identifier.as_str()) {
            let tags = reconcile(&item.categories, vocabulary);
            let story = Story {
                identifier: item.identifier.clone(),
                title: item.title.clone(),
                url: item.link.clone(),
                tags,
            };
            batch.push(story);
            proof {
                assert(story.deep_view() == story_of(all[i as int], vocabulary@));
                assert(batch.deep_view() =~= before.push(story.deep_view()));
                assert(fresh(all.take(i as int), ledger@).push(all[i as int]).map_values(relay)
                    =~= before.push(relay(all[i as int])));
            }
        }
        i += 1;
    }
    proof {
        let seen = fresh(all.take(i as int), ledger@);
        let waiting = fresh(all, ledger@);
        lemma_fresh_prefix(all, ledger@, i as int);
        if i == items.len() {
            assert(all.take(i as int) =~= all);
        } else {
            assert(seen.len() == cap);
            if waiting.len() <= cap {
                assert(waiting.take(seen.len() as int) =~= waiting);
            }
        }
    }
    batch
}

} // verus!
