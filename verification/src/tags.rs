//! The tags of an outgoing story.
//!
//! A feed item names its categories freely; the story API accepts only the tags
//! of its own vocabulary. A story is tagged with the categories that the
//! vocabulary knows, or with a fallback tag where it knows none of them, and in
//! either case with a marker that tells a relayed story from a hand-posted one.

use crate::string_set::{ascending, lemma_ascending_exists, StringSet};
use crate::text::strictly_ascending;
use vstd::prelude::*;

verus! {

/// The tag of a story none of whose categories the vocabulary knows.
pub const FALLBACK_TAG: &'static str = "random";

/// The tag that every relayed story carries, after all others.
pub const MARKER_TAG: &'static str = "automated";

/// The tags of a story with the given categories under the given vocabulary:
/// the categories that the vocabulary holds, compared character by character
/// and listed in ascending order, or the fallback tag where there is none;
/// then the marker.
pub open spec fn reconciled(categories: Set<Seq<char>>, vocabulary: Set<Seq<char>>) -> Seq<
    Seq<char>,
> {
    let common = categories.intersect(vocabulary);
    if common == Set::<Seq<char>>::empty() {
        seq![FALLBACK_TAG@, MARKER_TAG@]
    } else {
        ascending(common).push(MARKER_TAG@)
    }
}

/// The tags of a story are at least two, the marker is the last of them, none
/// but the marker is given twice, and none is made up: each tag before the
/// marker is the fallback tag or a category that the vocabulary holds.
pub proof fn lemma_reconciled_tags(categories: Set<Seq<char>>, vocabulary: Set<Seq<char>>)
    requires
        categories.intersect(vocabulary).finite(),
    ensures
        reconciled(categories, vocabulary).len() >= 2,
        reconciled(categories, vocabulary).last() == MARKER_TAG@,
        strictly_ascending(reconciled(categories, vocabulary).drop_last()),
        forall|i: int|
            0 <= i < reconciled(categories, vocabulary).len() - 1 ==> {
                let tag = #[trigger] reconciled(categories, vocabulary)[i];
                tag == FALLBACK_TAG@ || (categories.contains(tag) && vocabulary.contains(tag))
            },
        categories.intersect(vocabulary) == Set::<Seq<char>>::empty() ==> reconciled(
            categories,
            vocabulary,
        ) == seq![FALLBACK_TAG@, MARKER_TAG@],
        categories.intersect(vocabulary) != Set::<Seq<char>>::empty() ==> reconciled(
            categories,
            vocabulary,
        ).drop_last().to_set() == categories.intersect(vocabulary),
{
    let common = categories.intersect(vocabulary);
    let tags = reconciled(categories, vocabulary);
    if common == Set::<Seq<char>>::empty() {
        assert(tags.drop_last() =~= seq![FALLBACK_TAG@]);
    } else {
        lemma_ascending_exists(common);
        let base = ascending(common);
        assert(tags.drop_last() =~= base);
        if base.len() == 0 {
            assert(base.to_set() =~= Set::<Seq<char>>::empty());
        }
        assert forall|i: int| 0 <= i < tags.len() - 1 implies categories.contains(
            #[trigger] tags[i],
        ) && vocabulary.contains(tags[i]) by {
            assert(base.to_set().contains(base[i]));
        }
    }
}

/// The fallback tag stands alone in front of the marker exactly where the
/// categories and the vocabulary share nothing, or share the fallback tag and
/// nothing else.
pub proof fn lemma_fallback_alone(categories: Set<Seq<char>>, vocabulary: Set<Seq<char>>)
    requires
        categories.intersect(vocabulary).finite(),
    ensures
        reconciled(categories, vocabulary) == seq![FALLBACK_TAG@, MARKER_TAG@] <==> (
        categories.intersect(vocabulary) == Set::<Seq<char>>::empty() || categories.intersect(
            vocabulary,
        ) == Set::<Seq<char>>::empty().insert(FALLBACK_TAG@)),
{
    let common = categories.intersect(vocabulary);
    let tags = reconciled(categories, vocabulary);
    let alone = seq![FALLBACK_TAG@];
    let only = Set::<Seq<char>>::empty().insert(FALLBACK_TAG@);
    if common != Set::<Seq<char>>::empty() {
        lemma_ascending_exists(common);
        let base = ascending(common);
        assert(tags.drop_last() =~= base);
        assert(seq![FALLBACK_TAG@, MARKER_TAG@].drop_last() =~= alone);
        assert(alone.to_set() =~= only) by {
            assert forall|x: Seq<char>| alone.to_set().contains(x) <==> x == FALLBACK_TAG@ by {
                if x == FALLBACK_TAG@ {
                    assert(alone[0] == x);
                }
            }
        }
        if common == only {
            assert(strictly_ascending(alone));
            crate::text::lemma_ascending_unique(base, alone);
            assert(tags =~= seq![FALLBACK_TAG@, MARKER_TAG@]);
        }
    }
}

/// Computes the tags of a story from the categories of its feed item and the
/// vocabulary of the story API.
pub fn reconcile(categories: &StringSet, vocabulary: &StringSet) -> (tags: Vec<String>)
    ensures
        tags.deep_view() == reconciled(categories@, vocabulary@),
        tags.len() >= 2,
        tags.deep_view().last() == MARKER_TAG@,
        forall|i: int|
            0 <= i < tags.len() - 1 ==> {
                let tag = #[trigger] tags.deep_view()[i];
                tag == FALLBACK_TAG@ || (categories@.contains(tag) && vocabulary@.contains(tag))
            },
        strictly_ascending(tags.deep_view().drop_last()),
{
    let common = categories.intersection(vocabulary);
    let mut tags = if common.is_empty() {
        let mut only = Vec::new();
        only.push(FALLBACK_TAG.to_owned());
        only
    } else {
        common.into_names()
    };
    let ghost base = tags.deep_view();
    tags.push(MARKER_TAG.to_owned());
    proof {
        assert(tags.deep_view() =~= base.push(MARKER_TAG@));
        assert(seq![FALLBACK_TAG@].push(MARKER_TAG@) =~= seq![FALLBACK_TAG@, MARKER_TAG@]);
        lemma_reconciled_tags(categories@, vocabulary@);
    }
    tags
}

} // verus!
