//! One run of the relay, step by step.
//!
//! The relay itself reaches neither the network nor the disk. It says what is
//! to be done next, the caller does it and reports what came of it, and the
//! relay says what follows. A run fetches the vocabulary, loads the ledger,
//! fetches the feed, and then posts the planned stories one after another, each
//! followed, where the story API created it, by its record in the ledger.

use crate::batch::{
    fresh, identifiers, lemma_planned_within_bounds, lemma_second_run_plans_nothing, plan_batch,
    planned, unseen, Story, StoryView, BATCH_CAP,
};
use crate::feed::{feed_entries, items_of, lemma_items_recordable, parse_feed, FeedError};
use crate::ledger::{
    complete, ledger_lines, lemma_record_appends_line, record_of, recordable, DedupLedger,
};
use crate::string_set::StringSet;
use crate::submit::{SubmissionResult, STATUS_CREATED};
use vstd::prelude::*;

verus! {

/// Why a run was given up.
#[derive(Clone, Copy, Debug, PartialEq, Eq, Structural)]
pub enum Fault {
    /// The story API did not hand out its vocabulary.
    VocabularyUnavailable,
    /// The ledger exists but could not be read.
    LedgerUnreadable,
    /// The feed could not be fetched.
    FeedUnavailable,
    /// What was fetched has more start tags than the relay reads.
    FeedOverLimit,
    /// What was fetched is no feed document.
    FeedMalformed,
    /// The caller reported something that the relay had not asked for.
    OutOfTurn,
}

/// Where a run stands.
#[derive(Clone, Copy, Debug, PartialEq, Eq, Structural)]
pub enum Phase {
    AwaitingVocabulary,
    AwaitingLedger,
    AwaitingFeed,
    /// A story was handed out and its answer is awaited.
    Submitting,
    /// A story was created and its record in the ledger is awaited.
    Recording,
    /// Every story of the run has been dealt with.
    Finished,
    Aborted(Fault),
}

/// What became of one story of the run.
#[derive(Clone, Copy, Debug, PartialEq, Eq, Structural)]
pub enum Outcome {
    /// Created, and recorded in the ledger.
    Posted,
    /// Created, but the ledger could not be written: the story will be posted
    /// again by the next run.
    Unrecorded,
    /// Answered with the given status, which is not the one of a creation.
    Rejected(u16),
    /// Not answered at all.
    Unanswered,
}

/// What the caller reports to the relay.
#[derive(Debug, PartialEq, Eq)]
pub enum Event {
    /// The names of the tags that the story API knows.
    VocabularyFetched(Vec<String>),
    VocabularyUnavailable,
    /// The whole text of the ledger.
    LedgerRead(String),
    /// There is no ledger yet.
    LedgerAbsent,
    LedgerUnreadable,
    /// The bytes of the feed document.
    FeedFetched(Vec<u8>),
    FeedUnavailable,
    /// The status with which the story API answered the last story.
    Answered(u16),
    /// The last story brought no answer.
    Unanswered,
    /// The last record is in the ledger for good.
    Recorded,
    RecordFailed,
}

/// What the relay asks the caller to do.
#[derive(Debug, PartialEq, Eq)]
pub enum Action {
    FetchVocabulary,
    LoadLedger,
    FetchFeed,
    /// Post this story, without following a redirect, and report the answer.
    Submit(Story),
    /// Append `line` to the ledger, make it durable, and report how it went.
    Record { identifier: String, line: String },
    /// Nothing is left to do.
    Finish,
    /// The run cannot go on.
    Abort(Fault),
}

/// An [`Action`] as a mathematical value.
pub enum ActionView {
    FetchVocabulary,
    LoadLedger,
    FetchFeed,
    Submit(StoryView),
    Record { identifier: Seq<char>, line: Seq<char> },
    Finish,
    Abort(Fault),
}

impl DeepView for Action {
    type V = ActionView;

    open spec fn deep_view(&self) -> ActionView {
        match self {
            Action::FetchVocabulary => ActionView::FetchVocabulary,
            Action::LoadLedger => ActionView::LoadLedger,
            Action::FetchFeed => ActionView::FetchFeed,
            Action::Submit(story) => ActionView::Submit(story.deep_view()),
            Action::Record { identifier, line } => ActionView::Record {
                identifier: identifier@,
                line: line@,
            },
            Action::Finish => ActionView::Finish,
            Action::Abort(fault) => ActionView::Abort(*fault),
        }
    }
}

/// The identifiers of the stories that a run has posted and recorded so far.
pub open spec fn posted(batch: Seq<StoryView>, outcomes: Seq<Outcome>) -> Set<Seq<char>> {
    Set::new(
        |identifier: Seq<char>|
            exists|i: int|
                0 <= i < outcomes.len() && i < batch.len() && #[trigger] outcomes[i]
                    == Outcome::Posted && batch[i].identifier == identifier,
    )
}

/// The state of a run as a mathematical value.
pub struct RelayView {
    pub phase: Phase,
    /// The tags that the story API knows.
    pub vocabulary: Set<Seq<char>>,
    /// The ledger as it was when the run loaded it.
    pub loaded: Set<Seq<char>>,
    /// The ledger as it is now.
    pub ledger: Set<Seq<char>>,
    /// The stories of the run, in the order in which they are posted.
    pub batch: Seq<StoryView>,
    /// What became of the stories dealt with so far: one outcome for each, in
    /// the order of the batch.
    pub outcomes: Seq<Outcome>,
    /// The entries of the feed that were passed over because they cannot be
    /// relayed.
    pub skipped: nat,
}

impl RelayView {
    /// The state in which every run begins.
    pub open spec fn initial() -> RelayView {
        RelayView {
            phase: Phase::AwaitingVocabulary,
            vocabulary: Set::empty(),
            loaded: Set::empty(),
            ledger: Set::empty(),
            batch: Seq::empty(),
            outcomes: Seq::empty(),
            skipped: 0,
        }
    }

    /// What holds of every state that a run can reach.
    pub open spec fn wf(self) -> bool {
        &&& self.batch.len() <= BATCH_CAP
        &&& self.outcomes.len() <= self.batch.len()
        &&& (self.phase is Submitting || self.phase is Recording) ==> self.outcomes.len()
            < self.batch.len()
        &&& self.phase is Finished ==> self.outcomes.len() == self.batch.len()
        &&& (self.phase is AwaitingVocabulary || self.phase is AwaitingLedger
            || self.phase is AwaitingFeed) ==> self.batch.len() == 0
        &&& (self.phase is AwaitingVocabulary || self.phase is AwaitingLedger) ==> self.loaded
            == Set::<Seq<char>>::empty()
        &&& self.ledger == self.loaded.union(posted(self.batch, self.outcomes))
        &&& forall|i: int|
            0 <= i < self.batch.len() ==> !self.loaded.contains((#[trigger] self.batch[i]).identifier)
        &&& forall|i: int|
            0 <= i < self.batch.len() ==> recordable((#[trigger] self.batch[i]).identifier)
    }

    /// The story that is being dealt with.
    pub open spec fn current(self) -> StoryView {
        self.batch[self.outcomes.len() as int]
    }

    /// What the caller is to do in this state.
    pub open spec fn pending(self) -> ActionView {
        match self.phase {
            Phase::AwaitingVocabulary => ActionView::FetchVocabulary,
            Phase::AwaitingLedger => ActionView::LoadLedger,
            Phase::AwaitingFeed => ActionView::FetchFeed,
            Phase::Submitting => ActionView::Submit(self.current()),
            Phase::Recording => ActionView::Record {
                identifier: self.current().identifier,
                line: record_of(self.current().identifier),
            },
            Phase::Finished => ActionView::Finish,
            Phase::Aborted(fault) => ActionView::Abort(fault),
        }
    }

    /// The state of a run that was given up.
    pub open spec fn aborted(self, fault: Fault) -> RelayView {
        RelayView { phase: Phase::Aborted(fault), ..self }
    }

    /// The state after the current story has met with `outcome`: the run goes
    /// on with the next story, whatever the outcome was.
    pub open spec fn settled(self, outcome: Outcome) -> RelayView {
        let outcomes = self.outcomes.push(outcome);
        RelayView {
            phase: if outcomes.len() >= self.batch.len() {
                Phase::Finished
            } else {
                Phase::Submitting
            },
            outcomes,
            ..self
        }
    }

    /// The state at the start of the posting, with the stories of the run.
    pub open spec fn loaded_with(self, batch: Seq<StoryView>, skipped: nat) -> RelayView {
        RelayView {
            phase: if batch.len() == 0 {
                Phase::Finished
            } else {
                Phase::Submitting
            },
            batch,
            skipped,
            ..self
        }
    }

    /// The state that follows when the caller reports `event`.
    pub open spec fn next(self, event: Event) -> RelayView {
        match self.phase {
            Phase::AwaitingVocabulary => match event {
                Event::VocabularyFetched(names) => RelayView {
                    phase: Phase::AwaitingLedger,
                    vocabulary: names.deep_view().to_set(),
                    ..self
                },
                Event::VocabularyUnavailable => self.aborted(Fault::VocabularyUnavailable),
                _ => self.aborted(Fault::OutOfTurn),
            },
            Phase::AwaitingLedger => match event {
                Event::LedgerRead(text) => RelayView {
                    phase: Phase::AwaitingFeed,
                    loaded: ledger_lines(text@).to_set(),
                    ledger: ledger_lines(text@).to_set(),
                    ..self
                },
                Event::LedgerAbsent => RelayView {
                    phase: Phase::AwaitingFeed,
                    loaded: Set::empty(),
                    ledger: Set::empty(),
                    ..self
                },
                Event::LedgerUnreadable => self.aborted(Fault::LedgerUnreadable),
                _ => self.aborted(Fault::OutOfTurn),
            },
            Phase::AwaitingFeed => match event {
                Event::FeedFetched(document) => match feed_entries(document@) {
                    Ok(entries) => self.loaded_with(
                        planned(items_of(entries), self.ledger, self.vocabulary, BATCH_CAP as nat),
                        (entries.len() - items_of(entries).len()) as nat,
                    ),
                    Err(FeedError::TooManyTags) => self.aborted(Fault::FeedOverLimit),
                    Err(FeedError::Malformed) => self.aborted(Fault::FeedMalformed),
                },
                Event::FeedUnavailable => self.aborted(Fault::FeedUnavailable),
                _ => self.aborted(Fault::OutOfTurn),
            },
            Phase::Submitting => match event {
                Event::Answered(status) => match SubmissionResult::of(Some(status)) {
                    SubmissionResult::Created => RelayView { phase: Phase::Recording, ..self },
                    SubmissionResult::Rejected(status) => self.settled(Outcome::Rejected(status)),
                    SubmissionResult::TransportFailure => self.settled(Outcome::Unanswered),
                },
                Event::Unanswered => self.settled(Outcome::Unanswered),
                _ => self.aborted(Fault::OutOfTurn),
            },
            Phase::Recording => match event {
                Event::Recorded => RelayView {
                    ledger: self.ledger.insert(self.current().identifier),
                    ..self
                }.settled(Outcome::Posted),
                Event::RecordFailed => self.settled(Outcome::Unrecorded),
                _ => self.aborted(Fault::OutOfTurn),
            },
            Phase::Finished => self,
            Phase::Aborted(_) => self,
        }
    }
}

/// What one more outcome adds to the stories posted.
pub proof fn lemma_posted_push(batch: Seq<StoryView>, outcomes: Seq<Outcome>, outcome: Outcome)
    requires
        outcomes.len() < batch.len(),
    ensures
        posted(batch, outcomes.push(outcome)) == if outcome == Outcome::Posted {
            posted(batch, outcomes).insert(batch[outcomes.len() as int].identifier)
        } else {
            posted(batch, outcomes)
        },
{
    let more = outcomes.push(outcome);
    let n = outcomes.len() as int;
    let grown = if outcome == Outcome::Posted {
        posted(batch, outcomes).insert(batch[n].identifier)
    } else {
        posted(batch, outcomes)
    };
    assert forall|identifier: Seq<char>| posted(batch, more).contains(identifier)
        <==> grown.contains(identifier) by {
        if posted(batch, more).contains(identifier) {
            let i = choose|i: int|
                0 <= i < more.len() && i < batch.len() && #[trigger] more[i] == Outcome::Posted
                    && batch[i].identifier == identifier;
            if i < n {
                assert(outcomes[i] == Outcome::Posted);
            }
        }
        if posted(batch, outcomes).contains(identifier) {
            let i = choose|i: int|
                0 <= i < outcomes.len() && i < batch.len() && #[trigger] outcomes[i]
                    == Outcome::Posted && batch[i].identifier == identifier;
            assert(more[i] == Outcome::Posted);
        }
        if outcome == Outcome::Posted && identifier == batch[n].identifier {
            assert(more[n] == Outcome::Posted);
        }
    }
    assert(posted(batch, more) =~= grown);
}

/// Whatever the caller reports, the state that follows is one that a run can
/// reach: no run posts more stories than its cap, none posts an item that the
/// ledger held when it was loaded or whose identifier a line of the ledger
/// cannot hold, and the ledger holds, beside what it held then, exactly the
/// identifiers of the stories posted and recorded.
pub proof fn lemma_next_keeps_wf(state: RelayView, event: Event)
    requires
        state.wf(),
    ensures
        state.next(event).wf(),
{
    let after = state.next(event);
    match state.phase {
        Phase::AwaitingVocabulary => {},
        Phase::AwaitingLedger => {
            assert(posted(state.batch, state.outcomes) =~= Set::<Seq<char>>::empty());
            assert(after.loaded.union(Set::<Seq<char>>::empty()) =~= after.loaded);
        },
        Phase::AwaitingFeed => {
            if let Event::FeedFetched(document) = event {
                if let Ok(entries) = feed_entries(document@) {
                    let items = items_of(entries);
                    lemma_planned_within_bounds(
                        items,
                        state.ledger,
                        state.vocabulary,
                        BATCH_CAP as nat,
                    );
                    lemma_items_recordable(entries);
                    assert forall|i: int| 0 <= i < after.batch.len() implies recordable(
                        (#[trigger] after.batch[i]).identifier,
                    ) by {
                        let item = fresh(items, state.ledger)[i];
                        assert(fresh(items, state.ledger).contains(item));
                        items.lemma_filter_contains_rev(unseen(state.ledger), item);
                        let j = choose|j: int| 0 <= j < items.len() && items[j] == item;
                        assert(recordable(items[j].identifier));
                    }
                    assert(state.outcomes.len() == 0);
                    assert(posted(state.batch, state.outcomes) =~= Set::<Seq<char>>::empty());
                    assert(posted(after.batch, after.outcomes) =~= Set::<Seq<char>>::empty());
                    assert(state.ledger =~= state.loaded);
                }
            }
        },
        Phase::Submitting => {
            lemma_posted_push(state.batch, state.outcomes, Outcome::Unanswered);
            if let Event::Answered(status) = event {
                lemma_posted_push(state.batch, state.outcomes, Outcome::Rejected(status));
            }
        },
        Phase::Recording => {
            lemma_posted_push(state.batch, state.outcomes, Outcome::Posted);
            lemma_posted_push(state.batch, state.outcomes, Outcome::Unrecorded);
            if let Event::Recorded = event {
                assert(after.ledger =~= after.loaded.union(posted(after.batch, after.outcomes)));
            }
        },
        Phase::Finished => {},
        Phase::Aborted(_) => {},
    }
}

/// The ledger only grows: whatever it holds, it holds after every step.
pub proof fn lemma_ledger_only_grows(state: RelayView, event: Event)
    requires
        state.wf(),
    ensures
        state.ledger.subset_of(state.next(event).ledger),
{
    if state.phase is AwaitingLedger {
        // Nothing was loaded yet.
        assert(posted(state.batch, state.outcomes) =~= Set::<Seq<char>>::empty());
        assert(state.ledger =~= Set::<Seq<char>>::empty());
    }
}

/// A story that was not created holds nothing up and leaves no trace in the
/// ledger: whether it was rejected, redirects included, or not answered at all,
/// the ledger stays as it was and the run goes on with the next story, or ends
/// where there is none.
pub proof fn lemma_failure_moves_on(state: RelayView, event: Event)
    requires
        state.wf(),
        state.phase is Submitting,
        event is Unanswered || (event matches Event::Answered(status) && status != STATUS_CREATED),
    ensures
        state.next(event).ledger == state.ledger,
        state.next(event).batch == state.batch,
        state.next(event).outcomes.len() == state.outcomes.len() + 1,
        state.next(event).outcomes.last() != Outcome::Posted,
        state.next(event).outcomes.drop_last() == state.outcomes,
        state.outcomes.len() + 1 < state.batch.len() ==> state.next(event).pending()
            == ActionView::Submit(state.batch[state.outcomes.len() as int + 1]),
        state.outcomes.len() + 1 == state.batch.len() ==> state.next(event).pending()
            == ActionView::Finish,
{
    let after = state.next(event);
    assert(after.outcomes.drop_last() =~= state.outcomes);
}

/// A story is recorded in the ledger only when the story API has created it.
pub proof fn lemma_record_follows_creation(state: RelayView, event: Event)
    requires
        state.wf(),
        state.phase is Submitting,
    ensures
        state.next(event).phase is Recording <==> (event matches Event::Answered(status) && status
            == STATUS_CREATED),
        state.next(event).ledger == state.ledger,
{
}

/// The stories posted and recorded are stories of the batch, no more of them
/// than outcomes are known.
pub proof fn lemma_posted_bounded(batch: Seq<StoryView>, outcomes: Seq<Outcome>)
    requires
        outcomes.len() <= batch.len(),
    ensures
        posted(batch, outcomes).finite(),
        posted(batch, outcomes).len() <= outcomes.len(),
        posted(batch, outcomes).subset_of(identifiers(batch)),
    decreases outcomes.len(),
{
    if outcomes.len() == 0 {
        assert(posted(batch, outcomes) =~= Set::<Seq<char>>::empty());
    } else {
        let earlier = outcomes.drop_last();
        lemma_posted_bounded(batch, earlier);
        lemma_posted_push(batch, earlier, outcomes.last());
        assert(earlier.push(outcomes.last()) =~= outcomes);
        assert forall|identifier: Seq<char>| posted(batch, outcomes).contains(
            identifier,
        ) implies identifiers(batch).contains(identifier) by {
            let i = choose|i: int|
                0 <= i < outcomes.len() && i < batch.len() && #[trigger] outcomes[i]
                    == Outcome::Posted && batch[i].identifier == identifier;
            assert(batch[i].identifier == identifier);
        }
    }
}

/// A run adds no more records to the ledger than its cap, and adds them for
/// stories of its batch only.
pub proof fn lemma_records_within_cap(state: RelayView)
    requires
        state.wf(),
    ensures
        state.ledger == state.loaded.union(posted(state.batch, state.outcomes)),
        posted(state.batch, state.outcomes).finite(),
        posted(state.batch, state.outcomes).len() <= state.outcomes.len() <= state.batch.len()
            <= BATCH_CAP,
        posted(state.batch, state.outcomes).subset_of(identifiers(state.batch)),
{
    lemma_posted_bounded(state.batch, state.outcomes);
}

/// A second run over an unchanged feed posts nothing, where the first run has
/// posted and recorded every item of the feed that its ledger lacked: with the
/// ledger as the first run left it, the second run is finished as soon as it
/// has read the feed.
pub proof fn lemma_second_run_posts_nothing(first: RelayView, second: RelayView, document: Vec<u8>)
    requires
        first.wf(),
        first.phase is Finished,
        forall|i: int| 0 <= i < first.outcomes.len() ==> first.outcomes[i] == Outcome::Posted,
        feed_entries(document@) matches Ok(entries) && first.batch == planned(
            items_of(entries),
            first.loaded,
            first.vocabulary,
            BATCH_CAP as nat,
        ) && fresh(items_of(entries), first.loaded).len() <= BATCH_CAP,
        second.phase is AwaitingFeed,
        first.ledger.subset_of(second.ledger),
    ensures
        second.next(Event::FeedFetched(document)).phase is Finished,
        second.next(Event::FeedFetched(document)).batch == Seq::<StoryView>::empty(),
        second.next(Event::FeedFetched(document)).pending() == ActionView::Finish,
        second.next(Event::FeedFetched(document)).ledger == second.ledger,
{
    let entries = feed_entries(document@)->Ok_0;
    let items = items_of(entries);
    assert forall|identifier: Seq<char>| identifiers(first.batch).contains(
        identifier,
    ) implies posted(first.batch, first.outcomes).contains(identifier) by {
        let i = choose|i: int|
            0 <= i < first.batch.len() && (#[trigger] first.batch[i]).identifier == identifier;
        assert(first.outcomes[i] == Outcome::Posted);
    }
    lemma_second_run_plans_nothing(
        items,
        first.loaded,
        second.ledger,
        first.vocabulary,
        BATCH_CAP as nat,
    );
    assert(planned(items, second.ledger, second.vocabulary, BATCH_CAP as nat) == Seq::<
        StoryView,
    >::empty());
}

/// The durable ledger keeps step with the run: where the text of the ledger
/// has no unfinished line and reads as the ledger of the run, it still does so
/// once the line that the run hands out has been appended and reported as
/// recorded.
pub proof fn lemma_record_reads_back(state: RelayView, text: Seq<char>)
    requires
        state.wf(),
        state.phase is Recording,
        complete(text),
        ledger_lines(text).to_set() == state.ledger,
    ensures
        state.pending() matches ActionView::Record { identifier, line } && {
            &&& line == record_of(identifier)
            &&& recordable(identifier)
            &&& complete(text + line)
            &&& ledger_lines(text + line).to_set() == state.next(Event::Recorded).ledger
        },
{
    let identifier = state.current().identifier;
    lemma_record_appends_line(text, identifier);
    let lines = ledger_lines(text);
    let more = lines.push(identifier);
    assert forall|x: Seq<char>| #[trigger] more.to_set().contains(x) <==> lines.to_set().insert(
        identifier,
    ).contains(x) by {
        if more.contains(x) {
            let i = choose|i: int| 0 <= i < more.len() && more[i] == x;
            if i < lines.len() {
                assert(lines[i] == x);
            }
        }
        if lines.contains(x) {
            let i = choose|i: int| 0 <= i < lines.len() && lines[i] == x;
            assert(more[i] == x);
        }
        if x == identifier {
            assert(more[lines.len() as int] == x);
        }
    }
    assert(more.to_set() =~= lines.to_set().insert(identifier));
}

/// The state of one run.
pub struct Relay {
    phase: Phase,
    vocabulary: StringSet,
    ledger: DedupLedger,
    loaded: Ghost<Set<Seq<char>>>,
    batch: Vec<Story>,
    outcomes: Vec<Outcome>,
    skipped: usize,
}

impl View for Relay {
    type V = RelayView;

    closed spec fn view(&self) -> RelayView {
        RelayView {
            phase: self.phase,
            vocabulary: self.vocabulary@,
            loaded: self.loaded@,
            ledger: self.ledger@,
            batch: self.batch.deep_view(),
            outcomes: self.outcomes@,
            skipped: self.skipped as nat,
        }
    }
}

impl Relay {
    #[verifier::type_invariant]
    spec fn sound(self) -> bool {
        self@.wf()
    }

    /// The start of a run, together with the first thing to do.
    pub fn new() -> (start: (Relay, Action))
        ensures
            start.0@ == RelayView::initial(),
            start.1.deep_view() == RelayView::initial().pending(),
    {
        let batch: Vec<Story> = Vec::new();
        let outcomes: Vec<Outcome> = Vec::new();
        proof {
            let nothing = Set::<Seq<char>>::empty();
            assert(batch.deep_view() =~= Seq::<StoryView>::empty());
            assert(outcomes@ =~= Seq::<Outcome>::empty());
            assert(posted(batch.deep_view(), outcomes@) =~= nothing);
            assert(nothing =~= nothing.union(nothing));
        }
        let relay = Relay {
            phase: Phase::AwaitingVocabulary,
            vocabulary: StringSet::new(),
            ledger: DedupLedger::new(),
            loaded: Ghost(Set::empty()),
            batch,
            outcomes,
            skipped: 0,
        };
        (relay, Action::FetchVocabulary)
    }

    /// Where the run stands.
    pub fn phase(&self) -> (phase: Phase)
        ensures
            phase == self@.phase,
            self@.wf(),
    {
        proof {
            use_type_invariant(self);
        }
        self.phase
    }

    /// What became of the stories dealt with so far, in the order of the batch.
    pub fn outcomes(&self) -> (outcomes: &Vec<Outcome>)
        ensures
            outcomes@ == self@.outcomes,
    {
        &self.outcomes
    }

    /// The stories of the run: none before the feed was read.
    pub fn batch(&self) -> (batch: &Vec<Story>)
        ensures
            batch.deep_view() == self@.batch,
            batch.len() <= BATCH_CAP,
    {
        proof {
            use_type_invariant(self);
        }
        &self.batch
    }

    /// The ledger as the run knows it: what was loaded, and what the run has
    /// recorded since.
    pub fn ledger(&self) -> (ledger: &DedupLedger)
        ensures
            ledger@ == self@.ledger,
    {
        &self.ledger
    }

    /// How many entries of the feed were passed over because they cannot be
    /// relayed.
    pub fn skipped(&self) -> (skipped: usize)
        ensures
            skipped == self@.skipped,
    {
        self.skipped
    }

    /// What the caller is to do now.
    pub fn pending(&self) -> (action: Action)
        ensures
            action.deep_view() == self@.pending(),
    {
        proof {
            use_type_invariant(self);
        }
        match self.phase {
            Phase::AwaitingVocabulary => Action::FetchVocabulary,
            Phase::AwaitingLedger => Action::LoadLedger,
            Phase::AwaitingFeed => Action::FetchFeed,
            Phase::Submitting => Action::Submit(self.batch[self.outcomes.len()].duplicate()),
            Phase::Recording => {
                let story = &self.batch[self.outcomes.len()];
                Action::Record {
                    identifier: story.identifier.clone(),
                    line: DedupLedger::record_line(story.identifier.as_str()),
                }
            },
            Phase::Finished => Action::Finish,
            Phase::Aborted(fault) => Action::Abort(fault),
        }
    }

    /// Takes in what the caller reports and says what is to be done next.
    ///
    /// A report that answers nothing the relay asked for gives the run up. Once
    /// a run is finished or given up, no report changes it.
    pub fn step(self, event: Event) -> (stepped: (Relay, Action))
        ensures
            stepped.0@ == self@.next(event),
            stepped.1.deep_view() == stepped.0@.pending(),
            stepped.0@.wf(),
    {
        proof {
            use_type_invariant(&self);
            lemma_next_keeps_wf(self@, event);
        }
        let ghost before = self@;
        let ghost after = self@.next(event);
        let Relay { phase, vocabulary, ledger, loaded, batch, outcomes, skipped } = self;
        let relay = match phase {
            Phase::AwaitingVocabulary => match event {
                Event::VocabularyFetched(names) => Relay {
                    phase: Phase::AwaitingLedger,
                    vocabulary: StringSet::from_names(names),
                    ledger,
                    loaded,
                    batch,
                    outcomes,
                    skipped,
                },
                Event::VocabularyUnavailable => Relay {
                    phase: Phase::Aborted(Fault::VocabularyUnavailable),
                    vocabulary,
                    ledger,
                    loaded,
                    batch,
                    outcomes,
                    skipped,
                },
                _ => Relay {
                    phase: Phase::Aborted(Fault::OutOfTurn),
                    vocabulary,
                    ledger,
                    loaded,
                    batch,
                    outcomes,
                    skipped,
                },
            },
            Phase::AwaitingLedger => match event {
                Event::LedgerRead(text) => {
                    let read = DedupLedger::parse(text.as_str());
                    Relay {
                        phase: Phase::AwaitingFeed,
                        vocabulary,
                        loaded: Ghost(read@),
                        ledger: read,
                        batch,
                        outcomes,
                        skipped,
                    }
                },
                Event::LedgerAbsent => Relay {
                    phase: Phase::AwaitingFeed,
                    vocabulary,
                    loaded: Ghost(Set::empty()),
                    ledger: DedupLedger::new(),
                    batch,
                    outcomes,
                    skipped,
                },
                Event::LedgerUnreadable => Relay {
                    phase: Phase::Aborted(Fault::LedgerUnreadable),
                    vocabulary,
                    ledger,
                    loaded,
                    batch,
                    outcomes,
                    skipped,
                },
                _ => Relay {
                    phase: Phase::Aborted(Fault::OutOfTurn),
                    vocabulary,
                    ledger,
                    loaded,
                    batch,
                    outcomes,
                    skipped,
                },
            },
            Phase::AwaitingFeed => match event {
                Event::FeedFetched(document) => match parse_feed(document.as_slice()) {
                    Ok(feed) => {
                        let stories = plan_batch(&feed.items, &ledger, &vocabulary, BATCH_CAP);
                        Relay {
                            phase: if stories.len() == 0 {
                                Phase::Finished
                            } else {
                                Phase::Submitting
                            },
                            vocabulary,
                            ledger,
                            loaded,
                            batch: stories,
                            outcomes,
                            skipped: feed.malformed,
                        }
                    },
                    Err(error) => Relay {
                        phase: Phase::Aborted(
                            match error {
                                FeedError::TooManyTags => Fault::FeedOverLimit,
                                FeedError::Malformed => Fault::FeedMalformed,
                            },
                        ),
                        vocabulary,
                        ledger,
                        loaded,
                        batch,
                        outcomes,
                        skipped,
                    },
                },
                Event::FeedUnavailable => Relay {
                    phase: Phase::Aborted(Fault::FeedUnavailable),
                    vocabulary,
                    ledger,
                    loaded,
                    batch,
                    outcomes,
                    skipped,
                },
                _ => Relay {
                    phase: Phase::Aborted(Fault::OutOfTurn),
                    vocabulary,
                    ledger,
                    loaded,
                    batch,
                    outcomes,
                    skipped,
                },
            },
            Phase::Submitting => {
                let settled = match event {
                    Event::Answered(status) => match SubmissionResult::classify(Some(status)) {
                        SubmissionResult::Created => Ok(None),
                        SubmissionResult::Rejected(status) => Ok(Some(Outcome::Rejected(status))),
                        SubmissionResult::TransportFailure => Ok(Some(Outcome::Unanswered)),
                    },
                    Event::Unanswered => Ok(Some(Outcome::Unanswered)),
                    _ => Err(Fault::OutOfTurn),
                };
                match settled {
                    Ok(None) => Relay {
                        phase: Phase::Recording,
                        vocabulary,
                        ledger,
                        loaded,
                        batch,
                        outcomes,
                        skipped,
                    },
                    Ok(Some(outcome)) => {
                        let mut outcomes = outcomes;
                        outcomes.push(outcome);
                        Relay {
                            phase: if outcomes.len() >= batch.len() {
                                Phase::Finished
                            } else {
                                Phase::Submitting
                            },
                            vocabulary,
                            ledger,
                            loaded,
                            batch,
                            outcomes,
                            skipped,
                        }
                    },
                    Err(fault) => Relay {
                        phase: Phase::Aborted(fault),
                        vocabulary,
                        ledger,
                        loaded,
                        batch,
                        outcomes,
                        skipped,
                    },
                }
            },
            Phase::Recording => match event {
                Event::Recorded => {
                    let mut ledger = ledger;
                    let mut outcomes = outcomes;
                    ledger.insert(batch[outcomes.len()].identifier.as_str());
                    outcomes.push(Outcome::Posted);
                    Relay {
                        phase: if outcomes.len() >= batch.len() {
                            Phase::Finished
                        } else {
                            Phase::Submitting
                        },
                        vocabulary,
                        ledger,
                        loaded,
                        batch,
                        outcomes,
                        skipped,
                    }
                },
                Event::RecordFailed => {
                    let mut outcomes = outcomes;
                    outcomes.push(Outcome::Unrecorded);
                    Relay {
                        phase: if outcomes.len() >= batch.len() {
                            Phase::Finished
                        } else {
                            Phase::Submitting
                        },
                        vocabulary,
                        ledger,
                        loaded,
                        batch,
                        outcomes,
                        skipped,
                    }
                },
                _ => Relay {
                    phase: Phase::Aborted(Fault::OutOfTurn),
                    vocabulary,
                    ledger,
                    loaded,
                    batch,
                    outcomes,
                    skipped,
                },
            },
            Phase::Finished => Relay {
                phase,
                vocabulary,
                ledger,
                loaded,
                batch,
                outcomes,
                skipped,
            },
            Phase::Aborted(_) => Relay {
                phase,
                vocabulary,
                ledger,
                loaded,
                batch,
                outcomes,
                skipped,
            },
        };
        let action = relay.pending();
        (relay, action)
    }
}

} // verus!
