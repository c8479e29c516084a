//! The ledger of identifiers that were relayed already.
//!
//! The durable form of the ledger is a text that is only ever appended to, one
//! identifier to a line. A run reads the whole text once and matches the
//! identifiers of the feed against the lines it holds.

use crate::string_set::StringSet;
use crate::text::{
    ends_in_return, first_break, holds_line_feed, lemma_first_break, lemma_first_break_found,
    split_line, trim_return, without_return,
};
use vstd::prelude::*;
use vstd::string::StringExecFns;

verus! {

/// The lines of a ledger text, in the order in which they stand. A line ends at
/// a line feed or at the end of the text; a carriage return in front of the
/// line feed is no part of it.
pub open spec fn ledger_lines(text: Seq<char>) -> Seq<Seq<char>>
    decreases text.len(),
{
    if text.len() == 0 {
        Seq::empty()
    } else {
        let k = first_break(text);
        if k < 0 || k >= text.len() {
            seq![text]
        } else {
            seq![without_return(text.take(k))] + ledger_lines(text.skip(k + 1))
        }
    }
}

/// The line that records `identifier`.
pub open spec fn record_of(identifier: Seq<char>) -> Seq<char> {
    identifier.push('\n')
}

/// An identifier that a line can hold as it is: it has no line feed in it and
/// no carriage return at its end.
pub open spec fn recordable(identifier: Seq<char>) -> bool {
    &&& !identifier.contains('\n')
    &&& identifier.len() > 0 ==> identifier.last() != '\r'
}

/// A ledger text to which a record can be appended: none of its lines is left
/// unfinished.
pub open spec fn complete(text: Seq<char>) -> bool {
    text.len() > 0 ==> text.last() == '\n'
}

/// The text that results from recording the given identifiers one after another
/// in an empty ledger.
pub open spec fn log_of(identifiers: Seq<Seq<char>>) -> Seq<char>
    decreases identifiers.len(),
{
    if identifiers.len() == 0 {
        Seq::empty()
    } else {
        log_of(identifiers.drop_last()) + record_of(identifiers.last())
    }
}

/// Appending the record of an identifier to a ledger text adds that identifier
/// as its last line and leaves the other lines as they were.
pub proof fn lemma_record_appends_line(text: Seq<char>, identifier: Seq<char>)
    requires
        complete(text),
        recordable(identifier),
    ensures
        ledger_lines(text + record_of(identifier)) == ledger_lines(text).push(identifier),
        complete(text + record_of(identifier)),
    decreases text.len(),
{
    let whole = text + record_of(identifier);
    if text.len() == 0 {
        assert(whole =~= identifier + seq!['\n'] + Seq::<char>::empty());
        lemma_first_break_found(identifier, Seq::empty());
        assert(whole.take(identifier.len() as int) =~= identifier);
        assert(whole.skip(identifier.len() as int + 1) =~= Seq::<char>::empty());
        assert(first_break(whole) == identifier.len());
        assert(whole.len() == identifier.len() + 1);
        assert(without_return(identifier) == identifier);
        assert(ledger_lines(Seq::<char>::empty()) =~= Seq::<Seq<char>>::empty());
        assert(ledger_lines(whole) =~= seq![identifier] + Seq::<Seq<char>>::empty());
        assert(ledger_lines(text).push(identifier) =~= seq![identifier]);
    } else {
        let k = first_break(text);
        lemma_first_break(text);
        if k == text.len() {
            assert(text.take(k) =~= text);
            assert(text[text.len() - 1] == '\n');
        }
        let head = text.take(k);
        let tail = text.skip(k + 1);
        assert(whole =~= head + seq!['\n'] + (tail + record_of(identifier)));
        lemma_first_break_found(head, tail + record_of(identifier));
        assert(whole.take(k) =~= head);
        assert(whole.skip(k + 1) =~= tail + record_of(identifier));
        assert(complete(tail)) by {
            if tail.len() > 0 {
                assert(tail.last() == text.last());
            }
        }
        lemma_record_appends_line(tail, identifier);
        assert(ledger_lines(whole) =~= ledger_lines(text).push(identifier));
    }
}

/// Identifiers recorded one after another in an empty ledger are read back as
/// they were recorded: each of them, in that order, and nothing else.
pub proof fn lemma_reload_yields_recorded(identifiers: Seq<Seq<char>>)
    requires
        forall|i: int| 0 <= i < identifiers.len() ==> recordable(#[trigger] identifiers[i]),
    ensures
        ledger_lines(log_of(identifiers)) == identifiers,
        complete(log_of(identifiers)),
    decreases identifiers.len(),
{
    if identifiers.len() > 0 {
        let earlier = identifiers.drop_last();
        lemma_reload_yields_recorded(earlier);
        lemma_record_appends_line(log_of(earlier), identifiers.last());
        assert(earlier.push(identifiers.last()) =~= identifiers);
    }
}

/// Whether a line of the ledger can hold `identifier` as it is.
pub fn is_recordable(identifier: &str) -> (fits: bool)
    ensures
        fits == recordable(identifier@),
{
    !holds_line_feed(identifier) && !ends_in_return(identifier)
}

/// The identifiers that are known to have been relayed.
#[derive(Debug)]
pub struct DedupLedger {
    identifiers: StringSet,
}

impl View for DedupLedger {
    type V = Set<Seq<char>>;

    closed spec fn view(&self) -> Set<Seq<char>> {
        self.identifiers@
    }
}

impl DedupLedger {
    /// The ledger of a first run: nothing was relayed yet.
    pub fn new() -> (ledger: DedupLedger)
        ensures
            ledger@ == Set::<Seq<char>>::empty(),
    {
        DedupLedger { identifiers: StringSet::new() }
    }

    /// Reads a ledger text: every line of it is an identifier.
    pub fn parse(text: &str) -> (ledger: DedupLedger)
        ensures
            ledger@ == ledger_lines(text@).to_set(),
    {
        let mut identifiers = StringSet::new();
        let mut rest = text;
        loop
            invariant_except_break
                identifiers@.union(ledger_lines(rest@).to_set()) == ledger_lines(text@).to_set(),
            ensures
                identifiers@ == ledger_lines(text@).to_set(),
            decreases rest@.len(),
        {
            if rest.is_empty() {
                proof {
                    assert(ledger_lines(rest@).to_set() =~= Set::<Seq<char>>::empty());
                    assert(identifiers@.union(Set::<Seq<char>>::empty()) =~= identifiers@);
                }
                break ;
            }
            let ghost had = identifiers@;
            let ghost lines = ledger_lines(rest@);
            let (head, tail) = split_line(rest);
            proof {
                lemma_first_break(rest@);
            }
            let line = match tail {
                None => {
                    proof {
                        assert(rest@.take(rest@.len() as int) =~= rest@);
                    }
                    head
                },
                Some(_) => trim_return(head),
            };
            identifiers.insert(line.to_owned());
            assert(lines[0] == line@);
            match tail {
                None => {
                    proof {
                        assert(lines =~= seq![line@]);
                        assert(lines.to_set() =~= Set::<Seq<char>>::empty().insert(line@)) by {
                            assert forall|x: Seq<char>| lines.to_set().contains(x) <==> x
                                == line@ by {
                                if x == line@ {
                                    assert(lines[0] == x);
                                }
                            }
                        }
                        assert(had.insert(line@) =~= had.union(lines.to_set()));
                    }
                    break ;
                },
                Some(next) => {
                    proof {
                        let later = ledger_lines(next@);
                        assert(lines =~= seq![line@] + later);
                        assert forall|x: Seq<char>| #[trigger] lines.to_set().contains(x) <==> (x
                            == line@ || later.to_set().contains(x)) by {
                            if lines.contains(x) {
                                let i = choose|i: int| 0 <= i < lines.len() && lines[i] == x;
                                if i > 0 {
                                    assert(later[i - 1] == x);
                                }
                            }
                            if later.contains(x) {
                                let i = choose|i: int| 0 <= i < later.len() && later[i] == x;
                                assert(lines[i + 1] == x);
                            }
                            if x == line@ {
                                assert(lines[0] == x);
                            }
                        }
                        assert(had.insert(line@).union(later.to_set()) =~= had.union(
                            lines.to_set(),
                        ));
                    }
                    rest = next;
                },
            }
        }
        DedupLedger { identifiers }
    }

    /// Whether `identifier` was relayed already.
    pub fn contains(&self, identifier: &str) -> (known: bool)
        ensures
            known == self@.contains(identifier@),
    {
        self.identifiers.contains(identifier)
    }

    /// The number of identifiers in the ledger.
    pub fn len(&self) -> (n: usize)
        ensures
            self@.finite(),
            n == self@.len(),
    {
        self.identifiers.len()
    }

    /// Notes that `identifier` was relayed.
    pub fn insert(&mut self, identifier: &str)
        ensures
            final(self)@ == old(self)@.insert(identifier@),
    {
        self.identifiers.insert(identifier.to_owned());
    }

    /// The text to append to the durable ledger for `identifier`: the identifier
    /// on a line of its own.
    pub fn record_line(identifier: &str) -> (line: String)
        ensures
            line@ == record_of(identifier@),
    {
        let mut line = identifier.to_owned();
        proof {
            reveal_strlit("\n");
        }
        line.append("\n");
        assert(line@ =~= identifier@.push('\n'));
        line
    }
}

} // verus!
