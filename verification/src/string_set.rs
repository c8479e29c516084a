//! A finite set of texts, kept in ascending order.

use crate::text::{
    collate, lemma_ascending_unique, lemma_precedes_asymmetric, lemma_precedes_irreflexive,
    lemma_precedes_transitive, precedes, strictly_ascending, Rank,
};
use vstd::prelude::*;

verus! {

/// The members of a finite set of texts, listed in ascending order.
pub open spec fn ascending(members: Set<Seq<char>>) -> Seq<Seq<char>> {
    choose|q: Seq<Seq<char>>| strictly_ascending(q) && q.to_set() == members
}

/// A strictly ascending listing is the ascending listing of its members.
pub proof fn lemma_ascending_of_listing(q: Seq<Seq<char>>)
    requires
        strictly_ascending(q),
    ensures
        ascending(q.to_set()) == q,
        q.no_duplicates(),
        q.to_set().finite(),
        q.to_set().len() == q.len(),
{
    let p = ascending(q.to_set());
    lemma_ascending_unique(p, q);
    assert forall|i: int, j: int| 0 <= i < q.len() && 0 <= j < q.len() && i != j implies q[i]
        != q[j] by {
        if i < j {
            lemma_precedes_asymmetric(q[i], q[j]);
        } else {
            lemma_precedes_asymmetric(q[j], q[i]);
        }
    }
    vstd::seq_lib::seq_to_set_is_finite(q);
    q.unique_seq_to_set();
}

/// `q` with `x` put in at its place in the order.
pub open spec fn with_member(q: Seq<Seq<char>>, x: Seq<char>) -> Seq<Seq<char>>
    decreases q.len(),
{
    if q.len() == 0 {
        seq![x]
    } else if precedes(x, q[0]) {
        seq![x] + q
    } else {
        seq![q[0]] + with_member(q.drop_first(), x)
    }
}

/// Putting a new member in at its place keeps a listing strictly ascending and
/// adds nothing but that member.
pub proof fn lemma_with_member(q: Seq<Seq<char>>, x: Seq<char>)
    requires
        strictly_ascending(q),
        !q.contains(x),
    ensures
        strictly_ascending(with_member(q, x)),
        with_member(q, x).to_set() == q.to_set().insert(x),
        with_member(q, x).len() == q.len() + 1,
    decreases q.len(),
{
    let r = with_member(q, x);
    if q.len() == 0 {
        assert(r.to_set() =~= q.to_set().insert(x)) by {
            assert forall|y: Seq<char>| r.to_set().contains(y) <==> y == x by {
                if y == x {
                    assert(r[0] == y);
                }
            }
        }
    } else if precedes(x, q[0]) {
        assert forall|i: int, j: int| 0 <= i < j < r.len() implies precedes(
            #[trigger] r[i],
            #[trigger] r[j],
        ) by {
            if i == 0 {
                if j > 1 {
                    assert(precedes(q[0], q[j - 1]));
                    lemma_precedes_transitive(x, q[0], q[j - 1]);
                }
            } else {
                assert(precedes(q[i - 1], q[j - 1]));
            }
        }
        assert(r.to_set() =~= q.to_set().insert(x)) by {
            assert forall|y: Seq<char>| r.to_set().contains(y) <==> (y == x || q.contains(y)) by {
                if r.contains(y) {
                    let k = choose|k: int| 0 <= k < r.len() && r[k] == y;
                    if k > 0 {
                        assert(q[k - 1] == y);
                    }
                }
                if q.contains(y) {
                    let k = choose|k: int| 0 <= k < q.len() && q[k] == y;
                    assert(r[k + 1] == y);
                }
                if y == x {
                    assert(r[0] == y);
                }
            }
        }
    } else {
        let tail = q.drop_first();
        let rest = with_member(tail, x);
        assert forall|i: int, j: int| 0 <= i < j < tail.len() implies precedes(
            #[trigger] tail[i],
            #[trigger] tail[j],
        ) by {
            assert(precedes(q[i + 1], q[j + 1]));
        }
        if tail.contains(x) {
            let k = choose|k: int| 0 <= k < tail.len() && tail[k] == x;
            assert(q[k + 1] == x);
        }
        lemma_with_member(tail, x);
        assert(q[0] != x) by {
            if q[0] == x {
                assert(q.contains(x));
            }
        }
        crate::text::lemma_precedes_total(x, q[0]);
        assert forall|i: int, j: int| 0 <= i < j < r.len() implies precedes(
            #[trigger] r[i],
            #[trigger] r[j],
        ) by {
            if i == 0 {
                assert(rest.to_set().contains(rest[j - 1]));
                if rest[j - 1] != x {
                    assert(tail.contains(rest[j - 1]));
                    let k = choose|k: int| 0 <= k < tail.len() && tail[k] == rest[j - 1];
                    assert(precedes(q[0], q[k + 1]));
                }
            } else {
                assert(precedes(rest[i - 1], rest[j - 1]));
            }
        }
        assert(r.to_set() =~= q.to_set().insert(x)) by {
            assert forall|y: Seq<char>| r.to_set().contains(y) <==> (y == x || q.contains(y)) by {
                if r.contains(y) {
                    let k = choose|k: int| 0 <= k < r.len() && r[k] == y;
                    if k > 0 {
                        assert(rest[k - 1] == y);
                        assert(rest.to_set().contains(y));
                        if y != x {
                            assert(tail.contains(y));
                            let m = choose|m: int| 0 <= m < tail.len() && tail[m] == y;
                            assert(q[m + 1] == y);
                        }
                    } else {
                        assert(q[0] == y);
                    }
                }
                if q.contains(y) {
                    let k = choose|k: int| 0 <= k < q.len() && q[k] == y;
                    if k == 0 {
                        assert(r[0] == y);
                    } else {
                        assert(tail[k - 1] == y);
                        assert(rest.to_set().contains(y));
                        let m = choose|m: int| 0 <= m < rest.len() && rest[m] == y;
                        assert(r[m + 1] == y);
                    }
                }
                if y == x {
                    assert(rest.to_set().contains(x));
                    let m = choose|m: int| 0 <= m < rest.len() && rest[m] == x;
                    assert(r[m + 1] == x);
                }
            }
        }
    }
}

/// Every finite set of texts has an ascending listing: it lists each member
/// once and nothing else.
pub proof fn lemma_ascending_exists(members: Set<Seq<char>>)
    requires
        members.finite(),
    ensures
        strictly_ascending(ascending(members)),
        ascending(members).to_set() == members,
        ascending(members).len() == members.len(),
    decreases members.len(),
{
    if members.len() == 0 {
        let q = Seq::<Seq<char>>::empty();
        assert(members =~= Set::<Seq<char>>::empty());
        assert(q.to_set() =~= members);
        assert(strictly_ascending(q) && q.to_set() == members);
    } else {
        let x = members.choose();
        let rest = members.remove(x);
        lemma_ascending_exists(rest);
        let q = ascending(rest);
        if q.contains(x) {
            assert(q.to_set().contains(x));
        }
        lemma_with_member(q, x);
        let r = with_member(q, x);
        assert(rest.insert(x) =~= members);
        assert(strictly_ascending(r) && r.to_set() == members);
    }
    lemma_ascending_of_listing(ascending(members));
}

/// A finite set of texts.
#[derive(Debug)]
pub struct StringSet {
    names: Vec<String>,
}

impl View for StringSet {
    type V = Set<Seq<char>>;

    closed spec fn view(&self) -> Set<Seq<char>> {
        self.names.deep_view().to_set()
    }
}

impl StringSet {
    #[verifier::type_invariant]
    spec fn in_order(self) -> bool {
        strictly_ascending(self.names.deep_view())
    }

    /// The empty set.
    pub fn new() -> (set: StringSet)
        ensures
            set@ == Set::<Seq<char>>::empty(),
    {
        let set = StringSet { names: Vec::new() };
        assert(set.names.deep_view().to_set() =~= Set::<Seq<char>>::empty());
        set
    }

    /// The number of members.
    pub fn len(&self) -> (n: usize)
        ensures
            self@.finite(),
            n == self@.len(),
    {
        proof {
            use_type_invariant(self);
            lemma_ascending_of_listing(self.names.deep_view());
        }
        self.names.len()
    }

    /// Whether the set has no member.
    pub fn is_empty(&self) -> (empty: bool)
        ensures
            empty == (self@ == Set::<Seq<char>>::empty()),
            self@.finite(),
    {
        proof {
            use_type_invariant(self);
            lemma_ascending_of_listing(self.names.deep_view());
            let listing = self.names.deep_view();
            if listing.len() > 0 {
                assert(listing.to_set().contains(listing[0]));
            } else {
                assert(listing.to_set() =~= Set::<Seq<char>>::empty());
            }
        }
        self.names.len() == 0
    }

    /// The members in ascending order, the set given up for them.
    pub fn into_names(self) -> (names: Vec<String>)
        ensures
            names.deep_view() == ascending(self@),
            strictly_ascending(names.deep_view()),
            names.deep_view().to_set() == self@,
    {
        proof {
            use_type_invariant(&self);
            lemma_ascending_of_listing(self.names.deep_view());
        }
        self.names
    }

    /// The members in ascending order.
    pub fn names(&self) -> (names: &Vec<String>)
        ensures
            names.deep_view() == ascending(self@),
            strictly_ascending(names.deep_view()),
            names.deep_view().to_set() == self@,
    {
        proof {
            use_type_invariant(self);
            lemma_ascending_of_listing(self.names.deep_view());
        }
        &self.names
    }

    /// Where `name` stands among the members: the number of members that come
    /// before it, and whether the member at that place is `name` itself.
    fn locate(&self, name: &str) -> (place: (usize, bool))
        ensures
            place.0 <= self.names.len(),
            forall|i: int| 0 <= i < place.0 ==> precedes(#[trigger] self.names.deep_view()[i], name@),
            place.1 ==> place.0 < self.names.len() && self.names.deep_view()[place.0 as int]
                == name@,
            !place.1 ==> forall|i: int|
                place.0 <= i < self.names.len() ==> precedes(
                    name@,
                    #[trigger] self.names.deep_view()[i],
                ),
    {
        proof {
            use_type_invariant(self);
        }
        let ghost listing = self.names.deep_view();
        let mut low: usize = 0;
        let mut high: usize = self.names.len();
        while low < high
            invariant
                low <= high <= self.names.len(),
                listing == self.names.deep_view(),
                strictly_ascending(listing),
                forall|i: int| 0 <= i < low ==> precedes(#[trigger] listing[i], name@),
                forall|i: int| high <= i < listing.len() ==> precedes(name@, #[trigger] listing[i]),
            decreases high - low,
        {
            let middle = low + (high - low) / 2;
            match collate(self.names[middle].as_str(), name) {
                Rank::Same => {
                    proof {
                        assert forall|i: int| 0 <= i < middle implies precedes(
                            #[trigger] listing[i],
                            name@,
                        ) by {
                            assert(precedes(listing[i], listing[middle as int]));
                        }
                    }
                    return (middle, true);
                },
                Rank::Before => {
                    proof {
                        assert forall|i: int| 0 <= i < middle + 1 implies precedes(
                            #[trigger] listing[i],
                            name@,
                        ) by {
                            if i < middle {
                                assert(precedes(listing[i], listing[middle as int]));
                                lemma_precedes_transitive(listing[i], listing[middle as int], name@);
                            }
                        }
                    }
                    low = middle + 1;
                },
                Rank::After => {
                    proof {
                        crate::text::lemma_precedes_total(listing[middle as int], name@);
                        assert forall|i: int| middle <= i < listing.len() implies precedes(
                            name@,
                            #[trigger] listing[i],
                        ) by {
                            if middle < i {
                                assert(precedes(listing[middle as int], listing[i]));
                                lemma_precedes_transitive(name@, listing[middle as int], listing[i]);
                            }
                        }
                    }
                    high = middle;
                },
            }
        }
        (low, false)
    }

    /// Whether `name` is a member.
    pub fn contains(&self, name: &str) -> (found: bool)
        ensures
            found == self@.contains(name@),
    {
        let place = self.locate(name);
        proof {
            let listing = self.names.deep_view();
            if place.1 {
                assert(listing.contains(name@));
            } else if listing.contains(name@) {
                let i = choose|i: int| 0 <= i < listing.len() && listing[i] == name@;
                lemma_precedes_irreflexive(name@);
            }
        }
        place.1
    }

    /// Makes `name` a member. Returns whether it was none before.
    pub fn insert(&mut self, name: String) -> (added: bool)
        ensures
            final(self)@ == old(self)@.insert(name@),
            added == !old(self)@.contains(name@),
    {
        let place = self.locate(name.as_str());
        let ghost before = self.names.deep_view();
        proof {
            use_type_invariant(&*self);
        }
        if place.1 {
            proof {
                assert(before.contains(name@));
                assert(before.to_set() =~= before.to_set().insert(name@));
            }
            false
        } else {
            proof {
                if before.contains(name@) {
                    let i = choose|i: int| 0 <= i < before.len() && before[i] == name@;
                    lemma_precedes_irreflexive(name@);
                }
            }
            let mut names = Vec::new();
            std::mem::swap(&mut names, &mut self.names);
            names.insert(place.0, name);
            proof {
                let after = names.deep_view();
                let at = place.0 as int;
                assert(after =~= before.insert(at, name@));
                assert forall|i: int, j: int| 0 <= i < j < after.len() implies precedes(
                    #[trigger] after[i],
                    #[trigger] after[j],
                ) by {
                    if j < at {
                        assert(precedes(before[i], before[j]));
                    } else if j == at {
                        assert(precedes(before[i], name@));
                    } else if i < at {
                        assert(precedes(before[i], before[j - 1]));
                    } else if i == at {
                        assert(precedes(name@, before[j - 1]));
                    } else {
                        assert(precedes(before[i - 1], before[j - 1]));
                    }
                }
                assert forall|x: Seq<char>| after.to_set().contains(x) <==> before.to_set().insert(
                    name@,
                ).contains(x) by {
                    if after.contains(x) {
                        let k = choose|k: int| 0 <= k < after.len() && after[k] == x;
                        if k < at {
                            assert(before[k] == x);
                        } else if k > at {
                            assert(before[k - 1] == x);
                        }
                    }
                    if before.contains(x) {
                        let k = choose|k: int| 0 <= k < before.len() && before[k] == x;
                        if k < at {
                            assert(after[k] == x);
                        } else {
                            assert(after[k + 1] == x);
                        }
                    }
                    if x == name@ {
                        assert(after[at] == x);
                    }
                }
                assert(after.to_set() =~= before.to_set().insert(name@));
            }
            self.names = names;
            true
        }
    }

    /// The set of the given names, in whatever order and however often each is given.
    pub fn from_names(names: Vec<String>) -> (set: StringSet)
        ensures
            set@ == names.deep_view().to_set(),
    {
        let ghost given = names.deep_view();
        let mut names = names;
        let mut set = StringSet::new();
        while names.len() > 0
            invariant
                set@.union(names.deep_view().to_set()) == given.to_set(),
            decreases names.len(),
        {
            let ghost left = names.deep_view();
            let ghost had = set@;
            let name = names.pop().unwrap();
            proof {
                let rest = names.deep_view();
                assert(rest =~= left.drop_last());
                assert(name@ == left.last());
                assert forall|x: Seq<char>| #[trigger] left.to_set().contains(x) <==> (x == name@
                    || rest.to_set().contains(x)) by {
                    if left.contains(x) {
                        let k = choose|k: int| 0 <= k < left.len() && left[k] == x;
                        if k < rest.len() {
                            assert(rest[k] == x);
                        }
                    }
                    if rest.contains(x) {
                        let k = choose|k: int| 0 <= k < rest.len() && rest[k] == x;
                        assert(left[k] == x);
                    }
                    if x == name@ {
                        assert(left[left.len() - 1] == x);
                    }
                }
                assert(had.insert(name@).union(rest.to_set()) =~= had.union(left.to_set()));
            }
            set.insert(name);
        }
        proof {
            assert(names.deep_view().to_set() =~= Set::<Seq<char>>::empty());
            assert(set@.union(Set::<Seq<char>>::empty()) =~= set@);
        }
        set
    }

    /// The members that `self` and `other` have in common.
    pub fn intersection(&self, other: &StringSet) -> (common: StringSet)
        ensures
            common@ == self@.intersect(other@),
    {
        proof {
            use_type_invariant(self);
        }
        let ghost mine = self.names.deep_view();
        let mut kept: Vec<String> = Vec::new();
        let mut i: usize = 0;
        while i < self.names.len()
            invariant
                i <= self.names.len(),
                mine == self.names.deep_view(),
                strictly_ascending(mine),
                strictly_ascending(kept.deep_view()),
                forall|k: int, m: int|
                    0 <= k < kept.len() && i <= m < mine.len() ==> precedes(
                        #[trigger] kept.deep_view()[k],
                        #[trigger] mine[m],
                    ),
                forall|x: Seq<char>|
                    #[trigger] kept.deep_view().contains(x) <==> (mine.take(i as int).contains(x)
                        && other@.contains(x)),
            decreases self.names.len() - i,
        {
            let ghost before = kept.deep_view();
            let name = &self.names[i];
            let shared = other.contains(name.as_str());
            if shared {
                kept.push(name.clone());
            }
            proof {
                let after = kept.deep_view();
                let seen = mine.take(i as int);
                let next = mine.take(i + 1);
                assert(next =~= seen.push(mine[i as int]));
                if shared {
                    assert(after =~= before.push(mine[i as int]));
                }
                assert forall|x: Seq<char>| #[trigger] after.contains(x) <==> (next.contains(x)
                    && other@.contains(x)) by {
                    if after.contains(x) {
                        let k = choose|k: int| 0 <= k < after.len() && after[k] == x;
                        if k < before.len() {
                            assert(before[k] == x);
                            assert(before.contains(x));
                            let m = choose|m: int| 0 <= m < seen.len() && seen[m] == x;
                            assert(next[m] == x);
                        } else {
                            assert(next[i as int] == x);
                        }
                    }
                    if next.contains(x) && other@.contains(x) {
                        let m = choose|m: int| 0 <= m < next.len() && next[m] == x;
                        if m < i {
                            assert(seen[m] == x);
                            assert(before.contains(x));
                            let k = choose|k: int| 0 <= k < before.len() && before[k] == x;
                            assert(after[k] == x);
                        } else {
                            assert(after[after.len() - 1] == x);
                        }
                    }
                }
                assert forall|k: int, m: int|
                    0 <= k < after.len() && i + 1 <= m < mine.len() implies precedes(
                    #[trigger] after[k],
                    #[trigger] mine[m],
                ) by {
                    if k < before.len() {
                        assert(after[k] == before[k]);
                    } else {
                        assert(precedes(mine[i as int], mine[m]));
                    }
                }
                assert forall|k: int, m: int| 0 <= k < m < after.len() implies precedes(
                    #[trigger] after[k],
                    #[trigger] after[m],
                ) by {
                    if m < before.len() {
                        assert(precedes(before[k], before[m]));
                    } else {
                        assert(precedes(before[k], mine[i as int]));
                    }
                }
            }
            i += 1;
        }
        proof {
            assert(mine.take(i as int) =~= mine);
            assert(kept.deep_view().to_set() =~= mine.to_set().intersect(other@));
        }
        StringSet { names: kept }
    }
}

} // verus!
