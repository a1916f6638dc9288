//! The incremental set-discovery engine. A `Hand` keeps the cards in play
//! together with every valid three-card set among them, as records of hand
//! positions. Dealing discovers only the sets that involve a new card;
//! removing a set drops every record that shares a card with it and
//! re-indexes the survivors, so the tracked list always equals what a full
//! rescan of the hand would find.

use vstd::prelude::*;
use crate::card::{Card, is_set, spec_is_set};
use crate::{HandType, Info};

verus! {

/// A set tracked by the engine: three positions of the current hand, in
/// increasing order, whose cards form a valid set.
#[derive(Copy, Clone, PartialEq, Eq, Structural, Debug)]
pub struct TrackedSet {
    pub first: usize,
    pub second: usize,
    pub third: usize,
}

/// The positions `i < j < k` are in bounds and their cards form a valid set.
pub open spec fn combo_is_set(cards: Seq<Card>, i: int, j: int, k: int) -> bool {
    &&& 0 <= i < j
    &&& j < k
    &&& k < cards.len()
    &&& spec_is_set(cards[i], cards[j], cards[k])
}

/// The record `t` names exactly the positions `i < j < k`.
pub open spec fn ts_is(t: TrackedSet, i: int, j: int, k: int) -> bool {
    t.first as int == i && t.second as int == j && t.third as int == k
}

/// Some record in `sets` names exactly the positions `i < j < k`.
pub open spec fn has_tracked(sets: Seq<TrackedSet>, i: int, j: int, k: int) -> bool {
    exists|n: int| 0 <= n < sets.len() && ts_is(#[trigger] sets[n], i, j, k)
}

/// The record `t` is a valid set of the hand `cards`.
pub open spec fn ts_valid(t: TrackedSet, cards: Seq<Card>) -> bool {
    combo_is_set(cards, t.first as int, t.second as int, t.third as int)
}

/// Every tracked record is a valid set of `cards`.
pub open spec fn sets_sound(sets: Seq<TrackedSet>, cards: Seq<Card>) -> bool {
    forall|n: int| 0 <= n < sets.len() ==> ts_valid(#[trigger] sets[n], cards)
}

/// Every valid set of `cards` is tracked.
pub open spec fn sets_complete(sets: Seq<TrackedSet>, cards: Seq<Card>) -> bool {
    forall|i: int, j: int, k: int| #[trigger]
        combo_is_set(cards, i, j, k) ==> has_tracked(sets, i, j, k)
}

/// No combination is tracked twice.
pub open spec fn sets_distinct(sets: Seq<TrackedSet>) -> bool {
    forall|m: int, n: int| 0 <= m < n < sets.len() ==> #[trigger] sets[m] != #[trigger] sets[n]
}

/// Appending a record never loses a tracked combination.
proof fn lemma_push_preserves_tracked(sets: Seq<TrackedSet>, t: TrackedSet)
    ensures
        forall|i: int, j: int, k: int|
            has_tracked(sets, i, j, k) ==> #[trigger] has_tracked(sets.push(t), i, j, k),
{
    assert forall|i: int, j: int, k: int|
        has_tracked(sets, i, j, k) implies #[trigger] has_tracked(sets.push(t), i, j, k) by {
        let n = choose|n: int| 0 <= n < sets.len() && ts_is(#[trigger] sets[n], i, j, k);
        assert(sets.push(t)[n] == sets[n]);
        assert(ts_is(sets.push(t)[n], i, j, k));
    }
}

/// A combination `(a, b, c)` comes strictly before `(i, j, k)` in the order
/// the exhaustive scan visits combinations.
pub open spec fn combo_before(a: int, b: int, c: int, i: int, j: int, k: int) -> bool {
    a < i || (a == i && (b < j || (b == j && c < k)))
}

/// Scans every 3-combination of hand positions and reports each one whose
/// cards form a valid set, each exactly once. This is the full scan that
/// seeds the engine; afterwards discovery is incremental.
pub fn find_all_sets(cards: &Vec<Card>) -> (sets: Vec<TrackedSet>)
    ensures
        sets_sound(sets@, cards@),
        sets_complete(sets@, cards@),
        sets_distinct(sets@),
{
    let len = cards.len();
    let mut sets: Vec<TrackedSet> = Vec::new();
    let mut i: usize = 0;
    while i < len
        invariant
            i <= len,
            len == cards@.len(),
            sets_sound(sets@, cards@),
            sets_distinct(sets@),
            forall|n: int| 0 <= n < sets@.len() ==> (#[trigger] sets@[n]).first < i,
            forall|a: int, b: int, c: int| #[trigger]
                combo_is_set(cards@, a, b, c) && a < i ==> has_tracked(sets@, a, b, c),
        decreases len - i,
    {
        let mut j: usize = i + 1;
        while j < len
            invariant
                i < len,
                i < j <= len,
                len == cards@.len(),
                sets_sound(sets@, cards@),
                sets_distinct(sets@),
                forall|n: int| 0 <= n < sets@.len() ==> combo_before(
                    (#[trigger] sets@[n]).first as int,
                    sets@[n].second as int,
                    sets@[n].third as int,
                    i as int,
                    j as int,
                    0,
                ),
                forall|a: int, b: int, c: int| #[trigger]
                    combo_is_set(cards@, a, b, c) && combo_before(
                        a,
                        b,
                        c,
                        i as int,
                        j as int,
                        0,
                    ) ==> has_tracked(sets@, a, b, c),
            decreases len - j,
        {
            let mut k: usize = j + 1;
            while k < len
                invariant
                    i < j < k || k == j + 1,
                    i < j < len,
                    j < k <= len,
                    len == cards@.len(),
                    sets_sound(sets@, cards@),
                    sets_distinct(sets@),
                    forall|n: int| 0 <= n < sets@.len() ==> combo_before(
                        (#[trigger] sets@[n]).first as int,
                        sets@[n].second as int,
                        sets@[n].third as int,
                        i as int,
                        j as int,
                        k as int,
                    ),
                    forall|a: int, b: int, c: int| #[trigger]
                        combo_is_set(cards@, a, b, c) && combo_before(
                            a,
                            b,
                            c,
                            i as int,
                            j as int,
                            k as int,
                        ) ==> has_tracked(sets@, a, b, c),
                decreases len - k,
            {
                if is_set(&cards[i], &cards[j], &cards[k]) {
                    let t = TrackedSet { first: i, second: j, third: k };
                    proof {
                        lemma_push_preserves_tracked(sets@, t);
                        assert(ts_is(sets@.push(t)[sets@.len() as int], i as int, j as int, k as int));
                    }
                    sets.push(t);
                }
                k = k + 1;
            }
            j = j + 1;
        }
        i = i + 1;
    }
    sets
}

/// One sub-scan of incremental discovery: for one pair `(p, q)` of
/// new-card positions, finds every valid set `(i, p, q)` whose third member
/// is an old card, at a position below `old_len`.
fn scan_pair(cards: &Vec<Card>, sets: &mut Vec<TrackedSet>, old_len: usize, p: usize, q: usize)
    requires
        old_len <= p < q < cards@.len(),
        sets_sound(old(sets)@, cards@),
        sets_distinct(old(sets)@),
        forall|n: int|
            0 <= n < old(sets)@.len() ==> !((#[trigger] old(sets)@[n]).second == p
                && old(sets)@[n].third == q),
        forall|n: int| 0 <= n < old(sets)@.len() ==> (#[trigger] old(sets)@[n]).first < old_len,
    ensures
        old(sets)@.len() <= final(sets)@.len(),
        forall|n: int| 0 <= n < old(sets)@.len() ==> (#[trigger] final(sets)@[n]) == old(
            sets,
        )@[n],
        sets_sound(final(sets)@, cards@),
        sets_distinct(final(sets)@),
        forall|n: int|
            old(sets)@.len() <= n < final(sets)@.len() ==> (#[trigger] final(sets)@[n]).first
                < old_len && final(sets)@[n].second == p && final(sets)@[n].third == q,
        forall|a: int| #[trigger]
            combo_is_set(cards@, a, p as int, q as int) && a < old_len ==> has_tracked(
                final(sets)@,
                a,
                p as int,
                q as int,
            ),
        forall|i: int, j: int, k: int|
            has_tracked(old(sets)@, i, j, k) ==> #[trigger] has_tracked(final(sets)@, i, j, k),
{
    let ghost sets0 = old(sets)@;
    let mut i: usize = 0;
    while i < old_len
        invariant
            i <= old_len,
            old_len <= p < q < cards@.len(),
            sets0.len() <= sets@.len(),
            forall|n: int| 0 <= n < sets0.len() ==> (#[trigger] sets@[n]) == sets0[n],
            forall|n: int|
                0 <= n < sets0.len() ==> !((#[trigger] sets0[n]).second == p && sets0[n].third
                    == q),
            forall|n: int| 0 <= n < sets0.len() ==> (#[trigger] sets0[n]).first < old_len,
            sets_sound(sets@, cards@),
            sets_distinct(sets@),
            forall|n: int|
                sets0.len() <= n < sets@.len() ==> (#[trigger] sets@[n]).first < i
                    && sets@[n].second == p && sets@[n].third == q,
            forall|a: int| #[trigger]
                combo_is_set(cards@, a, p as int, q as int) && a < i ==> has_tracked(
                    sets@,
                    a,
                    p as int,
                    q as int,
                ),
        decreases old_len - i,
    {
        if is_set(&cards[i], &cards[p], &cards[q]) {
            let t = TrackedSet { first: i, second: p, third: q };
            proof {
                lemma_push_preserves_tracked(sets@, t);
                assert(ts_is(sets@.push(t)[sets@.len() as int], i as int, p as int, q as int));
            }
            sets.push(t);
        }
        i = i + 1;
    }
    proof {
        assert forall|i: int, j: int, k: int|
            has_tracked(sets0, i, j, k) implies #[trigger] has_tracked(sets@, i, j, k) by {
            let n = choose|n: int| 0 <= n < sets0.len() && ts_is(#[trigger] sets0[n], i, j, k);
            assert(sets@[n] == sets0[n]);
        }
    }
}

/// Where position `d` of a hand moves when the positions `a < b < c` are
/// removed: down by one for each removed position below it.
pub open spec fn spec_shift(d: int, a: int, b: int, c: int) -> int {
    d - (if a < d {
        1int
    } else {
        0int
    }) - (if b < d {
        1int
    } else {
        0int
    }) - (if c < d {
        1int
    } else {
        0int
    })
}

/// The position of the contracted hand that came from position
/// `spec_unshift(e, a, b, c)` of the old hand: the inverse of `spec_shift`.
pub open spec fn spec_unshift(e: int, a: int, b: int, c: int) -> int {
    if e < a {
        e
    } else if e + 1 < b {
        e + 1
    } else if e + 2 < c {
        e + 2
    } else {
        e + 3
    }
}

/// The hand after removing positions `a < b < c`, highest first, so that the
/// earlier removals do not disturb the positions still to be removed.
pub open spec fn remove3(cards: Seq<Card>, a: int, b: int, c: int) -> Seq<Card> {
    cards.remove(c).remove(b).remove(a)
}

/// The records `t` and `r` share no hand position.
pub open spec fn disjoint_ts(t: TrackedSet, r: TrackedSet) -> bool {
    &&& t.first != r.first && t.first != r.second && t.first != r.third
    &&& t.second != r.first && t.second != r.second && t.second != r.third
    &&& t.third != r.first && t.third != r.second && t.third != r.third
}

/// `t_new` is `t_old` with every position re-indexed for the removal of
/// `r`'s three positions.
pub open spec fn reindexed(t_old: TrackedSet, t_new: TrackedSet, r: TrackedSet) -> bool {
    &&& t_new.first as int == spec_shift(
        t_old.first as int,
        r.first as int,
        r.second as int,
        r.third as int,
    )
    &&& t_new.second as int == spec_shift(
        t_old.second as int,
        r.first as int,
        r.second as int,
        r.third as int,
    )
    &&& t_new.third as int == spec_shift(
        t_old.third as int,
        r.first as int,
        r.second as int,
        r.third as int,
    )
}

/// `t_new` is the re-indexed image of some record of `olds` that shares no
/// position with the removed record `r`.
pub open spec fn came_from(olds: Seq<TrackedSet>, t_new: TrackedSet, r: TrackedSet) -> bool {
    exists|m: int|
        0 <= m < olds.len() && disjoint_ts(#[trigger] olds[m], r) && reindexed(olds[m], t_new, r)
}

/// Considering more source records never invalidates a `came_from` fact.
proof fn lemma_came_from_grow(s: Seq<TrackedSet>, n1: int, n2: int, r: TrackedSet)
    requires
        0 <= n1 <= n2 <= s.len(),
    ensures
        forall|t: TrackedSet|
            came_from(s.take(n1), t, r) ==> #[trigger] came_from(s.take(n2), t, r),
{
    assert forall|t: TrackedSet|
        came_from(s.take(n1), t, r) implies #[trigger] came_from(s.take(n2), t, r) by {
        let m = choose|m: int|
            0 <= m < s.take(n1).len() && disjoint_ts(#[trigger] s.take(n1)[m], r) && reindexed(
                s.take(n1)[m],
                t,
                r,
            );
        assert(s.take(n2)[m] == s.take(n1)[m]);
        assert(disjoint_ts(s.take(n2)[m], r) && reindexed(s.take(n2)[m], t, r));
    }
}

/// Shifting preserves the order of surviving positions.
proof fn lemma_shift_monotone(d1: int, d2: int, a: int, b: int, c: int)
    requires
        a < b < c,
        d1 < d2,
        d1 != a && d1 != b && d1 != c,
        d2 != a && d2 != b && d2 != c,
    ensures
        spec_shift(d1, a, b, c) < spec_shift(d2, a, b, c),
{
}

/// Two different surviving positions shift to different positions.
proof fn lemma_shift_injective(d1: int, d2: int, a: int, b: int, c: int)
    requires
        a < b < c,
        d1 != d2,
        d1 != a && d1 != b && d1 != c,
        d2 != a && d2 != b && d2 != c,
    ensures
        spec_shift(d1, a, b, c) != spec_shift(d2, a, b, c),
{
    if d1 < d2 {
        lemma_shift_monotone(d1, d2, a, b, c);
    } else {
        lemma_shift_monotone(d2, d1, a, b, c);
    }
}

/// After removing positions `a < b < c`, a surviving position `d` holds the
/// card it held before, at its shifted index.
pub proof fn lemma_remove3_index(cards: Seq<Card>, a: int, b: int, c: int, d: int)
    requires
        0 <= a < b,
        b < c < cards.len(),
        0 <= d < cards.len(),
        d != a && d != b && d != c,
    ensures
        remove3(cards, a, b, c).len() == cards.len() - 3,
        0 <= spec_shift(d, a, b, c) < cards.len() - 3,
        remove3(cards, a, b, c)[spec_shift(d, a, b, c)] == cards[d],
{
    let s1 = cards.remove(c);
    let s2 = s1.remove(b);
    cards.remove_ensures(c);
    s1.remove_ensures(b);
    s2.remove_ensures(a);
}

/// `spec_unshift` inverts `spec_shift`: every position of the contracted
/// hand came from exactly one surviving position of the old hand.
proof fn lemma_unshift(e: int, a: int, b: int, c: int, len: int)
    requires
        0 <= a < b,
        b < c < len,
        0 <= e < len - 3,
    ensures
        0 <= spec_unshift(e, a, b, c) < len,
        spec_unshift(e, a, b, c) != a,
        spec_unshift(e, a, b, c) != b,
        spec_unshift(e, a, b, c) != c,
        spec_shift(spec_unshift(e, a, b, c), a, b, c) == e,
{
}

/// Law: re-indexing preserves which cards a surviving record references.
/// After a removal, each surviving record's positions hold, in the
/// contracted hand, exactly the cards its original positions held.
pub proof fn lemma_reindex_preserves_cards(
    cards: Seq<Card>,
    r: TrackedSet,
    t_old: TrackedSet,
    t_new: TrackedSet,
)
    requires
        ts_valid(r, cards),
        ts_valid(t_old, cards),
        disjoint_ts(t_old, r),
        reindexed(t_old, t_new, r),
    ensures
        remove3(cards, r.first as int, r.second as int, r.third as int)[t_new.first as int]
            == cards[t_old.first as int],
        remove3(cards, r.first as int, r.second as int, r.third as int)[t_new.second as int]
            == cards[t_old.second as int],
        remove3(cards, r.first as int, r.second as int, r.third as int)[t_new.third as int]
            == cards[t_old.third as int],
{
    let a = r.first as int;
    let b = r.second as int;
    let c = r.third as int;
    lemma_remove3_index(cards, a, b, c, t_old.first as int);
    lemma_remove3_index(cards, a, b, c, t_old.second as int);
    lemma_remove3_index(cards, a, b, c, t_old.third as int);
}

/// Relies on rand::random_range over `0..n`: returns a uniformly chosen
/// index below `n`. The range is non-empty by the precondition, so the call
/// cannot panic.
#[verifier::external_body]
fn random_below(n: usize) -> (r: usize)
    requires
        n > 0,
    ensures
        r < n,
{
    rand::random_range(0..n)
}

/// Where position `d` moves when the three positions of `r` are removed.
fn shift_index(d: usize, r: TrackedSet) -> (s: usize)
    requires
        r.first < r.second,
        r.second < r.third,
        d != r.first && d != r.second && d != r.third,
    ensures
        s as int == spec_shift(d as int, r.first as int, r.second as int, r.third as int),
{
    let mut s = d;
    if r.first < d {
        s = s - 1;
    }
    if r.second < d {
        s = s - 1;
    }
    if r.third < d {
        s = s - 1;
    }
    s
}

/// The cards currently in play, with every valid set among them tracked.
pub struct Hand {
    cards: Vec<Card>,
    sets: Vec<TrackedSet>,
}

impl Hand {
    /// The cards in play, in hand-position order.
    pub closed spec fn cards(self) -> Seq<Card> {
        self.cards@
    }

    /// The tracked set records.
    pub closed spec fn sets(self) -> Seq<TrackedSet> {
        self.sets@
    }

    /// The engine's invariant: the tracked list holds exactly the valid sets
    /// of the hand, each once.
    pub open spec fn wf(self) -> bool {
        &&& sets_sound(self.sets(), self.cards())
        &&& sets_complete(self.sets(), self.cards())
        &&& sets_distinct(self.sets())
    }

    /// Creates a hand by dealing 12 cards off the top of the deck, then
    /// scanning the whole initial hand for sets.
    pub fn new(deck: &mut Vec<Card>) -> (hand: Self)
        requires
            old(deck)@.len() >= 12,
        ensures
            final(deck)@ == old(deck)@.take(old(deck)@.len() - 12),
            hand.cards().len() == 12,
            forall|m: int| 0 <= m < 12 ==> hand.cards()[m] == old(deck)@[old(deck)@.len() - 1
                - m],
            hand.wf(),
    {
        let mut cards: Vec<Card> = Vec::new();
        let mut n: usize = 0;
        while n < 12
            invariant
                n <= 12,
                old(deck)@.len() >= 12,
                cards@.len() == n,
                deck@ == old(deck)@.take(old(deck)@.len() - n),
                forall|m: int| 0 <= m < n ==> cards@[m] == old(deck)@[old(deck)@.len() - 1 - m],
            decreases 12 - n,
        {
            let c = match deck.pop() {
                Some(c) => c,
                None => {
                    proof {
                        assert(deck@.len() > 0);
                    }
                    unreached()
                },
            };
            cards.push(c);
            n = n + 1;
            proof {
                assert(deck@ =~= old(deck)@.take(old(deck)@.len() - n));
            }
        }
        let sets = find_all_sets(&cards);
        Hand { cards, sets }
    }

    /// Finds all the sets in the hand that contain any of the three cards
    /// just dealt, without rescanning combinations of old cards. Three
    /// disjoint sub-scans cover every shape a new set can have: one new card
    /// with an old pair, two new cards with an old card, and the all-new
    /// triple itself.
    pub fn find_new_sets(&mut self, x: Card, y: Card, z: Card)
        requires
            old(self).wf(),
            old(self).cards().len() + 3 <= 81,
        ensures
            final(self).cards() == old(self).cards() + seq![x, y, z],
            final(self).wf(),
            old(self).sets().is_prefix_of(final(self).sets()),
            forall|n: int|
                old(self).sets().len() <= n < final(self).sets().len() ==> (
                #[trigger] final(self).sets()[n]).third as int >= old(self).cards().len(),
    {
        let old_len = self.cards.len();
        let ghost sets0 = old(self).sets();
        let ghost full = old(self).cards() + seq![x, y, z];
        let ghost ol = old_len as int;
        self.cards.push(x);
        self.cards.push(y);
        self.cards.push(z);
        proof {
            assert(self.cards@ =~= full);
            // old records stay valid in the grown hand, and old combinations
            // stay covered
            assert forall|n: int| 0 <= n < self.sets@.len() implies ts_valid(
                #[trigger] self.sets@[n],
                full,
            ) by {
                assert(ts_valid(self.sets@[n], old(self).cards()));
            }
            assert forall|a: int, b: int, c: int| #[trigger]
                combo_is_set(full, a, b, c) && c < ol implies has_tracked(
                self.sets@,
                a,
                b,
                c,
            ) by {
                assert(combo_is_set(old(self).cards(), a, b, c));
            }
            assert forall|n: int| 0 <= n < sets0.len() implies (#[trigger] sets0[n]).third
                < ol by {
                assert(ts_valid(sets0[n], old(self).cards()));
            }
        }
        /* searches for sets that have exactly one of the new cards */
        let mut d = old_len;
        while d < old_len + 3
            invariant
                old_len <= d <= old_len + 3,
                ol == old_len,
                old_len + 3 <= 81,
                self.cards@ == full,
                full.len() == old_len + 3,
                sets0.len() <= self.sets@.len(),
                forall|n: int| 0 <= n < sets0.len() ==> (#[trigger] self.sets@[n]) == sets0[n],
                forall|n: int| 0 <= n < sets0.len() ==> (#[trigger] sets0[n]).third < ol,
                sets_sound(self.sets@, full),
                sets_distinct(self.sets@),
                forall|n: int|
                    sets0.len() <= n < self.sets@.len() ==> (#[trigger] self.sets@[n]).second
                        < old_len && old_len <= self.sets@[n].third < d,
                forall|a: int, b: int, c: int| #[trigger]
                    combo_is_set(full, a, b, c) && c < ol ==> has_tracked(self.sets@, a, b, c),
                forall|a: int, b: int, c: int| #[trigger]
                    combo_is_set(full, a, b, c) && b < ol <= c && c < d ==> has_tracked(
                        self.sets@,
                        a,
                        b,
                        c,
                    ),
            decreases old_len + 3 - d,
        {
            let mut i: usize = 0;
            while i < old_len
                invariant
                    i <= old_len,
                    old_len <= d < old_len + 3,
                    ol == old_len,
                    old_len + 3 <= 81,
                    self.cards@ == full,
                    full.len() == old_len + 3,
                    sets0.len() <= self.sets@.len(),
                    forall|n: int| 0 <= n < sets0.len() ==> (#[trigger] self.sets@[n]) == sets0[n],
                    forall|n: int| 0 <= n < sets0.len() ==> (#[trigger] sets0[n]).third < ol,
                    sets_sound(self.sets@, full),
                    sets_distinct(self.sets@),
                    forall|n: int|
                        sets0.len() <= n < self.sets@.len() ==> (#[trigger] self.sets@[n]).second
                            < old_len && old_len <= self.sets@[n].third <= d,
                    forall|n: int|
                        sets0.len() <= n < self.sets@.len() && (#[trigger] self.sets@[n]).third
                            == d ==> self.sets@[n].first < i,
                    forall|a: int, b: int, c: int| #[trigger]
                        combo_is_set(full, a, b, c) && c < ol ==> has_tracked(
                            self.sets@,
                            a,
                            b,
                            c,
                        ),
                    forall|a: int, b: int, c: int| #[trigger]
                        combo_is_set(full, a, b, c) && b < ol <= c && (c < d || (c == d && a
                            < i)) ==> has_tracked(self.sets@, a, b, c),
                decreases old_len - i,
            {
                let mut j: usize = i + 1;
                while j < old_len
                    invariant
                        i < j <= old_len,
                        old_len <= d < old_len + 3,
                        ol == old_len,
                        old_len + 3 <= 81,
                        self.cards@ == full,
                        full.len() == old_len + 3,
                        sets0.len() <= self.sets@.len(),
                        forall|n: int| 0 <= n < sets0.len() ==> (#[trigger] self.sets@[n]) == sets0[n],
                        forall|n: int| 0 <= n < sets0.len() ==> (#[trigger] sets0[n]).third < ol,
                        sets_sound(self.sets@, full),
                        sets_distinct(self.sets@),
                        forall|n: int|
                            sets0.len() <= n < self.sets@.len() ==> (
                            #[trigger] self.sets@[n]).second < old_len && old_len
                                <= self.sets@[n].third <= d,
                        forall|n: int|
                            sets0.len() <= n < self.sets@.len() && (#[trigger] self.sets@[n]).third
                                == d ==> self.sets@[n].first < i || (self.sets@[n].first == i
                                && self.sets@[n].second < j),
                        forall|a: int, b: int, c: int| #[trigger]
                            combo_is_set(full, a, b, c) && c < ol ==> has_tracked(
                                self.sets@,
                                a,
                                b,
                                c,
                            ),
                        forall|a: int, b: int, c: int| #[trigger]
                            combo_is_set(full, a, b, c) && b < ol <= c && (c < d || (c == d && (a
                                < i || (a == i && b < j)))) ==> has_tracked(
                                self.sets@,
                                a,
                                b,
                                c,
                            ),
                    decreases old_len - j,
                {
                    if is_set(&self.cards[i], &self.cards[j], &self.cards[d]) {
                        let t = TrackedSet { first: i, second: j, third: d };
                        proof {
                            lemma_push_preserves_tracked(self.sets@, t);
                            assert(ts_is(
                                self.sets@.push(t)[self.sets@.len() as int],
                                i as int,
                                j as int,
                                d as int,
                            ));
                        }
                        self.sets.push(t);
                    }
                    j = j + 1;
                }
                i = i + 1;
            }
            d = d + 1;
        }
        /* searches for sets that have two of the new cards */
        let ghost s1 = self.sets@;
        proof {
            assert forall|n: int| 0 <= n < s1.len() implies (#[trigger] s1[n]).first < old_len && (
            s1[n].second < old_len || s1[n].third < old_len) by {
                if n < sets0.len() {
                    assert(s1[n] == sets0[n]);
                    assert(ts_valid(s1[n], full));
                } else {
                    assert(ts_valid(s1[n], full));
                }
            }
        }
        scan_pair(&self.cards, &mut self.sets, old_len, old_len, old_len + 1);
        let ghost s2 = self.sets@;
        proof {
            assert forall|n: int| 0 <= n < s2.len() implies (#[trigger] s2[n]).first < old_len && (
            s2[n].second < old_len || s2[n].third < old_len || (s2[n].second == old_len
                && s2[n].third == old_len + 1)) by {
                if n < s1.len() {
                    assert(s2[n] == s1[n]);
                }
            }
            assert forall|a: int, b: int, c: int| #[trigger]
                combo_is_set(full, a, b, c) && (c < ol || b < ol) implies has_tracked(
                s2,
                a,
                b,
                c,
            ) by {
                assert(has_tracked(s1, a, b, c));
            }
        }
        scan_pair(&self.cards, &mut self.sets, old_len, old_len, old_len + 2);
        let ghost s3 = self.sets@;
        proof {
            assert forall|n: int| 0 <= n < s3.len() implies (#[trigger] s3[n]).first < old_len && (
            s3[n].second < old_len || s3[n].third < old_len || s3[n].second == old_len) by {
                if n < s2.len() {
                    assert(s3[n] == s2[n]);
                }
            }
            assert forall|a: int, b: int, c: int| #[trigger]
                combo_is_set(full, a, b, c) && (c < ol || b < ol || (b == ol && c == ol
                    + 1)) implies has_tracked(s3, a, b, c) by {
                assert(has_tracked(s2, a, b, c));
            }
        }
        scan_pair(&self.cards, &mut self.sets, old_len, old_len + 1, old_len + 2);
        let ghost s4 = self.sets@;
        proof {
            assert forall|n: int| 0 <= n < s4.len() implies (#[trigger] s4[n]).first
                < old_len by {
                if n < s3.len() {
                    assert(s4[n] == s3[n]);
                }
            }
            assert forall|a: int, b: int, c: int| #[trigger]
                combo_is_set(full, a, b, c) && (c < ol || b < ol || (b == ol && (c == ol + 1 || c
                    == ol + 2))) implies has_tracked(s4, a, b, c) by {
                assert(has_tracked(s3, a, b, c));
            }
        }
        /* do the three new cards make a set? */
        if is_set(&self.cards[old_len], &self.cards[old_len + 1], &self.cards[old_len + 2]) {
            let t = TrackedSet { first: old_len, second: old_len + 1, third: old_len + 2 };
            proof {
                lemma_push_preserves_tracked(self.sets@, t);
                assert(ts_is(self.sets@.push(t)[self.sets@.len() as int], ol, ol + 1, ol + 2));
                assert(forall|n: int|
                    0 <= n < s4.len() ==> (#[trigger] s4[n]).first < old_len && s4[n] != t);
            }
            self.sets.push(t);
        }
        proof {
            let fin = self.sets@;
            assert forall|a: int, b: int, c: int| #[trigger]
                combo_is_set(full, a, b, c) && (c < ol || b < ol || (b == ol && (c == ol + 1 || c
                    == ol + 2)) || (b == ol + 1 && c == ol + 2 && a < ol)) implies has_tracked(
                fin,
                a,
                b,
                c,
            ) by {
                assert(has_tracked(s4, a, b, c));
            }
            assert forall|a: int, b: int, c: int| #[trigger]
                combo_is_set(full, a, b, c) implies has_tracked(fin, a, b, c) by {
                if c < ol || b < ol || a < ol {
                    assert(a < b && b < c && c < ol + 3);
                } else {
                    assert(a == ol && b == ol + 1 && c == ol + 2);
                }
            }
            assert forall|n: int|
                sets0.len() <= n < fin.len() implies (#[trigger] fin[n]).third as int >= ol by {
                if n < s4.len() {
                    assert(fin[n] == s4[n]);
                    if n < s3.len() {
                        assert(s4[n] == s3[n]);
                        if n < s2.len() {
                            assert(s3[n] == s2[n]);
                            if n < s1.len() {
                                assert(s2[n] == s1[n]);
                            }
                        }
                    }
                }
            }
            assert forall|n: int| 0 <= n < sets0.len() implies fin[n] == sets0[n] by {
                assert(fin[n] == s4[n] && s4[n] == s3[n] && s3[n] == s2[n] && s2[n] == s1[n]
                    && s1[n] == sets0[n]);
            }
            assert(sets0 =~= fin.subrange(0, sets0.len() as int));
            assert(self.cards@ =~= old(self).cards() + seq![x, y, z]);
        }
    }

    /// Removes the tracked set at `index` from the hand: drops every record
    /// that shares a position with it (those cards are leaving, so any set
    /// referencing them is now invalid), re-indexes each surviving record by
    /// how many removed positions stood below each of its own, and takes the
    /// three cards out of the hand in descending position order. Returns the
    /// removed record with its original, pre-shift positions.
    pub fn rm_set_at(&mut self, index: usize) -> (removed: TrackedSet)
        requires
            old(self).wf(),
            index < old(self).sets().len(),
        ensures
            removed == old(self).sets()[index as int],
            final(self).cards() == remove3(
                old(self).cards(),
                removed.first as int,
                removed.second as int,
                removed.third as int,
            ),
            final(self).cards().len() + 3 == old(self).cards().len(),
            final(self).wf(),
            forall|m: int|
                0 <= m < old(self).sets().len() && disjoint_ts(
                    #[trigger] old(self).sets()[m],
                    removed,
                ) ==> exists|n: int|
                    0 <= n < final(self).sets().len() && reindexed(
                        old(self).sets()[m],
                        #[trigger] final(self).sets()[n],
                        removed,
                    ),
            forall|n: int|
                0 <= n < final(self).sets().len() ==> came_from(
                    old(self).sets(),
                    #[trigger] final(self).sets()[n],
                    removed,
                ),
    {
        let ghost cards0 = self.cards@;
        let ghost sets0 = self.sets@;
        let removed = self.sets[index];
        let ghost a = removed.first as int;
        let ghost b = removed.second as int;
        let ghost c = removed.third as int;
        proof {
            assert(ts_valid(sets0[index as int], cards0));
        }
        /* keep only the records disjoint from the removed one, re-indexed */
        let mut kept: Vec<TrackedSet> = Vec::new();
        let mut n: usize = 0;
        while n < self.sets.len()
            invariant
                n <= self.sets@.len(),
                self.sets@ == sets0,
                self.cards@ == cards0,
                index < sets0.len(),
                removed == sets0[index as int],
                a == removed.first && b == removed.second && c == removed.third,
                0 <= a < b < c < cards0.len(),
                sets_sound(sets0, cards0),
                sets_distinct(sets0),
                sets_distinct(kept@),
                forall|m: int|
                    0 <= m < n && disjoint_ts(#[trigger] sets0[m], removed) ==> exists|nn: int|
                        0 <= nn < kept@.len() && reindexed(sets0[m], #[trigger] kept@[nn], removed),
                forall|nn: int|
                    0 <= nn < kept@.len() ==> came_from(
                        sets0.take(n as int),
                        #[trigger] kept@[nn],
                        removed,
                    ),
            decreases self.sets@.len() - n,
        {
            let t = self.sets[n];
            if t.first != removed.first && t.first != removed.second && t.first != removed.third
                && t.second != removed.first && t.second != removed.second && t.second
                != removed.third && t.third != removed.first && t.third != removed.second
                && t.third != removed.third {
                proof {
                    assert(ts_valid(sets0[n as int], cards0));
                }
                let t2 = TrackedSet {
                    first: shift_index(t.first, removed),
                    second: shift_index(t.second, removed),
                    third: shift_index(t.third, removed),
                };
                proof {
                    let prev = kept@;
                    let pre = sets0.take(n as int);
                    let post = sets0.take(n as int + 1);
                    assert(reindexed(t, t2, removed));
                    /* t2 differs from every record already kept: their
                    sources are earlier records, and shifting distinct
                    surviving positions keeps them distinct */
                    assert forall|nn: int| 0 <= nn < prev.len() implies #[trigger] prev[nn]
                        != t2 by {
                        assert(came_from(pre, prev[nn], removed));
                        let m = choose|m: int|
                            0 <= m < pre.len() && disjoint_ts(#[trigger] pre[m], removed)
                                && reindexed(pre[m], prev[nn], removed);
                        assert(pre[m] == sets0[m]);
                        assert(sets0[m] != sets0[n as int]);
                        if sets0[m].first != t.first {
                            lemma_shift_injective(sets0[m].first as int, t.first as int, a, b, c);
                        } else if sets0[m].second != t.second {
                            lemma_shift_injective(sets0[m].second as int, t.second as int, a, b, c);
                        } else {
                            lemma_shift_injective(sets0[m].third as int, t.third as int, a, b, c);
                        }
                    }
                    assert forall|m: int|
                        0 <= m < n + 1 && disjoint_ts(#[trigger] sets0[m], removed) implies exists|
                        nn: int,
                    |
                        0 <= nn < prev.push(t2).len() && reindexed(
                            sets0[m],
                            #[trigger] prev.push(t2)[nn],
                            removed,
                        ) by {
                        if m < n {
                            let nn = choose|nn: int|
                                0 <= nn < prev.len() && reindexed(
                                    sets0[m],
                                    #[trigger] prev[nn],
                                    removed,
                                );
                            assert(prev.push(t2)[nn] == prev[nn]);
                        } else {
                            assert(prev.push(t2)[prev.len() as int] == t2);
                        }
                    }
                    lemma_came_from_grow(sets0, n as int, n as int + 1, removed);
                    assert forall|nn: int| 0 <= nn < prev.push(t2).len() implies came_from(
                        post,
                        #[trigger] prev.push(t2)[nn],
                        removed,
                    ) by {
                        if nn < prev.len() {
                            assert(prev.push(t2)[nn] == prev[nn]);
                            assert(came_from(pre, prev[nn], removed));
                        } else {
                            assert(prev.push(t2)[nn] == t2);
                            assert(post[n as int] == sets0[n as int]);
                            assert(disjoint_ts(post[n as int], removed) && reindexed(
                                post[n as int],
                                t2,
                                removed,
                            ));
                        }
                    }
                }
                kept.push(t2);
            } else {
                proof {
                    assert(!disjoint_ts(sets0[n as int], removed));
                    lemma_came_from_grow(sets0, n as int, n as int + 1, removed);
                }
            }
            n = n + 1;
        }
        /* the cards leave the hand highest position first */
        self.sets = kept;
        self.cards.remove(removed.third);
        self.cards.remove(removed.second);
        self.cards.remove(removed.first);
        proof {
            let fin = self.cards@;
            let ks = self.sets@;
            assert(fin == remove3(cards0, a, b, c));
            assert(cards0.remove(c).len() == cards0.len() - 1);
            assert(cards0.remove(c).remove(b).len() == cards0.len() - 2);
            assert(fin.len() + 3 == cards0.len());
            assert(sets0.take(sets0.len() as int) =~= sets0);
            /* the survivors are valid sets of the contracted hand */
            assert forall|nn: int| 0 <= nn < ks.len() implies ts_valid(
                #[trigger] ks[nn],
                fin,
            ) by {
                assert(came_from(sets0, ks[nn], removed));
                let m = choose|m: int|
                    0 <= m < sets0.len() && disjoint_ts(#[trigger] sets0[m], removed) && reindexed(
                        sets0[m],
                        ks[nn],
                        removed,
                    );
                let t = sets0[m];
                assert(ts_valid(t, cards0));
                lemma_remove3_index(cards0, a, b, c, t.first as int);
                lemma_remove3_index(cards0, a, b, c, t.second as int);
                lemma_remove3_index(cards0, a, b, c, t.third as int);
                lemma_shift_monotone(t.first as int, t.second as int, a, b, c);
                lemma_shift_monotone(t.second as int, t.third as int, a, b, c);
            }
            /* every valid set of the contracted hand is still tracked */
            assert forall|i: int, j: int, k: int| #[trigger]
                combo_is_set(fin, i, j, k) implies has_tracked(ks, i, j, k) by {
                let di = spec_unshift(i, a, b, c);
                let dj = spec_unshift(j, a, b, c);
                let dk = spec_unshift(k, a, b, c);
                lemma_unshift(i, a, b, c, cards0.len() as int);
                lemma_unshift(j, a, b, c, cards0.len() as int);
                lemma_unshift(k, a, b, c, cards0.len() as int);
                lemma_remove3_index(cards0, a, b, c, di);
                lemma_remove3_index(cards0, a, b, c, dj);
                lemma_remove3_index(cards0, a, b, c, dk);
                if dj < di {
                    lemma_shift_monotone(dj, di, a, b, c);
                }
                if dk < dj {
                    lemma_shift_monotone(dk, dj, a, b, c);
                }
                if di == dj || dj == dk {
                    assert(i == j || j == k);
                }
                assert(combo_is_set(cards0, di, dj, dk));
                assert(has_tracked(sets0, di, dj, dk));
                let m = choose|m: int|
                    0 <= m < sets0.len() && ts_is(#[trigger] sets0[m], di, dj, dk);
                assert(disjoint_ts(sets0[m], removed));
                let nn = choose|nn: int|
                    0 <= nn < ks.len() && reindexed(sets0[m], #[trigger] ks[nn], removed);
                assert(ts_is(ks[nn], i, j, k));
            }
        }
        removed
    }

    /// Removes a tracked set chosen uniformly at random. Whatever index the
    /// chooser returns, the removal behaves as `rm_set_at` on that index.
    pub fn rm_set(&mut self) -> (removed: TrackedSet)
        requires
            old(self).wf(),
            old(self).sets().len() > 0,
        ensures
            exists|idx: int|
                0 <= idx < old(self).sets().len() && removed == #[trigger] old(self).sets()[idx],
            final(self).cards() == remove3(
                old(self).cards(),
                removed.first as int,
                removed.second as int,
                removed.third as int,
            ),
            final(self).cards().len() + 3 == old(self).cards().len(),
            final(self).wf(),
            forall|m: int|
                0 <= m < old(self).sets().len() && disjoint_ts(
                    #[trigger] old(self).sets()[m],
                    removed,
                ) ==> exists|n: int|
                    0 <= n < final(self).sets().len() && reindexed(
                        old(self).sets()[m],
                        #[trigger] final(self).sets()[n],
                        removed,
                    ),
            forall|n: int|
                0 <= n < final(self).sets().len() ==> came_from(
                    old(self).sets(),
                    #[trigger] final(self).sets()[n],
                    removed,
                ),
    {
        let index = random_below(self.sets.len());
        self.rm_set_at(index)
    }

    /// How many sets are currently tracked.
    pub fn num_sets(&self) -> (n: usize)
        ensures
            n == self.sets().len(),
    {
        self.sets.len()
    }

    /// How many cards are currently in play.
    pub fn size(&self) -> (n: usize)
        ensures
            n == self.cards().len(),
    {
        self.cards.len()
    }

    /// The cards in play, for inspection.
    pub fn cards_list(&self) -> (r: &Vec<Card>)
        ensures
            r@ == self.cards(),
    {
        &self.cards
    }

    /// The tracked set records, for inspection.
    pub fn tracked_sets(&self) -> (r: &Vec<TrackedSet>)
        ensures
            r@ == self.sets(),
    {
        &self.sets
    }
}

/// Law: completeness of incremental discovery. However a hand was reached —
/// any sequence of deals and removals after the initial scan — its tracked
/// list names exactly the combinations that a fresh full scan of the current
/// hand finds: the same memberships, regardless of order.
pub proof fn lemma_tracked_equals_full_scan(h: Hand, scan: Seq<TrackedSet>)
    requires
        h.wf(),
        sets_sound(scan, h.cards()),
        sets_complete(scan, h.cards()),
    ensures
        forall|i: int, j: int, k: int|
            has_tracked(h.sets(), i, j, k) <==> #[trigger] has_tracked(scan, i, j, k),
{
    assert forall|i: int, j: int, k: int|
        has_tracked(h.sets(), i, j, k) <==> #[trigger] has_tracked(scan, i, j, k) by {
        if has_tracked(h.sets(), i, j, k) {
            let n = choose|n: int| 0 <= n < h.sets().len() && ts_is(#[trigger] h.sets()[n], i, j, k);
            assert(ts_valid(h.sets()[n], h.cards()));
            assert(combo_is_set(h.cards(), i, j, k));
        }
        if has_tracked(scan, i, j, k) {
            let n = choose|n: int| 0 <= n < scan.len() && ts_is(#[trigger] scan[n], i, j, k);
            assert(ts_valid(scan[n], h.cards()));
            assert(combo_is_set(h.cards(), i, j, k));
        }
    }
}

/// Law: the tracked-set count is a function of the hand alone. Any two
/// lists that are sound, complete and free of repeats over the same cards
/// have the same length, so the count a snapshot records does not depend on
/// the history of deals and removals that built the engine's list.
pub proof fn lemma_set_count_well_defined(
    s1: Seq<TrackedSet>,
    s2: Seq<TrackedSet>,
    cards: Seq<Card>,
)
    requires
        sets_sound(s1, cards),
        sets_complete(s1, cards),
        sets_distinct(s1),
        sets_sound(s2, cards),
        sets_complete(s2, cards),
        sets_distinct(s2),
    ensures
        s1.len() == s2.len(),
{
    let valid = Set::new(|t: TrackedSet| ts_valid(t, cards));
    lemma_wf_list_covers_valid(s1, cards, valid);
    lemma_wf_list_covers_valid(s2, cards, valid);
    s1.unique_seq_to_set();
    s2.unique_seq_to_set();
}

/// A sound, complete, repeat-free list holds, as a set, exactly the valid
/// records of the hand.
proof fn lemma_wf_list_covers_valid(s: Seq<TrackedSet>, cards: Seq<Card>, valid: Set<TrackedSet>)
    requires
        sets_sound(s, cards),
        sets_complete(s, cards),
        sets_distinct(s),
        valid == Set::new(|t: TrackedSet| ts_valid(t, cards)),
    ensures
        s.to_set() == valid,
        s.no_duplicates(),
{
    assert forall|t: TrackedSet| s.to_set().contains(t) implies valid.contains(t) by {
        let n = choose|n: int| 0 <= n < s.len() && s[n] == t;
        assert(ts_valid(s[n], cards));
    }
    assert forall|t: TrackedSet| valid.contains(t) implies s.to_set().contains(t) by {
        assert(ts_valid(t, cards));
        assert(combo_is_set(cards, t.first as int, t.second as int, t.third as int));
        assert(has_tracked(s, t.first as int, t.second as int, t.third as int));
        let n = choose|n: int|
            0 <= n < s.len() && ts_is(
                #[trigger] s[n],
                t.first as int,
                t.second as int,
                t.third as int,
            );
        assert(s[n] == t);
        assert(s.contains(t));
    }
    assert(s.to_set() =~= valid);
}

/// The policy that picks which tracked set to remove.
pub enum Chooser {
    /// Pick uniformly at random among the tracked sets.
    Random,
    /// Always pick the first tracked set; useful for reproducible games.
    First,
}

impl Chooser {
    /// Picks one of `n` candidates.
    pub fn pick(&self, n: usize) -> (r: usize)
        requires
            n > 0,
        ensures
            r < n,
            *self is First ==> r == 0,
    {
        match self {
            Chooser::Random => random_below(n),
            Chooser::First => 0,
        }
    }
}

/// How snapshot `q` may follow snapshot `p` in a recorded game: if no set
/// was known a deal happened; otherwise a set was removed, and a deal
/// followed at once when the removal left the hand short of 12 cards.
pub open spec fn step_follows(p: Info, q: Info) -> bool {
    if p.set_count == 0 {
        q.deals == p.deals + 1 && q.hand_size == p.hand_size + 3 && q.hand_type
            == HandType::Ascending
    } else if p.hand_size < 15 {
        q.deals == p.deals + 1 && q.hand_size == p.hand_size && q.hand_type
            == HandType::Ascending
    } else {
        q.deals == p.deals && q.hand_size == p.hand_size - 3 && q.hand_type
            == HandType::Descending
    }
}

/// Every consecutive pair of snapshots is a legal game step.
pub open spec fn trace_ok(trace: Seq<Info>) -> bool {
    forall|m: int| 0 <= m < trace.len() - 1 ==> step_follows(trace[m], #[trigger] trace[m + 1])
}

/// How many sets were removed over the steps a trace records: one per
/// snapshot that showed at least one tracked set (the last snapshot only
/// describes the final state, so it counts no step).
pub open spec fn removals_in(trace: Seq<Info>) -> int
    decreases trace.len(),
{
    if trace.len() <= 1 {
        0
    } else {
        removals_in(trace.drop_last()) + if trace[trace.len() - 2].set_count > 0 {
            1int
        } else {
            0int
        }
    }
}

/// Law: deck exhaustion accounting. In any legal trace that starts from the
/// initial 12-card deal, the cards dealt so far (12 plus 3 per deal) are
/// exactly the cards still in hand plus 3 for every set removed. At the end
/// of a full game (23 deals) the dealt cards are the whole 81-card deck.
pub proof fn lemma_deck_accounting(trace: Seq<Info>)
    requires
        trace.len() >= 1,
        trace[0].hand_size == 12,
        trace[0].deals == 0,
        trace_ok(trace),
    ensures
        trace.last().hand_size + 3 * removals_in(trace) == 12 + 3 * trace.last().deals,
        trace.last().deals == 23 ==> trace.last().hand_size + 3 * removals_in(trace) == 81,
    decreases trace.len(),
{
    if trace.len() > 1 {
        let prefix = trace.drop_last();
        assert(trace_ok(prefix)) by {
            assert forall|m: int| 0 <= m < prefix.len() - 1 implies step_follows(
                prefix[m],
                #[trigger] prefix[m + 1],
            ) by {
                assert(prefix[m] == trace[m] && prefix[m + 1] == trace[m + 1]);
                assert(step_follows(trace[m], trace[m + 1]));
            }
        }
        lemma_deck_accounting(prefix);
        let m = trace.len() - 2;
        assert(step_follows(trace[m], trace[m + 1]));
        assert(trace[m] == prefix.last() && trace[m + 1] == trace.last());
    }
}

/// The three cards one deal appends to the hand: what pops off an 81-card
/// deck after the initial dozen and `deals` earlier deals, in pop order.
pub open spec fn dealt_cards(deck: Seq<Card>, deals: int) -> Seq<Card> {
    seq![deck[68 - 3 * deals], deck[67 - 3 * deals], deck[66 - 3 * deals]]
}

/// Some sound, complete, repeat-free tracked list of `cards` has length
/// `n`. By `lemma_set_count_well_defined` at most one `n` qualifies, so this
/// pins the set count of a hand.
pub open spec fn is_set_count(cards: Seq<Card>, n: int) -> bool {
    exists|sets: Seq<TrackedSet>|
        #![trigger sets_sound(sets, cards)]
        sets_sound(sets, cards) && sets_complete(sets, cards) && sets_distinct(sets) && sets.len()
            == n
}

/// How the hand `h2` arises from `h1` in the step after snapshot `p`: a
/// deal of the next three cards when no set was known, or the removal of
/// some currently valid set, followed at once by the deal when the removal
/// left the hand short of 12 cards.
pub open spec fn hand_step_ok(deck: Seq<Card>, p: Info, h1: Seq<Card>, h2: Seq<Card>) -> bool {
    if p.set_count == 0 {
        h2 == h1 + dealt_cards(deck, p.deals as int)
    } else if p.hand_size < 15 {
        exists|i: int, j: int, k: int| #[trigger]
            combo_is_set(h1, i, j, k) && h2 == remove3(h1, i, j, k) + dealt_cards(
                deck,
                p.deals as int,
            )
    } else {
        exists|i: int, j: int, k: int| #[trigger]
            combo_is_set(h1, i, j, k) && h2 == remove3(h1, i, j, k)
    }
}

/// The hands a recorded trace passed through: one hand per snapshot,
/// starting at the initial dozen dealt off the deck's tail, every step
/// legal, and every snapshot's counters read off its own hand.
pub open spec fn trace_hands_ok(deck: Seq<Card>, hands: Seq<Seq<Card>>, data: Seq<Info>) -> bool {
    &&& hands.len() == data.len()
    &&& data.len() >= 1
    &&& hands[0] == Seq::new(12, |m: int| deck[80 - m])
    &&& forall|m: int| 0 <= m < data.len() ==> (#[trigger] data[m]).hand_size == hands[m].len()
    &&& forall|m: int|
        0 <= m < data.len() ==> is_set_count(#[trigger] hands[m], data[m].set_count as int)
    &&& forall|m: int|
        0 <= m < data.len() - 1 ==> hand_step_ok(deck, data[m], hands[m], #[trigger] hands[m + 1])
}

/// Plays an entire game of Set from a full shuffled deck until the deck is
/// exhausted, finding every set in every hand. One snapshot is recorded per
/// step, before the step mutates anything; the returned trace starts at the
/// freshly dealt 12-card hand and ends after the 23rd and last deal.
pub fn play_game(deck: Vec<Card>, chooser: &Chooser) -> (data: Vec<Info>)
    requires
        deck@.len() == 81,
    ensures
        data@.len() >= 1,
        data@[0].hand_size == 12,
        data@[0].deals == 0,
        data@[0].hand_type == HandType::Ascending,
        data@.last().deals == 23,
        trace_ok(data@),
        exists|hands: Seq<Seq<Card>>| #[trigger] trace_hands_ok(deck@, hands, data@),
{
    let ghost deck0 = deck@;
    let mut deck = deck;
    let mut hand = Hand::new(&mut deck);
    proof {
        assert(hand.cards() =~= Seq::new(12, |m: int| deck0[80 - m]));
        assert(deck@ =~= deck0.take(69));
    }
    let mut deals: usize = 0;
    let mut hand_type = HandType::Ascending;
    let mut data: Vec<Info> = Vec::new();
    let ghost mut hands: Seq<Seq<Card>> = Seq::empty();
    loop
        invariant_except_break
            hand.wf(),
            deals <= 23,
            deck0.len() == 81,
            deck@ == deck0.take(69 - 3 * (deals as int)),
            hand.cards().len() <= 12 + 3 * deals,
            hand.cards().len() >= 3,
            hands.len() == data@.len(),
            data@.len() == 0 ==> deals == 0 && hand_type == HandType::Ascending && hand.cards()
                == Seq::new(12, |m: int| deck0[80 - m]),
            data@.len() > 0 ==> data@[0].hand_size == 12 && data@[0].deals == 0
                && data@[0].hand_type == HandType::Ascending,
            data@.len() > 0 ==> hands[0] == Seq::new(12, |m: int| deck0[80 - m]),
            forall|m: int|
                0 <= m < data@.len() ==> (#[trigger] data@[m]).hand_size == hands[m].len(),
            forall|m: int|
                0 <= m < data@.len() ==> is_set_count(#[trigger] hands[m], data@[m].set_count as int),
            forall|m: int|
                0 <= m < data@.len() - 1 ==> hand_step_ok(
                    deck0,
                    data@[m],
                    hands[m],
                    #[trigger] hands[m + 1],
                ),
            data@.len() > 0 ==> hand_step_ok(deck0, data@.last(), hands.last(), hand.cards()),
            data@.len() > 0 ==> {
                let p = data@.last();
                if p.set_count == 0 {
                    deals == p.deals + 1 && hand.cards().len() == p.hand_size + 3 && hand_type
                        == HandType::Ascending
                } else if p.hand_size < 15 {
                    deals == p.deals + 1 && hand.cards().len() == p.hand_size && hand_type
                        == HandType::Ascending
                } else {
                    deals == p.deals && hand.cards().len() == p.hand_size - 3 && hand_type
                        == HandType::Descending
                }
            },
            trace_ok(data@),
        ensures
            data@.len() >= 1,
            data@[0].hand_size == 12,
            data@[0].deals == 0,
            data@[0].hand_type == HandType::Ascending,
            data@.last().deals == 23,
            trace_ok(data@),
            trace_hands_ok(deck0, hands, data@),
        decreases 23 - deals, hand.cards().len(),
    {
        let set_count = hand.num_sets();
        let hand_size = hand.size();
        let info = Info { set_count, hand_size, deals, hand_type };
        proof {
            lemma_trace_extend(data@, info);
            let prev = hands;
            hands = hands.push(hand.cards());
            assert(is_set_count(hand.cards(), set_count as int)) by {
                assert(sets_sound(hand.sets(), hand.cards()) && sets_complete(
                    hand.sets(),
                    hand.cards(),
                ) && sets_distinct(hand.sets()));
            }
            assert forall|m: int| 0 <= m < prev.len() implies #[trigger] hands[m] == prev[m] by {}
            assert(hands.last() == hand.cards());
        }
        data.push(info);

        // a game of set always deals 3 cards 23 times
        // 12 (start) + 23 (deals) * 3 (cards per deal) = 81 cards
        if deals == 23 {
            break ;
        }
        let ghost snapshot_cards = hand.cards();
        if set_count == 0 {
            proof {
                lemma_take_shrinks(deck0, 69 - 3 * (deals as int));
            }
            deal_three(&mut deck, &mut hand);
            proof {
                assert(hand.cards() =~= snapshot_cards + dealt_cards(deck0, deals as int));
                assert(deck@ =~= deck0.take(69 - 3 * (deals as int + 1)));
            }
            deals = deals + 1;
            hand_type = HandType::Ascending;
        } else {
            let index = chooser.pick(set_count);
            let removed = hand.rm_set_at(index);
            proof {
                assert(combo_is_set(
                    snapshot_cards,
                    removed.first as int,
                    removed.second as int,
                    removed.third as int,
                ));
            }
            if hand.size() < 12 {
                let ghost shrunk = hand.cards();
                proof {
                    lemma_take_shrinks(deck0, 69 - 3 * (deals as int));
                }
                deal_three(&mut deck, &mut hand);
                proof {
                    assert(hand.cards() =~= shrunk + dealt_cards(deck0, deals as int));
                    assert(deck@ =~= deck0.take(69 - 3 * (deals as int + 1)));
                }
                deals = deals + 1;
                hand_type = HandType::Ascending;
            } else {
                hand_type = HandType::Descending;
            }
        }
    }
    proof {
        assert(trace_hands_ok(deck0, hands, data@));
    }
    data
}

/// A non-empty prefix of the deck ends in the same cards the deck does at
/// those positions.
proof fn lemma_take_shrinks(deck: Seq<Card>, n: int)
    requires
        3 <= n <= deck.len(),
    ensures
        deck.take(n).len() == n,
        deck.take(n)[n - 1] == deck[n - 1],
        deck.take(n)[n - 2] == deck[n - 2],
        deck.take(n)[n - 3] == deck[n - 3],
{
}

/// Extending a legal trace with a snapshot keeps it legal provided the new
/// snapshot legally follows the last one.
proof fn lemma_trace_extend(trace: Seq<Info>, info: Info)
    requires
        trace_ok(trace),
        trace.len() > 0 ==> step_follows(trace.last(), info),
    ensures
        trace_ok(trace.push(info)),
{
    let ext = trace.push(info);
    assert forall|m: int| 0 <= m < ext.len() - 1 implies step_follows(
        ext[m],
        #[trigger] ext[m + 1],
    ) by {
        if m < trace.len() - 1 {
            assert(ext[m] == trace[m] && ext[m + 1] == trace[m + 1]);
            assert(step_follows(trace[m], trace[m + 1]));
        } else {
            assert(ext[m] == trace.last() && ext[m + 1] == info);
        }
    }
}

/// Deals the next three cards off the top of the deck into the hand.
fn deal_three(deck: &mut Vec<Card>, hand: &mut Hand)
    requires
        old(deck)@.len() >= 3,
        old(hand).wf(),
        old(hand).cards().len() + 3 <= 81,
    ensures
        final(hand).wf(),
        final(deck)@ == old(deck)@.take(old(deck)@.len() - 3),
        final(deck)@.len() == old(deck)@.len() - 3,
        final(hand).cards() == old(hand).cards() + seq![
            old(deck)@[old(deck)@.len() - 1],
            old(deck)@[old(deck)@.len() - 2],
            old(deck)@[old(deck)@.len() - 3],
        ],
        final(hand).cards().len() == old(hand).cards().len() + 3,
{
    let a = pop_card(deck);
    let b = pop_card(deck);
    let c = pop_card(deck);
    proof {
        assert(deck@ =~= old(deck)@.take(old(deck)@.len() - 3));
    }
    hand.find_new_sets(a, b, c);
}

/// Takes the top card off a deck known to be non-empty.
pub(crate) fn pop_card(deck: &mut Vec<Card>) -> (c: Card)
    requires
        old(deck)@.len() >= 1,
    ensures
        final(deck)@ == old(deck)@.drop_last(),
        c == old(deck)@.last(),
{
    match deck.pop() {
        Some(c) => c,
        None => unreached(),
    }
}

} // verus!
