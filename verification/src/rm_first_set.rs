//! The simpler simulation variant: it plays Set by removing the first set
//! it encounters, and records, for each number of deals and each hand size,
//! how many hands held a set and how many were setless.

use vstd::prelude::*;
use vstd::string::StringExecFns;
use crate::card::{Card, is_set};
use crate::find_all_sets::{combo_is_set, combo_before, dealt_cards, pop_card, remove3};
use crate::text::{spec_digits, spec_parse_u64, spec_split, split_chars, split_on, parse_u64,
    u64_to_string};

verus! {

/// The index of one counter cell: `deals` runs over 0..24, `size` over the
/// three hand sizes 12, 15 and 18, and `kind` over found/setless.
pub open spec fn cell(deals: int, size: int, kind: int) -> int {
    (deals * 3 + size) * 2 + kind
}

/// Index of the found-a-set counters.
pub const SETS: usize = 0;

/// Index of the setless counters.
pub const SETLESS: usize = 1;

/// Index of the counters for 12-card hands.
pub const SIZE12: usize = 0;

/// Index of the counters for 15-card hands.
pub const SIZE15: usize = 1;

/// Index of the counters for 18-card hands.
pub const SIZE18: usize = 2;

/// Reports how many of each hand were encountered in what part of the game:
/// one counter per (deals so far, hand size, set found or not).
pub struct GameResult {
    data: Vec<i64>,
}

impl GameResult {
    /// The flat counter grid: 24 deal counts by 3 hand sizes by 2 outcomes.
    pub closed spec fn data(self) -> Seq<i64> {
        self.data@
    }

    /// The counter for one (deals, size, kind) cell.
    pub open spec fn at(self, deals: int, size: int, kind: int) -> int {
        self.data()[cell(deals, size, kind)] as int
    }

    /// The grid has its full fixed shape and no count is negative.
    pub open spec fn wf(self) -> bool {
        self.data().len() == 144 && forall|m: int| 0 <= m < 144 ==> 0 <= #[trigger] self.data()[m]
    }

    /// Reads the counter for one cell.
    pub fn get(&self, deals: usize, size: usize, kind: usize) -> (v: i64)
        requires
            self.wf(),
            deals < 24,
            size < 3,
            kind < 2,
        ensures
            v == self.at(deals as int, size as int, kind as int),
    {
        self.data[(deals * 3 + size) * 2 + kind]
    }

    /// Adds one to the counter for one cell.
    fn incr(&mut self, deals: usize, size: usize, kind: usize)
        requires
            old(self).wf(),
            deals < 24,
            size < 3,
            kind < 2,
            old(self).at(deals as int, size as int, kind as int) < i64::MAX,
        ensures
            final(self).wf(),
            final(self).data() == old(self).data().update(
                cell(deals as int, size as int, kind as int),
                (old(self).at(deals as int, size as int, kind as int) + 1) as i64,
            ),
    {
        let m = (deals * 3 + size) * 2 + kind;
        let v = self.data[m];
        self.data.set(m, v + 1);
    }

    /// Combines two counter grids into a single one, cell by cell.
    pub fn add(&self, other: &GameResult) -> (sum: GameResult)
        requires
            self.wf(),
            other.wf(),
            forall|m: int|
                0 <= m < 144 ==> #[trigger] self.data()[m] + other.data()[m] <= i64::MAX,
        ensures
            sum.wf(),
            forall|m: int|
                0 <= m < 144 ==> #[trigger] sum.data()[m] == self.data()[m] + other.data()[m],
    {
        let mut data: Vec<i64> = Vec::new();
        let mut m: usize = 0;
        while m < 144
            invariant
                m <= 144,
                self.wf(),
                other.wf(),
                forall|n: int| 0 <= n < 144 ==> #[trigger] self.data()[n] + other.data()[n]
                    <= i64::MAX,
                data@.len() == m,
                forall|n: int|
                    0 <= n < m ==> #[trigger] data@[n] == self.data()[n] + other.data()[n],
            decreases 144 - m,
        {
            data.push(self.data[m] + other.data[m]);
            m = m + 1;
        }
        GameResult { data }
    }
}

/// The default grid holds all zero counts.
impl Default for GameResult {
    fn default() -> (r: Self)
        ensures
            r.wf(),
            forall|m: int| 0 <= m < 144 ==> #[trigger] r.data()[m] == 0,
    {
        let mut data: Vec<i64> = Vec::new();
        let mut m: usize = 0;
        while m < 144
            invariant
                m <= 144,
                data@.len() == m,
                forall|n: int| 0 <= n < m ==> #[trigger] data@[n] == 0,
            decreases 144 - m,
        {
            data.push(0);
            m = m + 1;
        }
        GameResult { data }
    }
}

/// Reports the finding of a single set in a hand.
pub enum SetSearch {
    /// A set was found: the values are positions in the hand of three cards
    /// that complete a set.
    Found(usize, usize, usize),
    /// No set was found.
    NotFound,
}

/// Searches the entire hand and reports the first set in scan order: pairs
/// of smaller positions are tried before larger ones.
pub fn find_set_all(hand: &Vec<Card>) -> (r: SetSearch)
    ensures
        r matches SetSearch::Found(x, y, z) ==> combo_is_set(hand@, x as int, y as int, z as int)
            && (forall|a: int, b: int, c: int| #[trigger]
            combo_is_set(hand@, a, b, c) ==> !combo_before(
                a,
                b,
                c,
                x as int,
                y as int,
                z as int,
            )),
        r is NotFound ==> forall|a: int, b: int, c: int| !combo_is_set(hand@, a, b, c),
{
    let len = hand.len();
    let mut x: usize = 0;
    while x < len
        invariant
            x <= len,
            len == hand@.len(),
            forall|a: int, b: int, c: int| #[trigger]
                combo_is_set(hand@, a, b, c) ==> !combo_before(a, b, c, x as int, 0, 0),
        decreases len - x,
    {
        let mut y: usize = x + 1;
        while y < len
            invariant
                x < y <= len,
                x < len,
                len == hand@.len(),
                forall|a: int, b: int, c: int| #[trigger]
                    combo_is_set(hand@, a, b, c) ==> !combo_before(a, b, c, x as int, y as int, 0),
            decreases len - y,
        {
            let mut z: usize = y + 1;
            while z < len
                invariant
                    x < y < z || z == y + 1,
                    x < y < len,
                    y < z <= len,
                    len == hand@.len(),
                    forall|a: int, b: int, c: int| #[trigger]
                        combo_is_set(hand@, a, b, c) ==> !combo_before(
                            a,
                            b,
                            c,
                            x as int,
                            y as int,
                            z as int,
                        ),
                decreases len - z,
            {
                if is_set(&hand[x], &hand[y], &hand[z]) {
                    return SetSearch::Found(x, y, z);
                }
                z = z + 1;
            }
            y = y + 1;
        }
        x = x + 1;
    }
    SetSearch::NotFound
}

/// Searches only for sets that include at least one of the last three cards
/// of the hand: when everything before them was already known setless, this
/// is as complete as a full scan.
pub fn find_set_part(hand: &Vec<Card>) -> (r: SetSearch)
    requires
        hand@.len() >= 3,
    ensures
        r matches SetSearch::Found(x, y, z) ==> x < hand@.len() && y < hand@.len() && z
            < hand@.len() && x != y && x != z && y != z && crate::card::spec_is_set(
            hand@[x as int],
            hand@[y as int],
            hand@[z as int],
        ) && (x + 3 >= hand@.len() || y + 3 >= hand@.len() || z + 3 >= hand@.len()),
        r is NotFound ==> forall|a: int, b: int, c: int| #[trigger]
            combo_is_set(hand@, a, b, c) ==> c < hand@.len() - 3,
{
    let len = hand.len();
    let split = len - 3;

    /* All combinations with 1 of the new cards */
    let mut x: usize = split;
    while x < len
        invariant
            split == len - 3,
            split <= x <= len,
            len == hand@.len(),
            forall|a: int, b: int, c: int| #[trigger]
                combo_is_set(hand@, a, b, c) && b < split <= c && c < x ==> false,
        decreases len - x,
    {
        let mut y: usize = 0;
        while y < split
            invariant
                split == len - 3,
                split <= x < len,
                y <= split,
                len == hand@.len(),
                forall|a: int, b: int, c: int| #[trigger]
                    combo_is_set(hand@, a, b, c) && b < split <= c && (c < x || (c == x && a
                        < y)) ==> false,
            decreases split - y,
        {
            let mut z: usize = y + 1;
            while z < split
                invariant
                    split == len - 3,
                    split <= x < len,
                    y < z <= split,
                    y < split,
                    len == hand@.len(),
                    forall|a: int, b: int, c: int| #[trigger]
                        combo_is_set(hand@, a, b, c) && b < split <= c && (c < x || (c == x && (a
                            < y || (a == y && b < z)))) ==> false,
                decreases split - z,
            {
                if is_set(&hand[x], &hand[y], &hand[z]) {
                    return SetSearch::Found(x, y, z);
                }
                z = z + 1;
            }
            y = y + 1;
        }
        x = x + 1;
    }

    /* All combinations with 2 of the new cards */
    let mut x: usize = 0;
    while x < split
        invariant
            split == len - 3,
            x <= split,
            len == hand@.len(),
            forall|a: int, b: int, c: int| #[trigger]
                combo_is_set(hand@, a, b, c) && b < split <= c ==> false,
            forall|a: int, b: int, c: int| #[trigger]
                combo_is_set(hand@, a, b, c) && a < x && split <= b ==> false,
        decreases split - x,
    {
        let mut y: usize = split;
        while y < len
            invariant
                split == len - 3,
                x < split,
                split <= y <= len,
                len == hand@.len(),
                forall|a: int, b: int, c: int| #[trigger]
                    combo_is_set(hand@, a, b, c) && b < split <= c ==> false,
                forall|a: int, b: int, c: int| #[trigger]
                    combo_is_set(hand@, a, b, c) && (a < x || (a == x && split <= b && b < y))
                        && split <= b ==> false,
            decreases len - y,
        {
            let mut z: usize = y + 1;
            while z < len
                invariant
                    split == len - 3,
                    x < split,
                    split <= y < len,
                    y < z <= len,
                    len == hand@.len(),
                    forall|a: int, b: int, c: int| #[trigger]
                        combo_is_set(hand@, a, b, c) && b < split <= c ==> false,
                    forall|a: int, b: int, c: int| #[trigger]
                        combo_is_set(hand@, a, b, c) && (a < x || (a == x && split <= b && (b < y
                            || (b == y && c < z)))) && split <= b ==> false,
                decreases len - z,
            {
                if is_set(&hand[x], &hand[y], &hand[z]) {
                    return SetSearch::Found(x, y, z);
                }
                z = z + 1;
            }
            y = y + 1;
        }
        x = x + 1;
    }

    /* Check if the three new cards make a set */
    if is_set(&hand[split], &hand[split + 1], &hand[split + 2]) {
        return SetSearch::Found(split, split + 1, split + 2);
    }

    /* Otherwise, there are no sets involving the new cards */
    proof {
        assert forall|a: int, b: int, c: int| #[trigger]
            combo_is_set(hand@, a, b, c) implies c < len - 3 by {
            if c >= len - 3 {
                if b < split {
                } else if a < split {
                } else {
                    assert(a == split && b == split + 1 && c == split + 2);
                }
            }
        }
    }
    SetSearch::NotFound
}

/// The positions a search reported are distinct, inside the hand, and their
/// cards form a valid set.
pub open spec fn search_positions_ok(found: SetSearch, cards: Seq<Card>) -> bool {
    match found {
        SetSearch::Found(x, y, z) => x < cards.len() && y < cards.len() && z < cards.len() && x
            != y && x != z && y != z && crate::card::spec_is_set(
            cards[x as int],
            cards[y as int],
            cards[z as int],
        ),
        SetSearch::NotFound => true,
    }
}

/// Some three positions of the hand, in increasing order, form a valid set.
pub open spec fn spec_has_set(cards: Seq<Card>) -> bool {
    exists|i: int, j: int, k: int| combo_is_set(cards, i, j, k)
}

/// A valid set at three distinct positions, in whatever order, is a valid
/// increasing combination once the positions are sorted: the set predicate
/// does not care in which order the three cards are read.
proof fn lemma_unordered_set(cards: Seq<Card>, x: int, y: int, z: int)
    requires
        0 <= x < cards.len(),
        0 <= y < cards.len(),
        0 <= z < cards.len(),
        x != y && x != z && y != z,
        crate::card::spec_is_set(cards[x], cards[y], cards[z]),
    ensures
        spec_has_set(cards),
{
    if x < y {
        if y < z {
            assert(combo_is_set(cards, x, y, z));
        } else if x < z {
            assert(combo_is_set(cards, x, z, y));
        } else {
            assert(combo_is_set(cards, z, x, y));
        }
    } else {
        if x < z {
            assert(combo_is_set(cards, y, x, z));
        } else if y < z {
            assert(combo_is_set(cards, y, z, x));
        } else {
            assert(combo_is_set(cards, z, y, x));
        }
    }
}

/// Reading the same three distinct positions in another order still reads a
/// valid set.
proof fn lemma_is_set_perm(cards: Seq<Card>, x: int, y: int, z: int, a: int, b: int, c: int)
    requires
        0 <= x < cards.len(),
        0 <= y < cards.len(),
        0 <= z < cards.len(),
        x != y && x != z && y != z,
        a != b && a != c && b != c,
        a == x || a == y || a == z,
        b == x || b == y || b == z,
        c == x || c == y || c == z,
        crate::card::spec_is_set(cards[x], cards[y], cards[z]),
    ensures
        crate::card::spec_is_set(cards[a], cards[b], cards[c]),
{
}

/// Orders three distinct positions, largest first.
fn sort3_desc(x: usize, y: usize, z: usize) -> (r: (usize, usize, usize))
    requires
        x != y && x != z && y != z,
    ensures
        r.0 > r.1 && r.1 > r.2,
        r.0 == x || r.0 == y || r.0 == z,
        r.1 == x || r.1 == y || r.1 == z,
        r.2 == x || r.2 == y || r.2 == z,
{
    let mut a = x;
    let mut b = y;
    let mut c = z;
    if a < b {
        let t = a;
        a = b;
        b = t;
    }
    if b < c {
        let t = b;
        b = c;
        c = t;
    }
    if a < b {
        let t = a;
        a = b;
        b = t;
    }
    (a, b, c)
}

/// One step of the remove-first game, from examined hand `h1` (after `d1`
/// deals) to the next examined hand `h2`: a setless hand takes the next
/// three cards of the deck; a 12-card hand with a set takes them first and
/// then loses one of the sets it already held; a larger hand with a set
/// loses one of its sets, highest positions removed first.
pub open spec fn first_step_ok(deck: Seq<Card>, d1: int, h1: Seq<Card>, d2: int, h2: Seq<Card>) -> bool {
    if !spec_has_set(h1) {
        d1 < 23 && d2 == d1 + 1 && h2 == h1 + dealt_cards(deck, d1)
    } else if h1.len() == 12 {
        d1 < 23 && d2 == d1 + 1 && exists|i: int, j: int, k: int| #[trigger]
            combo_is_set(h1, i, j, k) && h2 == remove3(h1 + dealt_cards(deck, d1), i, j, k)
    } else {
        d2 == d1 && exists|i: int, j: int, k: int| #[trigger]
            combo_is_set(h1, i, j, k) && h2 == remove3(h1, i, j, k)
    }
}

/// The hands the remove-first game examined, with the deal count at each:
/// the first is the dozen dealt off the deck's tail, and every later one
/// arises from its predecessor by one legal step.
pub open spec fn first_trace_ok(deck: Seq<Card>, hands: Seq<Seq<Card>>, deals: Seq<int>) -> bool {
    &&& hands.len() == deals.len()
    &&& hands.len() >= 1
    &&& hands[0] == Seq::new(12, |m: int| deck[80 - m])
    &&& deals[0] == 0
    &&& forall|m: int|
        0 <= m < hands.len() - 1 ==> first_step_ok(
            deck,
            deals[m],
            hands[m],
            deals[m + 1],
            #[trigger] hands[m + 1],
        )
}

/// The game ended by deck exhaustion: the last examined hand needed a deal
/// (setless, or holding a set at 12 cards) with all 23 deals already spent.
pub open spec fn first_trace_exhausted(hands: Seq<Seq<Card>>, deals: Seq<int>) -> bool {
    &&& deals.last() == 23
    &&& if spec_has_set(hands.last()) {
        hands.last().len() == 12
    } else {
        hands.last().len() != 21
    }
}

/// The game ended stuck: the last examined hand holds 21 cards and no set,
/// the one state the counter grid cannot describe.
pub open spec fn first_trace_stuck(hands: Seq<Seq<Card>>) -> bool {
    !spec_has_set(hands.last()) && hands.last().len() == 21
}

/// The counter cell one examined hand lands in: its deal count, its size
/// class, and whether it held a set. A 21-card hand has no cell, nor does a
/// deal count outside the game's 24.
pub open spec fn spec_step_cell(d: int, h: Seq<Card>) -> Option<(int, int, int)> {
    let k: int = if spec_has_set(h) {
        SETS as int
    } else {
        SETLESS as int
    };
    if !(0 <= d < 24) {
        None
    } else if h.len() == 12 {
        Some((d, SIZE12 as int, k))
    } else if h.len() == 15 {
        Some((d, SIZE15 as int, k))
    } else if h.len() == 18 {
        Some((d, SIZE18 as int, k))
    } else {
        None
    }
}

/// The grid a sequence of examined hands tallies up: one increment per hand
/// that has a counter cell.
pub open spec fn spec_tally(hands: Seq<Seq<Card>>, deals: Seq<int>) -> Seq<int>
    decreases hands.len(),
{
    if hands.len() == 0 {
        Seq::new(144, |m: int| 0)
    } else {
        let g = spec_tally(hands.drop_last(), deals.drop_last());
        match spec_step_cell(deals.last(), hands.last()) {
            None => g,
            Some(c) => g.update(cell(c.0, c.1, c.2), g[cell(c.0, c.1, c.2)] + 1),
        }
    }
}

/// Plays an entire game of Set, removing the first set found in each hand,
/// and counts for every step how far into the game it was, how large the
/// hand was, and whether a set was present. The returned grid tallies,
/// cell for cell, a legal game on the given deck that ran to deck
/// exhaustion; nothing is returned only when the game reached the one state
/// the grid cannot describe, a 21-card hand with no set.
#[verifier::rlimit(100)]
pub fn play_game(deck: Vec<Card>) -> (r: Option<GameResult>)
    requires
        deck@.len() == 81,
    ensures
        r matches Some(gr) ==> gr.wf() && exists|hands: Seq<Seq<Card>>, deals: Seq<int>|
            #[trigger] first_trace_ok(deck@, hands, deals) && first_trace_exhausted(hands, deals)
                && (forall|m: int|
                0 <= m < 144 ==> #[trigger] gr.data()[m] == spec_tally(hands, deals)[m]),
        r is None ==> exists|hands: Seq<Seq<Card>>, deals: Seq<int>|
            #[trigger] first_trace_ok(deck@, hands, deals) && first_trace_stuck(hands),
{
    let ghost deck0 = deck@;
    let mut result = GameResult::default();
    let mut deck = deck;
    let mut hand: Vec<Card> = Vec::new();
    let ghost mut hands: Seq<Seq<Card>> = Seq::empty();
    let ghost mut dealsq: Seq<int> = Seq::empty();

    /* Get the first 12 cards for the hand from the deck */
    let mut n: usize = 0;
    while n < 12
        invariant
            n <= 12,
            deck0.len() == 81,
            hand@.len() == n,
            deck@.len() == 81 - n,
            deck@ == deck0.take(81 - n as int),
            forall|m: int| 0 <= m < n ==> hand@[m] == deck0[80 - m],
        decreases 12 - n,
    {
        let c = pop_card(&mut deck);
        hand.push(c);
        proof {
            assert(deck@ =~= deck0.take(81 - (n as int) - 1));
        }
        n = n + 1;
    }
    proof {
        assert(hand@ =~= Seq::new(12, |m: int| deck0[80 - m]));
    }

    /* Find the first set, primes the game loop */
    let mut found = find_set_all(&hand);
    proof {
        lemma_search_reflects_all(found, hand@);
    }
    let mut stuck = false;

    /* This is the loop that plays one entire game of set. */
    loop
        invariant_except_break
            result.wf(),
            deck0.len() == 81,
            hand@.len() == 12 || hand@.len() == 15 || hand@.len() == 18 || hand@.len() == 21,
            deck@.len() % 3 == 0,
            deck@.len() <= 69,
            deck@ == deck0.take(deck@.len() as int),
            search_positions_ok(found, hand@),
            (found is Found) == spec_has_set(hand@),
            hands.len() == dealsq.len(),
            hands.len() == 0 ==> hand@ == Seq::new(12, |m: int| deck0[80 - m]) && deck@.len()
                == 69,
            hands.len() > 0 ==> hands[0] == Seq::new(12, |m: int| deck0[80 - m]) && dealsq[0]
                == 0,
            forall|m: int|
                0 <= m < hands.len() - 1 ==> first_step_ok(
                    deck0,
                    dealsq[m],
                    hands[m],
                    dealsq[m + 1],
                    #[trigger] hands[m + 1],
                ),
            hands.len() > 0 ==> first_step_ok(
                deck0,
                dealsq.last(),
                hands.last(),
                23 - deck@.len() as int / 3,
                hand@,
            ),
            forall|m: int|
                0 <= m < 144 ==> #[trigger] result.data()[m] == spec_tally(hands, dealsq)[m],
            forall|m: int| 0 <= m < 144 ==> 0 <= #[trigger] result.data()[m] <= hands.len(),
            3 * hands.len() + hand@.len() + 2 * deck@.len() <= 159,
            !stuck,
        ensures
            result.wf(),
            hands.len() > 0,
            first_trace_ok(deck0, hands, dealsq),
            stuck ==> first_trace_stuck(hands),
            !stuck ==> first_trace_exhausted(hands, dealsq) && (forall|m: int|
                0 <= m < 144 ==> #[trigger] result.data()[m] == spec_tally(hands, dealsq)[m]),
        decreases deck@.len(), hand@.len(),
    {
        /* number of times cards have been dealt */
        let deals = 23 - deck.len() / 3;
        let ghost h_now = hand@;
        let ghost prev_hands = hands;
        let ghost prev_deals = dealsq;
        proof {
            assert(deck@.len() as int == 3 * (deck@.len() as int / 3));
            lemma_tally_len(hands, dealsq);
            hands = hands.push(h_now);
            dealsq = dealsq.push(deals as int);
            lemma_tally_len(hands, dealsq);
            assert(hands.drop_last() =~= prev_hands);
            assert(dealsq.drop_last() =~= prev_deals);
            assert forall|m: int| 0 <= m < prev_hands.len() implies #[trigger] hands[m]
                == prev_hands[m] by {}
            assert forall|m: int| 0 <= m < prev_deals.len() implies #[trigger] dealsq[m]
                == prev_deals[m] by {}
            assert forall|m: int|
                0 <= m < hands.len() - 1 implies first_step_ok(
                deck0,
                dealsq[m],
                hands[m],
                dealsq[m + 1],
                #[trigger] hands[m + 1],
            ) by {
                if m < prev_hands.len() - 1 {
                    assert(first_step_ok(
                        deck0,
                        prev_deals[m],
                        prev_hands[m],
                        prev_deals[m + 1],
                        prev_hands[m + 1],
                    ));
                } else {
                    assert(hands[m] == prev_hands.last() && hands[m + 1] == h_now);
                }
            }
        }
        match found {
            SetSearch::Found(x, y, z) => {
                let size = hand.len();
                if size == 12 {
                    result.incr(deals, SIZE12, SETS);
                    proof {
                        lemma_tally_step(prev_hands, prev_deals, h_now, deals as int);
                        assert forall|m: int|
                            0 <= m < 144 implies #[trigger] result.data()[m] == spec_tally(
                            hands,
                            dealsq,
                        )[m] by {
                            assert(h_now.len() == 12);
                            assert(spec_has_set(h_now));
                        }
                    }
                    /* a 12-card hand with a set needs 3 more cards first */
                    if deck.len() == 0 {
                        proof {
                            assert(first_trace_ok(deck0, hands, dealsq));
                            assert(first_trace_exhausted(hands, dealsq));
                        }
                        break ;
                    }
                    let a = pop_card(&mut deck);
                    let b = pop_card(&mut deck);
                    let c = pop_card(&mut deck);
                    hand.push(a);
                    hand.push(b);
                    hand.push(c);
                    proof {
                        assert(hand@ =~= h_now + dealt_cards(deck0, deals as int));
                        assert(deck@ =~= deck0.take(deck@.len() as int));
                    }
                } else if size == 15 {
                    result.incr(deals, SIZE15, SETS);
                    proof {
                        lemma_tally_step(prev_hands, prev_deals, h_now, deals as int);
                        assert forall|m: int|
                            0 <= m < 144 implies #[trigger] result.data()[m] == spec_tally(
                            hands,
                            dealsq,
                        )[m] by {
                            assert(h_now.len() == 15);
                            assert(spec_has_set(h_now));
                        }
                    }
                } else if size == 18 {
                    result.incr(deals, SIZE18, SETS);
                    proof {
                        lemma_tally_step(prev_hands, prev_deals, h_now, deals as int);
                        assert forall|m: int|
                            0 <= m < 144 implies #[trigger] result.data()[m] == spec_tally(
                            hands,
                            dealsq,
                        )[m] by {
                            assert(h_now.len() == 18);
                            assert(spec_has_set(h_now));
                        }
                    }
                } else {
                    proof {
                        lemma_tally_step(prev_hands, prev_deals, h_now, deals as int);
                        assert forall|m: int|
                            0 <= m < 144 implies #[trigger] result.data()[m] == spec_tally(
                            hands,
                            dealsq,
                        )[m] by {
                            assert(h_now.len() == 21);
                            assert(spec_has_set(h_now));
                        }
                    }
                }
                let ghost h_grown = hand@;

                /* Cards are removed largest position first, so the earlier
                removals do not disturb the positions still to be removed */
                let (a, b, c) = sort3_desc(x, y, z);
                hand.remove(a);
                hand.remove(b);
                hand.remove(c);
                proof {
                    lemma_is_set_perm(
                        h_now,
                        x as int,
                        y as int,
                        z as int,
                        c as int,
                        b as int,
                        a as int,
                    );
                    assert(combo_is_set(h_now, c as int, b as int, a as int));
                    assert(hand@ == remove3(h_grown, c as int, b as int, a as int));
                    if size == 12 {
                        assert(first_step_ok(
                            deck0,
                            deals as int,
                            h_now,
                            23 - deck@.len() as int / 3,
                            hand@,
                        )) by {
                            assert(remove3(h_now + dealt_cards(deck0, deals as int), c as int, b as int, a as int)
                                == hand@);
                        }
                    } else {
                        assert(first_step_ok(
                            deck0,
                            deals as int,
                            h_now,
                            23 - deck@.len() as int / 3,
                            hand@,
                        ));
                    }
                }

                /* search for the next set in all the cards */
                found = find_set_all(&hand);
                proof {
                    lemma_search_reflects_all(found, hand@);
                }
            },
            SetSearch::NotFound => {
                let size = hand.len();
                if size == 12 {
                    result.incr(deals, SIZE12, SETLESS);
                    proof {
                        lemma_tally_step(prev_hands, prev_deals, h_now, deals as int);
                        assert forall|m: int|
                            0 <= m < 144 implies #[trigger] result.data()[m] == spec_tally(
                            hands,
                            dealsq,
                        )[m] by {
                            assert(h_now.len() == 12);
                            assert(!spec_has_set(h_now));
                        }
                    }
                } else if size == 15 {
                    result.incr(deals, SIZE15, SETLESS);
                    proof {
                        lemma_tally_step(prev_hands, prev_deals, h_now, deals as int);
                        assert forall|m: int|
                            0 <= m < 144 implies #[trigger] result.data()[m] == spec_tally(
                            hands,
                            dealsq,
                        )[m] by {
                            assert(h_now.len() == 15);
                            assert(!spec_has_set(h_now));
                        }
                    }
                } else if size == 18 {
                    result.incr(deals, SIZE18, SETLESS);
                    proof {
                        lemma_tally_step(prev_hands, prev_deals, h_now, deals as int);
                        assert forall|m: int|
                            0 <= m < 144 implies #[trigger] result.data()[m] == spec_tally(
                            hands,
                            dealsq,
                        )[m] by {
                            assert(h_now.len() == 18);
                            assert(!spec_has_set(h_now));
                        }
                    }
                } else {
                    /* a 21-card hand with no set has no counter; full decks
                    never produce one */
                    proof {
                        assert(first_trace_ok(deck0, hands, dealsq));
                        assert(first_trace_stuck(hands));
                    }
                    stuck = true;
                    break ;
                }

                /* add three more cards to the hand - because no set was found */
                if deck.len() == 0 {
                    proof {
                        assert(first_trace_ok(deck0, hands, dealsq));
                        assert(first_trace_exhausted(hands, dealsq));
                    }
                    break ;
                }
                let a = pop_card(&mut deck);
                let b = pop_card(&mut deck);
                let c = pop_card(&mut deck);
                hand.push(a);
                hand.push(b);
                hand.push(c);
                proof {
                    assert(hand@ =~= h_now + dealt_cards(deck0, deals as int));
                    assert(deck@ =~= deck0.take(deck@.len() as int));
                    assert(first_step_ok(
                        deck0,
                        deals as int,
                        h_now,
                        23 - deck@.len() as int / 3,
                        hand@,
                    ));
                }

                /* find the next set, but only look at combinations that use
                new cards */
                found = find_set_part(&hand);
                proof {
                    lemma_search_reflects_part(found, h_now, hand@);
                }
            },
        }
    }
    if stuck {
        return None;
    }
    Some(result)
}

/// A full-scan result tells the truth about whether the hand has a set.
proof fn lemma_search_reflects_all(found: SetSearch, cards: Seq<Card>)
    requires
        found matches SetSearch::Found(x, y, z) ==> combo_is_set(
            cards,
            x as int,
            y as int,
            z as int,
        ),
        found is NotFound ==> forall|a: int, b: int, c: int| !combo_is_set(cards, a, b, c),
    ensures
        (found is Found) == spec_has_set(cards),
{
    match found {
        SetSearch::Found(x, y, z) => {
            assert(combo_is_set(cards, x as int, y as int, z as int));
        },
        SetSearch::NotFound => {
            if spec_has_set(cards) {
                let (i, j, k) = choose|i: int, j: int, k: int| combo_is_set(cards, i, j, k);
                assert(!combo_is_set(cards, i, j, k));
            }
        },
    }
}

/// A partial-scan result on a setless hand grown by three cards tells the
/// truth about the grown hand: the old combinations were already ruled out,
/// and the scan rules out every combination that uses a new card.
proof fn lemma_search_reflects_part(found: SetSearch, old_hand: Seq<Card>, grown: Seq<Card>)
    requires
        !spec_has_set(old_hand),
        grown.len() == old_hand.len() + 3,
        forall|m: int| 0 <= m < old_hand.len() ==> #[trigger] grown[m] == old_hand[m],
        found matches SetSearch::Found(x, y, z) ==> x < grown.len() && y < grown.len() && z
            < grown.len() && x != y && x != z && y != z && crate::card::spec_is_set(
            grown[x as int],
            grown[y as int],
            grown[z as int],
        ),
        found is NotFound ==> forall|a: int, b: int, c: int| #[trigger]
            combo_is_set(grown, a, b, c) ==> c < grown.len() - 3,
    ensures
        (found is Found) == spec_has_set(grown),
{
    match found {
        SetSearch::Found(x, y, z) => {
            lemma_unordered_set(grown, x as int, y as int, z as int);
        },
        SetSearch::NotFound => {
            if spec_has_set(grown) {
                let (i, j, k) = choose|i: int, j: int, k: int| combo_is_set(grown, i, j, k);
                assert(combo_is_set(grown, i, j, k));
                assert(k < grown.len() - 3);
                assert(combo_is_set(old_hand, i, j, k));
                assert(spec_has_set(old_hand));
            }
        },
    }
}

/// A tally always has the grid's full fixed shape.
proof fn lemma_tally_len(hands: Seq<Seq<Card>>, deals: Seq<int>)
    ensures
        spec_tally(hands, deals).len() == 144,
    decreases hands.len(),
{
    if hands.len() > 0 {
        lemma_tally_len(hands.drop_last(), deals.drop_last());
    }
}

/// Recording one more examined hand adds exactly one to its cell of the
/// tally, or nothing when the hand has no cell.
proof fn lemma_tally_step(hands: Seq<Seq<Card>>, deals: Seq<int>, h: Seq<Card>, d: int)
    ensures
        spec_tally(hands.push(h), deals.push(d)) == (match spec_step_cell(d, h) {
            None => spec_tally(hands, deals),
            Some(c) => spec_tally(hands, deals).update(
                cell(c.0, c.1, c.2),
                spec_tally(hands, deals)[cell(c.0, c.1, c.2)] + 1,
            ),
        }),
{
    assert(hands.push(h).drop_last() =~= hands);
    assert(deals.push(d).drop_last() =~= deals);
    assert(hands.push(h).last() == h);
    assert(deals.push(d).last() == d);
}

/// The counter for one hand size and outcome, summed over the first `upto`
/// deal counts.
pub open spec fn spec_size_total(gr: GameResult, size: int, kind: int, upto: int) -> int
    decreases upto,
{
    if upto <= 0 {
        0
    } else {
        spec_size_total(gr, size, kind, upto - 1) + gr.at(upto - 1, size, kind)
    }
}

/// With no negative counters, the partial sums never shrink.
proof fn lemma_size_total_mono(gr: GameResult, size: int, kind: int, upto: int)
    requires
        gr.wf(),
        0 <= size < 3,
        0 <= kind < 2,
        0 <= upto <= 24,
    ensures
        spec_size_total(gr, size, kind, upto) <= spec_size_total(gr, size, kind, 24),
        spec_size_total(gr, size, kind, upto) >= 0,
    decreases 24 - upto,
{
    if upto < 24 {
        lemma_size_total_mono(gr, size, kind, upto + 1);
    }
    if upto > 0 {
        lemma_size_total_nonneg(gr, size, kind, upto);
    }
}

/// A sum of counters is never negative.
proof fn lemma_size_total_nonneg(gr: GameResult, size: int, kind: int, upto: int)
    requires
        gr.wf(),
        0 <= size < 3,
        0 <= kind < 2,
        upto <= 24,
    ensures
        spec_size_total(gr, size, kind, upto) >= 0,
    decreases upto,
{
    if upto > 0 {
        lemma_size_total_nonneg(gr, size, kind, upto - 1);
    }
}

impl GameResult {
    /// Adds up the counters into general statistics: for each hand size and
    /// outcome, the total over the whole game. Yields nothing when a total
    /// does not fit the counter type.
    pub fn totals(&self) -> (r: Option<Vec<i64>>)
        requires
            self.wf(),
        ensures
            r is Some <==> forall|size: int, kind: int|
                0 <= size < 3 && 0 <= kind < 2 ==> #[trigger] spec_size_total(
                    *self,
                    size,
                    kind,
                    24,
                ) <= i64::MAX,
            r matches Some(t) ==> t@.len() == 6 && forall|size: int, kind: int|
                0 <= size < 3 && 0 <= kind < 2 ==> #[trigger] t@[size * 2 + kind]
                    == spec_size_total(*self, size, kind, 24),
    {
        let mut t: Vec<i64> = Vec::new();
        let mut size: usize = 0;
        while size < 3
            invariant
                size <= 3,
                self.wf(),
                t@.len() == 2 * size,
                forall|s2: int, k2: int|
                    0 <= s2 < size && 0 <= k2 < 2 ==> #[trigger] t@[s2 * 2 + k2]
                        == spec_size_total(*self, s2, k2, 24),
            decreases 3 - size,
        {
            let mut kind: usize = 0;
            while kind < 2
                invariant
                    size < 3,
                    kind <= 2,
                    self.wf(),
                    t@.len() == 2 * size + kind,
                    forall|s2: int, k2: int|
                        0 <= s2 < size && 0 <= k2 < 2 ==> #[trigger] t@[s2 * 2 + k2]
                            == spec_size_total(*self, s2, k2, 24),
                    forall|k2: int|
                        0 <= k2 < kind ==> #[trigger] t@[size as int * 2 + k2] == spec_size_total(
                            *self,
                            size as int,
                            k2,
                            24,
                        ),
                decreases 2 - kind,
            {
                let mut acc: i64 = 0;
                let mut d: usize = 0;
                while d < 24
                    invariant
                        d <= 24,
                        size < 3,
                        kind < 2,
                        self.wf(),
                        acc == spec_size_total(*self, size as int, kind as int, d as int),
                        acc >= 0,
                    decreases 24 - d,
                {
                    let v = self.get(d, size, kind);
                    if acc > i64::MAX - v {
                        proof {
                            lemma_size_total_mono(*self, size as int, kind as int, d as int + 1);
                        }
                        return None;
                    }
                    acc = acc + v;
                    d = d + 1;
                }
                t.push(acc);
                kind = kind + 1;
            }
            size = size + 1;
        }
        proof {
            assert forall|s2: int, k2: int|
                0 <= s2 < 3 && 0 <= k2 < 2 implies #[trigger] spec_size_total(*self, s2, k2, 24)
                <= i64::MAX by {
                assert(t@[s2 * 2 + k2] == spec_size_total(*self, s2, k2, 24));
            }
        }
        Some(t)
    }
}

/// One persisted row of the counter grid: the deal count, then the setless
/// and found counters for each hand size.
pub open spec fn spec_result_row(gr: GameResult, d: int) -> Seq<char> {
    spec_digits(d as nat) + seq![','] + spec_digits(gr.at(d, 0, 1) as nat) + seq![',']
        + spec_digits(gr.at(d, 0, 0) as nat) + seq![','] + spec_digits(gr.at(d, 1, 1) as nat)
        + seq![','] + spec_digits(gr.at(d, 1, 0) as nat) + seq![','] + spec_digits(
        gr.at(d, 2, 1) as nat,
    ) + seq![','] + spec_digits(gr.at(d, 2, 0) as nat)
}

/// The first `upto` rows of the grid, joined by line breaks.
pub open spec fn spec_result_rows(gr: GameResult, upto: int) -> Seq<char>
    decreases upto,
{
    if upto <= 0 {
        Seq::empty()
    } else if upto == 1 {
        spec_result_row(gr, 0)
    } else {
        spec_result_rows(gr, upto - 1) + seq!['\n'] + spec_result_row(gr, upto - 1)
    }
}

/// The whole persisted grid: a header line, then one row per deal count.
pub open spec fn spec_render_results(gr: GameResult) -> Seq<char> {
    "deals,setless12,set12,setless15,set15,setless18,set18\n"@ + spec_result_rows(gr, 24)
}

/// Renders the counter grid in its persisted format.
pub fn render_results(gr: &GameResult) -> (s: String)
    requires
        gr.wf(),
    ensures
        s@ == spec_render_results(*gr),
{
    let mut s = String::from_str("deals,setless12,set12,setless15,set15,setless18,set18\n");
    proof {
        assert(s@ =~= "deals,setless12,set12,setless15,set15,setless18,set18\n"@
            + spec_result_rows(*gr, 0));
    }
    let mut d: usize = 0;
    while d < 24
        invariant
            d <= 24,
            gr.wf(),
            s@ == "deals,setless12,set12,setless15,set15,setless18,set18\n"@ + spec_result_rows(
                *gr,
                d as int,
            ),
        decreases 24 - d,
    {
        if d > 0 {
            s.append("\n");
        }
        s.append(u64_to_string(d as u64).as_str());
        proof {
            reveal_strlit("\n");
            assert(s@ =~= "deals,setless12,set12,setless15,set15,setless18,set18\n"@
                + spec_result_rows(*gr, d as int) + (if d > 0 {
                seq!['\n']
            } else {
                Seq::<char>::empty()
            }) + spec_row_prefix(*gr, d as int, 0));
        }
        let mut size: usize = 0;
        while size < 3
            invariant
                size <= 3,
                d < 24,
                gr.wf(),
                s@ == "deals,setless12,set12,setless15,set15,setless18,set18\n"@
                    + spec_result_rows(*gr, d as int) + (if d > 0 {
                    seq!['\n']
                } else {
                    Seq::<char>::empty()
                }) + spec_row_prefix(*gr, d as int, size as int),
            decreases 3 - size,
        {
            s.append(",");
            s.append(u64_to_string(gr.get(d, size, SETLESS) as u64).as_str());
            s.append(",");
            s.append(u64_to_string(gr.get(d, size, SETS) as u64).as_str());
            proof {
                reveal_strlit(",");
                assert(s@ =~= "deals,setless12,set12,setless15,set15,setless18,set18\n"@
                    + spec_result_rows(*gr, d as int) + (if d > 0 {
                    seq!['\n']
                } else {
                    Seq::<char>::empty()
                }) + spec_row_prefix(*gr, d as int, size as int + 1));
            }
            size = size + 1;
        }
        proof {
            reveal_strlit("\n");
            /* name each prefix length so its definition unfolds */
            let _p0 = spec_row_prefix(*gr, d as int, 0);
            let _p1 = spec_row_prefix(*gr, d as int, 1);
            let _p2 = spec_row_prefix(*gr, d as int, 2);
            assert(spec_row_prefix(*gr, d as int, 3) =~= spec_result_row(*gr, d as int));
            if d > 0 {
                assert(spec_result_rows(*gr, d as int + 1) =~= spec_result_rows(*gr, d as int)
                    + seq!['\n'] + spec_result_row(*gr, d as int));
            } else {
                assert(spec_result_rows(*gr, 1) =~= spec_result_row(*gr, 0));
            }
            assert(s@ =~= "deals,setless12,set12,setless15,set15,setless18,set18\n"@
                + spec_result_rows(*gr, d as int + 1));
        }
        d = d + 1;
    }
    s
}

/// The first fields of one grid row: the deal count and the counters of the
/// hand sizes below `size`.
pub open spec fn spec_row_prefix(gr: GameResult, d: int, size: int) -> Seq<char>
    decreases size,
{
    if size <= 0 {
        spec_digits(d as nat)
    } else {
        spec_row_prefix(gr, d, size - 1) + seq![','] + spec_digits(
            gr.at(d, size - 1, 1) as nat,
        ) + seq![','] + spec_digits(gr.at(d, size - 1, 0) as nat)
    }
}

/// The all-zero counter grid.
pub open spec fn spec_zero_grid() -> Seq<i64> {
    Seq::new(144, |m: int| 0i64)
}

/// What one persisted grid row does to the grid: it sets the six counters
/// of its deal count, when all seven fields are well-formed and in range.
pub open spec fn spec_apply_row(data: Seq<i64>, line: Seq<char>) -> Option<Seq<i64>> {
    let fields = spec_split(line, ',');
    if fields.len() == 7 {
        match (spec_parse_u64(fields[0]), spec_parse_u64(fields[1]), spec_parse_u64(fields[2]),
        spec_parse_u64(fields[3]), spec_parse_u64(fields[4]), spec_parse_u64(fields[5]),
        spec_parse_u64(fields[6])) {
            (
                Some(d),
                Some(sl12),
                Some(s12),
                Some(sl15),
                Some(s15),
                Some(sl18),
                Some(s18),
            ) => if d < 24 && sl12 <= i64::MAX && s12 <= i64::MAX && sl15 <= i64::MAX && s15
                <= i64::MAX && sl18 <= i64::MAX && s18 <= i64::MAX {
                Some(
                    data.update(cell(d as int, 0, 1), sl12 as i64).update(
                        cell(d as int, 0, 0),
                        s12 as i64,
                    ).update(cell(d as int, 1, 1), sl15 as i64).update(
                        cell(d as int, 1, 0),
                        s15 as i64,
                    ).update(cell(d as int, 2, 1), sl18 as i64).update(
                        cell(d as int, 2, 0),
                        s18 as i64,
                    ),
                )
            } else {
                None
            },
            _ => None,
        }
    } else {
        None
    }
}

/// What the listed rows, applied in order, make of the grid: nothing as
/// soon as any row is malformed.
pub open spec fn spec_load_rows(data: Seq<i64>, lines: Seq<Seq<char>>) -> Option<Seq<i64>>
    decreases lines.len(),
{
    if lines.len() == 0 {
        Some(data)
    } else {
        match spec_load_rows(data, lines.drop_last()) {
            None => None,
            Some(d2) => spec_apply_row(d2, lines.last()),
        }
    }
}

/// What parsing a whole persisted grid yields: the grid the lines after the
/// header build up from zero, or nothing when any line is malformed.
pub open spec fn spec_parse_results(s: Seq<char>) -> Option<Seq<i64>> {
    spec_load_rows(spec_zero_grid(), spec_split(s, '\n').drop_first())
}

/// Once some prefix of the rows fails to load, the whole grid fails.
proof fn lemma_load_rows_none(data: Seq<i64>, lines: Seq<Seq<char>>, j: int)
    requires
        0 <= j <= lines.len(),
        spec_load_rows(data, lines.take(j)) is None,
    ensures
        spec_load_rows(data, lines) is None,
    decreases lines.len() - j,
{
    if j < lines.len() {
        assert(lines.take(j + 1).drop_last() =~= lines.take(j));
        lemma_load_rows_none(data, lines, j + 1);
    } else {
        assert(lines.take(j) =~= lines);
    }
}

/// Applies one persisted grid row, reporting whether it was well-formed;
/// a malformed row leaves the grid untouched.
fn apply_row(gr: &mut GameResult, line: &Vec<char>) -> (ok: bool)
    requires
        old(gr).wf(),
    ensures
        final(gr).wf(),
        ok ==> Some(final(gr).data()) == spec_apply_row(old(gr).data(), line@),
        !ok ==> spec_apply_row(old(gr).data(), line@) is None && *final(gr) == *old(gr),
{
    let fields = split_chars(line, ',');
    if fields.len() != 7 {
        return false;
    }
    let d = match parse_u64(&fields[0]) {
        Some(v) => v,
        None => {
            return false;
        },
    };
    let sl12 = match parse_u64(&fields[1]) {
        Some(v) => v,
        None => {
            return false;
        },
    };
    let s12 = match parse_u64(&fields[2]) {
        Some(v) => v,
        None => {
            return false;
        },
    };
    let sl15 = match parse_u64(&fields[3]) {
        Some(v) => v,
        None => {
            return false;
        },
    };
    let s15 = match parse_u64(&fields[4]) {
        Some(v) => v,
        None => {
            return false;
        },
    };
    let sl18 = match parse_u64(&fields[5]) {
        Some(v) => v,
        None => {
            return false;
        },
    };
    let s18 = match parse_u64(&fields[6]) {
        Some(v) => v,
        None => {
            return false;
        },
    };
    let max = i64::MAX as u64;
    if d >= 24 || sl12 > max || s12 > max || sl15 > max || s15 > max || sl18 > max || s18 > max {
        return false;
    }
    let d = d as usize;
    gr.data.set((d * 3 + 0) * 2 + 1, sl12 as i64);
    gr.data.set((d * 3 + 0) * 2 + 0, s12 as i64);
    gr.data.set((d * 3 + 1) * 2 + 1, sl15 as i64);
    gr.data.set((d * 3 + 1) * 2 + 0, s15 as i64);
    gr.data.set((d * 3 + 2) * 2 + 1, sl18 as i64);
    gr.data.set((d * 3 + 2) * 2 + 0, s18 as i64);
    true
}

/// Parses a whole persisted grid: the header line is skipped; every later
/// line must be a well-formed row, or nothing is returned. The rows are
/// applied to a zero grid in order, a later row for the same deal count
/// overwriting an earlier one.
pub fn parse_results(contents: &str) -> (r: Option<GameResult>)
    ensures
        r matches Some(gr) ==> Some(gr.data()) == spec_parse_results(contents@) && gr.wf(),
        r is None ==> spec_parse_results(contents@) is None,
{
    let mut gr = GameResult::default();
    proof {
        assert(gr.data() =~= spec_zero_grid());
    }
    let lines = split_on(contents, '\n');
    let ghost all = spec_split(contents@, '\n');
    let ghost lviews = all.drop_first();
    proof {
        crate::text::lemma_split_len(contents@, '\n');
        assert(lviews.take(0) =~= Seq::<Seq<char>>::empty());
    }
    let mut i: usize = 1;
    while i < lines.len()
        invariant
            1 <= i,
            i <= lines@.len() || lines@.len() < 1,
            lines@.len() == all.len(),
            all == spec_split(contents@, '\n'),
            lviews == all.drop_first(),
            forall|m: int| 0 <= m < lines@.len() ==> (#[trigger] lines@[m])@ == all[m],
            gr.wf(),
            Some(gr.data()) == spec_load_rows(spec_zero_grid(), lviews.take(i - 1)),
        decreases lines@.len() - i,
    {
        let ghost before = gr.data();
        let ok = apply_row(&mut gr, &lines[i]);
        proof {
            assert(lviews.take(i as int).drop_last() =~= lviews.take(i as int - 1));
            assert(lviews.take(i as int).last() == lviews[i as int - 1]);
            assert(lviews[i as int - 1] == all[i as int]);
        }
        if !ok {
            proof {
                assert(spec_load_rows(spec_zero_grid(), lviews.take(i as int)) is None);
                lemma_load_rows_none(spec_zero_grid(), lviews, i as int);
            }
            return None;
        }
        i = i + 1;
    }
    proof {
        assert(lviews.take(lviews.len() as int) =~= lviews);
        assert(i - 1 == lviews.len());
    }
    Some(gr)
}

} // verus!
