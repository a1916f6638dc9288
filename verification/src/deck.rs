//! Builds the 81-card deck and shuffles it so games of Set can be simulated.

use vstd::prelude::*;
use vstd::arithmetic::div_mod::{
    lemma_breakdown, lemma_fundamental_div_mod, lemma_fundamental_div_mod_converse_div,
    lemma_fundamental_div_mod_converse_mod, lemma_mod_bound, lemma_small_mod,
};
use vstd::seq_lib::group_to_multiset_ensures;
use rand::seq::SliceRandom;
use crate::card::{Card, State, state_value};

verus! {

/// The state whose numeric value is `v`, for `v` in 0..3.
pub open spec fn spec_state_of(v: int) -> State {
    if v == 0 {
        State::Zero
    } else if v == 1 {
        State::One
    } else {
        State::Two
    }
}

/// The card at position `m` of the fixed deck order: `m` written in base 3
/// gives the values of the 4 characteristics.
pub open spec fn spec_card_of(m: int) -> Card {
    Card(
        spec_state_of(m / 27 % 3),
        spec_state_of(m / 9 % 3),
        spec_state_of(m / 3 % 3),
        spec_state_of(m % 3),
    )
}

/// The base-3 position at which a card stands in the fixed deck order.
pub open spec fn spec_card_code(c: Card) -> int {
    27 * state_value(c.0) + 9 * state_value(c.1) + 3 * state_value(c.2) + state_value(c.3)
}

/// The full universe in the fixed order: one card for every combination of
/// the 4 characteristics.
pub open spec fn spec_full_deck() -> Seq<Card> {
    Seq::new(81, |m: int| spec_card_of(m))
}

/// Relies on rand's `SliceRandom::shuffle`: it permutes the slice in place
/// (a permutation picked uniformly at random), so the elements as a multiset
/// and the length are unchanged.
#[verifier::external_body]
fn shuffle_in_place(deck: &mut Vec<Card>)
    ensures
        final(deck)@.to_multiset() == old(deck)@.to_multiset(),
        final(deck)@.len() == old(deck)@.len(),
{
    deck.as_mut_slice().shuffle(&mut rand::rng());
}

/// Builds every card of the deck, in the fixed base-3 order.
fn full_deck() -> (deck: Vec<Card>)
    ensures
        deck@ == spec_full_deck(),
{
    let mut deck: Vec<Card> = Vec::new();
    let mut i: usize = 0;
    while i < 3
        invariant
            i <= 3,
            deck@.len() == 27 * i,
            forall|m: int| 0 <= m < deck@.len() ==> deck@[m] == spec_full_deck()[m],
        decreases 3 - i,
    {
        let mut j: usize = 0;
        while j < 3
            invariant
                i < 3,
                j <= 3,
                deck@.len() == 27 * i + 9 * j,
                forall|m: int| 0 <= m < deck@.len() ==> deck@[m] == spec_full_deck()[m],
            decreases 3 - j,
        {
            let mut k: usize = 0;
            while k < 3
                invariant
                    i < 3,
                    j < 3,
                    k <= 3,
                    deck@.len() == 27 * i + 9 * j + 3 * k,
                    forall|m: int| 0 <= m < deck@.len() ==> deck@[m] == spec_full_deck()[m],
                decreases 3 - k,
            {
                let mut l: usize = 0;
                while l < 3
                    invariant
                        i < 3,
                        j < 3,
                        k < 3,
                        l <= 3,
                        deck@.len() == 27 * i + 9 * j + 3 * k + l,
                        forall|m: int| 0 <= m < deck@.len() ==> deck@[m] == spec_full_deck()[m],
                    decreases 3 - l,
                {
                    let c = Card(State::new(i), State::new(j), State::new(k), State::new(l));
                    proof {
                        let m = deck@.len() as int;
                        assert(spec_full_deck()[m] == spec_card_of(m));
                        lemma_base3_decompose(m, i as int, j as int, k as int, l as int);
                    }
                    deck.push(c);
                    l = l + 1;
                }
                k = k + 1;
            }
            j = j + 1;
        }
        i = i + 1;
    }
    assert(deck@ =~= spec_full_deck());
    deck
}

/// Builds the deck for a game of Set: all 81 distinct cards, in an order
/// picked at random. Only the multiset of cards is promised; the order is
/// whatever the shuffle produced.
pub fn shuffle_cards() -> (deck: Vec<Card>)
    ensures
        deck@.len() == 81,
        deck@.to_multiset() == spec_full_deck().to_multiset(),
{
    let mut deck = full_deck();
    shuffle_in_place(&mut deck);
    deck
}

/// A position written as base-3 digits has exactly those digits: from
/// `m == 27*i + 9*j + 3*k + l` with each digit below 3, the quotient and
/// remainder operations of `spec_card_of` read the digits back.
proof fn lemma_base3_decompose(m: int, i: int, j: int, k: int, l: int)
    requires
        0 <= i < 3,
        0 <= j < 3,
        0 <= k < 3,
        0 <= l < 3,
        m == 27 * i + 9 * j + 3 * k + l,
    ensures
        m / 27 % 3 == i,
        m / 9 % 3 == j,
        m / 3 % 3 == k,
        m % 3 == l,
{
    lemma_fundamental_div_mod_converse_div(m, 27, i, 9 * j + 3 * k + l);
    lemma_small_mod(i as nat, 3);
    lemma_fundamental_div_mod_converse_div(m, 9, 3 * i + j, 3 * k + l);
    lemma_fundamental_div_mod_converse_mod(3 * i + j, 3, i, j);
    lemma_fundamental_div_mod_converse_div(m, 3, 9 * i + 3 * j + k, l);
    lemma_fundamental_div_mod_converse_mod(9 * i + 3 * j + k, 3, 3 * i + j, k);
    lemma_fundamental_div_mod_converse_mod(m, 3, 9 * i + 3 * j + k, l);
}

/// Every position below 81 is the base-3 reading of its own digits.
proof fn lemma_base3_recompose(m: int)
    requires
        0 <= m < 81,
    ensures
        m == 27 * (m / 27 % 3) + 9 * (m / 9 % 3) + 3 * (m / 3 % 3) + m % 3,
        0 <= m / 27 % 3 < 3,
        0 <= m / 9 % 3 < 3,
        0 <= m / 3 % 3 < 3,
        0 <= m % 3 < 3,
{
    lemma_fundamental_div_mod(m, 27);
    lemma_mod_bound(m, 27);
    lemma_mod_bound(m, 9);
    lemma_mod_bound(m, 3);
    lemma_mod_bound(m / 27, 3);
    lemma_mod_bound(m / 9, 3);
    lemma_mod_bound(m / 3, 3);
    assert(0 <= m / 27 < 3);
    lemma_small_mod((m / 27) as nat, 3);
    assert(m % 27 == 9 * ((m / 9) % 3) + m % 9) by {
        lemma_breakdown(m, 9, 3);
    }
    assert(m % 9 == 3 * ((m / 3) % 3) + m % 3) by {
        lemma_breakdown(m, 3, 3);
    }
}

/// Law: the fixed deck holds every combination once, so each card of the
/// universe appears in it exactly once.
pub proof fn lemma_full_deck_all_cards(c: Card)
    ensures
        spec_full_deck().to_multiset().count(c) == 1,
{
    broadcast use group_to_multiset_ensures;

    let d = spec_full_deck();
    let m = spec_card_code(c);
    assert(0 <= m < 81);
    lemma_base3_decompose(
        m,
        state_value(c.0),
        state_value(c.1),
        state_value(c.2),
        state_value(c.3),
    );
    assert(d[m] == c);
    assert(d.contains(c));
    assert(d.to_multiset().count(c) >= 1);
    assert forall|m1: int, m2: int|
        0 <= m1 < d.len() && 0 <= m2 < d.len() && d[m1] == d[m2] implies m1 == m2 by {
        lemma_base3_recompose(m1);
        lemma_base3_recompose(m2);
    }
    lemma_count_of_unique(d, c);
}

/// In a sequence without repeated elements, each element is counted at most once.
proof fn lemma_count_of_unique(s: Seq<Card>, c: Card)
    requires
        forall|m1: int, m2: int| 0 <= m1 < s.len() && 0 <= m2 < s.len() && s[m1] == s[m2] ==> m1
            == m2,
    ensures
        s.to_multiset().count(c) <= 1,
    decreases s.len(),
{
    broadcast use group_to_multiset_ensures;

    if s.len() > 0 {
        let rest = s.drop_last();
        lemma_count_of_unique(rest, c);
        if s.last() == c {
            assert(!rest.contains(c)) by {
                if rest.contains(c) {
                    let m = choose|m: int| 0 <= m < rest.len() && rest[m] == c;
                    assert(s[m] == c && s[s.len() - 1] == c);
                }
            }
            assert(rest.to_multiset().count(c) == 0);
        }
        assert(s == rest.push(s.last()));
    }
}

} // verus!
