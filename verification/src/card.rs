//! The card model: a card has 4 characteristics, each in one of 3 states,
//! and three cards form a set exactly when every characteristic is either
//! shared by all three cards or pairwise different.

use vstd::prelude::*;

verus! {

/// State of one characteristic of a card.
#[derive(Hash, Eq, PartialEq, Copy, Clone, Debug, Structural)]
pub enum State {
    Zero,
    One,
    Two,
}

/// A card has 4 characteristics that each have a state.
#[derive(Hash, Eq, PartialEq, Copy, Clone, Debug, Structural)]
pub struct Card(pub State, pub State, pub State, pub State);

/// The numeric value {0, 1, 2} of a characteristic state.
pub open spec fn state_value(s: State) -> int {
    match s {
        State::Zero => 0,
        State::One => 1,
        State::Two => 2,
    }
}

/// One characteristic passes the set test when the three values sum to 0 modulo 3.
pub open spec fn spec_check(first: State, second: State, third: State) -> bool {
    (state_value(first) + state_value(second) + state_value(third)) % 3 == 0
}

/// Three cards form a set when every one of the 4 characteristics passes the test.
pub open spec fn spec_is_set(x: Card, y: Card, z: Card) -> bool {
    &&& spec_check(x.0, y.0, z.0)
    &&& spec_check(x.1, y.1, z.1)
    &&& spec_check(x.2, y.2, z.2)
    &&& spec_check(x.3, y.3, z.3)
}

/// The number of characteristics in which two cards differ: 0 to 4.
pub open spec fn spec_set_class(a: Card, b: Card) -> int {
    (if a.0 != b.0 { 1int } else { 0int }) + (if a.1 != b.1 { 1int } else { 0int })
        + (if a.2 != b.2 { 1int } else { 0int }) + (if a.3 != b.3 { 1int } else { 0int })
}

impl State {
    /// Constructor for creating a state from its numeric value.
    pub fn new(state: usize) -> (s: Self)
        requires
            state < 3,
        ensures
            state_value(s) == state,
    {
        match state {
            0 => State::Zero,
            1 => State::One,
            _ => State::Two,
        }
    }
}

/// The numeric value of a state, as a machine integer.
fn state_num(s: State) -> (n: u8)
    ensures
        n == state_value(s),
{
    match s {
        State::Zero => 0,
        State::One => 1,
        State::Two => 2,
    }
}

/// Checks the states for a single characteristic of a card.
pub fn check(first: State, second: State, third: State) -> (r: bool)
    ensures
        r == spec_check(first, second, third),
{
    (state_num(first) + state_num(second) + state_num(third)) % 3 == 0
}

/// Decides whether a trio of cards is a set: every characteristic must be
/// all same or all different, which the modular test captures.
pub fn is_set(first: &Card, second: &Card, third: &Card) -> (r: bool)
    ensures
        r == spec_is_set(*first, *second, *third),
{
    check(first.0, second.0, third.0) && check(first.1, second.1, third.1)
        && check(first.2, second.2, third.2) && check(first.3, second.3, third.3)
}

/// Counts in how many characteristics two cards differ. Within a valid set
/// this count is the same for each of the three pairs (see
/// `lemma_set_class_pairs_agree`), so it classifies the set itself.
pub fn set_class(a: &Card, b: &Card) -> (n: u8)
    ensures
        n == spec_set_class(*a, *b),
{
    let mut n: u8 = 0;
    if a.0 != b.0 {
        n = n + 1;
    }
    if a.1 != b.1 {
        n = n + 1;
    }
    if a.2 != b.2 {
        n = n + 1;
    }
    if a.3 != b.3 {
        n = n + 1;
    }
    n
}

/// One characteristic read the brute-force way: the three states are all
/// equal, or pairwise distinct.
pub open spec fn slot_uniform_or_distinct(a: State, b: State, c: State) -> bool {
    (a == b && b == c) || (a != b && b != c && a != c)
}

/// Law: for a single characteristic the modular test agrees with the
/// brute-force "all equal or all distinct" rule.
pub proof fn lemma_check_characterizes_slot(a: State, b: State, c: State)
    ensures
        spec_check(a, b, c) <==> slot_uniform_or_distinct(a, b, c),
{
}

/// Law: the set predicate agrees with an independent per-characteristic
/// brute-force check over the whole card.
pub proof fn lemma_is_set_slotwise(x: Card, y: Card, z: Card)
    ensures
        spec_is_set(x, y, z) <==> {
            &&& slot_uniform_or_distinct(x.0, y.0, z.0)
            &&& slot_uniform_or_distinct(x.1, y.1, z.1)
            &&& slot_uniform_or_distinct(x.2, y.2, z.2)
            &&& slot_uniform_or_distinct(x.3, y.3, z.3)
        },
{
    lemma_check_characterizes_slot(x.0, y.0, z.0);
    lemma_check_characterizes_slot(x.1, y.1, z.1);
    lemma_check_characterizes_slot(x.2, y.2, z.2);
    lemma_check_characterizes_slot(x.3, y.3, z.3);
}

/// Law: within a valid set the pair class is the same whichever two members
/// are compared, so `set_class` is well defined on the set itself.
pub proof fn lemma_set_class_pairs_agree(x: Card, y: Card, z: Card)
    requires
        spec_is_set(x, y, z),
    ensures
        spec_set_class(x, y) == spec_set_class(y, z),
        spec_set_class(x, y) == spec_set_class(x, z),
{
    lemma_is_set_slotwise(x, y, z);
}

} // verus!
