use std::collections::HashSet;

use set_simulator::card::{Card, State};
use set_simulator::deck::shuffle_cards;

#[test]
fn shuffled_deck_holds_every_card_once() {
    let deck = shuffle_cards();
    assert_eq!(deck.len(), 81);
    let distinct: HashSet<Card> = deck.iter().cloned().collect();
    assert_eq!(distinct.len(), 81);
    let some_card = Card(State::One, State::Two, State::Zero, State::One);
    assert!(deck.contains(&some_card));
}

#[test]
fn shuffling_changes_the_order() {
    // two independent shuffles agreeing with each other on all 81 positions
    // is vanishingly unlikely; a shuffle that handed the deck back in a
    // fixed order would fail this immediately
    let first = shuffle_cards();
    let second = shuffle_cards();
    assert_ne!(first, second);
}
