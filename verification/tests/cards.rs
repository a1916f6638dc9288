use set_simulator::card::{check, is_set, set_class, Card, State};

fn all_states() -> [State; 3] {
    [State::Zero, State::One, State::Two]
}

fn state_num(s: State) -> u8 {
    match s {
        State::Zero => 0,
        State::One => 1,
        State::Two => 2,
    }
}

fn all_cards() -> Vec<Card> {
    let mut cards = Vec::new();
    for a in all_states() {
        for b in all_states() {
            for c in all_states() {
                for d in all_states() {
                    cards.push(Card(a, b, c, d));
                }
            }
        }
    }
    cards
}

/// An independent brute-force reading of one characteristic: all equal or
/// pairwise distinct.
fn slot_ok(a: State, b: State, c: State) -> bool {
    (a == b && b == c) || (a != b && b != c && a != c)
}

fn brute_force_is_set(x: &Card, y: &Card, z: &Card) -> bool {
    slot_ok(x.0, y.0, z.0) && slot_ok(x.1, y.1, z.1) && slot_ok(x.2, y.2, z.2) && slot_ok(x.3, y.3, z.3)
}

#[test]
fn state_new_values() {
    assert_eq!(State::new(0), State::Zero);
    assert_eq!(State::new(1), State::One);
    assert_eq!(State::new(2), State::Two);
}

#[test]
fn check_single_slot() {
    assert!(check(State::Zero, State::Zero, State::Zero));
    assert!(check(State::Zero, State::One, State::Two));
    assert!(check(State::Two, State::Two, State::Two));
    assert!(!check(State::Zero, State::Zero, State::One));
    assert!(!check(State::One, State::Two, State::Two));
}

#[test]
fn is_set_known_triples() {
    let a = Card(State::Zero, State::Zero, State::Zero, State::Zero);
    let b = Card(State::One, State::One, State::One, State::One);
    let c = Card(State::Two, State::Two, State::Two, State::Two);
    assert!(is_set(&a, &b, &c));

    let d = Card(State::Zero, State::One, State::Two, State::Zero);
    let e = Card(State::Zero, State::Two, State::One, State::One);
    let f = Card(State::Zero, State::Zero, State::Zero, State::Two);
    assert!(is_set(&d, &e, &f));

    let g = Card(State::One, State::Zero, State::Zero, State::Zero);
    assert!(!is_set(&a, &b, &g));
}

/// The set predicate agrees with an independent brute-force check over every
/// 3-combination of the 81-card universe.
#[test]
fn is_set_agrees_with_brute_force_everywhere() {
    let cards = all_cards();
    for i in 0..cards.len() {
        for j in (i + 1)..cards.len() {
            for k in (j + 1)..cards.len() {
                assert_eq!(
                    is_set(&cards[i], &cards[j], &cards[k]),
                    brute_force_is_set(&cards[i], &cards[j], &cards[k])
                );
            }
        }
    }
}

#[test]
fn set_class_counts_differing_slots() {
    let a = Card(State::Zero, State::Zero, State::Zero, State::Zero);
    assert_eq!(set_class(&a, &a), 0);
    let b = Card(State::One, State::Zero, State::Zero, State::Zero);
    assert_eq!(set_class(&a, &b), 1);
    let c = Card(State::One, State::Two, State::Zero, State::One);
    assert_eq!(set_class(&a, &c), 3);
    let d = Card(State::One, State::One, State::One, State::One);
    assert_eq!(set_class(&a, &d), 4);
}

/// Within any valid set, all three pairs have the same class.
#[test]
fn set_class_agrees_for_all_pairs_of_a_set() {
    let cards = all_cards();
    for i in 0..cards.len() {
        for j in (i + 1)..cards.len() {
            for k in (j + 1)..cards.len() {
                if is_set(&cards[i], &cards[j], &cards[k]) {
                    let ab = set_class(&cards[i], &cards[j]);
                    let bc = set_class(&cards[j], &cards[k]);
                    let ac = set_class(&cards[i], &cards[k]);
                    assert_eq!(ab, bc);
                    assert_eq!(ab, ac);
                    assert!(ab >= 1 && ab <= 4);
                }
            }
        }
    }
}

/// The deterministic micro-universe: only the first characteristic varies.
#[test]
fn micro_universe_triples() {
    let zero = Card(State::Zero, State::Zero, State::Zero, State::Zero);
    let one = Card(State::One, State::Zero, State::Zero, State::Zero);
    let two = Card(State::Two, State::Zero, State::Zero, State::Zero);
    // all three values present: a set
    assert!(is_set(&zero, &one, &two));
    // a repeated value with a third different one: no set
    assert!(!is_set(&zero, &zero, &one));
    // the same card three times: trivially a set
    assert!(is_set(&one, &one, &one));
}
