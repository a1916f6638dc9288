use set_simulator::card::{is_set, Card, State};
use set_simulator::deck::shuffle_cards;
use set_simulator::find_all_sets::{play_game, Chooser, Hand, TrackedSet};
use set_simulator::{HandType, Info};

/// The deck in its fixed base-3 order, used whenever a reproducible game is
/// wanted.
fn ordered_deck() -> Vec<Card> {
    let mut deck = Vec::new();
    for i in 0..3 {
        for j in 0..3 {
            for k in 0..3 {
                for l in 0..3 {
                    deck.push(Card(
                        State::new(i),
                        State::new(j),
                        State::new(k),
                        State::new(l),
                    ));
                }
            }
        }
    }
    deck
}

fn triples(sets: &Vec<TrackedSet>) -> Vec<(usize, usize, usize)> {
    let mut v: Vec<(usize, usize, usize)> = sets
        .iter()
        .map(|t| (t.first, t.second, t.third))
        .collect();
    v.sort();
    v
}

fn brute_force_triples(cards: &Vec<Card>) -> Vec<(usize, usize, usize)> {
    let mut v = Vec::new();
    for i in 0..cards.len() {
        for j in (i + 1)..cards.len() {
            for k in (j + 1)..cards.len() {
                if is_set(&cards[i], &cards[j], &cards[k]) {
                    v.push((i, j, k));
                }
            }
        }
    }
    v
}

/// The engine's list equals a fresh full scan, as a set of position triples.
fn assert_tracked_matches_scan(hand: &Hand) {
    let engine_list = triples(hand.tracked_sets());
    let scanned = brute_force_triples(hand.cards_list());
    assert_eq!(engine_list, scanned);
}

/// Completeness of incremental discovery: across a whole game of deals and
/// removals, the engine's list always equals a full rescan of the hand.
#[test]
fn incremental_discovery_matches_full_rescan() {
    let mut deck = shuffle_cards();
    let mut hand = Hand::new(&mut deck);
    assert_eq!(hand.size(), 12);
    assert_tracked_matches_scan(&hand);
    loop {
        if hand.num_sets() == 0 || hand.size() < 12 {
            if deck.len() < 3 {
                break;
            }
            let a = deck.pop().unwrap();
            let b = deck.pop().unwrap();
            let c = deck.pop().unwrap();
            hand.find_new_sets(a, b, c);
            assert_tracked_matches_scan(&hand);
        } else {
            hand.rm_set();
            assert_tracked_matches_scan(&hand);
        }
    }
}

/// Re-index correctness: after a removal every surviving record points, by
/// card identity, at the very cards it pointed at before.
#[test]
fn reindexing_preserves_referenced_cards() {
    // run a few games so removals hit many shapes
    for _ in 0..5 {
        let mut deck = shuffle_cards();
        let mut hand = Hand::new(&mut deck);
        while deck.len() >= 3 {
            while hand.num_sets() > 0 && hand.size() >= 12 {
                let before_cards = hand.cards_list().clone();
                let before_sets = hand.tracked_sets().clone();
                let removed = hand.rm_set_at(0);
                let after_cards = hand.cards_list().clone();
                let after_sets = hand.tracked_sets().clone();
                // survivors are exactly the old records disjoint from the
                // removed one, and each still references the same cards
                let mut expected: Vec<(Card, Card, Card)> = Vec::new();
                for t in &before_sets {
                    let shares = [t.first, t.second, t.third]
                        .iter()
                        .any(|&p| p == removed.first || p == removed.second || p == removed.third);
                    if !shares {
                        expected.push((
                            before_cards[t.first],
                            before_cards[t.second],
                            before_cards[t.third],
                        ));
                    }
                }
                let mut got: Vec<(Card, Card, Card)> = after_sets
                    .iter()
                    .map(|t| (after_cards[t.first], after_cards[t.second], after_cards[t.third]))
                    .collect();
                // order of survivors is preserved by the engine
                assert_eq!(got.len(), expected.len());
                got.iter().zip(expected.iter()).for_each(|(g, e)| assert_eq!(g, e));
            }
            if deck.len() < 3 {
                break;
            }
            let a = deck.pop().unwrap();
            let b = deck.pop().unwrap();
            let c = deck.pop().unwrap();
            hand.find_new_sets(a, b, c);
        }
    }
}

/// An independent replay that mirrors the engine's list order: initial full
/// scan in lexicographic order, per-deal discovery in the three-scan order,
/// and removal keeping survivors in order with shifted positions.
fn oracle_game_ordered(mut deck: Vec<Card>) -> Vec<Info> {
    let mut hand: Vec<Card> = Vec::new();
    for _ in 0..12 {
        hand.push(deck.pop().unwrap());
    }
    let mut sets: Vec<(usize, usize, usize)> = brute_force_triples(&hand);
    let mut deals = 0usize;
    let mut hand_type = HandType::Ascending;
    let mut data = Vec::new();
    loop {
        data.push(Info {
            set_count: sets.len(),
            hand_size: hand.len(),
            deals,
            hand_type,
        });
        if deals == 23 {
            break;
        }
        let deal_now = sets.is_empty();
        if !deal_now {
            // remove the first record
            let (x, y, z) = sets[0];
            let rm = [x, y, z];
            sets.retain(|&(a, b, c)| {
                ![a, b, c].iter().any(|p| rm.contains(p))
            });
            let shift = |d: usize| d - rm.iter().filter(|&&r| r < d).count();
            sets = sets
                .iter()
                .map(|&(a, b, c)| (shift(a), shift(b), shift(c)))
                .collect();
            hand.remove(z);
            hand.remove(y);
            hand.remove(x);
        }
        if deal_now || hand.len() < 12 {
            let old_len = hand.len();
            for _ in 0..3 {
                hand.push(deck.pop().unwrap());
            }
            // one new card with an old pair
            for d in old_len..old_len + 3 {
                for i in 0..old_len {
                    for j in (i + 1)..old_len {
                        if is_set(&hand[i], &hand[j], &hand[d]) {
                            sets.push((i, j, d));
                        }
                    }
                }
            }
            // two new cards with an old card
            for (p, q) in [
                (old_len, old_len + 1),
                (old_len, old_len + 2),
                (old_len + 1, old_len + 2),
            ] {
                for i in 0..old_len {
                    if is_set(&hand[i], &hand[p], &hand[q]) {
                        sets.push((i, p, q));
                    }
                }
            }
            // the all-new triple
            if is_set(&hand[old_len], &hand[old_len + 1], &hand[old_len + 2]) {
                sets.push((old_len, old_len + 1, old_len + 2));
            }
            deals += 1;
            hand_type = HandType::Ascending;
        } else {
            hand_type = HandType::Descending;
        }
    }
    data
}

/// One full game from a fixed deck order with the fixed first-set chooser:
/// the exact sequence of recorded snapshots matches an independent replay.
#[test]
fn fixed_game_trace_matches_independent_replay() {
    let deck = ordered_deck();
    let trace = play_game(deck.clone(), &Chooser::First);
    let expected = oracle_game_ordered(deck);
    assert_eq!(trace, expected);
    assert_eq!(trace[0].hand_size, 12);
    assert_eq!(trace[0].deals, 0);
    assert_eq!(trace[0].hand_type, HandType::Ascending);
    assert_eq!(trace.last().unwrap().deals, 23);
}

/// Deck exhaustion accounting: at the end of a full game the dealt cards
/// (12 + 3 per deal) are the whole deck, and the cards removed in sets are
/// exactly what is no longer in hand.
#[test]
fn deck_exhaustion_accounting() {
    for _ in 0..3 {
        let deck = shuffle_cards();
        let trace = play_game(deck, &Chooser::Random);
        let last = trace.last().unwrap();
        assert_eq!(12 + 3 * last.deals, 81);
        // one removal per snapshot that showed a set, except the final one
        let removals = trace[..trace.len() - 1]
            .iter()
            .filter(|s| s.set_count > 0)
            .count();
        assert_eq!(last.hand_size + 3 * removals, 81);
    }
}

/// The initial hand scans the entire 12 cards, not only the first 9: a deck
/// arranged so that the three highest hand positions form a set must have
/// that set discovered by the initial scan.
#[test]
fn initial_scan_covers_whole_hand() {
    fn c(a: usize, b: usize, k: usize, l: usize) -> Card {
        Card(State::new(a), State::new(b), State::new(k), State::new(l))
    }
    // the hand receives the last 12 cards of the deck, popped from its tail,
    // so hand position m holds the card at deck position 80 - m
    let dozen = [
        c(0, 0, 1, 2),
        c(0, 1, 0, 2),
        c(0, 1, 1, 0),
        c(1, 0, 2, 2),
        c(1, 2, 0, 0),
        c(1, 2, 2, 1),
        c(2, 0, 0, 1),
        c(2, 1, 2, 0),
        c(2, 2, 1, 1),
        c(0, 0, 0, 0),
        c(1, 1, 1, 1),
        c(2, 2, 2, 2),
    ];
    let mut deck = vec![c(0, 0, 0, 1); 69];
    for card in dozen.iter().rev() {
        deck.push(*card);
    }
    assert_eq!(deck.len(), 81);
    let hand = Hand::new(&mut deck);
    assert_eq!(deck.len(), 69);
    let engine_list: Vec<(usize, usize, usize)> = hand
        .tracked_sets()
        .iter()
        .map(|t| (t.first, t.second, t.third))
        .collect();
    // the set at the top of the hand, beyond the first 9 positions, is seen
    assert!(engine_list.contains(&(9, 10, 11)));
    assert_tracked_matches_scan(&hand);
}
