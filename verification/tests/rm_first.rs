use set_simulator::card::{is_set, Card, State};
use set_simulator::deck::shuffle_cards;
use set_simulator::rm_first_set::{
    find_set_all, find_set_part, parse_results, play_game, render_results, GameResult, SetSearch,
    SETLESS, SETS, SIZE12, SIZE15, SIZE18,
};

fn card(a: usize, b: usize, c: usize, d: usize) -> Card {
    Card(State::new(a), State::new(b), State::new(c), State::new(d))
}

#[test]
fn full_search_reports_first_set() {
    // positions 0, 1, 2 form a set; so do 0, 3, 4; the scan finds the
    // lexicographically first one
    let hand = vec![
        card(0, 0, 0, 0),
        card(1, 1, 1, 1),
        card(2, 2, 2, 2),
        card(1, 0, 0, 0),
        card(2, 0, 0, 0),
    ];
    match find_set_all(&hand) {
        SetSearch::Found(x, y, z) => assert_eq!((x, y, z), (0, 1, 2)),
        SetSearch::NotFound => panic!("a set was present"),
    }
}

#[test]
fn full_search_reports_setless_hands() {
    // three cards that differ in exactly one characteristic pattern that
    // cannot complete: two equal first states and one different
    let hand = vec![card(0, 0, 0, 0), card(0, 0, 0, 1), card(1, 0, 0, 0)];
    assert!(matches!(find_set_all(&hand), SetSearch::NotFound));
}

#[test]
fn partial_search_sees_only_new_cards() {
    // the first three cards hold a set, but the last three cards are inert
    // and complete nothing: the partial search must not report the old set
    let hand = vec![
        card(0, 0, 0, 0),
        card(1, 1, 1, 1),
        card(2, 2, 2, 2),
        card(0, 0, 0, 1),
        card(0, 0, 1, 0),
        card(0, 1, 1, 1),
    ];
    assert!(matches!(find_set_part(&hand), SetSearch::NotFound));
}

#[test]
fn partial_search_finds_sets_with_new_cards() {
    // the last card completes a set with two old cards
    let hand = vec![
        card(0, 0, 0, 0),
        card(1, 1, 1, 1),
        card(0, 0, 0, 1),
        card(0, 1, 0, 0),
        card(1, 0, 1, 1),
        card(2, 2, 2, 2),
    ];
    match find_set_part(&hand) {
        SetSearch::Found(x, y, z) => {
            let mut p = vec![x, y, z];
            p.sort();
            assert!(p[2] >= 3, "the reported set must use a new card");
            assert_eq!(p, vec![0, 1, 5]);
        },
        SetSearch::NotFound => panic!("a set with a new card was present"),
    }
}

#[test]
fn grids_parse_and_render_back() {
    let mut text = String::from("deals,setless12,set12,setless15,set15,setless18,set18");
    for d in 0..24 {
        text.push_str(&format!("\n{},{},{},{},{},{},{}", d, d, 1, 0, 2, 0, 3));
    }
    let gr = parse_results(&text).expect("a well-formed grid");
    assert_eq!(gr.get(5, SIZE12, SETLESS), 5);
    assert_eq!(gr.get(5, SIZE12, SETS), 1);
    assert_eq!(gr.get(7, SIZE15, SETLESS), 0);
    assert_eq!(gr.get(7, SIZE15, SETS), 2);
    assert_eq!(gr.get(23, SIZE18, SETLESS), 0);
    assert_eq!(gr.get(23, SIZE18, SETS), 3);
    assert_eq!(render_results(&gr), text);
}

#[test]
fn malformed_grids_are_rejected() {
    assert!(parse_results("deals\n0,1,2").is_none());
    assert!(parse_results("h\n24,0,0,0,0,0,0").is_none());
    assert!(parse_results("h\n0,1,2,3,4,5,-6").is_none());
    // an empty text has only a header and yields the zero grid
    let zero = parse_results("").expect("empty grid");
    assert_eq!(zero.get(0, SIZE12, SETS), 0);
}

#[test]
fn grids_combine_cell_by_cell() {
    let a = parse_results("h\n0,1,2,3,4,5,6").unwrap();
    let b = parse_results("h\n0,10,20,30,40,50,60\n1,7,0,0,0,0,0").unwrap();
    let sum = a.add(&b);
    assert_eq!(sum.get(0, SIZE12, SETLESS), 11);
    assert_eq!(sum.get(0, SIZE12, SETS), 22);
    assert_eq!(sum.get(0, SIZE15, SETLESS), 33);
    assert_eq!(sum.get(0, SIZE15, SETS), 44);
    assert_eq!(sum.get(0, SIZE18, SETLESS), 55);
    assert_eq!(sum.get(0, SIZE18, SETS), 66);
    assert_eq!(sum.get(1, SIZE12, SETLESS), 7);
    assert_eq!(sum.get(2, SIZE12, SETLESS), 0);
}

#[test]
fn totals_sum_over_all_deals() {
    let gr = parse_results("h\n0,1,2,3,4,5,6\n9,10,20,30,40,50,60").unwrap();
    let t = gr.totals().expect("small counts cannot overflow");
    assert_eq!(t.len(), 6);
    assert_eq!(t[SIZE12 * 2 + SETS], 22);
    assert_eq!(t[SIZE12 * 2 + SETLESS], 11);
    assert_eq!(t[SIZE15 * 2 + SETS], 44);
    assert_eq!(t[SIZE15 * 2 + SETLESS], 33);
    assert_eq!(t[SIZE18 * 2 + SETS], 66);
    assert_eq!(t[SIZE18 * 2 + SETLESS], 55);
}

/// The full scan of the replay: the lexicographically first set.
fn oracle_scan_all(hand: &Vec<Card>) -> Option<(usize, usize, usize)> {
    for x in 0..hand.len() {
        for y in (x + 1)..hand.len() {
            for z in (y + 1)..hand.len() {
                if is_set(&hand[x], &hand[y], &hand[z]) {
                    return Some((x, y, z));
                }
            }
        }
    }
    None
}

/// The partial scan of the replay: first a new card against old pairs, then
/// old cards against new pairs, then the all-new triple.
fn oracle_scan_part(hand: &Vec<Card>) -> Option<(usize, usize, usize)> {
    let len = hand.len();
    let split = len - 3;
    for x in split..len {
        for y in 0..split {
            for z in (y + 1)..split {
                if is_set(&hand[x], &hand[y], &hand[z]) {
                    return Some((x, y, z));
                }
            }
        }
    }
    for x in 0..split {
        for y in split..len {
            for z in (y + 1)..len {
                if is_set(&hand[x], &hand[y], &hand[z]) {
                    return Some((x, y, z));
                }
            }
        }
    }
    if is_set(&hand[split], &hand[split + 1], &hand[split + 2]) {
        return Some((split, split + 1, split + 2));
    }
    None
}

/// An independent replay of the remove-first game with plain rescans,
/// yielding the counter grid laid out as (deals * 3 + size) * 2 + kind.
fn oracle_first_game(mut deck: Vec<Card>) -> Option<Vec<i64>> {
    let mut grid = vec![0i64; 144];
    let mut hand: Vec<Card> = Vec::new();
    for _ in 0..12 {
        hand.push(deck.pop().unwrap());
    }
    let mut found = oracle_scan_all(&hand);
    loop {
        let deals = 23 - deck.len() / 3;
        match found {
            Some((x, y, z)) => {
                let size = hand.len();
                if size == 12 {
                    grid[(deals * 3 + SIZE12) * 2 + SETS] += 1;
                    if deck.is_empty() {
                        return Some(grid);
                    }
                    for _ in 0..3 {
                        hand.push(deck.pop().unwrap());
                    }
                } else if size == 15 {
                    grid[(deals * 3 + SIZE15) * 2 + SETS] += 1;
                } else if size == 18 {
                    grid[(deals * 3 + SIZE18) * 2 + SETS] += 1;
                }
                let mut rm = [x, y, z];
                rm.sort();
                hand.remove(rm[2]);
                hand.remove(rm[1]);
                hand.remove(rm[0]);
                found = oracle_scan_all(&hand);
            },
            None => {
                let size = hand.len();
                if size == 12 {
                    grid[(deals * 3 + SIZE12) * 2 + SETLESS] += 1;
                } else if size == 15 {
                    grid[(deals * 3 + SIZE15) * 2 + SETLESS] += 1;
                } else if size == 18 {
                    grid[(deals * 3 + SIZE18) * 2 + SETLESS] += 1;
                } else {
                    return None;
                }
                if deck.is_empty() {
                    return Some(grid);
                }
                for _ in 0..3 {
                    hand.push(deck.pop().unwrap());
                }
                found = oracle_scan_part(&hand);
            },
        }
    }
}

/// A fixed-deck remove-first game fills the same grid, cell for cell, as an
/// independent replay of the same rules.
#[test]
fn fixed_first_game_matches_independent_replay() {
    let mut deck = Vec::new();
    for i in 0..3 {
        for j in 0..3 {
            for k in 0..3 {
                for l in 0..3 {
                    deck.push(card(i, j, k, l));
                }
            }
        }
    }
    let expected = oracle_first_game(deck.clone()).expect("the fixed deck plays to exhaustion");
    let gr = play_game(deck).expect("the fixed deck plays to exhaustion");
    for d in 0..24 {
        for s in 0..3 {
            for k in 0..2 {
                assert_eq!(gr.get(d, s, k), expected[(d * 3 + s) * 2 + k]);
            }
        }
    }
}

#[test]
fn whole_games_fill_the_grid() {
    for _ in 0..3 {
        let deck = shuffle_cards();
        let gr = play_game(deck).expect("full decks never leave a setless 21-card hand");
        let t = gr.totals().expect("one game cannot overflow");
        // every step of a game lands in some counter; a game records at
        // least its 23 deal decisions somewhere
        let total: i64 = t.iter().sum();
        assert!(total >= 23);
    }
}
