use std::collections::HashMap;

use liars_dice::deal::sort_hand;
use liars_dice::game::{Action, Branch, GameState};
use liars_dice::info_set::InformationSet;
use liars_dice::text::append_decimal;

/// What a walk of the whole tree meets, in the order in which it meets it.
#[derive(Debug, PartialEq)]
enum Visit {
    Node(String, usize),
    Leaf(i8),
}

fn walk(game: &GameState, visits: &mut Vec<Visit>) {
    let actions = game.get_valid_actions();
    visits.push(Visit::Node(game.get_information_set(), actions.len()));
    for action in actions {
        match game.play(action) {
            Branch::Terminal(payoff) => visits.push(Visit::Leaf(payoff)),
            Branch::Child(next) => walk(&next, visits),
        }
    }
}

#[test]
fn play_follows_a_bid_and_keeps_the_state() {
    let game = GameState::from_hands(vec![2, 2], vec![4]);
    match game.play(Action::Bid(2, 3)) {
        Branch::Child(next) => {
            assert_eq!(next.current_bid, Some((2, 3)));
            assert_eq!(next.history, vec![Action::Bid(2, 3)]);
            assert_eq!(next.current_player, 1);
            assert_eq!(next.hand_p1, vec![2, 2]);
            assert_eq!(next.hand_p2, vec![4]);
            assert_eq!((next.dice_p1, next.dice_p2), (2, 1));
        }
        Branch::Terminal(_) => panic!("a bid does not end the game"),
    }
    assert_eq!(game.current_bid, None);
    assert!(game.history.is_empty());
    assert_eq!(game.current_player, 0);
}

#[test]
fn play_ends_the_game_on_a_challenge() {
    let mut game = GameState::from_hands(vec![2, 2], vec![4]);
    game.apply_action(Action::Bid(2, 2));
    assert!(matches!(game.play(Action::Challenge), Branch::Terminal(-1)));
    game.apply_action(Action::Bid(3, 2));
    assert!(matches!(game.play(Action::Challenge), Branch::Terminal(1)));
    let opening = GameState::from_hands(vec![2, 2], vec![4]);
    assert!(matches!(opening.play(Action::Challenge), Branch::Terminal(0)));
}

#[test]
fn the_same_hands_give_the_same_walk() {
    let mut first = Vec::new();
    walk(&GameState::from_hands(vec![3], vec![5]), &mut first);
    let mut second = Vec::new();
    walk(&GameState::from_hands(vec![3], vec![5]), &mut second);
    assert_eq!(first, second);
    assert_eq!(first[0], Visit::Node("3|none|0".to_string(), 12));
    assert_eq!(first[1], Visit::Node("5|1-1|1".to_string(), 12));
    assert_eq!(first[2], Visit::Leaf(1));
    assert_eq!(first[3], Visit::Node("3|1-2|2".to_string(), 11));
}

#[test]
fn every_leaf_of_the_tree_pays_one_way_or_the_other() {
    let mut visits = Vec::new();
    walk(&GameState::from_hands(vec![3], vec![3]), &mut visits);
    let nodes = visits.iter().filter(|v| matches!(v, Visit::Node(..))).count();
    let leaves: Vec<i8> = visits
        .iter()
        .filter_map(|v| if let Visit::Leaf(p) = v { Some(*p) } else { None })
        .collect();
    assert_eq!(nodes, 1 << 12);
    assert_eq!(leaves.len(), (1 << 12) - 1);
    assert!(leaves.iter().all(|p| *p == 1 || *p == -1));
    // Two dice show 3: the bids (1,3) and (2,3) hold and nothing bid higher does.
    let held = leaves.iter().filter(|p| **p == -1).count();
    let failed = leaves.iter().filter(|p| **p == 1).count();
    assert_eq!(held + failed, leaves.len());
    assert!(held > 0 && failed > 0);
}

#[test]
fn a_key_always_comes_with_the_same_moves() {
    let mut visits = Vec::new();
    for (hand_p1, hand_p2) in [(vec![1], vec![6]), (vec![6], vec![1]), (vec![1], vec![2])] {
        walk(&GameState::from_hands(hand_p1, hand_p2), &mut visits);
    }
    let mut moves_of: HashMap<String, usize> = HashMap::new();
    for visit in &visits {
        if let Visit::Node(key, moves) = visit {
            assert!(*moves >= 1);
            assert_eq!(*moves_of.entry(key.clone()).or_insert(*moves), *moves);
            let info = InformationSet::parse(key).unwrap();
            let mut table = GameState::from_hands(vec![1], vec![1]);
            table.current_bid = info.current_bid;
            assert_eq!(table.get_valid_actions().len(), *moves);
        }
    }
    assert!(moves_of.len() < visits.len());
}

#[test]
fn the_game_ends_after_six_bids_for_each_die() {
    let mut game = GameState::from_hands(vec![4, 1], vec![2]);
    let mut bids = 0usize;
    loop {
        let actions = game.get_valid_actions();
        let lowest_bid = actions.iter().find(|a| matches!(a, Action::Bid(..))).copied();
        match lowest_bid {
            Some(bid) => {
                assert!(!game.apply_action(bid));
                bids += 1;
            }
            None => break,
        }
    }
    assert_eq!(bids, 18);
    assert_eq!(game.history.len(), 18);
    assert_eq!(game.current_bid, Some((3, 6)));
    assert_eq!(game.get_valid_actions(), vec![Action::Challenge]);
}

#[test]
fn sort_hand_orders_the_dice_and_keeps_them() {
    assert_eq!(sort_hand(&vec![6, 1, 4, 1, 3]), vec![1, 1, 3, 4, 6]);
    assert_eq!(sort_hand(&vec![]), Vec::<u8>::new());
    assert_eq!(sort_hand(&vec![2]), vec![2]);
    assert_eq!(sort_hand(&vec![5, 5, 5]), vec![5, 5, 5]);
    assert_eq!(sort_hand(&vec![255, 0, 7]), vec![0, 7, 255]);
    assert_eq!(sort_hand(&vec![6, 5, 4, 3, 2, 1]), vec![1, 2, 3, 4, 5, 6]);
}

#[test]
fn append_decimal_writes_numbers_without_leading_zeros() {
    for (number, text) in [
        (0usize, "0"),
        (7, "7"),
        (9, "9"),
        (10, "10"),
        (99, "99"),
        (100, "100"),
        (255, "255"),
        (1203, "1203"),
        (1_000_000, "1000000"),
    ] {
        let mut out = String::from("x");
        append_decimal(&mut out, number);
        assert_eq!(out, format!("x{}", text));
    }
    let mut out = String::new();
    append_decimal(&mut out, usize::MAX);
    assert_eq!(out, usize::MAX.to_string());
}
