use liars_dice::game::{Action, GameState, DICE_FACES};

fn state(hand_p1: Vec<u8>, hand_p2: Vec<u8>) -> GameState {
    GameState::from_hands(hand_p1, hand_p2)
}

fn all_bids(from_quantity: u8, to_quantity: u8) -> Vec<Action> {
    let mut bids = Vec::new();
    for q in from_quantity..=to_quantity {
        for f in 1..=6u8 {
            bids.push(Action::Bid(q, f));
        }
    }
    bids
}

#[test]
fn dice_have_six_faces() {
    assert_eq!(DICE_FACES, 6);
}

#[test]
fn opening_moves_are_all_bids_quantity_major() {
    let game = state(vec![3], vec![5]);
    let actions = game.get_valid_actions();
    assert_eq!(actions.len(), 12);
    assert_eq!(actions, all_bids(1, 2));
    assert_eq!(actions[0], Action::Bid(1, 1));
    assert_eq!(actions[5], Action::Bid(1, 6));
    assert_eq!(actions[6], Action::Bid(2, 1));
    assert_eq!(actions[11], Action::Bid(2, 6));
}

#[test]
fn moves_after_a_bid_start_with_challenge() {
    let mut game = state(vec![3], vec![5]);
    assert!(!game.apply_action(Action::Bid(1, 4)));
    let actions = game.get_valid_actions();
    let mut expected = vec![Action::Challenge, Action::Bid(1, 5), Action::Bid(1, 6)];
    expected.extend(all_bids(2, 2));
    assert_eq!(actions, expected);
    assert_eq!(actions.len(), 9);
}

#[test]
fn highest_bid_leaves_only_the_challenge() {
    let mut game = state(vec![3], vec![5]);
    game.apply_action(Action::Bid(2, 6));
    assert_eq!(game.get_valid_actions(), vec![Action::Challenge]);
}

#[test]
fn top_face_leaves_only_higher_quantities() {
    let mut game = state(vec![1, 2], vec![3]);
    game.apply_action(Action::Bid(1, 6));
    let mut expected = vec![Action::Challenge];
    expected.extend(all_bids(2, 3));
    assert_eq!(game.get_valid_actions(), expected);
}

#[test]
fn empty_table_has_no_opening_move() {
    let game = state(vec![], vec![]);
    assert!(game.get_valid_actions().is_empty());
}

#[test]
fn empty_table_with_a_bid_can_still_challenge() {
    let mut game = state(vec![], vec![]);
    game.current_bid = Some((1, 6));
    assert_eq!(game.get_valid_actions(), vec![Action::Challenge]);
}

#[test]
fn full_table_of_u8_is_handled() {
    let game = GameState {
        dice_p1: 200,
        dice_p2: 55,
        hand_p1: vec![1; 200],
        hand_p2: vec![2; 55],
        current_bid: Some((255, 5)),
        history: vec![Action::Bid(255, 5)],
        current_player: 1,
    };
    assert_eq!(game.get_valid_actions(), vec![Action::Challenge, Action::Bid(255, 6)]);
    let opening = GameState { current_bid: None, history: vec![], current_player: 0, ..game };
    let actions = opening.get_valid_actions();
    assert_eq!(actions.len(), 255 * 6);
    assert_eq!(actions[255 * 6 - 1], Action::Bid(255, 6));
}

#[test]
fn bids_stay_within_the_table() {
    for (dice_p1, dice_p2) in [(1u8, 1u8), (2, 1), (3, 3), (0, 1)] {
        let mut game = GameState::new(dice_p1, dice_p2);
        let total = dice_p1 + dice_p2;
        loop {
            let actions = game.get_valid_actions();
            assert!(!actions.is_empty());
            for action in &actions {
                if let Action::Bid(q, f) = action {
                    assert!(1 <= *q && *q <= total);
                    assert!(1 <= *f && *f <= 6);
                }
            }
            match actions.iter().find(|a| **a != Action::Challenge) {
                Some(bid) => {
                    game.apply_action(*bid);
                }
                None => break,
            }
        }
        assert_eq!(game.history.len(), 6 * total as usize);
    }
}

#[test]
fn a_bid_is_recorded_and_passes_the_turn() {
    let mut game = state(vec![2, 2], vec![4]);
    let terminal = game.apply_action(Action::Bid(2, 3));
    assert!(!terminal);
    assert_eq!(game.current_bid, Some((2, 3)));
    assert_eq!(game.history, vec![Action::Bid(2, 3)]);
    assert_eq!(game.current_player, 1);
    assert_eq!(game.hand_p1, vec![2, 2]);
    assert_eq!(game.hand_p2, vec![4]);
    assert_eq!((game.dice_p1, game.dice_p2), (2, 1));

    assert!(!game.apply_action(Action::Bid(3, 1)));
    assert_eq!(game.current_bid, Some((3, 1)));
    assert_eq!(game.history, vec![Action::Bid(2, 3), Action::Bid(3, 1)]);
    assert_eq!(game.current_player, 0);
}

#[test]
fn a_challenge_ends_the_game_and_changes_nothing() {
    let mut game = state(vec![2, 2], vec![4]);
    game.apply_action(Action::Bid(2, 3));
    let terminal = game.apply_action(Action::Challenge);
    assert!(terminal);
    assert_eq!(game.current_bid, Some((2, 3)));
    assert_eq!(game.history, vec![Action::Bid(2, 3)]);
    assert_eq!(game.current_player, 1);
}

#[test]
fn challenger_loses_when_the_bid_holds() {
    let mut game = state(vec![1, 2], vec![2, 3]);
    game.apply_action(Action::Bid(2, 2));
    assert!(game.apply_action(Action::Challenge));
    assert_eq!(game.get_payoff(), -1);
}

#[test]
fn challenger_wins_when_the_bid_fails() {
    let mut game = state(vec![1, 2], vec![2, 3]);
    game.apply_action(Action::Bid(3, 2));
    assert_eq!(game.get_payoff(), 1);
    game.current_bid = Some((1, 6));
    assert_eq!(game.get_payoff(), 1);
}

#[test]
fn payoff_counts_both_hands() {
    let mut game = state(vec![5, 5, 5], vec![5, 5]);
    game.current_bid = Some((5, 5));
    assert_eq!(game.get_payoff(), -1);
    game.current_bid = Some((6, 5));
    assert_eq!(game.get_payoff(), 1);
    game.current_bid = Some((0, 4));
    assert_eq!(game.get_payoff(), -1);
}

#[test]
fn payoff_without_a_bid_is_zero() {
    let game = state(vec![1, 2], vec![2, 3]);
    assert_eq!(game.get_payoff(), 0);
}

#[test]
fn payoff_is_never_zero_with_a_bid() {
    let hands = [vec![1u8, 1], vec![1, 6], vec![3, 4], vec![6, 6]];
    for hand_p1 in &hands {
        for hand_p2 in &hands {
            for q in 0..=5u8 {
                for f in 1..=6u8 {
                    let mut game = state(hand_p1.clone(), hand_p2.clone());
                    game.current_bid = Some((q, f));
                    let shown = hand_p1.iter().chain(hand_p2.iter()).filter(|d| **d == f).count();
                    let expected = if shown >= q as usize { -1 } else { 1 };
                    assert_eq!(game.get_payoff(), expected);
                }
            }
        }
    }
}

#[test]
fn key_of_the_opening_state() {
    let game = state(vec![3, 1], vec![5, 2]);
    assert_eq!(game.get_information_set(), "13|none|0");
}

#[test]
fn key_shows_the_acting_hand_the_bid_and_the_count() {
    let mut game = state(vec![3, 1], vec![5, 2]);
    game.apply_action(Action::Bid(1, 2));
    assert_eq!(game.get_information_set(), "25|1-2|1");
    game.apply_action(Action::Bid(4, 6));
    assert_eq!(game.get_information_set(), "13|4-6|2");
}

#[test]
fn key_forgets_which_bids_came_before() {
    let mut one = state(vec![4], vec![6]);
    one.apply_action(Action::Bid(1, 1));
    one.apply_action(Action::Bid(1, 5));
    let mut other = state(vec![4], vec![2]);
    other.apply_action(Action::Bid(1, 3));
    other.apply_action(Action::Bid(1, 5));
    assert_eq!(one.get_information_set(), other.get_information_set());
    assert_eq!(one.get_information_set(), "4|1-5|2");
}

#[test]
fn key_writes_numbers_in_decimal() {
    let game = GameState {
        dice_p1: 0,
        dice_p2: 0,
        hand_p1: vec![],
        hand_p2: vec![],
        current_bid: Some((120, 255)),
        history: vec![Action::Bid(1, 1); 1203],
        current_player: 0,
    };
    assert_eq!(game.get_information_set(), "|120-255|1203");
    let game = GameState { current_bid: Some((0, 10)), history: vec![Action::Bid(1, 1); 10], ..game };
    assert_eq!(game.get_information_set(), "|0-10|10");
}

#[test]
fn from_hands_puts_each_hand_in_order() {
    let game = state(vec![6, 1, 4, 1, 3], vec![2, 2, 1]);
    assert_eq!(game.hand_p1, vec![1, 1, 3, 4, 6]);
    assert_eq!(game.hand_p2, vec![1, 2, 2]);
    assert_eq!(game.dice_p1, 5);
    assert_eq!(game.dice_p2, 3);
    assert_eq!(game.current_bid, None);
    assert!(game.history.is_empty());
    assert_eq!(game.current_player, 0);
}

#[test]
fn new_deals_ordered_hands_of_real_dice() {
    for _ in 0..50 {
        let game = GameState::new(5, 3);
        assert_eq!(game.dice_p1, 5);
        assert_eq!(game.dice_p2, 3);
        assert_eq!(game.hand_p1.len(), 5);
        assert_eq!(game.hand_p2.len(), 3);
        for hand in [&game.hand_p1, &game.hand_p2] {
            assert!(hand.iter().all(|d| 1 <= *d && *d <= 6));
            assert!(hand.windows(2).all(|w| w[0] <= w[1]));
        }
        assert_eq!(game.current_bid, None);
        assert!(game.history.is_empty());
        assert_eq!(game.current_player, 0);
    }
}

#[test]
fn new_rolls_more_than_one_face() {
    let game = GameState::new(200, 200);
    let dice: Vec<u8> = game.hand_p1.iter().chain(game.hand_p2.iter()).copied().collect();
    assert_eq!(dice.len(), 400);
    assert!(dice.iter().any(|d| *d != 1));
    assert!(dice.iter().any(|d| *d != 6));
    assert!(dice.iter().all(|d| 1 <= *d && *d <= 6));
}
