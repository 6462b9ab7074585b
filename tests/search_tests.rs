use scout::cards::{build_deck, Card};
use scout::deals::{build_oriented_hands, uu_cards_to_hands, HandIter};
use scout::engine::GameState;
use scout::moves::MoveIter;
use scout::tree::walk_games;

fn factorial(k: usize) -> usize {
    if k == 1 {
        1
    } else {
        k * factorial(k - 1)
    }
}

#[test]
fn test_iter_orientations() {
    let state = GameState::new_from_seed(4, 0, 123);
    let move_iter = MoveIter::new(&state.public_state, &state.player_one_hidden_state);
    assert_eq!(move_iter.count(), 2);
}

#[test]
fn test_walker_small() {
    let state = GameState::new_from_seed(4, 0, 123);
    let mut finished: Vec<GameState> = Vec::new();
    walk_games(state, &mut finished);
    let count = finished.iter().filter(|s| s.public_state.game_complete).count();
    // only the orientation choices branch: 2 x 2 games
    assert_eq!(count, 4);
}

#[test]
fn test_walker_medium() {
    let state = GameState::new_from_seed(6, 1, 123);
    let mut finished: Vec<GameState> = Vec::new();
    walk_games(state, &mut finished);
    // Every scout move is explored: both ends of the board (one end when
    // it holds a single card), both faces, at every insertion index up to
    // and including the hand's length. A walk that tried only one end and
    // face per index, and never the last index, counted 4040 games here.
    assert_eq!(finished.len(), 45830);
}

#[test]
fn test_oriented_uu_cards_to_hands_one() {
    let cards = vec![Card { first: 1, second: 2 }];

    let hands = uu_cards_to_hands(&cards);
    assert_eq!(hands.len(), 2);
}

#[test]
fn test_oriented_uu_cards_to_hands_iter() {
    let cards = vec![Card { first: 1, second: 2 }, Card { first: 3, second: 4 }];

    let hands = build_oriented_hands(&cards);
    // 2 cards * 2 orientations for player one * 2 for player two = 8
    assert_eq!(hands.len(), 8);
}

#[test]
fn test_oriented_hand_four_cards() {
    let cards = vec![
        Card { first: 1, second: 2 },
        Card { first: 1, second: 3 },
        Card { first: 2, second: 3 },
        Card { first: 3, second: 4 },
    ];

    let hands = build_oriented_hands(&cards);
    // 4! perms * 2^4 orientations
    assert_eq!(hands.len(), (factorial(4) * 2u32.pow(4) as usize));
}

#[test]
fn test_generate_a_few_hands() {
    let deck = build_deck(4);
    assert_eq!(deck.len(), 4);
    let mut hand_iter = HandIter::new(&deck);
    let hand = hand_iter.next();
    assert!(hand.is_some());
    let hand = hand_iter.next();
    assert!(hand.is_some());
}

#[test]
fn test_generate_enough_hands() {
    let deck = build_deck(4);
    assert_eq!(deck.len(), 4);
    let mut hand_iter = HandIter::new(&deck);
    let mut hands = Vec::new();
    while let Some(hand) = hand_iter.next() {
        hands.push(hand);
    }
    // 4 choices for card 1, 3 for card 2, and each card is either larger or smaller
    assert_eq!(hands.len(), (factorial(4) / factorial(2) * 2u32.pow(2) as usize));
}

#[test]
fn test_generate_six_num_max_hands() {
    let deck = build_deck(6);
    // 3 cards each player
    assert_eq!(deck.len(), 12);
    let mut hand_iter = HandIter::new(&deck);
    let mut count: usize = 0;
    while hand_iter.next().is_some() {
        count += 1;
    }
    assert_eq!(count, (factorial(12) / factorial(6) * 2u32.pow(3 * 2) as usize));
}
