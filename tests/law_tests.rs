use scout::cards::{build_card_set, build_deck, Card, CardSet, Orientation, OrientedCard};
use scout::deals::{build_oriented_hands, uu_cards_to_hands, HandIter};
use scout::engine::{
    Action, FlipHand, GameState, IllegalMoveReason, PickedCard, TransitionResult,
};
use scout::moves::{enumerate_legal_actions, MoveIter};
use scout::tree::{build_game_tree, count_games, count_nodes, walk_games, GameNode};

fn oc(first: u8, second: u8, orientation: Orientation) -> OrientedCard {
    OrientedCard { card: Card { first, second }, orientation }
}

fn total_cards(state: &GameState) -> usize {
    state.player_one_hidden_state.hand.len()
        + state.player_two_hidden_state.hand.len()
        + state.public_state.board.len()
        + state.public_state.player_one_won_cards as usize
        + state.public_state.player_two_won_cards as usize
}

fn finished_leaves(node: &GameNode) -> usize {
    if node.children.is_empty() {
        if node.state.public_state.game_complete {
            1
        } else {
            0
        }
    } else {
        node.children.iter().map(|(_, child)| finished_leaves(child)).sum()
    }
}

#[test]
fn ranking_orders_sets_by_size_then_kind_then_number() {
    assert!(CardSet::Consecutive(1, 3) > CardSet::Same(5, 2));
    assert!(CardSet::Same(3, 2) > CardSet::Same(3, 1));
    assert_eq!(
        CardSet::Same(3, 1).partial_cmp(&CardSet::Same(3, 1)),
        Some(std::cmp::Ordering::Equal)
    );
    assert!(CardSet::Same(2, 3) > CardSet::Consecutive(7, 9));
    assert!(CardSet::Consecutive(2, 4) > CardSet::Consecutive(1, 3));
    assert!(CardSet::Same(4, 2) > CardSet::Same(3, 2));
}

#[test]
fn deck_lengths_are_multiples_of_four() {
    assert_eq!(build_deck(10).len(), 44);
    assert_eq!(build_deck(4).len(), 4);
    for max in 4u8..=20 {
        assert_eq!(build_deck(max).len() % 4, 0);
    }
}

#[test]
fn deck_is_row_major_prefix() {
    let deck = build_deck(5);
    let expected: Vec<Card> = vec![(1, 2), (1, 3), (1, 4), (1, 5), (2, 3), (2, 4), (2, 5), (3, 4)]
        .into_iter()
        .map(|(first, second)| Card { first, second })
        .collect();
    assert_eq!(deck, expected);
}

#[test]
fn same_seed_gives_same_game() {
    let a = GameState::new_from_seed(10, 3, 77);
    let b = GameState::new_from_seed(10, 3, 77);
    assert_eq!(a, b);
    let c = GameState::new_from_seed(10, 3, 78);
    assert_ne!(a.player_one_hidden_state, c.player_one_hidden_state);
    assert_eq!(a.player_one_hidden_state.hand.len(), 11);
    assert_eq!(a.player_two_hidden_state.hand.len(), 11);
}

#[test]
fn classification_of_runs() {
    let s = Orientation::Smaller;
    assert_eq!(build_card_set(&[]), None);
    assert_eq!(
        build_card_set(&[oc(3, 4, s), oc(3, 5, s), oc(3, 6, s)]),
        Some(CardSet::Same(3, 3))
    );
    assert_eq!(
        build_card_set(&[oc(5, 6, s), oc(4, 6, s), oc(3, 6, s)]),
        Some(CardSet::Consecutive(3, 5))
    );
    assert_eq!(
        build_card_set(&[oc(3, 6, s), oc(4, 6, s), oc(5, 6, s)]),
        Some(CardSet::Consecutive(3, 5))
    );
    assert_eq!(build_card_set(&[oc(3, 6, s), oc(4, 6, s), oc(6, 7, s)]), None);
    assert_eq!(build_card_set(&[oc(3, 6, s), oc(4, 6, s), oc(3, 7, s)]), None);
}

#[test]
fn enumerated_moves_are_always_accepted() {
    let mut state = GameState::new_from_seed(8, 2, 9);
    while !state.public_state.game_complete {
        let actions = enumerate_legal_actions(&state);
        assert!(!actions.is_empty());
        for action in &actions {
            let mut copy = state.clone();
            let result = copy.transition(action);
            assert!(!matches!(result, TransitionResult::IllegalMove(_)), "{:?}", action);
        }
        let pick = actions[actions.len() / 2];
        state.transition(&pick);
    }
}

#[test]
fn cards_are_conserved_along_a_game() {
    let mut state = GameState::new_from_seed(10, 3, 5);
    let dealt = total_cards(&state);
    assert_eq!(dealt, 22);
    while !state.public_state.game_complete {
        let actions = enumerate_legal_actions(&state);
        let pick = actions[actions.len() - 1];
        state.transition(&pick);
        assert_eq!(total_cards(&state), dealt);
    }
}

#[test]
fn finished_game_refuses_every_move() {
    let mut state = GameState::new_from_seed(6, 0, 5);
    state.transition(&Action::ChooseOrientation(FlipHand::DoFlip));
    state.transition(&Action::ChooseOrientation(FlipHand::DoNotFlip));
    state.transition(&Action::PlayCards(2, 3));
    state.transition(&Action::PlayCards(1, 2));
    state.transition(&Action::PlayCards(0, 2));
    assert!(state.public_state.game_complete);
    let before = state.clone();
    for action in [
        Action::PlayCards(0, 1),
        Action::ChooseOrientation(FlipHand::DoFlip),
        Action::PlayScoutToken((PickedCard::FirstCard, 0, Orientation::Larger)),
    ] {
        let result = state.transition(&action);
        assert_eq!(result, TransitionResult::IllegalMove(IllegalMoveReason::GameComplete));
        assert_eq!(state, before);
    }
}

#[test]
fn history_logs_the_player_who_moved() {
    let mut state = GameState::new_from_seed(6, 0, 5);
    state.transition(&Action::ChooseOrientation(FlipHand::DoFlip));
    state.transition(&Action::ChooseOrientation(FlipHand::DoNotFlip));
    let refused = state.transition(&Action::PlayCards(3, 1));
    assert_eq!(refused, TransitionResult::IllegalMove(IllegalMoveReason::BadHandIndex));
    let history = &state.public_state.action_history;
    assert_eq!(history.len(), 2);
    assert_eq!(history[0], (true, Action::ChooseOrientation(FlipHand::DoFlip), TransitionResult::MoveAccepted));
    assert_eq!(history[1], (false, Action::ChooseOrientation(FlipHand::DoNotFlip), TransitionResult::MoveAccepted));
}

#[test]
fn scout_index_past_hand_is_refused() {
    let mut state = GameState::new_from_seed(10, 3, 2);
    state.transition(&Action::ChooseOrientation(FlipHand::DoNotFlip));
    state.transition(&Action::ChooseOrientation(FlipHand::DoNotFlip));
    state.transition(&Action::PlayCards(0, 1));
    let before = state.clone();
    let result = state.transition(&Action::PlayScoutToken((PickedCard::LastCard, 12, Orientation::Larger)));
    assert_eq!(result, TransitionResult::IllegalMove(IllegalMoveReason::BadHandIndex));
    assert_eq!(state, before);
    let result = state.transition(&Action::PlayScoutToken((PickedCard::LastCard, 11, Orientation::Smaller)));
    assert_eq!(result, TransitionResult::MoveAccepted);
    assert_eq!(state.player_two_hidden_state.hand.len(), 12);
    assert_eq!(state.player_two_hidden_state.hand[11].orientation, Orientation::Smaller);
    assert_eq!(state.public_state.player_two_scout_token_count, 2);
}

#[test]
fn explicit_hands_score_on_empty_hand() {
    let l = Orientation::Larger;
    let mut state = GameState::new_from_hands(&[oc(1, 2, l)], &[oc(1, 3, l)], 0);
    assert_eq!(state.public_state.player_one_card_count, 1);
    state.transition(&Action::ChooseOrientation(FlipHand::DoNotFlip));
    state.transition(&Action::ChooseOrientation(FlipHand::DoNotFlip));
    // player one empties their hand: 0 won + 0 tokens; player two: 0 won - 1 card
    let result = state.transition(&Action::PlayCards(0, 1));
    assert_eq!(result, TransitionResult::GameComplete(0, -1));
}

#[test]
fn player_without_tokens_or_plays_loses() {
    let l = Orientation::Larger;
    let mut state = GameState::new_from_hands(&[oc(4, 5, l), oc(1, 2, l)], &[oc(1, 3, l), oc(2, 5, l)], 0);
    state.transition(&Action::ChooseOrientation(FlipHand::DoNotFlip));
    state.transition(&Action::ChooseOrientation(FlipHand::DoNotFlip));
    // a 5 is beaten neither by a 3, nor by a 5, nor by the invalid run 3 5,
    // and player two holds no token
    let result = state.transition(&Action::PlayCards(0, 1));
    // player one: 0 won + 0 tokens; player two: 0 won - 2 cards
    assert_eq!(result, TransitionResult::GameComplete(0, -2));
    assert!(state.public_state.game_complete);
}

#[test]
fn move_iter_hands_out_the_enumeration() {
    let mut state = GameState::new_from_seed(10, 3, 4);
    state.transition(&Action::ChooseOrientation(FlipHand::DoNotFlip));
    state.transition(&Action::ChooseOrientation(FlipHand::DoNotFlip));
    state.transition(&Action::PlayCards(0, 1));
    let listed = enumerate_legal_actions(&state);
    let mut iter = MoveIter::new(&state.public_state, &state.player_two_hidden_state);
    let mut handed = Vec::new();
    while let Some(action) = iter.next() {
        handed.push(action);
    }
    assert_eq!(handed, listed);
    // one card on the board: take-first only, two faces, 12 insertion points
    let scouts = handed.iter().filter(|a| matches!(a, Action::PlayScoutToken(_))).count();
    assert_eq!(scouts, 2 * 12);
}

#[test]
fn walker_and_tree_agree_on_finished_games() {
    let state = GameState::new_from_seed(6, 1, 123);
    let mut finished: Vec<GameState> = Vec::new();
    walk_games(state.clone(), &mut finished);
    assert!(finished.iter().all(|s| s.public_state.game_complete));
    let tree = build_game_tree(state, 64);
    assert_eq!(finished_leaves(&tree), finished.len());
    assert!(count_nodes(&tree) as usize > finished.len());
}

#[test]
fn walker_on_smallest_deck_finds_four_games() {
    let state = GameState::new_from_seed(4, 0, 123);
    let mut finished: Vec<GameState> = Vec::new();
    walk_games(state, &mut finished);
    assert_eq!(finished.len(), 4);
}

#[test]
fn hands_follow_orderings_then_orientation_bits() {
    let cards = vec![Card { first: 1, second: 2 }, Card { first: 3, second: 4 }];
    let hands = uu_cards_to_hands(&cards);
    assert_eq!(hands.len(), 8);
    let s = Orientation::Smaller;
    let l = Orientation::Larger;
    assert_eq!(hands[0], vec![oc(1, 2, s), oc(3, 4, s)]);
    assert_eq!(hands[1], vec![oc(1, 2, l), oc(3, 4, s)]);
    assert_eq!(hands[2], vec![oc(1, 2, s), oc(3, 4, l)]);
    assert_eq!(hands[4], vec![oc(3, 4, s), oc(1, 2, s)]);
    assert_eq!(hands[7], vec![oc(3, 4, l), oc(1, 2, l)]);
}

#[test]
fn deals_follow_choices_of_player_one() {
    let cards = vec![
        Card { first: 1, second: 2 },
        Card { first: 1, second: 3 },
        Card { first: 2, second: 3 },
        Card { first: 3, second: 4 },
    ];
    let deals = build_oriented_hands(&cards);
    assert_eq!(deals.len(), 6 * 8 * 8);
    let s = Orientation::Smaller;
    let first = &deals[0];
    assert_eq!(first.0, vec![oc(1, 2, s), oc(1, 3, s)]);
    assert_eq!(first.1, vec![oc(2, 3, s), oc(3, 4, s)]);
    let last = &deals[deals.len() - 1];
    assert_eq!(last.0.iter().map(|c| c.card).collect::<Vec<_>>(), vec![cards[3], cards[2]]);
    assert_eq!(last.1.iter().map(|c| c.card).collect::<Vec<_>>(), vec![cards[1], cards[0]]);
}

#[test]
fn hand_iter_starts_with_first_choice() {
    let deck = build_deck(4);
    let mut iter = HandIter::new(&deck);
    let first = iter.next().unwrap();
    let s = Orientation::Smaller;
    assert_eq!(first.0, vec![oc(1, 2, s)]);
    assert_eq!(first.1, vec![oc(1, 3, s)]);
}

#[test]
fn scout_checks_the_opponent_not_the_mover() {
    let l = Orientation::Larger;
    let s = Orientation::Smaller;
    let mut state = GameState::new_from_hands(
        &[oc(1, 2, l), oc(1, 3, s), oc(3, 4, s)],
        &[oc(5, 6, s), oc(5, 7, s), oc(2, 7, s)],
        1,
    );
    state.transition(&Action::ChooseOrientation(FlipHand::DoNotFlip));
    state.transition(&Action::ChooseOrientation(FlipHand::DoNotFlip));
    assert_eq!(state.transition(&Action::PlayCards(0, 1)), TransitionResult::MoveAccepted);
    assert_eq!(state.transition(&Action::PlayCards(0, 2)), TransitionResult::MoveAccepted);
    // player one spends their last token; no run of 5 1 3 beats a single 5,
    // but player two still holds a token, so the move is simply accepted
    let result = state.transition(&Action::PlayScoutToken((PickedCard::FirstCard, 0, s)));
    assert_eq!(result, TransitionResult::MoveAccepted);
    assert!(!state.public_state.game_complete);
    assert!(state.public_state.is_player_one_turn);
    assert_eq!(state.public_state.player_one_scout_token_count, 0);
    assert!(enumerate_legal_actions(&state).is_empty());
}

#[test]
fn scout_wins_when_opponent_is_stuck() {
    let l = Orientation::Larger;
    let s = Orientation::Smaller;
    let mut state = GameState::new_from_hands(
        &[oc(1, 2, l), oc(8, 9, s), oc(1, 5, s)],
        &[oc(6, 7, s), oc(6, 8, s), oc(3, 9, s)],
        1,
    );
    state.transition(&Action::ChooseOrientation(FlipHand::DoNotFlip));
    state.transition(&Action::ChooseOrientation(FlipHand::DoNotFlip));
    assert_eq!(state.transition(&Action::PlayCards(0, 1)), TransitionResult::MoveAccepted);
    // player two spends their token on the 2, facing 1
    let result = state.transition(&Action::PlayScoutToken((PickedCard::FirstCard, 0, s)));
    assert_eq!(result, TransitionResult::MoveAccepted);
    assert_eq!(state.transition(&Action::PlayCards(1, 3)), TransitionResult::MoveAccepted);
    // player one takes a 6 off the pair as a 7 and leaves a single 6 that
    // player two, with 1 3 and no token, cannot beat
    let result = state.transition(&Action::PlayScoutToken((PickedCard::FirstCard, 0, l)));
    // player one: 0 won + 0 tokens; player two: 0 won - 2 cards + 0 tokens
    assert_eq!(result, TransitionResult::GameComplete(0, -2));
    assert!(state.public_state.game_complete);
}

#[test]
fn counting_walk_matches_collecting_walk() {
    let state = GameState::new_from_seed(6, 1, 123);
    let mut finished: Vec<GameState> = Vec::new();
    walk_games(state.clone(), &mut finished);
    assert_eq!(count_games(state) as usize, finished.len());
    assert_eq!(count_games(GameState::new_from_seed(4, 0, 123)), 4);
}

#[test]
fn seeded_hands_are_distinct_deck_cards() {
    let deck = build_deck(10);
    let state = GameState::new_from_seed(10, 3, 1234);
    let mut dealt: Vec<Card> = state.player_one_hidden_state.hand.iter().map(|c| c.card).collect();
    dealt.extend(state.player_two_hidden_state.hand.iter().map(|c| c.card));
    assert_eq!(dealt.len(), 22);
    for (i, c) in dealt.iter().enumerate() {
        assert!(deck.contains(c));
        assert!(!dealt[i + 1..].contains(c));
    }
}
