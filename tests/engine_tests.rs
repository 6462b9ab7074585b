use scout::cards::{build_card_set, build_deck, Card, CardSet, Orientation, OrientedCard};
use scout::engine::{
    legal_and_beats_board, Action, FlipHand, GameState, IllegalMoveReason, PickedCard,
    TransitionResult,
};
use scout::shuffle::shuffle_deck;

fn play_checked(state: &mut GameState, action: &Action, ensure_legal: bool) -> TransitionResult {
    let result = state.transition(action);
    if ensure_legal {
        assert!(!matches!(result, TransitionResult::IllegalMove(..)), "{:?}", result);
    }
    result
}

#[test]
fn test_card_values() {
    let card = Card { first: 7, second: 11 };
    assert_eq!(7, card.first);
    assert_eq!(11, card.second);
    assert_eq!(card, card);
}

#[test]
fn test_build_deck() {
    let deck = build_deck(4);
    assert_eq!(4, deck.len());

    let deck = build_deck(10);
    assert_eq!(44, deck.len());
}

#[test]
fn test_shuffle_deck() {
    let orig = build_deck(4);
    let mut deck1 = orig.clone();
    let mut deck2 = orig.clone();
    let mut deck3 = orig.clone();

    shuffle_deck(&mut deck1, 0u64);
    shuffle_deck(&mut deck2, 0u64);
    assert_eq!(deck2, deck1);
    assert_ne!(deck1, orig);

    shuffle_deck(&mut deck3, 1u64);
    assert_ne!(deck3, deck1);
    assert_ne!(deck3, orig);
}

#[test]
fn test_choose_orientation() {
    let mut state = GameState::new_from_seed(10, 3, 2);
    assert_eq!(true, state.public_state.is_player_one_turn);
    assert_eq!(false, state.public_state.orientation_chosen);
    state.transition(&Action::ChooseOrientation(FlipHand::DoFlip));
    assert_eq!(false, state.public_state.is_player_one_turn);
    assert_eq!(false, state.public_state.orientation_chosen);
    state.transition(&Action::ChooseOrientation(FlipHand::DoNotFlip));
    assert_eq!(true, state.public_state.is_player_one_turn);
    assert_eq!(true, state.public_state.orientation_chosen);
}

#[test]
fn test_play_illegal_cards() {
    let mut state = GameState::new_from_seed(10, 3, 2);
    state.transition(&Action::ChooseOrientation(FlipHand::DoFlip));
    state.transition(&Action::ChooseOrientation(FlipHand::DoNotFlip));

    let cards_per_player = state.public_state.player_one_card_count;

    assert_eq!(true, state.public_state.is_player_one_turn);

    let result = state.transition(&Action::PlayCards(0, 3));
    assert!(matches!(result, TransitionResult::IllegalMove(_)));
    assert_eq!(true, state.public_state.is_player_one_turn);

    let result = state.transition(&Action::PlayCards(100, 0));
    assert!(matches!(result, TransitionResult::IllegalMove(_)));
    assert_eq!(true, state.public_state.is_player_one_turn);

    let result = state.transition(&Action::PlayCards(1, 1));
    assert!(matches!(result, TransitionResult::IllegalMove(_)));
    assert_eq!(true, state.public_state.is_player_one_turn);

    let result = state.transition(&Action::PlayCards(1, 0));
    assert!(matches!(result, TransitionResult::IllegalMove(_)));
    assert_eq!(true, state.public_state.is_player_one_turn);

    let result = state.transition(&Action::PlayCards(cards_per_player, cards_per_player + 1));
    assert!(matches!(result, TransitionResult::IllegalMove(_)));
    assert_eq!(true, state.public_state.is_player_one_turn);
}

#[test]
fn test_play_same_pair() {
    let mut state = GameState::new_from_seed(10, 3, 2);
    state.transition(&Action::ChooseOrientation(FlipHand::DoNotFlip));
    state.transition(&Action::ChooseOrientation(FlipHand::DoNotFlip));

    let played = state.player_one_hidden_state.hand[0..2].to_vec();
    let result = state.transition(&Action::PlayCards(0, 2));

    assert_eq!(TransitionResult::MoveAccepted, result);
    assert_eq!(false, state.public_state.is_player_one_turn);
    assert_eq!(played, state.public_state.board);
}

#[test]
fn test_play_single() {
    let mut state = GameState::new_from_seed(10, 3, 2);
    state.transition(&Action::ChooseOrientation(FlipHand::DoFlip));
    state.transition(&Action::ChooseOrientation(FlipHand::DoNotFlip));

    let played = state.player_one_hidden_state.hand[0..1].to_vec();
    let result = state.transition(&Action::PlayCards(0, 1));
    assert_eq!(TransitionResult::MoveAccepted, result);
    assert_eq!(false, state.public_state.is_player_one_turn);
    assert_eq!(played, state.public_state.board);
}

#[test]
fn test_compare_sets() {
    let set1 = CardSet::Consecutive(1, 3);
    let set2 = CardSet::Consecutive(1, 4);
    assert!(set1 < set2);

    let set1 = CardSet::Consecutive(1, 3);
    let set2 = CardSet::Consecutive(1, 3);
    assert!(set1 == set2);

    let set1 = CardSet::Consecutive(1, 3);
    let set2 = CardSet::Consecutive(1, 2);
    assert!(set1 > set2);

    let set1 = CardSet::Same(3, 1);
    let set2 = CardSet::Same(3, 2);
    assert!(set1 < set2);

    let set1 = CardSet::Same(3, 1);
    let set2 = CardSet::Same(3, 1);
    assert!(set1 == set2);

    let set1 = CardSet::Same(3, 2);
    let set2 = CardSet::Same(3, 1);
    assert!(set1 > set2);
}

#[test]
fn test_both_players_act() {
    let mut state = GameState::new_from_seed(10, 3, 2);
    state.transition(&Action::ChooseOrientation(FlipHand::DoNotFlip));
    state.transition(&Action::ChooseOrientation(FlipHand::DoNotFlip));
    assert_eq!(2, state.player_one_hidden_state.hand[0].top());

    // player_one plays a 2
    let played = state.player_one_hidden_state.hand[0..1].to_vec();
    let result = state.transition(&Action::PlayCards(0, 1));
    assert_eq!(TransitionResult::MoveAccepted, result);
    assert_eq!(false, state.public_state.is_player_one_turn);
    assert_eq!(played, state.public_state.board);

    // player_two plays a 6
    let played = state.player_two_hidden_state.hand[0..1].to_vec();
    let result = state.transition(&Action::PlayCards(0, 1));
    assert_eq!(TransitionResult::MoveAccepted, result);
    assert_eq!(true, state.public_state.is_player_one_turn);
    assert_eq!(played, state.public_state.board);
}

#[test]
fn test_oriented() {
    let oc = OrientedCard {
        card: Card { first: 1, second: 2 },
        orientation: Orientation::Larger,
    };

    assert_eq!(2, oc.top());
    assert_eq!(1, oc.bottom());

    let flipped = oc.flip();
    assert_eq!(1, flipped.top());
    assert_eq!(2, flipped.bottom());
}

#[test]
fn test_build_card_set() {
    let oc1 = OrientedCard {
        card: Card { first: 1, second: 2 },
        orientation: Orientation::Larger,
    };
    let card_set1 = build_card_set(&vec![oc1]);
    assert_eq!(Some(CardSet::Same(2, 1)), card_set1);

    let oc2 = OrientedCard {
        card: Card { first: 3, second: 4 },
        orientation: Orientation::Smaller,
    };
    let card_set2 = build_card_set(&vec![oc2]);
    assert_eq!(Some(CardSet::Same(3, 1)), card_set2);

    let card_set3 = build_card_set(&vec![oc1, oc2]);
    assert_eq!(Some(CardSet::Consecutive(2, 3)), card_set3);

    assert!(card_set2 > card_set1);
    assert!(card_set3 > card_set2);
    assert!(card_set3 > card_set1);
}

#[test]
fn test_no_orient() {
    let mut state = GameState::new_from_seed(10, 3, 2);
    let result = state.transition(&Action::PlayCards(0, 1));
    assert_eq!(
        TransitionResult::IllegalMove(IllegalMoveReason::MustChooseOrientation),
        result
    );
    let result = state.transition(&Action::PlayScoutToken((
        PickedCard::FirstCard,
        0,
        Orientation::Larger,
    )));
    assert_eq!(
        TransitionResult::IllegalMove(IllegalMoveReason::MustChooseOrientation),
        result
    );
}

#[test]
fn test_scout() {
    let mut state = GameState::new_from_seed(10, 3, 2);
    state.transition(&Action::ChooseOrientation(FlipHand::DoNotFlip));
    state.transition(&Action::ChooseOrientation(FlipHand::DoNotFlip));

    let result = state.transition(&Action::PlayCards(0, 1));
    assert_eq!(TransitionResult::MoveAccepted, result);
    assert_eq!(2, state.public_state.board[0].top());

    let result = state.transition(&Action::PlayScoutToken((
        PickedCard::FirstCard,
        0u8,
        Orientation::Larger,
    )));
    assert_eq!(TransitionResult::MoveAccepted, result);
    assert_eq!(0, state.public_state.board.len());
    assert_eq!(12, state.public_state.player_two_card_count);
    assert_eq!(8, state.player_two_hidden_state.hand[0].top());
}

#[test]
fn test_bad_scout() {
    let mut state = GameState::new_from_seed(10, 3, 2);
    state.transition(&Action::ChooseOrientation(FlipHand::DoNotFlip));
    state.transition(&Action::ChooseOrientation(FlipHand::DoNotFlip));

    let result = state.transition(&Action::PlayScoutToken((
        PickedCard::FirstCard,
        0u8,
        Orientation::Larger,
    )));
    assert_eq!(
        TransitionResult::IllegalMove(IllegalMoveReason::ScoutWhenBoardEmpty),
        result
    );

    state.transition(&Action::PlayCards(0, 1));
    let result = state.transition(&Action::PlayScoutToken((
        PickedCard::FirstCard,
        0u8,
        Orientation::Larger,
    )));
    assert_eq!(TransitionResult::MoveAccepted, result);
    let result = state.transition(&Action::PlayScoutToken((
        PickedCard::FirstCard,
        0u8,
        Orientation::Larger,
    )));
    assert_eq!(
        TransitionResult::IllegalMove(IllegalMoveReason::ScoutWhenBoardEmpty),
        result
    );
    state.transition(&Action::PlayCards(0, 1));
    // player_two's Turn
    let result = state.transition(&Action::PlayCards(3, 6));
    assert_eq!(TransitionResult::MoveAccepted, result);

    let result = state.transition(&Action::PlayScoutToken((
        PickedCard::FirstCard,
        0u8,
        Orientation::Larger,
    )));
    assert_eq!(TransitionResult::MoveAccepted, result);
    let result = state.transition(&Action::PlayScoutToken((
        PickedCard::FirstCard,
        0u8,
        Orientation::Larger,
    )));
    assert_eq!(TransitionResult::MoveAccepted, result);
    let result = state.transition(&Action::PlayScoutToken((
        PickedCard::FirstCard,
        0u8,
        Orientation::Larger,
    )));
    assert_eq!(
        TransitionResult::IllegalMove(IllegalMoveReason::NoScoutTokens),
        result
    );
    assert_eq!(0, state.public_state.player_two_scout_token_count);
    assert_eq!(13, state.public_state.player_two_card_count);
}

#[test]
fn test_illegal_move_reason() {
    let mut state = GameState::new_from_seed(10, 3, 3);
    state.transition(&Action::ChooseOrientation(FlipHand::DoFlip));
    state.transition(&Action::ChooseOrientation(FlipHand::DoFlip));

    // Play a 3 card set
    state.transition(&Action::PlayCards(4, 7));

    // An invalid 2 card set must be reported as such, not as a set that
    // does not beat the board.
    let result = state.transition(&Action::PlayCards(0, 2));
    match result {
        TransitionResult::IllegalMove(reason) => {
            assert_eq!(IllegalMoveReason::InvalidSet, reason);
        }
        _ => {
            assert!(false);
        }
    }
}

#[test]
fn test_won_cards() {
    let mut state = GameState::new_from_seed(10, 3, 3);
    state.transition(&Action::ChooseOrientation(FlipHand::DoFlip));
    state.transition(&Action::ChooseOrientation(FlipHand::DoFlip));

    state.transition(&Action::PlayCards(0, 1));

    state.transition(&Action::PlayCards(1, 2));
    assert_eq!(true, state.public_state.is_player_one_turn);
    assert_eq!(1, state.public_state.player_two_won_cards);
    assert_eq!(0, state.public_state.player_one_won_cards);

    state.transition(&Action::PlayCards(3, 6));
    assert_eq!(false, state.public_state.is_player_one_turn);

    assert_eq!(1, state.public_state.player_two_won_cards);
    assert_eq!(1, state.public_state.player_one_won_cards);
    let result = state.transition(&Action::PlayScoutToken((
        PickedCard::FirstCard,
        2,
        Orientation::Larger,
    )));
    assert_eq!(TransitionResult::MoveAccepted, result);
    assert_eq!(false, state.public_state.is_player_one_turn);
    assert_eq!(1, state.public_state.player_two_won_cards);
    assert_eq!(1, state.public_state.player_one_won_cards);

    let result = state.transition(&Action::PlayCards(2, 4));
    assert_eq!(TransitionResult::MoveAccepted, result);
    assert_eq!(true, state.public_state.is_player_one_turn);
    assert_eq!(3, state.public_state.player_two_won_cards);
    assert_eq!(1, state.public_state.player_one_won_cards);
}

#[test]
fn test_game_end() {
    let mut state = GameState::new_from_seed(6, 3, 3);
    state.transition(&Action::ChooseOrientation(FlipHand::DoFlip));
    state.transition(&Action::ChooseOrientation(FlipHand::DoFlip));

    state.transition(&Action::PlayCards(0, 1));
    state.transition(&Action::PlayCards(1, 3));
    state.transition(&Action::PlayScoutToken((
        PickedCard::LastCard,
        0,
        Orientation::Smaller,
    )));
    let result = state.transition(&Action::PlayCards(0, 3));
    // player_one: 1 won card + 2 tokens
    // player_two: 1 won card - 1 card in hand + 3 tokens
    assert_eq!(TransitionResult::GameComplete(3, 3), result);
}

#[test]
fn test_has_legal_play() {
    let mut state = GameState::new_from_seed(6, 0, 3);
    state.transition(&Action::ChooseOrientation(FlipHand::DoFlip));
    state.transition(&Action::ChooseOrientation(FlipHand::DoFlip));

    state.transition(&Action::PlayCards(1, 3));
    assert_eq!(true, state.has_legal_play(false));

    state.transition(&Action::PlayCards(1, 3));
    assert_eq!(false, state.has_legal_play(true));
}

#[test]
fn test_legal_and_beats_board() {
    let mut state = GameState::new_from_seed(6, 0, 3);
    state.transition(&Action::ChooseOrientation(FlipHand::DoFlip));
    state.transition(&Action::ChooseOrientation(FlipHand::DoFlip));
    state.transition(&Action::PlayCards(1, 3));

    let proposed_play = state.player_two_hidden_state.hand[1..3].to_vec();
    let result = legal_and_beats_board(&state.public_state.board, &proposed_play);
    assert_eq!(None, result);

    let proposed_play = state.player_two_hidden_state.hand[1..2].to_vec();
    let result = legal_and_beats_board(&state.public_state.board, &proposed_play);
    assert_eq!(Some(IllegalMoveReason::DoesNotBeatBoard), result);

    let proposed_play = state.player_two_hidden_state.hand[0..2].to_vec();
    assert_eq!(None, build_card_set(&proposed_play));
    let result = legal_and_beats_board(&state.public_state.board, &proposed_play);
    assert_eq!(Some(IllegalMoveReason::InvalidSet), result);
}

#[test]
fn test_game_end2() {
    let mut state = GameState::new_from_seed(10, 3, 1234);
    state.transition(&Action::ChooseOrientation(FlipHand::DoNotFlip));
    state.transition(&Action::ChooseOrientation(FlipHand::DoFlip));

    play_checked(&mut state, &Action::PlayCards(5, 6), true);
    play_checked(&mut state, &Action::PlayCards(3, 4), true);
    play_checked(
        &mut state,
        &Action::PlayScoutToken((PickedCard::LastCard, 2, Orientation::Larger)),
        true,
    );
    play_checked(&mut state, &Action::PlayCards(8, 9), true);
    play_checked(&mut state, &Action::PlayCards(2, 3), true);
    play_checked(&mut state, &Action::PlayCards(8, 10), true);
    play_checked(&mut state, &Action::PlayCards(5, 7), true);
    play_checked(
        &mut state,
        &Action::PlayScoutToken((PickedCard::LastCard, 3, Orientation::Larger)),
        true,
    );
    play_checked(&mut state, &Action::PlayCards(8, 9), true);
    play_checked(
        &mut state,
        &Action::PlayScoutToken((PickedCard::LastCard, 2, Orientation::Smaller)),
        true,
    );
    play_checked(&mut state, &Action::PlayCards(6, 8), true);
    let old_won = state.public_state.player_one_won_cards;
    play_checked(&mut state, &Action::PlayCards(6, 8), true);
    let new_won = state.public_state.player_one_won_cards;
    assert_eq!(old_won + 2, new_won);

    play_checked(&mut state, &Action::PlayCards(4, 6), true);
    play_checked(&mut state, &Action::PlayCards(0, 3), true);
    let result = play_checked(&mut state, &Action::PlayCards(0, 4), true);
    assert_eq!(TransitionResult::GameComplete(4, 11), result);
    assert_eq!(true, state.public_state.game_complete);
}

#[test]
fn test_cant_play_past_end() {
    let mut state = GameState::new_from_seed(6, 0, 5);
    state.transition(&Action::ChooseOrientation(FlipHand::DoFlip));
    state.transition(&Action::ChooseOrientation(FlipHand::DoNotFlip));

    play_checked(&mut state, &Action::PlayCards(2, 3), true);
    play_checked(&mut state, &Action::PlayCards(1, 2), true);
    assert!(!state.public_state.game_complete);

    let result = play_checked(&mut state, &Action::PlayCards(0, 2), true);
    assert!(matches!(result, TransitionResult::GameComplete(_, _)));
    assert!(state.public_state.game_complete);
    assert_eq!(5, state.public_state.action_history.len());

    let result = play_checked(&mut state, &Action::PlayCards(0, 2), false);
    assert!(matches!(result, TransitionResult::IllegalMove(..)));
    assert!(state.public_state.game_complete);
    assert!(matches!(
        state.public_state.action_history.last().unwrap().2,
        TransitionResult::GameComplete(_, _)
    ));
    assert_eq!(5, state.public_state.action_history.len());
}
