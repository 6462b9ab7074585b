//! The game state and the transition engine: the only place where a game
//! changes.

use vstd::prelude::*;

use crate::cards::{
    build_deck, classify, classify_run, deck_size, deck_spec, Card, Orientation, OrientedCard,
};
use crate::shuffle::{seeded_shuffle, shuffle_deck, shuffled_deck};

verus! {

/// What a player alone sees: the cards in their hand, in order.
#[derive(Debug, Clone, PartialEq, Eq, Hash)]
pub struct PlayerHiddenState {
    pub hand: Vec<OrientedCard>,
}

/// What both players see.
#[derive(Debug, Clone, PartialEq, Eq, Hash)]
pub struct PublicState {
    pub game_complete: bool,
    pub orientation_chosen: bool,
    pub is_player_one_turn: bool,
    pub board: Vec<OrientedCard>,
    pub player_one_card_count: u8,
    pub player_two_card_count: u8,
    pub player_one_scout_token_count: u8,
    pub player_two_scout_token_count: u8,
    pub player_one_won_cards: u8,
    pub player_two_won_cards: u8,
    pub action_history: Vec<(bool, Action, TransitionResult)>,
}

/// Whether a player turns their whole hand over.
#[derive(Debug, Clone, Copy, PartialEq, Eq, Hash, Structural)]
pub enum FlipHand {
    DoFlip,
    DoNotFlip,
}

/// Which end of the board a scout token takes.
#[derive(Debug, Clone, Copy, PartialEq, Eq, Hash, Structural)]
pub enum PickedCard {
    /// The first card as ordered on the board
    FirstCard,
    /// The last card as ordered on the board
    LastCard,
}

/// A move.
#[derive(Debug, Clone, Copy, Eq, Hash)]
pub enum Action {
    /// Keep or flip the hand, once per player before play starts.
    ChooseOrientation(FlipHand),
    /// Play the hand's cards from the start index (inclusive) to the end
    /// index (exclusive).
    PlayCards(u8, u8),
    /// Take an end card of the board into the hand at an index, facing as
    /// given.
    PlayScoutToken((PickedCard, u8, Orientation)),
}

impl PartialEq for Action {
    fn eq(&self, other: &Action) -> (r: bool) {
        match (self, other) {
            (Action::ChooseOrientation(a), Action::ChooseOrientation(b)) => *a == *b,
            (Action::PlayCards(s1, e1), Action::PlayCards(s2, e2)) => *s1 == *s2 && *e1 == *e2,
            (Action::PlayScoutToken(a), Action::PlayScoutToken(b)) => a.0 == b.0 && a.1 == b.1 && a.2
                == b.2,
            _ => false,
        }
    }
}

impl vstd::std_specs::cmp::PartialEqSpecImpl for Action {
    open spec fn obeys_eq_spec() -> bool {
        true
    }

    open spec fn eq_spec(&self, other: &Action) -> bool {
        *self == *other
    }
}

/// Why a move was refused.
#[derive(Debug, Clone, Copy, PartialEq, Eq, Hash, Structural)]
pub enum IllegalMoveReason {
    GameComplete,
    BadHandIndex,
    MustChooseOrientation,
    DoesNotBeatBoard,
    InvalidSet,
    NoScoutTokens,
    ScoutWhenBoardEmpty,
}

/// The outcome of a move.
#[derive(Debug, Clone, Copy, PartialEq, Eq, Hash, Structural)]
pub enum TransitionResult {
    /// Transition did occur, game state was updated
    MoveAccepted,
    /// The move ended the game with these scores for player one and two
    GameComplete(i8, i8),
    /// Transition did not occur, game state unchanged
    IllegalMove(IllegalMoveReason),
}

/// Why a run cannot be played on a board, if it cannot: it must form a
/// set, and that set must outrank the board's (an empty board is beaten by
/// any set).
pub open spec fn verdict(board: Seq<OrientedCard>, play: Seq<OrientedCard>) -> Option<
    IllegalMoveReason,
> {
    match (classify(play), classify(board)) {
        (Some(card_set), Some(board_set)) => if card_set.beats(board_set) {
            None
        } else {
            Some(IllegalMoveReason::DoesNotBeatBoard)
        },
        (Some(_), None) => None,
        _ => Some(IllegalMoveReason::InvalidSet),
    }
}

/// `hand[start..end]` is a run that may be played on `board`.
pub open spec fn playable(board: Seq<OrientedCard>, hand: Seq<OrientedCard>, start: int, end: int) -> bool {
    &&& 0 <= start < end <= hand.len()
    &&& verdict(board, hand.subrange(start, end)) is None
}

/// Some run of `hand` may be played on `board`.
pub open spec fn has_play(board: Seq<OrientedCard>, hand: Seq<OrientedCard>) -> bool {
    exists|start: int, end: int| #[trigger] playable(board, hand, start, end)
}

/// Checks that a proposed play forms a set and beats the board. An invalid
/// set is reported before a set that does not beat the board.
pub fn legal_and_beats_board(board: &[OrientedCard], proposed_play: &[OrientedCard]) -> (r: Option<
    IllegalMoveReason,
>)
    requires
        board@.len() <= 255,
        proposed_play@.len() <= 255,
    ensures
        r == verdict(board@, proposed_play@),
{
    let play = classify_run(proposed_play, 0, proposed_play.len());
    let on_board = classify_run(board, 0, board.len());
    assert(proposed_play@.subrange(0, proposed_play@.len() as int) =~= proposed_play@);
    assert(board@.subrange(0, board@.len() as int) =~= board@);
    match (play, on_board) {
        (Some(card_set), Some(board_set)) => {
            if card_set > board_set {
                None
            } else {
                Some(IllegalMoveReason::DoesNotBeatBoard)
            }
        },
        (Some(_), None) => None,
        _ => Some(IllegalMoveReason::InvalidSet),
    }
}


/// The game, as both players see it.
#[derive(Debug, Clone, PartialEq, Eq, Hash)]
pub struct GameState {
    pub public_state: PublicState,
    pub player_one_hidden_state: PlayerHiddenState,
    pub player_two_hidden_state: PlayerHiddenState,
}

/// The mathematical value of a `PublicState`.
pub struct PublicView {
    pub game_complete: bool,
    pub orientation_chosen: bool,
    pub is_player_one_turn: bool,
    pub board: Seq<OrientedCard>,
    pub player_one_card_count: u8,
    pub player_two_card_count: u8,
    pub player_one_scout_token_count: u8,
    pub player_two_scout_token_count: u8,
    pub player_one_won_cards: u8,
    pub player_two_won_cards: u8,
    pub action_history: Seq<(bool, Action, TransitionResult)>,
}

/// The mathematical value of a `GameState`.
pub struct GameView {
    pub public: PublicView,
    pub hand_one: Seq<OrientedCard>,
    pub hand_two: Seq<OrientedCard>,
}

impl View for PublicState {
    type V = PublicView;

    open spec fn view(&self) -> PublicView {
        PublicView {
            game_complete: self.game_complete,
            orientation_chosen: self.orientation_chosen,
            is_player_one_turn: self.is_player_one_turn,
            board: self.board@,
            player_one_card_count: self.player_one_card_count,
            player_two_card_count: self.player_two_card_count,
            player_one_scout_token_count: self.player_one_scout_token_count,
            player_two_scout_token_count: self.player_two_scout_token_count,
            player_one_won_cards: self.player_one_won_cards,
            player_two_won_cards: self.player_two_won_cards,
            action_history: self.action_history@,
        }
    }
}

impl View for GameState {
    type V = GameView;

    open spec fn view(&self) -> GameView {
        GameView {
            public: self.public_state@,
            hand_one: self.player_one_hidden_state.hand@,
            hand_two: self.player_two_hidden_state.hand@,
        }
    }
}

impl PublicView {
    /// The scout tokens left to the player whose turn it is.
    pub open spec fn active_tokens(self) -> u8 {
        if self.is_player_one_turn {
            self.player_one_scout_token_count
        } else {
            self.player_two_scout_token_count
        }
    }
}

impl GameView {
    /// The hand of the player whose turn it is.
    pub open spec fn active_hand(self) -> Seq<OrientedCard> {
        if self.public.is_player_one_turn {
            self.hand_one
        } else {
            self.hand_two
        }
    }

    /// Every card of the game, wherever it is: in a hand, on the board, or
    /// won.
    pub open spec fn total_cards(self) -> int {
        self.hand_one.len() + self.hand_two.len() + self.public.board.len()
            + self.public.player_one_won_cards + self.public.player_two_won_cards
    }

    /// The cards together with the scout tokens left.
    pub open spec fn total_cards_and_tokens(self) -> int {
        self.total_cards() + self.public.player_one_scout_token_count
            + self.public.player_two_scout_token_count
    }

    /// Well-formed: the public card counts are the hands' lengths, and cards
    /// and tokens together stay within what a score (`i8`) can hold.
    pub open spec fn wf(self) -> bool {
        &&& self.public.player_one_card_count == self.hand_one.len()
        &&& self.public.player_two_card_count == self.hand_two.len()
        &&& self.total_cards_and_tokens() <= 127
    }

    /// The scores when the game ends: the winner has their won cards plus
    /// their tokens left; the loser has the same less the cards left in
    /// their hand.
    pub open spec fn final_score(self, player_one_wins: bool) -> TransitionResult {
        let p = self.public;
        if player_one_wins {
            TransitionResult::GameComplete(
                (p.player_one_won_cards + p.player_one_scout_token_count) as i8,
                (p.player_two_won_cards - p.player_two_card_count
                    + p.player_two_scout_token_count) as i8,
            )
        } else {
            TransitionResult::GameComplete(
                (p.player_one_won_cards - p.player_one_card_count
                    + p.player_one_scout_token_count) as i8,
                (p.player_two_won_cards + p.player_two_scout_token_count) as i8,
            )
        }
    }

    /// The scout tokens left to player one (`true`) or two.
    pub open spec fn tokens_of(self, player_one: bool) -> u8 {
        if player_one {
            self.public.player_one_scout_token_count
        } else {
            self.public.player_two_scout_token_count
        }
    }

    /// The hand of player one (`true`) or two.
    pub open spec fn hand_of(self, player_one: bool) -> Seq<OrientedCard> {
        if player_one {
            self.hand_one
        } else {
            self.hand_two
        }
    }

    /// The player cannot act: no token left and no run that beats the
    /// board.
    pub open spec fn stuck(self, player_one: bool) -> bool {
        self.tokens_of(player_one) == 0 && !has_play(self.public.board, self.hand_of(player_one))
    }

    /// The end-of-round check, on the state after an accepted play or scout
    /// by the mover (player one when `mover_one`):
    /// - a player whose hand is empty has won (only the mover's hand can
    ///   have shrunk);
    /// - otherwise, when the opponent has no token left and no run that
    ///   beats the board, the mover wins without the opponent acting;
    /// - otherwise the move is simply accepted.
    ///
    /// The mover is not judged here. After a scout the turn stays with the
    /// mover; a mover who spent their last token and holds no run that
    /// beats the board is still accepted, and then has no move open (the
    /// enumerator lists none), so play stops there without a result.
    pub open spec fn settle(self, mover_one: bool) -> TransitionResult {
        let p = self.public;
        if p.player_one_card_count == 0 {
            self.final_score(true)
        } else if p.player_two_card_count == 0 {
            self.final_score(false)
        } else if self.stuck(!mover_one) {
            self.final_score(mover_one)
        } else {
            TransitionResult::MoveAccepted
        }
    }

    /// The state after the player to move keeps or flips their hand.
    pub open spec fn oriented(self, do_flip: FlipHand) -> GameView {
        let flip = |h: Seq<OrientedCard>|
            if do_flip == FlipHand::DoFlip {
                h.map_values(|c: OrientedCard| c.flip_spec())
            } else {
                h
            };
        if self.public.is_player_one_turn {
            GameView {
                public: PublicView { is_player_one_turn: false, ..self.public },
                hand_one: flip(self.hand_one),
                ..self
            }
        } else {
            GameView {
                public: PublicView { is_player_one_turn: true, orientation_chosen: true, ..self.public },
                hand_two: flip(self.hand_two),
                ..self
            }
        }
    }

    /// The state after the player to move plays `hand[start..end]`: they
    /// win the cards on the board, their run becomes the board, and the
    /// turn passes.
    pub open spec fn played(self, start: int, end: int) -> GameView {
        let p = self.public;
        let hand = self.active_hand();
        let run = hand.subrange(start, end);
        let rest = hand.subrange(0, start) + hand.subrange(end, hand.len() as int);
        if p.is_player_one_turn {
            GameView {
                public: PublicView {
                    player_one_card_count: (p.player_one_card_count - run.len()) as u8,
                    player_one_won_cards: (p.player_one_won_cards + p.board.len()) as u8,
                    board: run,
                    is_player_one_turn: false,
                    ..p
                },
                hand_one: rest,
                ..self
            }
        } else {
            GameView {
                public: PublicView {
                    player_two_card_count: (p.player_two_card_count - run.len()) as u8,
                    player_two_won_cards: (p.player_two_won_cards + p.board.len()) as u8,
                    board: run,
                    is_player_one_turn: true,
                    ..p
                },
                hand_two: rest,
                ..self
            }
        }
    }

    /// The state after the player to move spends a token to take an end
    /// card of the board into their hand.
    pub open spec fn scouted(self, picked: PickedCard, index: int, orientation: Orientation) -> GameView {
        let p = self.public;
        let taken = if picked == PickedCard::FirstCard {
            p.board[0]
        } else {
            p.board.last()
        };
        let board = if picked == PickedCard::FirstCard {
            p.board.drop_first()
        } else {
            p.board.drop_last()
        };
        let card = OrientedCard { card: taken.card, orientation: orientation };
        if p.is_player_one_turn {
            GameView {
                public: PublicView {
                    board: board,
                    player_one_scout_token_count: (p.player_one_scout_token_count - 1) as u8,
                    player_one_card_count: (p.player_one_card_count + 1) as u8,
                    ..p
                },
                hand_one: self.hand_one.insert(index, card),
                ..self
            }
        } else {
            GameView {
                public: PublicView {
                    board: board,
                    player_two_scout_token_count: (p.player_two_scout_token_count - 1) as u8,
                    player_two_card_count: (p.player_two_card_count + 1) as u8,
                    ..p
                },
                hand_two: self.hand_two.insert(index, card),
                ..self
            }
        }
    }

    /// A play of `hand[start..end]`, before it is logged.
    pub open spec fn play_step(self, start: int, end: int) -> (GameView, TransitionResult) {
        let hand = self.active_hand();
        if !self.public.orientation_chosen {
            (self, TransitionResult::IllegalMove(IllegalMoveReason::MustChooseOrientation))
        } else if start >= end || end > hand.len() {
            (self, TransitionResult::IllegalMove(IllegalMoveReason::BadHandIndex))
        } else {
            match verdict(self.public.board, hand.subrange(start, end)) {
                Some(reason) => (self, TransitionResult::IllegalMove(reason)),
                None => {
                    let next = self.played(start, end);
                    (next, next.settle(self.public.is_player_one_turn))
                },
            }
        }
    }

    /// A scout move, before it is logged.
    pub open spec fn scout_step(self, picked: PickedCard, index: int, orientation: Orientation) -> (
        GameView,
        TransitionResult,
    ) {
        if !self.public.orientation_chosen {
            (self, TransitionResult::IllegalMove(IllegalMoveReason::MustChooseOrientation))
        } else if self.public.active_tokens() == 0 {
            (self, TransitionResult::IllegalMove(IllegalMoveReason::NoScoutTokens))
        } else if index > self.active_hand().len() {
            (self, TransitionResult::IllegalMove(IllegalMoveReason::BadHandIndex))
        } else if self.public.board.len() == 0 {
            (self, TransitionResult::IllegalMove(IllegalMoveReason::ScoutWhenBoardEmpty))
        } else {
            let next = self.scouted(picked, index, orientation);
            (next, next.settle(self.public.is_player_one_turn))
        }
    }

    /// Any move, before it is logged.
    pub open spec fn step(self, action: Action) -> (GameView, TransitionResult) {
        match action {
            Action::ChooseOrientation(do_flip) => (
                self.oriented(do_flip),
                TransitionResult::MoveAccepted,
            ),
            Action::PlayCards(start, end) => self.play_step(start as int, end as int),
            Action::PlayScoutToken(info) => self.scout_step(info.0, info.1 as int, info.2),
        }
    }

    /// The state and the outcome after `action`: a finished game refuses
    /// every move; a refused move changes nothing; an accepted one is
    /// logged with the player who made it, and one that ends the game also
    /// marks it complete.
    pub open spec fn next(self, action: Action) -> (GameView, TransitionResult) {
        if self.public.game_complete {
            (self, TransitionResult::IllegalMove(IllegalMoveReason::GameComplete))
        } else {
            let (after, result) = self.step(action);
            let entry = (self.public.is_player_one_turn, action, result);
            match result {
                TransitionResult::IllegalMove(_) => (after, result),
                TransitionResult::GameComplete(..) => (
                    GameView {
                        public: PublicView {
                            game_complete: true,
                            action_history: after.public.action_history.push(entry),
                            ..after.public
                        },
                        ..after
                    },
                    result,
                ),
                TransitionResult::MoveAccepted => (
                    GameView {
                        public: PublicView {
                            action_history: after.public.action_history.push(entry),
                            ..after.public
                        },
                        ..after
                    },
                    result,
                ),
            }
        }
    }
}


/// The hand turned over card by card.
fn flip_hand(hand: &Vec<OrientedCard>) -> (r: Vec<OrientedCard>)
    ensures
        r@ == hand@.map_values(|c: OrientedCard| c.flip_spec()),
{
    let mut flipped: Vec<OrientedCard> = Vec::new();
    let mut i: usize = 0;
    while i < hand.len()
        invariant
            i <= hand@.len(),
            flipped@ == hand@.subrange(0, i as int).map_values(|c: OrientedCard| c.flip_spec()),
        decreases hand@.len() - i,
    {
        flipped.push(hand[i].flip());
        i = i + 1;
        assert(flipped@ =~= hand@.subrange(0, i as int).map_values(|c: OrientedCard| c.flip_spec()));
    }
    assert(hand@.subrange(0, i as int) =~= hand@);
    flipped
}

/// A vector holding the same cards.
pub(crate) fn copy_cards(cards: &[OrientedCard]) -> (r: Vec<OrientedCard>)
    ensures
        r@ == cards@,
{
    let mut copy: Vec<OrientedCard> = Vec::new();
    let mut i: usize = 0;
    while i < cards.len()
        invariant
            i <= cards@.len(),
            copy@ == cards@.subrange(0, i as int),
        decreases cards@.len() - i,
    {
        copy.push(cards[i]);
        i = i + 1;
        assert(copy@ =~= cards@.subrange(0, i as int));
    }
    assert(cards@.subrange(0, i as int) =~= cards@);
    copy
}

fn copy_history(history: &Vec<(bool, Action, TransitionResult)>) -> (r: Vec<(bool, Action, TransitionResult)>)
    ensures
        r@ == history@,
{
    let mut copy: Vec<(bool, Action, TransitionResult)> = Vec::new();
    let mut i: usize = 0;
    while i < history.len()
        invariant
            i <= history@.len(),
            copy@ == history@.subrange(0, i as int),
        decreases history@.len() - i,
    {
        copy.push(history[i]);
        i = i + 1;
        assert(copy@ =~= history@.subrange(0, i as int));
    }
    assert(history@.subrange(0, i as int) =~= history@);
    copy
}

/// Takes `hand[start..end]` out of the hand and returns it.
fn cut_run(hand: &mut Vec<OrientedCard>, start: usize, end: usize) -> (run: Vec<OrientedCard>)
    requires
        start <= end <= old(hand)@.len(),
    ensures
        run@ == old(hand)@.subrange(start as int, end as int),
        final(hand)@ == old(hand)@.subrange(0, start as int) + old(hand)@.subrange(
            end as int,
            old(hand)@.len() as int,
        ),
{
    let ghost whole = hand@;
    let mut run: Vec<OrientedCard> = Vec::new();
    let mut k: usize = start;
    while k < end
        invariant
            start <= k <= end <= whole.len(),
            run@ == whole.subrange(start as int, k as int),
            hand@ == whole.subrange(0, start as int) + whole.subrange(k as int, whole.len() as int),
        decreases end - k,
    {
        assert(hand@[start as int] == whole[k as int]);
        let c = hand.remove(start);
        run.push(c);
        k = k + 1;
        assert(run@ =~= whole.subrange(start as int, k as int));
        assert(hand@ =~= whole.subrange(0, start as int) + whole.subrange(k as int, whole.len() as int));
    }
    run
}

/// Looks for a run of `hand` that may be played on `board`.
fn hand_has_play(board: &Vec<OrientedCard>, hand: &Vec<OrientedCard>) -> (r: bool)
    requires
        board@.len() <= 255,
        hand@.len() <= 255,
    ensures
        r == has_play(board@, hand@),
{
    let mut start: usize = 0;
    while start < hand.len()
        invariant
            start <= hand@.len() <= 255,
            board@.len() <= 255,
            forall|s: int, e: int| 0 <= s < start ==> !#[trigger] playable(board@, hand@, s, e),
        decreases hand@.len() - start,
    {
        let mut end: usize = start + 1;
        while end <= hand.len()
            invariant
                start < end <= hand@.len() + 1,
                hand@.len() <= 255,
                board@.len() <= 255,
                forall|s: int, e: int| 0 <= s < start ==> !#[trigger] playable(board@, hand@, s, e),
                forall|e: int| e < end ==> !#[trigger] playable(board@, hand@, start as int, e),
            decreases hand@.len() + 1 - end,
        {
            let proposed = &hand.as_slice()[start..end];
            if legal_and_beats_board(board.as_slice(), proposed).is_none() {
                assert(playable(board@, hand@, start as int, end as int));
                return true;
            }
            end = end + 1;
        }
        assert forall|s: int, e: int| 0 <= s < start + 1 implies !#[trigger] playable(board@, hand@, s, e) by {
            if s == start {
                if e <= hand@.len() {
                    assert(!playable(board@, hand@, start as int, e));
                }
            }
        }
        start = start + 1;
    }
    false
}

impl GameState {
    /// Well-formed, as `GameView::wf` says.
    pub open spec fn wf(&self) -> bool {
        self@.wf()
    }

    /// An independent copy of the state, for exploring a move without
    /// touching the state it was copied from.
    pub fn snapshot(&self) -> (r: GameState)
        ensures
            r@ == self@,
    {
        let p = &self.public_state;
        GameState {
            public_state: PublicState {
                game_complete: p.game_complete,
                orientation_chosen: p.orientation_chosen,
                is_player_one_turn: p.is_player_one_turn,
                board: copy_cards(p.board.as_slice()),
                player_one_card_count: p.player_one_card_count,
                player_two_card_count: p.player_two_card_count,
                player_one_scout_token_count: p.player_one_scout_token_count,
                player_two_scout_token_count: p.player_two_scout_token_count,
                player_one_won_cards: p.player_one_won_cards,
                player_two_won_cards: p.player_two_won_cards,
                action_history: copy_history(&p.action_history),
            },
            player_one_hidden_state: PlayerHiddenState {
                hand: copy_cards(self.player_one_hidden_state.hand.as_slice()),
            },
            player_two_hidden_state: PlayerHiddenState {
                hand: copy_cards(self.player_two_hidden_state.hand.as_slice()),
            },
        }
    }

    /// A game between the two hands, each player holding `scout_tokens`
    /// tokens; player one chooses an orientation first.
    pub fn new_from_hands(
        player_one_hand: &[OrientedCard],
        player_two_hand: &[OrientedCard],
        scout_tokens: u8,
    ) -> (r: Self)
        requires
            player_one_hand@.len() == player_two_hand@.len(),
            player_one_hand@.len() + player_two_hand@.len() + 2 * scout_tokens <= 127,
        ensures
            r.wf(),
            r@ == initial_view(player_one_hand@, player_two_hand@, scout_tokens),
    {
        let player_one_hidden_state = PlayerHiddenState { hand: copy_cards(player_one_hand) };
        let player_two_hidden_state = PlayerHiddenState { hand: copy_cards(player_two_hand) };
        let public_state = PublicState {
            game_complete: false,
            orientation_chosen: false,
            is_player_one_turn: true,
            board: Vec::new(),
            player_one_card_count: player_one_hidden_state.hand.len() as u8,
            player_two_card_count: player_two_hidden_state.hand.len() as u8,
            player_one_won_cards: 0,
            player_two_won_cards: 0,
            player_one_scout_token_count: scout_tokens,
            player_two_scout_token_count: scout_tokens,
            action_history: Vec::new(),
        };
        let r = GameState { public_state, player_one_hidden_state, player_two_hidden_state };
        assert(r@.public.board =~= Seq::<OrientedCard>::empty());
        assert(r@.public.action_history =~= Seq::<(bool, Action, TransitionResult)>::empty());
        r
    }
}

impl GameState {
    fn handle_orientation_action(&mut self, do_flip: &FlipHand) -> (r: TransitionResult)
        ensures
            final(self)@ == old(self)@.oriented(*do_flip),
            r == TransitionResult::MoveAccepted,
    {
        if self.public_state.is_player_one_turn {
            match *do_flip {
                FlipHand::DoFlip => {
                    self.player_one_hidden_state.hand = flip_hand(&self.player_one_hidden_state.hand);
                },
                FlipHand::DoNotFlip => {},
            }
            self.public_state.is_player_one_turn = false;
        } else {
            match *do_flip {
                FlipHand::DoFlip => {
                    self.player_two_hidden_state.hand = flip_hand(&self.player_two_hidden_state.hand);
                },
                FlipHand::DoNotFlip => {},
            }
            self.public_state.is_player_one_turn = true;
            self.public_state.orientation_chosen = true;
        }
        TransitionResult::MoveAccepted
    }

    fn build_game_complete(&self, player_one_scores: bool) -> (r: TransitionResult)
        requires
            self.wf(),
        ensures
            r == self@.final_score(player_one_scores),
    {
        let p = &self.public_state;
        if player_one_scores {
            TransitionResult::GameComplete(
                p.player_one_won_cards as i8 + p.player_one_scout_token_count as i8,
                p.player_two_won_cards as i8 - p.player_two_card_count as i8
                    + p.player_two_scout_token_count as i8,
            )
        } else {
            TransitionResult::GameComplete(
                p.player_one_won_cards as i8 - p.player_one_card_count as i8
                    + p.player_one_scout_token_count as i8,
                p.player_two_won_cards as i8 + p.player_two_scout_token_count as i8,
            )
        }
    }

    /// Whether the given player has some run to play on the board.
    pub fn has_legal_play(&self, check_player_one: bool) -> (r: bool)
        requires
            self.wf(),
        ensures
            r == has_play(
                self@.public.board,
                if check_player_one {
                    self@.hand_one
                } else {
                    self@.hand_two
                },
            ),
    {
        let hand = if check_player_one {
            &self.player_one_hidden_state.hand
        } else {
            &self.player_two_hidden_state.hand
        };
        hand_has_play(&self.public_state.board, hand)
    }

    fn accept_or_complete(&self, mover_one: bool) -> (r: TransitionResult)
        requires
            self.wf(),
        ensures
            r == self@.settle(mover_one),
    {
        let opponent_tokens = if mover_one {
            self.public_state.player_two_scout_token_count
        } else {
            self.public_state.player_one_scout_token_count
        };
        if self.public_state.player_one_card_count == 0 {
            self.build_game_complete(true)
        } else if self.public_state.player_two_card_count == 0 {
            self.build_game_complete(false)
        } else if opponent_tokens == 0 && !self.has_legal_play(!mover_one) {
            self.build_game_complete(mover_one)
        } else {
            TransitionResult::MoveAccepted
        }
    }

    /// Handles a PlayCards action
    fn handle_play_card_action(&mut self, start_idx: &u8, end_idx: &u8) -> (r: TransitionResult)
        requires
            old(self).wf(),
        ensures
            (final(self)@, r) == old(self)@.play_step(*start_idx as int, *end_idx as int),
            final(self).wf(),
    {
        if !self.public_state.orientation_chosen {
            return TransitionResult::IllegalMove(IllegalMoveReason::MustChooseOrientation);
        }
        if *start_idx >= *end_idx {
            return TransitionResult::IllegalMove(IllegalMoveReason::BadHandIndex);
        }
        let start = *start_idx as usize;
        let end = *end_idx as usize;
        let hand_len = if self.public_state.is_player_one_turn {
            self.player_one_hidden_state.hand.len()
        } else {
            self.player_two_hidden_state.hand.len()
        };
        if end > hand_len {
            return TransitionResult::IllegalMove(IllegalMoveReason::BadHandIndex);
        }
        let verdict = if self.public_state.is_player_one_turn {
            legal_and_beats_board(
                self.public_state.board.as_slice(),
                &self.player_one_hidden_state.hand.as_slice()[start..end],
            )
        } else {
            legal_and_beats_board(
                self.public_state.board.as_slice(),
                &self.player_two_hidden_state.hand.as_slice()[start..end],
            )
        };
        if let Some(illegal_move) = verdict {
            return TransitionResult::IllegalMove(illegal_move);
        }
        let won = self.public_state.board.len() as u8;
        let mover_one = self.public_state.is_player_one_turn;
        if self.public_state.is_player_one_turn {
            let run = cut_run(&mut self.player_one_hidden_state.hand, start, end);
            self.public_state.player_one_card_count = self.public_state.player_one_card_count - run.len() as u8;
            self.public_state.player_one_won_cards = self.public_state.player_one_won_cards + won;
            self.public_state.board = run;
            self.public_state.is_player_one_turn = false;
        } else {
            let run = cut_run(&mut self.player_two_hidden_state.hand, start, end);
            self.public_state.player_two_card_count = self.public_state.player_two_card_count - run.len() as u8;
            self.public_state.player_two_won_cards = self.public_state.player_two_won_cards + won;
            self.public_state.board = run;
            self.public_state.is_player_one_turn = true;
        }
        assert(self@ == old(self)@.played(start as int, end as int));
        self.accept_or_complete(mover_one)
    }

    fn handle_play_scout_token(&mut self, picked_card_info: &(PickedCard, u8, Orientation)) -> (r:
        TransitionResult)
        requires
            old(self).wf(),
        ensures
            (final(self)@, r) == old(self)@.scout_step(
                picked_card_info.0,
                picked_card_info.1 as int,
                picked_card_info.2,
            ),
            final(self).wf(),
    {
        if !self.public_state.orientation_chosen {
            return TransitionResult::IllegalMove(IllegalMoveReason::MustChooseOrientation);
        }
        let picked_card = picked_card_info.0;
        let insertion_index = picked_card_info.1 as usize;
        let orientation = picked_card_info.2;
        let hand_len = if self.public_state.is_player_one_turn {
            if self.public_state.player_one_scout_token_count == 0 {
                return TransitionResult::IllegalMove(IllegalMoveReason::NoScoutTokens);
            }
            self.player_one_hidden_state.hand.len()
        } else {
            if self.public_state.player_two_scout_token_count == 0 {
                return TransitionResult::IllegalMove(IllegalMoveReason::NoScoutTokens);
            }
            self.player_two_hidden_state.hand.len()
        };
        if insertion_index > hand_len {
            return TransitionResult::IllegalMove(IllegalMoveReason::BadHandIndex);
        } else if self.public_state.board.len() == 0 {
            return TransitionResult::IllegalMove(IllegalMoveReason::ScoutWhenBoardEmpty);
        }
        let taken = match picked_card {
            PickedCard::FirstCard => self.public_state.board.remove(0),
            PickedCard::LastCard => {
                let last = self.public_state.board.len() - 1;
                self.public_state.board.remove(last)
            },
        };
        let card = OrientedCard { card: taken.card, orientation };
        let mover_one = self.public_state.is_player_one_turn;
        if self.public_state.is_player_one_turn {
            self.player_one_hidden_state.hand.insert(insertion_index, card);
            self.public_state.player_one_scout_token_count = self.public_state.player_one_scout_token_count - 1;
            self.public_state.player_one_card_count = self.public_state.player_one_card_count + 1;
        } else {
            self.player_two_hidden_state.hand.insert(insertion_index, card);
            self.public_state.player_two_scout_token_count = self.public_state.player_two_scout_token_count - 1;
            self.public_state.player_two_card_count = self.public_state.player_two_card_count + 1;
        }
        assert(self@.public.board =~= old(self)@.scouted(picked_card, insertion_index as int, orientation).public.board);
        assert(self@ == old(self)@.scouted(picked_card, insertion_index as int, orientation));
        self.accept_or_complete(mover_one)
    }

    /// Applies `action` for the player whose turn it is. A refused move
    /// changes nothing; see `GameView::next` for the rest.
    pub fn transition(&mut self, action: &Action) -> (r: TransitionResult)
        requires
            old(self).wf(),
        ensures
            (final(self)@, r) == old(self)@.next(*action),
            final(self).wf(),
    {
        if self.public_state.game_complete {
            return TransitionResult::IllegalMove(IllegalMoveReason::GameComplete);
        }
        let mover = self.public_state.is_player_one_turn;
        let result = match action {
            Action::ChooseOrientation(do_flip) => self.handle_orientation_action(do_flip),
            Action::PlayCards(start_idx, end_idx) => self.handle_play_card_action(start_idx, end_idx),
            Action::PlayScoutToken(picked_card_info) => self.handle_play_scout_token(picked_card_info),
        };
        match result {
            TransitionResult::GameComplete(..) => {
                self.public_state.game_complete = true;
                self.public_state.action_history.push((mover, *action, result));
            },
            TransitionResult::MoveAccepted => {
                self.public_state.action_history.push((mover, *action, result));
            },
            _ => {},
        }
        result
    }
}

/// The cards in both hands, player one's first, without their faces.
pub open spec fn dealt_cards(v: GameView) -> Seq<Card> {
    (v.hand_one + v.hand_two).map_values(|c: OrientedCard| c.card)
}

/// How many cards each player is dealt from the deck over `1..=max`.
pub open spec fn hand_size(max: u8) -> int {
    deck_size(max as int) / 4
}

/// The game dealt from the deck over `1..=max` shuffled with `seed`: player
/// one gets the first quarter of the shuffled deck, player two the second,
/// and the rest is set aside.
pub open spec fn seeded_view(max: u8, scout_tokens: u8, seed: u64) -> GameView {
    let dealt = shuffled_deck(deck_spec(max), seed);
    let k = hand_size(max);
    initial_view(dealt.subrange(0, k), dealt.subrange(k, 2 * k), scout_tokens)
}

impl GameState {
    /// A game dealt from the deck over `1..=max_card_num`, shuffled
    /// reproducibly from `seed`; each player holds `scout_tokens` tokens.
    pub fn new_from_seed(max_card_num: u8, scout_tokens: u8, seed: u64) -> (r: Self)
        requires
            max_card_num >= 4,
            2 * hand_size(max_card_num) + 2 * scout_tokens <= 127,
        ensures
            r.wf(),
            r@ == seeded_view(max_card_num, scout_tokens, seed),
            r@.total_cards() == 2 * hand_size(max_card_num),
            r@.hand_one.len() == hand_size(max_card_num),
            r@.hand_two.len() == hand_size(max_card_num),
            hand_size(max_card_num) >= 1,
            seeded_shuffle(deck_spec(max_card_num), seed).0.to_multiset() == deck_spec(
                max_card_num,
            ).to_multiset(),
            dealt_cards(r@) == seeded_shuffle(deck_spec(max_card_num), seed).0.subrange(
                0,
                2 * hand_size(max_card_num),
            ),
            dealt_cards(r@).no_duplicates(),
            forall|i: int|
                0 <= i < dealt_cards(r@).len() ==> deck_spec(max_card_num).contains(
                    #[trigger] dealt_cards(r@)[i],
                ),
    {
        let mut deck = build_deck(max_card_num);
        let ghost full = deck@;
        let shuffled_deck = shuffle_deck(&mut deck, seed);
        let cards_per_player = shuffled_deck.len() / 4;
        let s = shuffled_deck.as_slice();
        let r = GameState::new_from_hands(
            &s[0..cards_per_player],
            &s[cards_per_player..cards_per_player * 2],
            scout_tokens,
        );
        proof {
            crate::cards::lemma_deck_size_multiple_of_four(max_card_num);
            let order = seeded_shuffle(full, seed).0;
            let k = hand_size(max_card_num);
            full.to_multiset_ensures();
            order.to_multiset_ensures();
            full.lemma_multiset_has_no_duplicates();
            order.lemma_multiset_has_no_duplicates_conv();
            assert(dealt_cards(r@) =~= order.subrange(0, 2 * k));
            assert forall|i: int| 0 <= i < dealt_cards(r@).len() implies full.contains(
                #[trigger] dealt_cards(r@)[i],
            ) by {
                assert(dealt_cards(r@)[i] == order[i]);
                assert(order.contains(order[i]));
                assert(order.to_multiset().count(order[i]) > 0);
                assert(full.to_multiset().count(order[i]) > 0);
            }
        }
        r
    }
}

/// Conservation: no move creates or destroys a card. The cards in both
/// hands, on the board and won add up to the same number after any move as
/// before it.
pub proof fn lemma_cards_conserved(v: GameView, action: Action)
    requires
        v.wf(),
    ensures
        v.next(action).0.total_cards() == v.total_cards(),
{
    if !v.public.game_complete {
        match action {
            Action::PlayCards(start, end) => {
                let (s, e) = (start as int, end as int);
                let hand = v.active_hand();
                if v.public.orientation_chosen && s < e && e <= hand.len() {
                    let w = v.played(s, e);
                    assert((hand.subrange(0, s) + hand.subrange(e, hand.len() as int)).len() == hand.len()
                        - (e - s));
                    assert(w.total_cards() == v.total_cards());
                }
            },
            Action::PlayScoutToken(info) => {
                if v.public.orientation_chosen && v.public.active_tokens() > 0 && info.1 as int
                    <= v.active_hand().len() && v.public.board.len() > 0 {
                    let w = v.scouted(info.0, info.1 as int, info.2);
                    assert(w.total_cards() == v.total_cards());
                }
            },
            Action::ChooseOrientation(_) => {},
        }
    }
}

/// Every move keeps a well-formed state well-formed.
pub proof fn lemma_next_wf(v: GameView, action: Action)
    requires
        v.wf(),
    ensures
        v.next(action).0.wf(),
{
    if !v.public.game_complete {
        match action {
            Action::PlayCards(start, end) => {
                let (s, e) = (start as int, end as int);
                let hand = v.active_hand();
                if v.public.orientation_chosen && s < e && e <= hand.len() {
                    assert((hand.subrange(0, s) + hand.subrange(e, hand.len() as int)).len() == hand.len()
                        - (e - s));
                }
            },
            _ => {},
        }
    }
}

/// The board is empty or a set.
pub open spec fn board_is_set(v: GameView) -> bool {
    v.public.board.len() == 0 || classify(v.public.board) is Some
}

/// No move leaves on the board anything but a set: a play puts down a
/// set, and a scout takes an end card off one.
pub proof fn lemma_board_stays_a_set(v: GameView, action: Action)
    requires
        v.wf(),
        board_is_set(v),
    ensures
        board_is_set(v.next(action).0),
{
    let b = v.public.board;
    if !v.public.game_complete {
        match action {
            Action::PlayScoutToken(info) => {
                if v.public.orientation_chosen && v.public.active_tokens() > 0 && info.1 as int
                    <= v.active_hand().len() && b.len() > 1 {
                    crate::cards::lemma_set_without_end(crate::cards::tops(b));
                    assert(crate::cards::tops(b.drop_first()) =~= crate::cards::tops(b).drop_first());
                    assert(crate::cards::tops(b.drop_last()) =~= crate::cards::tops(b).drop_last());
                }
            },
            _ => {},
        }
    }
}

/// The state after the moves `actions`, one after another.
pub open spec fn play_out(v: GameView, actions: Seq<Action>) -> GameView
    decreases actions.len(),
{
    if actions.len() == 0 {
        v
    } else {
        play_out(v.next(actions[0]).0, actions.drop_first())
    }
}

/// Conservation along any sequence of moves: the cards in both hands, on
/// the board and won add up to the cards dealt, whatever was played.
pub proof fn lemma_cards_conserved_along(v: GameView, actions: Seq<Action>)
    requires
        v.wf(),
    ensures
        play_out(v, actions).wf(),
        play_out(v, actions).total_cards() == v.total_cards(),
    decreases actions.len(),
{
    if actions.len() > 0 {
        lemma_cards_conserved(v, actions[0]);
        lemma_next_wf(v, actions[0]);
        lemma_cards_conserved_along(v.next(actions[0]).0, actions.drop_first());
    }
}

/// A game dealt from a seed depends on the seed and the two counts alone:
/// two deals with the same arguments are the same game, card for card and
/// face for face.
pub proof fn lemma_same_seed_same_game(a: GameView, b: GameView, max: u8, scout_tokens: u8, seed: u64)
    requires
        a == seeded_view(max, scout_tokens, seed),
        b == seeded_view(max, scout_tokens, seed),
    ensures
        a == b,
        a.hand_one == b.hand_one,
        a.hand_two == b.hand_two,
{
}

/// The log holds accepted moves only: a refused move leaves it as it was,
/// and an accepted one adds exactly one entry, the mover, the move and its
/// outcome.
pub proof fn lemma_log_records_accepted_moves(v: GameView, action: Action)
    ensures
        v.next(action).1 is IllegalMove ==> v.next(action).0.public.action_history
            == v.public.action_history,
        !(v.next(action).1 is IllegalMove) ==> v.next(action).0.public.action_history
            == v.public.action_history.push((v.public.is_player_one_turn, action, v.next(action).1)),
{
}

/// Scout tokens are only ever spent: no move raises either player's
/// count.
pub proof fn lemma_tokens_never_increase(v: GameView, action: Action)
    requires
        v.wf(),
    ensures
        v.next(action).0.public.player_one_scout_token_count <= v.public.player_one_scout_token_count,
        v.next(action).0.public.player_two_scout_token_count <= v.public.player_two_scout_token_count,
{
}

/// Once the game is complete every move is refused with `GameComplete`,
/// and nothing changes, the log included.
pub proof fn lemma_complete_game_is_frozen(v: GameView, action: Action)
    requires
        v.public.game_complete,
    ensures
        v.next(action) == (v, TransitionResult::IllegalMove(IllegalMoveReason::GameComplete)),
{
}

/// The state before the first move of a game between two hands.
pub open spec fn initial_view(hand_one: Seq<OrientedCard>, hand_two: Seq<OrientedCard>, scout_tokens: u8) -> GameView {
    GameView {
        public: PublicView {
            game_complete: false,
            orientation_chosen: false,
            is_player_one_turn: true,
            board: Seq::empty(),
            player_one_card_count: hand_one.len() as u8,
            player_two_card_count: hand_two.len() as u8,
            player_one_scout_token_count: scout_tokens,
            player_two_scout_token_count: scout_tokens,
            player_one_won_cards: 0,
            player_two_won_cards: 0,
            action_history: Seq::empty(),
        },
        hand_one: hand_one,
        hand_two: hand_two,
    }
}

} // verus!
