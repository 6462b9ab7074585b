//! The legal-move enumerator: every move that the engine accepts from a
//! state, in a fixed order.

use vstd::prelude::*;

use crate::cards::{Orientation, OrientedCard};
use crate::engine::{
    has_play, legal_and_beats_board, playable, Action, FlipHand, GameState, GameView, PickedCard,
    PlayerHiddenState, PublicState, PublicView,
};

verus! {

/// The plays of `hand[start..end2]` for `end2 >= end`, in order of `end2`,
/// that may be played on `board`.
pub open spec fn plays_ending_from(board: Seq<OrientedCard>, hand: Seq<OrientedCard>, start: int, end: int) -> Seq<
    Action,
>
    decreases hand.len() + 1 - end,
{
    if end > hand.len() {
        Seq::empty()
    } else {
        let here = if playable(board, hand, start, end) {
            seq![Action::PlayCards(start as u8, end as u8)]
        } else {
            Seq::empty()
        };
        here + plays_ending_from(board, hand, start, end + 1)
    }
}

/// The plays that start at `start` or later, ordered by start and then by
/// end.
pub open spec fn plays_starting_from(board: Seq<OrientedCard>, hand: Seq<OrientedCard>, start: int) -> Seq<Action>
    decreases hand.len() - start,
{
    if start >= hand.len() {
        Seq::empty()
    } else {
        plays_ending_from(board, hand, start, start + 1) + plays_starting_from(board, hand, start + 1)
    }
}

/// The scout moves that put a card at `index`: the first card of the board
/// facing either way, then the last card facing either way when the board
/// has more than one card.
pub open spec fn scouts_at(index: int, board_len: int) -> Seq<Action> {
    let first = seq![
        Action::PlayScoutToken((PickedCard::FirstCard, index as u8, Orientation::Larger)),
        Action::PlayScoutToken((PickedCard::FirstCard, index as u8, Orientation::Smaller)),
    ];
    if board_len > 1 {
        first + seq![
            Action::PlayScoutToken((PickedCard::LastCard, index as u8, Orientation::Larger)),
            Action::PlayScoutToken((PickedCard::LastCard, index as u8, Orientation::Smaller)),
        ]
    } else {
        first
    }
}

/// The scout moves for every insertion index from `index` to `hand_len`.
pub open spec fn scouts_from(index: int, hand_len: int, board_len: int) -> Seq<Action>
    decreases hand_len + 1 - index,
{
    if index > hand_len {
        Seq::empty()
    } else {
        scouts_at(index, board_len) + scouts_from(index + 1, hand_len, board_len)
    }
}

/// Every move open to the player to move, whose hand is `hand`: none once
/// the game is over; the two orientation choices before play starts;
/// afterwards each run of the hand that beats the board, then, with a
/// token left and a card on the board, each scout move.
pub open spec fn action_list(p: PublicView, hand: Seq<OrientedCard>) -> Seq<Action> {
    if p.game_complete {
        Seq::empty()
    } else if !p.orientation_chosen {
        seq![Action::ChooseOrientation(FlipHand::DoFlip), Action::ChooseOrientation(FlipHand::DoNotFlip)]
    } else {
        let plays = plays_starting_from(p.board, hand, 0);
        if p.active_tokens() > 0 && p.board.len() > 0 {
            plays + scouts_from(0, hand.len() as int, p.board.len() as int)
        } else {
            plays
        }
    }
}

/// `action` plays a run of `hand` that may be played on `board`.
pub open spec fn is_playable_run(board: Seq<OrientedCard>, hand: Seq<OrientedCard>, action: Action) -> bool {
    match action {
        Action::PlayCards(start, end) => playable(board, hand, start as int, end as int),
        _ => false,
    }
}

/// `action` is a scout move whose insertion index lies within a hand of
/// `hand_len` cards.
pub open spec fn is_scout_within(hand_len: int, action: Action) -> bool {
    match action {
        Action::PlayScoutToken(info) => info.1 as int <= hand_len,
        _ => false,
    }
}

proof fn lemma_plays_ending_from(board: Seq<OrientedCard>, hand: Seq<OrientedCard>, start: int, end: int)
    requires
        0 <= start,
        hand.len() <= 255,
    ensures
        forall|i: int|
            0 <= i < plays_ending_from(board, hand, start, end).len() ==> #[trigger] is_playable_run(
                board,
                hand,
                plays_ending_from(board, hand, start, end)[i],
            ),
    decreases hand.len() + 1 - end,
{
    if end <= hand.len() {
        lemma_plays_ending_from(board, hand, start, end + 1);
        let here = if playable(board, hand, start, end) {
            seq![Action::PlayCards(start as u8, end as u8)]
        } else {
            Seq::empty()
        };
        let rest = plays_ending_from(board, hand, start, end + 1);
        assert(plays_ending_from(board, hand, start, end) == here + rest);
        assert forall|i: int| 0 <= i < (here + rest).len() implies #[trigger] is_playable_run(
            board,
            hand,
            (here + rest)[i],
        ) by {
            if i >= here.len() {
                assert((here + rest)[i] == rest[i - here.len()]);
            }
        }
    }
}

proof fn lemma_plays_starting_from(board: Seq<OrientedCard>, hand: Seq<OrientedCard>, start: int)
    requires
        0 <= start,
        hand.len() <= 255,
    ensures
        forall|i: int|
            0 <= i < plays_starting_from(board, hand, start).len() ==> #[trigger] is_playable_run(
                board,
                hand,
                plays_starting_from(board, hand, start)[i],
            ),
    decreases hand.len() - start,
{
    if start < hand.len() {
        lemma_plays_starting_from(board, hand, start + 1);
        lemma_plays_ending_from(board, hand, start, start + 1);
        let x = plays_ending_from(board, hand, start, start + 1);
        let y = plays_starting_from(board, hand, start + 1);
        assert forall|i: int| 0 <= i < (x + y).len() implies #[trigger] is_playable_run(board, hand, (x + y)[i]) by {
            if i < x.len() {
                assert(is_playable_run(board, hand, x[i]));
            } else {
                assert(is_playable_run(board, hand, y[i - x.len()]));
            }
        }
    }
}

proof fn lemma_scouts_from(index: int, hand_len: int, board_len: int)
    requires
        0 <= index,
        hand_len <= 255,
    ensures
        forall|i: int|
            0 <= i < scouts_from(index, hand_len, board_len).len() ==> #[trigger] is_scout_within(
                hand_len,
                scouts_from(index, hand_len, board_len)[i],
            ),
    decreases hand_len + 1 - index,
{
    if index <= hand_len {
        lemma_scouts_from(index + 1, hand_len, board_len);
        let x = scouts_at(index, board_len);
        let y = scouts_from(index + 1, hand_len, board_len);
        assert forall|i: int| 0 <= i < (x + y).len() implies #[trigger] is_scout_within(hand_len, (x + y)[i]) by {
            if i < x.len() {
                assert(is_scout_within(hand_len, x[i]));
            } else {
                assert(is_scout_within(hand_len, y[i - x.len()]));
            }
        }
    }
}

proof fn lemma_playable_is_listed_from_end(board: Seq<OrientedCard>, hand: Seq<OrientedCard>, start: int, from: int, end: int)
    requires
        from <= end,
        playable(board, hand, start, end),
    ensures
        plays_ending_from(board, hand, start, from).len() > 0,
    decreases end - from,
{
    if from < end {
        lemma_playable_is_listed_from_end(board, hand, start, from + 1, end);
    }
}

proof fn lemma_playable_is_listed_from_start(board: Seq<OrientedCard>, hand: Seq<OrientedCard>, from: int, start: int, end: int)
    requires
        from <= start,
        playable(board, hand, start, end),
    ensures
        plays_starting_from(board, hand, from).len() > 0,
    decreases start - from,
{
    if from < start {
        lemma_playable_is_listed_from_start(board, hand, from + 1, start, end);
    } else {
        lemma_playable_is_listed_from_end(board, hand, start, start + 1, end);
    }
}

/// A player has a legal play exactly when the enumerator lists some play
/// for their hand.
pub proof fn lemma_has_play_iff_plays_listed(board: Seq<OrientedCard>, hand: Seq<OrientedCard>)
    requires
        hand.len() <= 255,
    ensures
        has_play(board, hand) <==> plays_starting_from(board, hand, 0).len() > 0,
{
    if has_play(board, hand) {
        let (start, end) = choose|start: int, end: int| #[trigger] playable(board, hand, start, end);
        lemma_playable_is_listed_from_start(board, hand, 0, start, end);
    }
    if plays_starting_from(board, hand, 0).len() > 0 {
        lemma_plays_starting_from(board, hand, 0);
        let first = plays_starting_from(board, hand, 0)[0];
        assert(is_playable_run(board, hand, first));
        if let Action::PlayCards(start, end) = first {
            assert(playable(board, hand, start as int, end as int));
        }
    }
}

/// Soundness of the enumeration: the engine accepts every move that the
/// enumerator lists.
pub proof fn lemma_listed_actions_are_accepted(v: GameView, action: Action)
    requires
        v.wf(),
        action_list(v.public, v.active_hand()).contains(action),
    ensures
        !(v.next(action).1 is IllegalMove),
{
    let hand = v.active_hand();
    let p = v.public;
    let list = action_list(p, hand);
    let i = choose|i: int| 0 <= i < list.len() && list[i] == action;
    if !p.game_complete && p.orientation_chosen {
        let plays = plays_starting_from(p.board, hand, 0);
        lemma_plays_starting_from(p.board, hand, 0);
        if p.active_tokens() > 0 && p.board.len() > 0 {
            let scouts = scouts_from(0, hand.len() as int, p.board.len() as int);
            lemma_scouts_from(0, hand.len() as int, p.board.len() as int);
            if i < plays.len() {
                assert(is_playable_run(p.board, hand, plays[i]));
            } else {
                assert(list[i] == scouts[i - plays.len()]);
                assert(is_scout_within(hand.len() as int, scouts[i - plays.len()]));
            }
        } else {
            assert(is_playable_run(p.board, hand, plays[i]));
        }
    }
}

/// An upper bound on the moves left in a game: each listed move lowers it.
/// A play shrinks the mover's hand; a scout spends a token (worth two) and
/// adds one card; an orientation choice uses up one of the two choices.
pub open spec fn moves_bound(v: GameView) -> int {
    let p = v.public;
    2 * (p.player_one_scout_token_count + p.player_two_scout_token_count) + v.hand_one.len()
        + v.hand_two.len() + if p.orientation_chosen {
        0int
    } else if p.is_player_one_turn {
        2int
    } else {
        1int
    }
}

/// Every listed move lowers `moves_bound`, so play cannot go on forever.
pub proof fn lemma_listed_action_lowers_bound(v: GameView, action: Action)
    requires
        v.wf(),
        action_list(v.public, v.active_hand()).contains(action),
    ensures
        0 <= moves_bound(v.next(action).0) < moves_bound(v),
{
    let hand = v.active_hand();
    let p = v.public;
    let list = action_list(p, hand);
    let i = choose|i: int| 0 <= i < list.len() && list[i] == action;
    if p.orientation_chosen {
        let plays = plays_starting_from(p.board, hand, 0);
        lemma_plays_starting_from(p.board, hand, 0);
        if p.active_tokens() > 0 && p.board.len() > 0 {
            let scouts = scouts_from(0, hand.len() as int, p.board.len() as int);
            lemma_scouts_from(0, hand.len() as int, p.board.len() as int);
            if i < plays.len() {
                assert(is_playable_run(p.board, hand, plays[i]));
            } else {
                assert(list[i] == scouts[i - plays.len()]);
                assert(is_scout_within(hand.len() as int, scouts[i - plays.len()]));
            }
        } else {
            assert(is_playable_run(p.board, hand, plays[i]));
        }
        match action {
            Action::PlayCards(start, end) => {
                let (s, e) = (start as int, end as int);
                assert((hand.subrange(0, s) + hand.subrange(e, hand.len() as int)).len() == hand.len()
                    - (e - s));
            },
            _ => {},
        }
    } else {
        assert(list[i] == action);
    }
}

/// Lists the moves open to the player to move, whose hand is `hand`.
pub fn legal_actions(public_state: &PublicState, hand: &Vec<OrientedCard>) -> (r: Vec<Action>)
    requires
        public_state.board@.len() <= 255,
        hand@.len() <= 255,
    ensures
        r@ == action_list(public_state@, hand@),
{
    let mut legal: Vec<Action> = Vec::new();
    if public_state.game_complete {
        assert(legal@ =~= action_list(public_state@, hand@));
        return legal;
    }
    if !public_state.orientation_chosen {
        legal.push(Action::ChooseOrientation(FlipHand::DoFlip));
        legal.push(Action::ChooseOrientation(FlipHand::DoNotFlip));
        assert(legal@ =~= action_list(public_state@, hand@));
        return legal;
    }
    let ghost board = public_state.board@;
    let ghost all_plays = plays_starting_from(board, hand@, 0);
    let mut start: usize = 0;
    while start < hand.len()
        invariant
            board == public_state.board@,
            board.len() <= 255,
            start <= hand@.len() <= 255,
            all_plays == plays_starting_from(board, hand@, 0),
            legal@ + plays_starting_from(board, hand@, start as int) == all_plays,
        decreases hand@.len() - start,
    {
        let mut end: usize = start + 1;
        assert(legal@ + plays_ending_from(board, hand@, start as int, end as int) + plays_starting_from(
            board,
            hand@,
            start + 1,
        ) =~= all_plays);
        while end <= hand.len()
            invariant
                board == public_state.board@,
                board.len() <= 255,
                start < end <= hand@.len() + 1,
                hand@.len() <= 255,
                legal@ + plays_ending_from(board, hand@, start as int, end as int) + plays_starting_from(
                    board,
                    hand@,
                    start + 1,
                ) == all_plays,
            decreases hand@.len() + 1 - end,
        {
            let ghost before = legal@;
            let proposed = &hand.as_slice()[start..end];
            if legal_and_beats_board(public_state.board.as_slice(), proposed).is_none() {
                legal.push(Action::PlayCards(start as u8, end as u8));
            }
            assert(legal@ + plays_ending_from(board, hand@, start as int, end + 1) =~= before
                + plays_ending_from(board, hand@, start as int, end as int));
            end = end + 1;
        }
        assert(legal@ + plays_starting_from(board, hand@, start + 1) =~= all_plays);
        start = start + 1;
    }
    assert(legal@ =~= all_plays);
    let has_tokens = if public_state.is_player_one_turn {
        public_state.player_one_scout_token_count > 0
    } else {
        public_state.player_two_scout_token_count > 0
    };
    if has_tokens && public_state.board.len() > 0 {
        let ghost hand_len = hand@.len() as int;
        let ghost board_len = board.len() as int;
        let ghost all_scouts = scouts_from(0, hand_len, board_len);
        let mut index: usize = 0;
        while index <= hand.len()
            invariant
                hand_len == hand@.len() <= 255,
                board_len == public_state.board@.len(),
                index <= hand_len + 1,
                all_scouts == scouts_from(0, hand_len, board_len),
                legal@ + scouts_from(index as int, hand_len, board_len) == all_plays + all_scouts,
            decreases hand_len + 1 - index,
        {
            let ghost before = legal@;
            let i = index as u8;
            legal.push(Action::PlayScoutToken((PickedCard::FirstCard, i, Orientation::Larger)));
            legal.push(Action::PlayScoutToken((PickedCard::FirstCard, i, Orientation::Smaller)));
            if public_state.board.len() > 1 {
                legal.push(Action::PlayScoutToken((PickedCard::LastCard, i, Orientation::Larger)));
                legal.push(Action::PlayScoutToken((PickedCard::LastCard, i, Orientation::Smaller)));
            }
            assert(legal@ =~= before + scouts_at(index as int, board_len));
            assert(legal@ + scouts_from(index + 1, hand_len, board_len) =~= before + scouts_from(
                index as int,
                hand_len,
                board_len,
            ));
            index = index + 1;
        }
        assert(legal@ =~= action_list(public_state@, hand@));
    } else {
        assert(legal@ =~= action_list(public_state@, hand@));
    }
    legal
}

/// Enumerates all legal actions for the current player from the given game state.
pub fn enumerate_legal_actions(state: &GameState) -> (r: Vec<Action>)
    requires
        state.wf(),
    ensures
        r@ == action_list(state@.public, state@.active_hand()),
{
    let hand = if state.public_state.is_player_one_turn {
        &state.player_one_hidden_state.hand
    } else {
        &state.player_two_hidden_state.hand
    };
    legal_actions(&state.public_state, hand)
}


/// A cursor over the moves open to a player, in the enumerator's order.
pub struct MoveIter {
    actions: Vec<Action>,
    position: usize,
}

impl MoveIter {
    /// The cursor is within its list of moves.
    pub closed spec fn inv(&self) -> bool {
        self.position <= self.actions@.len()
    }

    /// The moves that the cursor has yet to hand out.
    pub closed spec fn remaining(&self) -> Seq<Action> {
        self.actions@.subrange(self.position as int, self.actions@.len() as int)
    }

    /// A cursor over the moves open to the player whose hidden state is
    /// given, the player to move.
    pub fn new(public_state: &PublicState, hidden_state: &PlayerHiddenState) -> (r: MoveIter)
        requires
            public_state.board@.len() <= 255,
            hidden_state.hand@.len() <= 255,
        ensures
            r.inv(),
            r.remaining() == action_list(public_state@, hidden_state.hand@),
    {
        let actions = legal_actions(public_state, &hidden_state.hand);
        let r = MoveIter { actions, position: 0 };
        assert(r.remaining() =~= action_list(public_state@, hidden_state.hand@));
        r
    }

    /// The next move, if any is left.
    pub fn next(&mut self) -> (r: Option<Action>)
        requires
            old(self).inv(),
        ensures
            final(self).inv(),
            old(self).remaining().len() == 0 ==> r is None && final(self).remaining() == old(
                self,
            ).remaining(),
            old(self).remaining().len() > 0 ==> r == Some(old(self).remaining()[0])
                && final(self).remaining() == old(self).remaining().drop_first(),
    {
        if self.position < self.actions.len() {
            let a = self.actions[self.position];
            self.position = self.position + 1;
            assert(self.remaining() =~= old(self).remaining().drop_first());
            Some(a)
        } else {
            None
        }
    }

    /// How many moves are left; the cursor is used up.
    pub fn count(self) -> (r: usize)
        requires
            self.inv(),
        ensures
            r == self.remaining().len(),
    {
        self.actions.len() - self.position
    }
}

} // verus!
