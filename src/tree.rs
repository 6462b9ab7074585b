//! Exhaustive exploration of the game: a tree of every reachable state up
//! to a depth, and a walk over every finished game.

use vstd::prelude::*;

use crate::engine::{Action, GameState, GameView};
use crate::moves::{
    action_list, enumerate_legal_actions, lemma_listed_action_lowers_bound,
    lemma_listed_actions_are_accepted, moves_bound,
};

verus! {

/// A node of the game tree: a state and, for each move open from it, the
/// move and the subtree it leads to.
#[derive(Debug)]
pub struct GameNode {
    pub state: GameState,
    pub children: Vec<(Action, GameNode)>,
}

/// `node` is the tree of depth `depth` grown from the state `v`: its state
/// is `v`; it has no children when the depth is spent or the game is over;
/// otherwise its children follow the listed moves in order, each the tree
/// of depth `depth - 1` grown from the state that its move leads to.
pub open spec fn is_game_tree(node: GameNode, v: GameView, depth: nat) -> bool
    decreases depth,
{
    &&& node.state@ == v
    &&& if depth == 0 || v.public.game_complete {
        node.children@.len() == 0
    } else {
        let actions = action_list(v.public, v.active_hand());
        &&& node.children@.len() == actions.len()
        &&& forall|i: int|
            0 <= i < actions.len() ==> (#[trigger] node.children@[i]).0 == actions[i]
                && is_game_tree(node.children@[i].1, v.next(actions[i]).0, (depth - 1) as nat)
    }
}

/// Builds the tree of every state reachable from `initial_state` in at most
/// `depth_limit` moves.
pub fn build_game_tree(initial_state: GameState, depth_limit: u64) -> (r: GameNode)
    requires
        initial_state.wf(),
    ensures
        is_game_tree(r, initial_state@, depth_limit as nat),
    decreases depth_limit,
{
    if depth_limit == 0 || initial_state.public_state.game_complete {
        let r = GameNode { state: initial_state, children: Vec::new() };
        return r;
    }
    let legal_actions = enumerate_legal_actions(&initial_state);
    let ghost v = initial_state@;
    let ghost actions = action_list(v.public, v.active_hand());
    let mut children: Vec<(Action, GameNode)> = Vec::new();
    let mut i: usize = 0;
    while i < legal_actions.len()
        invariant
            initial_state.wf(),
            v == initial_state@,
            !v.public.game_complete,
            depth_limit > 0,
            legal_actions@ == actions,
            actions == action_list(v.public, v.active_hand()),
            i <= actions.len(),
            children@.len() == i,
            forall|j: int|
                0 <= j < i ==> (#[trigger] children@[j]).0 == actions[j] && is_game_tree(
                    children@[j].1,
                    v.next(actions[j]).0,
                    (depth_limit - 1) as nat,
                ),
        decreases actions.len() - i,
    {
        let action = legal_actions[i];
        let mut next_state = initial_state.snapshot();
        let result = next_state.transition(&action);
        proof {
            assert(actions[i as int] == action);
            lemma_listed_actions_are_accepted(v, action);
        }
        let child = build_game_tree(next_state, depth_limit - 1);
        children.push((action, child));
        i = i + 1;
    }
    let r = GameNode { state: initial_state, children };
    assert(is_game_tree(r, v, depth_limit as nat));
    r
}


/// The number of nodes in the tree under `node`, `node` included.
pub open spec fn node_count(node: GameNode) -> nat
    decreases node, node.children@.len() + 1,
{
    1 + children_count(node, 0)
}

/// The number of nodes in the subtrees of `node`'s children from the
/// `i`-th on.
pub open spec fn children_count(node: GameNode, i: int) -> nat
    decreases node, node.children@.len() - i,
{
    if i < 0 || i >= node.children@.len() {
        0
    } else {
        node_count(node.children@[i].1) + children_count(node, i + 1)
    }
}

/// Counts the total number of nodes in the game tree rooted at the given node.
pub fn count_nodes(node: &GameNode) -> (r: u64)
    requires
        node_count(*node) <= u64::MAX,
    ensures
        r == node_count(*node),
    decreases node,
{
    let mut count: u64 = 1;
    let mut i: usize = 0;
    while i < node.children.len()
        invariant
            i <= node.children@.len(),
            node_count(*node) <= u64::MAX,
            count + children_count(*node, i as int) == node_count(*node),
        decreases node.children@.len() - i,
    {
        assert(children_count(*node, i as int) == node_count(node.children@[i as int].1)
            + children_count(*node, i + 1));
        count = count + count_nodes(&node.children[i].1);
        i = i + 1;
    }
    count
}


/// Every finished game reachable from `v` by listed moves, in the order of
/// a depth-first walk that tries the moves in the enumerator's order; `v`
/// alone when the game is already over.
pub open spec fn finished_games(v: GameView) -> Seq<GameView>
    decreases moves_bound(v), action_list(v.public, v.active_hand()).len() + 1,
    when v.wf()
    via finished_games_decreases
{
    if v.public.game_complete {
        seq![v]
    } else {
        finished_games_after(v, 0)
    }
}

/// The finished games reached from `v` through its `i`-th listed move and
/// those after it.
pub open spec fn finished_games_after(v: GameView, i: int) -> Seq<GameView>
    decreases moves_bound(v), action_list(v.public, v.active_hand()).len() - i,
    when v.wf() && 0 <= i
    via finished_games_after_decreases
{
    let actions = action_list(v.public, v.active_hand());
    if i >= actions.len() {
        Seq::empty()
    } else {
        finished_games(v.next(actions[i]).0) + finished_games_after(v, i + 1)
    }
}

#[via_fn]
proof fn finished_games_decreases(v: GameView) {
}

#[via_fn]
proof fn finished_games_after_decreases(v: GameView, i: int) {
    let actions = action_list(v.public, v.active_hand());
    if i < actions.len() {
        assert(actions.contains(actions[i]));
        lemma_listed_action_lowers_bound(v, actions[i]);
        crate::engine::lemma_next_wf(v, actions[i]);
    }
}

/// The views of a sequence of states.
pub open spec fn views(states: Seq<GameState>) -> Seq<GameView> {
    states.map_values(|g: GameState| g@)
}

/// Walks every game that can be played on from `state`, and appends each
/// finished game it reaches to `finished`, in the order of the walk.
pub fn walk_games(state: GameState, finished: &mut Vec<GameState>)
    requires
        state.wf(),
    ensures
        views(final(finished)@) == views(old(finished)@) + finished_games(state@),
    decreases moves_bound(state@),
{
    let ghost v = state@;
    if state.public_state.game_complete {
        finished.push(state);
        assert(views(finished@) =~= views(old(finished)@) + finished_games(v));
        return;
    }
    let actions = enumerate_legal_actions(&state);
    let ghost list = action_list(v.public, v.active_hand());
    let mut i: usize = 0;
    assert(views(finished@) + finished_games_after(v, 0) =~= views(old(finished)@) + finished_games(v));
    while i < actions.len()
        invariant
            state.wf(),
            v == state@,
            !v.public.game_complete,
            actions@ == list,
            list == action_list(v.public, v.active_hand()),
            i <= list.len(),
            views(finished@) + finished_games_after(v, i as int) == views(old(finished)@)
                + finished_games(v),
        decreases list.len() - i,
    {
        let action = actions[i];
        let mut next_state = state.snapshot();
        let _ = next_state.transition(&action);
        proof {
            assert(list[i as int] == action);
            assert(list.contains(action));
            lemma_listed_action_lowers_bound(v, action);
        }
        let ghost before = views(finished@);
        walk_games(next_state, finished);
        assert(views(finished@) + finished_games_after(v, i + 1) =~= before + finished_games_after(
            v,
            i as int,
        ));
        i = i + 1;
    }
    assert(finished_games_after(v, i as int) =~= Seq::<GameView>::empty());
    assert(views(finished@) =~= views(finished@) + finished_games_after(v, i as int));
}


/// Counts every finished game that can be reached from `state`, walking
/// the game as `walk_games` does but keeping none of the states.
pub fn count_games(state: GameState) -> (r: u64)
    requires
        state.wf(),
        finished_games(state@).len() <= u64::MAX,
    ensures
        r == finished_games(state@).len(),
    decreases moves_bound(state@),
{
    let ghost v = state@;
    if state.public_state.game_complete {
        return 1;
    }
    let actions = enumerate_legal_actions(&state);
    let ghost list = action_list(v.public, v.active_hand());
    let ghost total = finished_games(v).len();
    let mut count: u64 = 0;
    let mut i: usize = 0;
    assert(finished_games_after(v, 0) == finished_games(v));
    while i < actions.len()
        invariant
            state.wf(),
            v == state@,
            !v.public.game_complete,
            actions@ == list,
            list == action_list(v.public, v.active_hand()),
            i <= list.len(),
            total == finished_games(v).len(),
            total <= u64::MAX,
            count + finished_games_after(v, i as int).len() == total,
        decreases list.len() - i,
    {
        let action = actions[i];
        let mut next_state = state.snapshot();
        let _ = next_state.transition(&action);
        proof {
            assert(list[i as int] == action);
            assert(list.contains(action));
            lemma_listed_action_lowers_bound(v, action);
            assert(finished_games_after(v, i as int) == finished_games(v.next(action).0)
                + finished_games_after(v, i + 1));
        }
        let games = count_games(next_state);
        count = count + games;
        i = i + 1;
    }
    count
}

} // verus!
