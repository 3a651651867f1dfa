//! Tests of the search engine: arena bookkeeping, UCB scoring,
//! backpropagation statistics, and end-to-end searches on tic-tac-toe.

use mcts::arena::Arena;
use mcts::node::Node;
use mcts::num::{isqrt, log2_floor_u64, mean_fp};
use mcts::search::{Mcts, SearchError};
use mcts::state::State;
use mcts::tic_tac_toe::TicTacToe;

const C: u64 = 1_414_214;

fn play(moves: &[(usize, usize)]) -> TicTacToe {
    let mut g = TicTacToe::new();
    for m in moves {
        assert!(!g.is_terminal());
        assert!(g.get_legal_actions().contains(m));
        g = g.step(m);
    }
    g
}

/// Eight cells filled, no winner, and the one remaining move wins for the
/// player to move (top row for player 0 at `(0, 2)`).
fn one_winning_move_left() -> TicTacToe {
    let g = play(&[
        (0, 0),
        (1, 0),
        (0, 1),
        (1, 1),
        (2, 2),
        (2, 0),
        (1, 2),
        (2, 1),
    ]);
    assert!(!g.is_terminal());
    assert_eq!(g.get_legal_actions(), vec![(0, 2)]);
    g
}

#[test]
fn arena_hands_out_stable_indices() {
    let mut arena: Arena<TicTacToe> = Arena::new();
    let a = arena.add_node(Node::new(TicTacToe::new(), (0, 0), None));
    let b = arena.add_node(Node::new(TicTacToe::new(), (1, 1), Some(a)));
    assert_eq!(a, 0);
    assert_eq!(b, 1);
    assert_eq!(arena.get_node(b).action, (1, 1));
    assert_eq!(arena.get_node(b).parent, Some(0));
    arena.push_child(a, b);
    assert_eq!(arena.get_node(a).children, vec![b]);
}

#[test]
fn update_stats_keeps_the_mean_exact() {
    let mut arena: Arena<TicTacToe> = Arena::new();
    let a = arena.add_node(Node::new(TicTacToe::new(), (0, 0), None));
    arena.update_stats(a, 1, 1);
    assert_eq!(arena.get_node(a).n, 1);
    assert_eq!(arena.get_node(a).reward_sum, 1);
    assert_eq!(arena.get_node(a).q_fp, 1_000_000);
    arena.update_stats(a, -2, 2);
    assert_eq!(arena.get_node(a).n, 3);
    assert_eq!(arena.get_node(a).reward_sum, -1);
    assert_eq!(arena.get_node(a).q_fp, -333_334);
}

#[test]
fn integer_helpers_match_their_formulas() {
    assert_eq!(log2_floor_u64(1), 0);
    assert_eq!(log2_floor_u64(10), 3);
    assert_eq!(log2_floor_u64(1024), 10);
    assert_eq!(isqrt(0), 0);
    assert_eq!(isqrt(415_888_200_000), 644_893);
    assert_eq!(mean_fp(-1, 3), -333_334);
    assert_eq!(mean_fp(3, 5), 600_000);
}

#[test]
fn ucb_scores_a_visited_node_exactly() {
    let visited: Node<TicTacToe> = Node {
        state: TicTacToe::new(),
        action: (0, 0),
        parent: Some(0),
        children: vec![],
        n: 5,
        reward_sum: 3,
        q_fp: 600_000,
    };
    // mean 0.6 shifted by 1, plus sqrt(ln(10)/5) scaled: ln rounded to
    // whole powers of two gives 3·ln 2.
    assert_eq!(visited.ucb(10, C), 2_512_016);
}

#[test]
fn unvisited_node_outscores_any_visited_sibling() {
    let fresh: Node<TicTacToe> = Node::new(TicTacToe::new(), (0, 0), Some(0));
    let strong: Node<TicTacToe> = Node {
        state: TicTacToe::new(),
        action: (0, 1),
        parent: Some(0),
        children: vec![],
        n: 1,
        reward_sum: 1,
        q_fp: 1_000_000,
    };
    assert_eq!(fresh.ucb(1_000_000, C), u64::MAX);
    assert!(fresh.ucb(1_000_000, C) > strong.ucb(1_000_000, C));
}

#[test]
fn best_child_prefers_unvisited_and_breaks_ties_first_seen() {
    let mut arena: Arena<TicTacToe> = Arena::new();
    let parent = Node {
        state: TicTacToe::new(),
        action: (0, 0),
        parent: None,
        children: vec![1, 2],
        n: 2,
        reward_sum: 0,
        q_fp: 0,
    };
    let visited = Node {
        state: TicTacToe::new(),
        action: (0, 1),
        parent: Some(0),
        children: vec![],
        n: 2,
        reward_sum: 2,
        q_fp: 1_000_000,
    };
    let fresh = Node::new(TicTacToe::new(), (0, 2), Some(0));
    let p = arena.add_node(parent);
    arena.add_node(visited);
    arena.add_node(fresh);
    // The unvisited child wins over the perfectly scoring visited one.
    assert_eq!(arena.get_node(p).get_best_child(&arena, C), 2);
    // Two equally scored children: the first one seen wins.
    let mut tie: Arena<TicTacToe> = Arena::new();
    let q = tie.add_node(Node {
        state: TicTacToe::new(),
        action: (0, 0),
        parent: None,
        children: vec![1, 2],
        n: 2,
        reward_sum: 0,
        q_fp: 0,
    });
    tie.add_node(Node::new(TicTacToe::new(), (0, 1), Some(0)));
    tie.add_node(Node::new(TicTacToe::new(), (0, 2), Some(0)));
    assert_eq!(tie.get_node(q).get_best_child(&tie, C), 1);
}

#[test]
fn backprop_flips_the_reward_sign_per_level() {
    // One legal move left and it wins: both rollouts are deterministic.
    let mut engine = Mcts::with_seed(one_winning_move_left(), C, 7);
    let action = engine.search(2);
    assert_eq!(action, (0, 2));
    // Iteration 1 expands the root: the child's rollout, seen from the
    // player the move hands the turn to, is a loss (-1), and the root
    // accumulates it. Iteration 2 descends to the terminal child: the child
    // accumulates +1 (its mover won), and the root, one level up, -1.
    let root = engine.arena.get_node(engine.root_id);
    assert_eq!(root.children.len(), 1);
    let child_id = root.children[0];
    let child = engine.arena.get_node(child_id);
    assert_eq!(child.n, 1);
    assert_eq!(child.reward_sum, 1);
    assert_eq!(child.q_fp, 1_000_000);
    assert_eq!(root.n, 2);
    assert_eq!(root.reward_sum, -2);
    assert_eq!(root.q_fp, -1_000_000);
}

#[test]
fn expansion_creates_one_child_per_legal_action() {
    let mut engine = Mcts::with_seed(TicTacToe::new(), C, 11);
    engine.search(1);
    let root = engine.arena.get_node(engine.root_id);
    assert_eq!(root.children.len(), 9);
    let mut actions: Vec<(usize, usize)> = Vec::new();
    for &c in &root.children {
        let child = engine.arena.get_node(c);
        assert_eq!(child.parent, Some(engine.root_id));
        actions.push(child.action);
    }
    assert_eq!(actions, TicTacToe::new().get_legal_actions());
}

#[test]
fn stored_means_always_equal_reward_sum_over_visits() {
    let mut engine = Mcts::with_seed(TicTacToe::new(), C, 3);
    engine.search(300);
    for node in &engine.arena.nodes {
        if node.n == 0 {
            assert_eq!(node.q_fp, 0);
        } else {
            let exact = (node.reward_sum as i128 * 1_000_000).div_euclid(node.n as i128);
            assert_eq!(node.q_fp as i128, exact);
        }
    }
}

#[test]
fn single_legal_action_is_returned_whatever_the_budget() {
    for budget in [1usize, 2, 10, 500] {
        let mut engine = Mcts::with_seed(one_winning_move_left(), C, 42);
        assert_eq!(engine.search(budget), (0, 2));
    }
    let mut parallel = Mcts::new(one_winning_move_left(), C);
    assert_eq!(parallel.search_parallel(50), (0, 2));
}

#[test]
fn seeded_searches_are_reproducible() {
    let mut a = Mcts::with_seed(TicTacToe::new(), C, 99);
    let mut b = Mcts::with_seed(TicTacToe::new(), C, 99);
    let ra = a.search(200);
    let rb = b.search(200);
    assert_eq!(ra, rb);
    assert_eq!(a.arena.nodes.len(), b.arena.nodes.len());
    assert_eq!(
        a.arena.get_node(a.root_id).reward_sum,
        b.arena.get_node(b.root_id).reward_sum
    );
}

#[test]
fn forced_win_is_taken() {
    // Player 0 completes the top row at (0, 2); anything else loses.
    let board = play(&[(0, 0), (1, 0), (0, 1), (1, 1)]);
    let mut engine = Mcts::with_seed(board, C, 5);
    assert_eq!(engine.search(500), (0, 2));
    let mut parallel = Mcts::new(board, C);
    assert_eq!(parallel.search_parallel(500), (0, 2));
}

#[test]
fn opening_move_is_center_or_corner() {
    let mut engine = Mcts::with_seed(TicTacToe::new(), C, 1);
    let action = engine.search(2000);
    let good = [(1, 1), (0, 0), (0, 2), (2, 0), (2, 2)];
    assert!(good.contains(&action), "played {:?}", action);
}

#[test]
fn invalid_configurations_are_rejected_up_front() {
    let mut engine = Mcts::with_seed(TicTacToe::new(), C, 8);
    assert_eq!(engine.try_search(0), Err(SearchError::ZeroBudget));

    let finished = play(&[(0, 0), (1, 0), (0, 1), (1, 1), (0, 2)]);
    assert!(finished.is_terminal());
    let mut stuck = Mcts::with_seed(finished, C, 8);
    assert_eq!(stuck.try_search(100), Err(SearchError::TerminalRoot));

    let mut fine = Mcts::with_seed(one_winning_move_left(), C, 8);
    assert_eq!(fine.try_search(5), Ok((0, 2)));
}

#[test]
fn extraction_breaks_ties_by_first_seen_child() {
    // After a single iteration every root child is unvisited, so all means
    // tie and the first child — the first legal action — must win.
    let mut engine = Mcts::with_seed(TicTacToe::new(), C, 123);
    assert_eq!(engine.search(1), (0, 0));
}

#[test]
fn rollout_from_a_terminal_position_returns_its_reward() {
    // X has completed the top row: no draw happens, the reward is exact.
    let won = play(&[(0, 0), (1, 0), (0, 1), (1, 1), (0, 2)]);
    assert!(won.is_terminal());
    let mut engine = Mcts::with_seed(TicTacToe::new(), C, 17);
    assert_eq!(engine.simulate_from_state(won, 0), 1);
    assert_eq!(engine.simulate_from_state(won, 1), -1);
}

#[test]
fn root_visits_cover_the_budget() {
    let mut engine = Mcts::with_seed(TicTacToe::new(), C, 21);
    engine.search(50);
    assert!(engine.arena.get_node(engine.root_id).n >= 50);
}

#[test]
fn fresh_engine_holds_one_placeholder_root() {
    let engine = Mcts::with_seed(TicTacToe::new(), C, 2);
    assert_eq!(engine.arena.nodes.len(), 1);
    assert_eq!(engine.root_id, 0);
    let root = engine.arena.get_node(0);
    assert_eq!(root.action, (0, 0));
    assert_eq!(root.parent, None);
    assert_eq!(root.n, 0);
    assert_eq!(root.reward_sum, 0);
    assert!(root.children.is_empty());
}
