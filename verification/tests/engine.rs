use mcts_engine::game::Color;
use mcts_engine::game::Game;
use mcts_engine::game::TakeAway;
use mcts_engine::mcts::EstimatorMode;
use mcts_engine::mcts::HALF;
use mcts_engine::mcts::MctsEngine;
use mcts_engine::mcts::Node;
use mcts_engine::mcts::OutEdge;
use mcts_engine::mcts::SCALE;
use mcts_engine::mcts::rollout;
use mcts_engine::mcts::white_score;

fn board(remaining: u64, moves_left: u64, turn: Color) -> TakeAway {
    TakeAway { remaining, moves_left, turn }
}

#[test]
fn test_mcts() {
    let b = board(7, 12, Color::White);
    let mut mcts: MctsEngine<TakeAway> = MctsEngine::new(SCALE);

    println!("{:?}", b);

    for i in 1..=4 {
        mcts.playout(&b);
        let root = mcts
            .nodes
            .iter()
            .find(|n| n.board == b)
            .expect("root node must exist after a playout");
        println!("After {i} playouts: \nQ: {}    (N: {})", root.eval, root.count);
    }
    println!("{:?}", b);
}

#[test]
fn rollout_value_set() {
    // The rollout outcome is always one of 0, one half, or one.
    for remaining in 0..8u64 {
        for moves_left in 0..6u64 {
            let r = rollout(&board(remaining, moves_left, Color::White));
            assert!(r == 0 || r == HALF || r == SCALE);
            let r = rollout(&board(remaining, moves_left, Color::Black));
            assert!(r == 0 || r == HALF || r == SCALE);
        }
    }
}

#[test]
fn rollout_draw_is_half() {
    // An exhausted move budget is a draw, worth one half.
    assert_eq!(rollout(&board(5, 0, Color::White)), HALF);
}

#[test]
fn rollout_forced_loss_returns_zero() {
    // One ply before a forced loss for White: Black must take the last
    // token, leaving White without a move.
    assert_eq!(rollout(&board(1, 5, Color::Black)), 0);
}

#[test]
fn rollout_forced_win_for_white() {
    // White takes the last token; Black has no move and loses.
    assert_eq!(rollout(&board(1, 5, Color::White)), SCALE);
}

#[test]
fn white_score_cases() {
    assert_eq!(white_score(&board(3, 0, Color::White)), HALF);
    assert_eq!(white_score(&board(0, 5, Color::White)), 0);
    assert_eq!(white_score(&board(0, 5, Color::Black)), SCALE);
}

#[test]
fn one_node_per_distinct_state() {
    // Transpositions share a node: after many playouts no two nodes hold
    // the same position.
    let b = board(6, 10, Color::White);
    let mut mcts: MctsEngine<TakeAway> = MctsEngine::new(SCALE);
    for _ in 0..200 {
        mcts.playout(&b);
    }
    for i in 0..mcts.nodes.len() {
        for j in 0..mcts.nodes.len() {
            if i != j {
                assert!(mcts.nodes[i].board != mcts.nodes[j].board);
            }
        }
    }
}

#[test]
fn transpositions_share_one_node() {
    // Taking 1 then 2 or 2 then 1 from the pile reaches the same position:
    // both paths must funnel into a single node.
    let b = board(4, 10, Color::White);
    let mut mcts: MctsEngine<TakeAway> = MctsEngine::new(SCALE);
    for _ in 0..1000 {
        mcts.playout(&b);
    }
    let transposed = board(1, 8, Color::White);
    let hits = mcts.nodes.iter().filter(|n| n.board == transposed).count();
    assert_eq!(hits, 1);
}

#[test]
fn edge_visits_bounded_by_count() {
    // Sum of a node's edge visits never exceeds its visit count minus one.
    let b = board(6, 10, Color::White);
    let mut mcts: MctsEngine<TakeAway> = MctsEngine::new(SCALE);
    for _ in 0..200 {
        mcts.playout(&b);
    }
    for node in mcts.nodes.iter() {
        assert!(node.count >= 1);
        let total: u64 = node.out_edges.iter().map(|e| e.visits).sum();
        assert!(total <= node.count - 1);
    }
}

#[test]
fn clear_behaves_like_fresh() {
    let b = board(6, 10, Color::White);
    let mut used: MctsEngine<TakeAway> = MctsEngine::new(SCALE);
    for _ in 0..50 {
        used.playout(&b);
    }
    used.clear();
    assert_eq!(used.nodes.len(), 0);
    assert_eq!(used.exploration_weight, SCALE);

    // On a forced line the rollouts are deterministic, so a cleared engine
    // and a fresh one make the same decision with the same statistics.
    let forced = board(1, 6, Color::White);
    let mut fresh: MctsEngine<TakeAway> = MctsEngine::new(SCALE);
    let deadline = std::time::Instant::now();
    let a1 = used.select(&forced, deadline);
    let a2 = fresh.select(&forced, deadline);
    assert_eq!(a1, a2);
    assert_eq!(used.nodes.len(), fresh.nodes.len());
    for (n1, n2) in used.nodes.iter().zip(fresh.nodes.iter()) {
        assert_eq!(n1.board, n2.board);
        assert_eq!(n1.count, n2.count);
        assert_eq!(n1.out_edges, n2.out_edges);
        assert_eq!(n1.eval, n2.eval);
    }
}

#[test]
fn select_with_elapsed_deadline_still_plays() {
    // An already-elapsed deadline still gets at least one playout and a
    // legal action.
    let b = board(6, 10, Color::White);
    let mut mcts: MctsEngine<TakeAway> = MctsEngine::new(SCALE);
    let deadline = std::time::Instant::now();
    let action = mcts.select(&b, deadline);
    match action {
        Some(a) => assert!(a == 1 || a == 2),
        None => panic!("a root with legal actions must get an action"),
    }
    assert!(mcts.nodes.len() >= 1);
}

#[test]
fn select_on_terminal_root_returns_none() {
    let mut mcts: MctsEngine<TakeAway> = MctsEngine::new(SCALE);
    assert_eq!(mcts.select(&board(0, 5, Color::White), std::time::Instant::now()), None);
    assert_eq!(mcts.select(&board(4, 0, Color::White), std::time::Instant::now()), None);
    assert_eq!(mcts.nodes.len(), 0);
}

#[test]
fn deterministic_on_forced_line() {
    // With rollout randomness fixed (a forced line leaves it no choice),
    // two engines given the same playout calls hold identical statistics.
    let b = board(1, 8, Color::White);
    let mut e1: MctsEngine<TakeAway> = MctsEngine::new(SCALE);
    let mut e2: MctsEngine<TakeAway> = MctsEngine::new(SCALE);
    for _ in 0..5 {
        e1.playout(&b);
        e2.playout(&b);
    }
    assert_eq!(e1.nodes.len(), e2.nodes.len());
    for (n1, n2) in e1.nodes.iter().zip(e2.nodes.iter()) {
        assert_eq!(n1.board, n2.board);
        assert_eq!(n1.count, n2.count);
        assert_eq!(n1.initial_eval, n2.initial_eval);
        assert_eq!(n1.eval, n2.eval);
        assert_eq!(n1.out_edges, n2.out_edges);
    }
}

#[test]
fn single_action_scenario() {
    // A root with exactly one legal action: the first playout creates the
    // node, the next routes through the only edge, and the decision is that
    // action.
    let b = board(1, 5, Color::White);
    let mut mcts: MctsEngine<TakeAway> = MctsEngine::new(SCALE);

    mcts.playout(&b);
    let root = mcts.nodes.iter().find(|n| n.board == b).unwrap();
    assert_eq!(root.count, 1);
    assert_eq!(root.out_edges.len(), 1);
    assert_eq!(root.out_edges[0].action, 1);
    assert_eq!(root.out_edges[0].visits, 0);
    // The forced line ends with Black unable to move: the seeding rollout
    // must have scored it a White win.
    assert_eq!(root.initial_eval, SCALE);

    let action = mcts.select(&b, std::time::Instant::now());
    assert_eq!(action, Some(1));
    let root = mcts.nodes.iter().find(|n| n.board == b).unwrap();
    assert_eq!(root.out_edges[0].visits, 1);
    assert_eq!(root.out_edges[0].eval, SCALE);
}

#[test]
fn ucb1_prefers_unvisited_edges() {
    let b = board(5, 10, Color::Black);
    let node = Node {
        board: b,
        count: 4,
        out_edges: vec![
            OutEdge { action: 1, visits: 3, eval: SCALE },
            OutEdge { action: 2, visits: 0, eval: 0 },
        ],
        initial_eval: HALF,
        eval: HALF,
    };
    let mcts = MctsEngine { nodes: vec![node], exploration_weight: SCALE, estimator: EstimatorMode::LastSample };
    assert_eq!(mcts.select_ucb1(&b), Some(2));
}

#[test]
fn ucb1_exact_scores() {
    // count = 4 so log2(N) = 2; with c = SCALE the exploration term of an
    // edge visited once is sqrt(4·10^12) = 2·10^6, and of an edge visited
    // twice isqrt(2·10^12) = 1414213.  Black maximizes T·Q + c·explore:
    // edge 1 scores 2·10^12, edge 2 scores 0.5·10^12 + 1.414213·10^12,
    // so edge 1 wins.
    let b = board(5, 10, Color::Black);
    let node = Node {
        board: b,
        count: 4,
        out_edges: vec![
            OutEdge { action: 1, visits: 1, eval: 0 },
            OutEdge { action: 2, visits: 2, eval: HALF },
        ],
        initial_eval: HALF,
        eval: HALF,
    };
    let mcts = MctsEngine { nodes: vec![node], exploration_weight: SCALE, estimator: EstimatorMode::LastSample };
    assert_eq!(mcts.select_ucb1(&b), Some(1));
}

#[test]
fn ucb1_sign_flips_with_side_to_move() {
    // Equal visits, so equal exploration: Black exploits the high value,
    // White the low one.
    let black_board = board(5, 10, Color::Black);
    let node = Node {
        board: black_board,
        count: 5,
        out_edges: vec![
            OutEdge { action: 1, visits: 2, eval: SCALE },
            OutEdge { action: 2, visits: 2, eval: 0 },
        ],
        initial_eval: HALF,
        eval: HALF,
    };
    let mcts = MctsEngine { nodes: vec![node], exploration_weight: SCALE, estimator: EstimatorMode::LastSample };
    assert_eq!(mcts.select_ucb1(&black_board), Some(1));

    let white_board = board(5, 10, Color::White);
    let node = Node {
        board: white_board,
        count: 5,
        out_edges: vec![
            OutEdge { action: 1, visits: 2, eval: SCALE },
            OutEdge { action: 2, visits: 2, eval: 0 },
        ],
        initial_eval: HALF,
        eval: HALF,
    };
    let mcts = MctsEngine { nodes: vec![node], exploration_weight: SCALE, estimator: EstimatorMode::LastSample };
    assert_eq!(mcts.select_ucb1(&white_board), Some(2));
}

#[test]
fn update_eval_exact_formula() {
    // Q(s) = initial/N + sum over edges of (N(s,a)/N)·Q(s,a); after one
    // traversal of edge 1 with value SCALE on a fresh node:
    // (HALF + 1·SCALE) / 2 = 750000.
    let b = board(5, 10, Color::White);
    let node = Node {
        board: b,
        count: 1,
        out_edges: vec![
            OutEdge { action: 1, visits: 0, eval: 0 },
            OutEdge { action: 2, visits: 0, eval: 0 },
        ],
        initial_eval: HALF,
        eval: HALF,
    };
    let mut mcts = MctsEngine { nodes: vec![node], exploration_weight: SCALE, estimator: EstimatorMode::LastSample };
    let q = mcts.update_eval(&b, 1, SCALE);
    assert_eq!(q, 750_000);
    assert_eq!(mcts.nodes[0].count, 2);
    assert_eq!(mcts.nodes[0].out_edges[0].visits, 1);
    assert_eq!(mcts.nodes[0].out_edges[0].eval, SCALE);
    assert_eq!(mcts.nodes[0].out_edges[1].visits, 0);
    assert_eq!(mcts.nodes[0].eval, 750_000);
}

#[test]
fn running_mean_estimator_averages() {
    // Under the running-mean mode the edge value is the floor of the mean
    // of all observed outcomes, not just the last one.
    let b = board(5, 10, Color::White);
    let node = Node {
        board: b,
        count: 1,
        out_edges: vec![
            OutEdge { action: 1, visits: 0, eval: 0 },
            OutEdge { action: 2, visits: 0, eval: 0 },
        ],
        initial_eval: HALF,
        eval: HALF,
    };
    let mut mcts = MctsEngine {
        nodes: vec![node],
        exploration_weight: SCALE,
        estimator: EstimatorMode::RunningMean,
    };
    mcts.update_eval(&b, 1, SCALE);
    assert_eq!(mcts.nodes[0].out_edges[0].eval, SCALE);
    mcts.update_eval(&b, 1, 0);
    // mean of SCALE and 0
    assert_eq!(mcts.nodes[0].out_edges[0].eval, HALF);
    assert_eq!(mcts.nodes[0].out_edges[0].visits, 2);

    // The last-sample mode keeps only the most recent outcome.
    let node = Node {
        board: b,
        count: 1,
        out_edges: vec![
            OutEdge { action: 1, visits: 0, eval: 0 },
            OutEdge { action: 2, visits: 0, eval: 0 },
        ],
        initial_eval: HALF,
        eval: HALF,
    };
    let mut mcts = MctsEngine {
        nodes: vec![node],
        exploration_weight: SCALE,
        estimator: EstimatorMode::LastSample,
    };
    mcts.update_eval(&b, 1, SCALE);
    mcts.update_eval(&b, 1, 0);
    assert_eq!(mcts.nodes[0].out_edges[0].eval, 0);
}

#[test]
fn new_with_estimator_configures_mode() {
    let e: MctsEngine<TakeAway> = MctsEngine::new_with_estimator(SCALE, EstimatorMode::RunningMean);
    assert_eq!(e.estimator, EstimatorMode::RunningMean);
    assert_eq!(e.nodes.len(), 0);
    let e: MctsEngine<TakeAway> = MctsEngine::new(SCALE);
    assert_eq!(e.estimator, EstimatorMode::LastSample);
}

#[test]
fn node_init_one_edge_per_action() {
    let b = board(6, 10, Color::White);
    let node = Node::init(b, HALF);
    assert_eq!(node.count, 1);
    assert_eq!(node.initial_eval, HALF);
    assert_eq!(node.eval, HALF);
    assert_eq!(node.out_edges.len(), 2);
    assert_eq!(node.out_edges[0], OutEdge::new(1));
    assert_eq!(node.out_edges[1], OutEdge::new(2));
}

#[test]
fn rollout_random_branching_stays_in_bounds() {
    // Exercises the random index wrapper on branching positions: an
    // out-of-range index would panic on the action lookup.
    for _ in 0..50 {
        let r = rollout(&board(10, 20, Color::White));
        assert!(r == 0 || r == HALF || r == SCALE);
    }
}

#[test]
fn game_contract_examples() {
    let b = board(2, 3, Color::White);
    assert_eq!(b.actions(), vec![1, 2]);
    let next = b.apply(2);
    assert_eq!(next, board(0, 2, Color::Black));
    assert!(!b.is_draw());
    assert!(board(2, 0, Color::White).is_draw());
    assert_eq!(board(1, 3, Color::Black).actions(), vec![1]);
    assert_eq!(board(0, 3, Color::Black).actions(), Vec::<u64>::new());
}
