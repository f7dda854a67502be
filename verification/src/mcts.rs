//! The Monte-Carlo Tree Search engine: search graph, UCB1 selection, random
//! rollouts, recursive playouts with backpropagation, and the top-level
//! decision policy.
//!
//! Values are fixed-point numbers in `[0, SCALE]` on one absolute scale,
//! anchored to a fixed player rather than to whoever is to move: 0 stands
//! for a White loss, `SCALE` for a White win, `HALF` for a draw.  The UCB1
//! sign flip turns this single scale into a per-side objective.

use vstd::prelude::*;

use crate::game::Color;
use crate::game::Game;
use crate::game::terminal_spec;
use crate::num::log2_floor;
use crate::num::sqrt_floor;
use crate::num::log2;
use crate::num::isqrt;

verus! {

/// The fixed-point unit: this value stands for 1 on the absolute scale.
pub const SCALE: u64 = 1_000_000;

/// The fixed-point representation of one half, the drawn outcome.
pub const HALF: u64 = 500_000;

/// Alias type to represent a count of selections.
pub type Count = u64;

/// How an edge's value estimate Q(s,a) is updated by backpropagation.
///
/// The engine's native rule replaces the estimate with the most recent
/// outcome: an unconventional last-sample estimator that trades statistical
/// stability for recency.  The canonical running mean is offered as a
/// configuration choice for comparison.
#[derive(Clone, Copy, PartialEq, Eq, Structural, Debug)]
pub enum EstimatorMode {
    /// Q(s,a) becomes the value just observed.
    LastSample,
    /// Q(s,a) becomes the mean of all values observed through the edge,
    /// rounded down on the fixed-point scale.
    RunningMean,
}

/// Edge of the search graph: one per legal action of its owning node.
#[derive(Clone, Copy, PartialEq, Eq, Structural, Debug)]
pub struct OutEdge {
    /// The action of the edge.
    pub action: u64,
    /// N(s,a): number of times this edge was selected.
    pub visits: Count,
    /// Q(s,a): the current estimate for the position behind the action —
    /// the last observed outcome, or a running mean (see `EstimatorMode`).
    pub eval: u64,
}

/// Node of the search graph: one per distinct visited state.
pub struct Node<G> {
    /// The position of the node.
    pub board: G,
    /// N(s): number of times this node has been visited, at least 1.
    pub count: Count,
    /// One outgoing edge per legal action, fixed at creation.
    pub out_edges: Vec<OutEdge>,
    /// Evaluation of the initial rollout made on expansion.
    pub initial_eval: u64,
    /// Q(s): aggregate evaluation of the node.
    pub eval: u64,
}

/// The mathematical model of a node: the same data with the edges as a
/// sequence.
pub struct NodeModel<G> {
    pub board: G,
    pub count: Count,
    pub edges: Seq<OutEdge>,
    pub initial_eval: u64,
    pub eval: u64,
}

impl<G: Game> View for Node<G> {
    type V = NodeModel<G>;

    open spec fn view(&self) -> NodeModel<G> {
        NodeModel {
            board: self.board,
            count: self.count,
            edges: self.out_edges@,
            initial_eval: self.initial_eval,
            eval: self.eval,
        }
    }
}

/// Sum of the edges' visit counts.
pub open spec fn sum_visits(edges: Seq<OutEdge>) -> int
    decreases edges.len(),
{
    if edges.len() == 0 {
        0
    } else {
        sum_visits(edges.drop_last()) + edges.last().visits
    }
}

/// Sum of the edges' visit counts weighted by their evaluations.
pub open spec fn weighted_sum(edges: Seq<OutEdge>) -> int
    decreases edges.len(),
{
    if edges.len() == 0 {
        0
    } else {
        weighted_sum(edges.drop_last()) + edges.last().visits * edges.last().eval
    }
}

/// A node is well formed: a live position with one edge per legal action,
/// values on the scale, and no more edge traversals than follow-up visits.
pub open spec fn node_wf<G: Game>(n: NodeModel<G>) -> bool {
    &&& n.board.wf()
    &&& !terminal_spec(n.board)
    &&& n.count >= 1
    &&& n.edges.map_values(|e: OutEdge| e.action) == n.board.actions_spec()
    &&& n.initial_eval <= SCALE
    &&& n.eval <= SCALE
    &&& (forall|k: int| 0 <= k < n.edges.len() ==> (#[trigger] n.edges[k]).eval <= SCALE)
    &&& sum_visits(n.edges) <= n.count - 1
}

/// The search graph is well formed: every node is, and no two nodes share a
/// position, so statistics of transpositions are shared.
pub open spec fn graph_wf<G: Game>(g: Seq<NodeModel<G>>) -> bool {
    &&& (forall|i: int| 0 <= i < g.len() ==> node_wf(#[trigger] g[i]))
    &&& (forall|i: int, j: int|
        0 <= i < g.len() && 0 <= j < g.len() && i != j ==> (#[trigger] g[i]).board != (
        #[trigger] g[j]).board)
}

/// Index of the first node holding the given position, or -1.
pub open spec fn find_spec<G: Game>(g: Seq<NodeModel<G>>, s: G) -> int
    decreases g.len(),
{
    if g.len() == 0 {
        -1
    } else if g[0].board == s {
        0
    } else {
        let r = find_spec(g.drop_first(), s);
        if r < 0 {
            -1
        } else {
            r + 1
        }
    }
}

pub proof fn lemma_find_spec_present<G: Game>(g: Seq<NodeModel<G>>, s: G)
    requires
        find_spec(g, s) >= 0,
    ensures
        find_spec(g, s) < g.len(),
        g[find_spec(g, s)].board == s,
        forall|j: int| 0 <= j < find_spec(g, s) ==> (#[trigger] g[j]).board != s,
    decreases g.len(),
{
    if g.len() != 0 && g[0].board != s {
        lemma_find_spec_present(g.drop_first(), s);
        assert forall|j: int| 0 <= j < find_spec(g, s) implies (#[trigger] g[j]).board != s by {
            if j > 0 {
                assert(g.drop_first()[j - 1] == g[j]);
            }
        }
    }
}

pub proof fn lemma_find_spec_absent<G: Game>(g: Seq<NodeModel<G>>, s: G)
    requires
        find_spec(g, s) < 0,
    ensures
        forall|j: int| 0 <= j < g.len() ==> (#[trigger] g[j]).board != s,
    decreases g.len(),
{
    if g.len() != 0 && g[0].board != s {
        lemma_find_spec_absent(g.drop_first(), s);
        assert forall|j: int| 0 <= j < g.len() implies (#[trigger] g[j]).board != s by {
            if j > 0 {
                assert(g.drop_first()[j - 1] == g[j]);
            }
        }
    }
}

pub proof fn lemma_find_spec_first<G: Game>(g: Seq<NodeModel<G>>, s: G, i: int)
    requires
        0 <= i < g.len(),
        g[i].board == s,
        forall|j: int| 0 <= j < i ==> (#[trigger] g[j]).board != s,
    ensures
        find_spec(g, s) == i,
    decreases g.len(),
{
    if g.len() != 0 && g[0].board != s {
        lemma_find_spec_first(g.drop_first(), s, i - 1);
    }
}

/// The argument of the square root in the UCB1 exploration term, on the
/// fixed-point scale: 2·log2(N(s)) / N(s,a), scaled by SCALE².
pub open spec fn explore_arg(count: u64, visits: u64) -> int {
    (2 * log2_floor(count as nat) * SCALE * SCALE) as int / visits as int
}

/// The UCB1 score of a visited edge: T·Q(s,a) + c·sqrt(2·log2(N(s))/N(s,a)),
/// scaled by SCALE² and signed so that each side maximizes its own objective
/// (Black the absolute scale, White its negation).
pub open spec fn edge_score(c: u64, black_to_move: bool, count: u64, e: OutEdge) -> int {
    (if black_to_move {
        e.eval as int
    } else {
        -(e.eval as int)
    }) * SCALE + c * sqrt_floor(explore_arg(count, e.visits) as nat)
}

/// Index of the first unvisited edge, or -1.
pub open spec fn first_unvisited(edges: Seq<OutEdge>) -> int
    decreases edges.len(),
{
    if edges.len() == 0 {
        -1
    } else if edges[0].visits == 0 {
        0
    } else {
        let r = first_unvisited(edges.drop_first());
        if r < 0 {
            -1
        } else {
            r + 1
        }
    }
}

pub proof fn lemma_first_unvisited_present(edges: Seq<OutEdge>)
    requires
        first_unvisited(edges) >= 0,
    ensures
        first_unvisited(edges) < edges.len(),
        edges[first_unvisited(edges)].visits == 0,
        forall|j: int| 0 <= j < first_unvisited(edges) ==> (#[trigger] edges[j]).visits != 0,
    decreases edges.len(),
{
    if edges.len() != 0 && edges[0].visits != 0 {
        lemma_first_unvisited_present(edges.drop_first());
        assert forall|j: int| 0 <= j < first_unvisited(edges) implies (#[trigger] edges[j]).visits
            != 0 by {
            if j > 0 {
                assert(edges.drop_first()[j - 1] == edges[j]);
            }
        }
    }
}

pub proof fn lemma_first_unvisited_first(edges: Seq<OutEdge>, i: int)
    requires
        0 <= i < edges.len(),
        edges[i].visits == 0,
        forall|j: int| 0 <= j < i ==> (#[trigger] edges[j]).visits != 0,
    ensures
        first_unvisited(edges) == i,
    decreases edges.len(),
{
    if edges.len() != 0 && edges[0].visits != 0 {
        lemma_first_unvisited_first(edges.drop_first(), i - 1);
    }
}

/// Index of the edge with the greatest UCB1 score among the first n edges;
/// ties favor the first encountered.
pub open spec fn best_idx(
    edges: Seq<OutEdge>,
    n: int,
    c: u64,
    black_to_move: bool,
    count: u64,
) -> int
    decreases n,
{
    if n <= 1 {
        0
    } else {
        let b = best_idx(edges, n - 1, c, black_to_move, count);
        if edge_score(c, black_to_move, count, edges[n - 1]) > edge_score(
            c,
            black_to_move,
            count,
            edges[b],
        ) {
            n - 1
        } else {
            b
        }
    }
}

pub proof fn lemma_best_idx_range(edges: Seq<OutEdge>, n: int, c: u64, black_to_move: bool, count: u64)
    requires
        n >= 1,
    ensures
        0 <= best_idx(edges, n, c, black_to_move, count) < n,
    decreases n,
{
    if n > 1 {
        lemma_best_idx_range(edges, n - 1, c, black_to_move, count);
    }
}

/// The UCB1 selection rule of a node: an unvisited edge first (each legal
/// action is tried once before further exploitation), otherwise the edge
/// with the greatest score; no action when the node has no edges.
pub open spec fn select_spec<G: Game>(n: NodeModel<G>, c: u64) -> Option<u64> {
    if n.edges.len() == 0 {
        None
    } else if first_unvisited(n.edges) >= 0 {
        Some(n.edges[first_unvisited(n.edges)].action)
    } else {
        Some(
            n.edges[best_idx(
                n.edges,
                n.edges.len() as int,
                c,
                n.board.turn_spec() is Black,
                n.count,
            )].action,
        )
    }
}

/// What UCB1 returns is one of the node's own actions, unless the node has
/// no edges at all.
pub proof fn lemma_select_spec_in_actions<G: Game>(n: NodeModel<G>, c: u64)
    requires
        node_wf(n),
    ensures
        match select_spec(n, c) {
            Some(a) => n.board.actions_spec().contains(a),
            None => n.edges.len() == 0,
        },
{
    if n.edges.len() != 0 {
        let k = if first_unvisited(n.edges) >= 0 {
            first_unvisited(n.edges)
        } else {
            best_idx(n.edges, n.edges.len() as int, c, n.board.turn_spec() is Black, n.count)
        };
        if first_unvisited(n.edges) >= 0 {
            lemma_first_unvisited_present(n.edges);
        } else {
            lemma_best_idx_range(
                n.edges,
                n.edges.len() as int,
                c,
                n.board.turn_spec() is Black,
                n.count,
            );
        }
        assert(n.edges.map_values(|e: OutEdge| e.action)[k] == n.edges[k].action);
        assert(n.board.actions_spec()[k] == n.edges[k].action);
    }
}

/// Function that evaluates a terminal position (a draw, or no remaining
/// actions for the side to move).
pub open spec fn white_score_spec<G: Game>(s: G) -> u64 {
    if s.draw_spec() {
        HALF
    } else if s.turn_spec() is White {
        0
    } else {
        SCALE
    }
}

/// Function that evaluates a terminal position (a draw, or no remaining
/// actions for the side to move): one half for a draw, otherwise the side to
/// move has no moves and loses.
pub fn white_score<G: Game>(board: &G) -> (r: u64)
    requires
        board.wf(),
        terminal_spec(*board),
    ensures
        r == white_score_spec(*board),
        r == 0 || r == HALF || r == SCALE,
{
    if board.is_draw() {
        HALF
    } else {
        match board.turn() {
            Color::White => 0,
            Color::Black => SCALE,
        }
    }
}

/// Relies on rand's random_range: a uniformly random index below the bound;
/// it panics only on an empty range.
#[verifier::external_body]
fn random_index(bound: usize) -> (r: usize)
    requires
        bound > 0,
    ensures
        r < bound,
{
    rand::random_range(0..bound)
}

/// Performs a single random playthrough from the given position and returns
/// the evaluation of the terminal position reached.  Terminates because every
/// move strictly decreases the game's measure.  On a terminal position no
/// move is played, and when the only legal continuation is itself terminal
/// the outcome is forced: randomness has no say.
pub fn rollout<G: Game>(board: &G) -> (r: u64)
    requires
        board.wf(),
    ensures
        r == 0 || r == HALF || r == SCALE,
        terminal_spec(*board) ==> r == white_score_spec(*board),
        !board.draw_spec() && board.actions_spec().len() == 1 && terminal_spec(
            board.apply_spec(board.actions_spec()[0]),
        ) ==> r == white_score_spec(board.apply_spec(board.actions_spec()[0])),
{
    let mut cur = board.duplicate();
    let mut acts = cur.actions();
    while !cur.is_draw() && acts.len() > 0
        invariant
            cur.wf(),
            acts@ == cur.actions_spec(),
            terminal_spec(*board) ==> cur == *board,
            !board.draw_spec() && board.actions_spec().len() == 1 && terminal_spec(
                board.apply_spec(board.actions_spec()[0]),
            ) ==> (cur == *board || cur == board.apply_spec(board.actions_spec()[0])),
        decreases cur.measure(),
    {
        let i = random_index(acts.len());
        let a = acts[i];
        proof {
            assert(cur.actions_spec()[i as int] == a);
            cur.lemma_apply_decreases(a);
        }
        cur = cur.apply(a);
        acts = cur.actions();
    }
    white_score(&cur)
}

/// The fresh edges of a newly created node: one per legal action, unvisited.
pub open spec fn init_edges(acts: Seq<u64>) -> Seq<OutEdge> {
    acts.map_values(|a: u64| OutEdge { action: a, visits: 0, eval: 0 })
}

/// The model of a node created from one seeding rollout.
pub open spec fn node_init_model<G: Game>(s: G, e: u64) -> NodeModel<G> {
    NodeModel {
        board: s,
        count: 1,
        edges: init_edges(s.actions_spec()),
        initial_eval: e,
        eval: e,
    }
}

pub proof fn lemma_init_edges_zero(acts: Seq<u64>)
    ensures
        sum_visits(init_edges(acts)) == 0,
    decreases acts.len(),
{
    if acts.len() != 0 {
        lemma_init_edges_zero(acts.drop_last());
        assert(init_edges(acts).drop_last() =~= init_edges(acts.drop_last()));
    }
}

impl OutEdge {
    /// Initializes a fresh edge for an action, unvisited and with a zero
    /// evaluation.
    pub fn new(action: u64) -> (r: OutEdge)
        ensures
            r == (OutEdge { action, visits: 0, eval: 0 }),
    {
        OutEdge { action, visits: 0, eval: 0 }
    }
}

impl<G: Game> Node<G> {
    /// Creates the node for a position with the evaluation of a single
    /// seeding rollout.
    pub fn init(board: G, initial_eval: u64) -> (r: Node<G>)
        requires
            board.wf(),
            initial_eval <= SCALE,
        ensures
            r@ == node_init_model(board, initial_eval),
    {
        let acts = board.actions();
        let mut out_edges: Vec<OutEdge> = Vec::new();
        let mut k: usize = 0;
        while k < acts.len()
            invariant
                k <= acts.len(),
                acts@ == board.actions_spec(),
                out_edges@.len() == k,
                forall|j: int|
                    0 <= j < k ==> out_edges@[j] == (OutEdge {
                        action: acts@[j],
                        visits: 0,
                        eval: 0,
                    }),
            decreases acts.len() - k,
        {
            out_edges.push(OutEdge::new(acts[k]));
            k = k + 1;
        }
        proof {
            assert(out_edges@ =~= init_edges(board.actions_spec()));
        }
        Node { board, count: 1, out_edges, initial_eval, eval: initial_eval }
    }
}

/// The Monte-Carlo Tree Search engine: the search graph as an arena of
/// nodes, and the exploration weight of the UCB1 rule.
pub struct MctsEngine<G> {
    /// The arena of nodes; positions are looked up by state equality.
    pub nodes: Vec<Node<G>>,
    /// Weight given to the exploration term in UCB1, on the fixed-point
    /// scale (`SCALE` stands for 1).
    pub exploration_weight: u64,
    /// How edge values are updated by backpropagation.
    pub estimator: EstimatorMode,
}

/// The search graph after a whole sequence of playouts from one root, each
/// seeded (where it expands a node) by the next rollout outcome.
pub open spec fn run_playouts<G: Game>(
    g: Seq<NodeModel<G>>,
    s: G,
    evals: Seq<u64>,
    c: u64,
    m: EstimatorMode,
) -> Seq<NodeModel<G>>
    decreases evals.len(),
{
    if evals.len() == 0 {
        g
    } else {
        run_playouts(playout_spec(g, s, evals[0], c, m).0, s, evals.drop_first(), c, m)
    }
}

pub proof fn lemma_run_playouts_push<G: Game>(
    g: Seq<NodeModel<G>>,
    s: G,
    evals: Seq<u64>,
    e: u64,
    c: u64,
    m: EstimatorMode,
)
    ensures
        run_playouts(g, s, evals.push(e), c, m) == playout_spec(
            run_playouts(g, s, evals, c, m),
            s,
            e,
            c,
            m,
        ).0,
    decreases evals.len(),
{
    if evals.len() == 0 {
        assert(evals.push(e)[0] == e);
        assert(evals.push(e).drop_first() =~= Seq::<u64>::empty());
        assert(run_playouts(g, s, evals.push(e), c, m) == run_playouts(
            playout_spec(g, s, e, c, m).0,
            s,
            Seq::<u64>::empty(),
            c,
            m,
        ));
    } else {
        assert(evals.push(e)[0] == evals[0]);
        assert(evals.push(e).drop_first() =~= evals.drop_first().push(e));
        lemma_run_playouts_push(
            playout_spec(g, s, evals[0], c, m).0,
            s,
            evals.drop_first(),
            e,
            c,
            m,
        );
    }
}

/// Index of the most-visited edge among the first n; ties favor the first
/// encountered.
pub open spec fn most_visited_idx(edges: Seq<OutEdge>, n: int) -> int
    decreases n,
{
    if n <= 1 {
        0
    } else {
        let b = most_visited_idx(edges, n - 1);
        if edges[n - 1].visits > edges[b].visits {
            n - 1
        } else {
            b
        }
    }
}

pub proof fn lemma_most_visited_range(edges: Seq<OutEdge>, n: int)
    requires
        n >= 1,
    ensures
        0 <= most_visited_idx(edges, n) < n,
    decreases n,
{
    if n > 1 {
        lemma_most_visited_range(edges, n - 1);
    }
}

/// The robust-child decision: the action of the node's most-visited edge,
/// or no action when the node has no edges.
pub open spec fn robust_child<G: Game>(n: NodeModel<G>) -> Option<u64> {
    if n.edges.len() == 0 {
        None
    } else {
        Some(n.edges[most_visited_idx(n.edges, n.edges.len() as int)].action)
    }
}

/// A defensive bound on playouts per decision, so the deadline loop always
/// terminates even if the clock misbehaves.
pub const PLAYOUT_CAP: u64 = 1_000_000_000;

/// Relies on std::time::Instant::now: reads the clock; nothing is assumed
/// of the value.
#[verifier::external_body]
fn now_instant() -> std::time::Instant {
    std::time::Instant::now()
}

/// Relies on Instant's PartialOrd::ge: whether the first instant is at or
/// past the second; nothing is assumed of the answer.
#[verifier::external_body]
fn instant_reached(now: &std::time::Instant, deadline: &std::time::Instant) -> bool {
    *now >= *deadline
}

#[verifier::external_type_specification]
#[verifier::external_body]
pub struct ExInstant(std::time::Instant);

impl<G: Game> MctsEngine<G> {
    /// The model of the search graph.
    pub open spec fn graph(&self) -> Seq<NodeModel<G>> {
        self.nodes@.map_values(|n: Node<G>| n@)
    }

    /// The engine invariant: the search graph is well formed.
    pub open spec fn wf(&self) -> bool {
        graph_wf(self.graph())
    }

    pub fn new(exploration_weight: u64) -> (r: MctsEngine<G>)
        ensures
            r.graph().len() == 0,
            r.exploration_weight == exploration_weight,
            r.estimator is LastSample,
            r.wf(),
    {
        MctsEngine { nodes: Vec::new(), exploration_weight, estimator: EstimatorMode::LastSample }
    }

    /// As `new`, with the edge value estimator chosen at construction.
    pub fn new_with_estimator(exploration_weight: u64, estimator: EstimatorMode) -> (r: MctsEngine<
        G,
    >)
        ensures
            r.graph().len() == 0,
            r.exploration_weight == exploration_weight,
            r.estimator == estimator,
            r.wf(),
    {
        MctsEngine { nodes: Vec::new(), exploration_weight, estimator }
    }

    /// Discards the entire search graph, so statistics never leak between
    /// games; the configuration is kept.
    pub fn clear(&mut self)
        ensures
            final(self).graph().len() == 0,
            final(self).exploration_weight == old(self).exploration_weight,
            final(self).estimator == old(self).estimator,
            final(self).wf(),
    {
        self.nodes.clear();
    }

    /// Looks the position up in the arena by state equality.
    fn find_node(&self, board: &G) -> (r: Option<usize>)
        ensures
            match r {
                Some(i) => i < self.nodes@.len() && find_spec(self.graph(), *board) == i,
                None => find_spec(self.graph(), *board) < 0,
            },
    {
        let mut i: usize = 0;
        while i < self.nodes.len()
            invariant
                i <= self.nodes@.len(),
                forall|j: int| 0 <= j < i ==> (#[trigger] self.graph()[j]).board != *board,
            decreases self.nodes@.len() - i,
        {
            if self.nodes[i].board.same_state(board) {
                proof {
                    lemma_find_spec_first(self.graph(), *board, i as int);
                }
                return Some(i);
            }
            i = i + 1;
        }
        proof {
            if find_spec(self.graph(), *board) >= 0 {
                lemma_find_spec_present(self.graph(), *board);
            }
        }
        None
    }

    /// Selects the next edge to explore from the node of the given position
    /// according to UCB1, or `None` if the node has no edges.
    #[verifier::loop_isolation(false)]
    pub fn select_ucb1(&self, board: &G) -> (r: Option<u64>)
        requires
            self.wf(),
            find_spec(self.graph(), *board) >= 0,
        ensures
            r == select_spec(self.graph()[find_spec(self.graph(), *board)], self.exploration_weight),
    {
        proof {
            lemma_find_spec_present(self.graph(), *board);
        }
        let i = match self.find_node(board) {
            Some(i) => i,
            None => {
                return None;
            },
        };
        let node = &self.nodes[i];
        let ghost nm = self.graph()[i as int];
        proof {
            assert(node@ == nm);
        }
        if node.out_edges.len() == 0 {
            return None;
        }
        let mut k: usize = 0;
        while k < node.out_edges.len()
            invariant
                k <= node.out_edges@.len(),
                forall|j: int| 0 <= j < k ==> (#[trigger] node.out_edges@[j]).visits != 0,
            decreases node.out_edges@.len() - k,
        {
            if node.out_edges[k].visits == 0 {
                proof {
                    lemma_first_unvisited_first(nm.edges, k as int);
                }
                return Some(node.out_edges[k].action);
            }
            k = k + 1;
        }
        proof {
            if first_unvisited(nm.edges) >= 0 {
                lemma_first_unvisited_present(nm.edges);
            }
        }
        let black_to_move = match node.board.turn() {
            Color::Black => true,
            Color::White => false,
        };
        let lg = log2(node.count);
        let c = self.exploration_weight;
        let mut best: usize = 0;
        let mut best_score: i128 = ucb1_score(c, black_to_move, node.count, lg, &node.out_edges[0]);
        let mut k2: usize = 1;
        while k2 < node.out_edges.len()
            invariant
                1 <= k2 <= node.out_edges@.len(),
                best < k2,
                best == best_idx(nm.edges, k2 as int, c, black_to_move, nm.count),
                best_score == edge_score(c, black_to_move, nm.count, nm.edges[best as int]),
            decreases node.out_edges@.len() - k2,
        {
            let s = ucb1_score(c, black_to_move, node.count, lg, &node.out_edges[k2]);
            if s > best_score {
                best = k2;
                best_score = s;
            }
            k2 = k2 + 1;
        }
        Some(node.out_edges[best].action)
    }
}

/// The UCB1 score of a visited edge, exactly `edge_score` on the fixed-point
/// scale.
fn ucb1_score(c: u64, black_to_move: bool, count: u64, lg: u64, e: &OutEdge) -> (r: i128)
    requires
        lg as nat == log2_floor(count as nat),
        lg < 64,
        e.visits >= 1,
        e.eval <= SCALE,
    ensures
        r == edge_score(c, black_to_move, count, *e),
{
    let arg: u64 = 2 * lg * SCALE * SCALE / e.visits;
    let sq = isqrt(arg);
    proof {
        assert(arg == explore_arg(count, e.visits));
        assert((sq as int) * (sq as int) <= arg as int);
        assert(sq < 0x1_0000_0000) by (nonlinear_arith)
            requires
                (sq as int) * (sq as int) <= arg as int,
                arg <= u64::MAX,
        {}
        assert((c as int) * (sq as int) <= (u64::MAX as int) * (0x1_0000_0000 as int))
            by (nonlinear_arith)
            requires
                c <= u64::MAX,
                0 <= sq < 0x1_0000_0000,
        {}
    }
    let explore = (c as i128) * (sq as i128);
    proof {
        assert((e.eval as int) * (SCALE as int) <= (SCALE as int) * (SCALE as int))
            by (nonlinear_arith)
            requires
                0 <= e.eval <= SCALE,
        {}
    }
    let q = (e.eval as i128) * (SCALE as i128);
    if black_to_move {
        q + explore
    } else {
        explore - q
    }
}

/// An edge's evaluation after observing value v: the value itself under the
/// last-sample rule, the floor of the incremental mean under the running
/// mean.
pub open spec fn new_edge_eval(e: OutEdge, v: u64, m: EstimatorMode) -> u64 {
    if m is LastSample {
        v
    } else {
        ((e.eval * e.visits + v) / (e.visits + 1)) as u64
    }
}

/// The edges after backpropagating value v through action a: that edge's
/// visit count grows by one and its evaluation is updated by the configured
/// estimator; the others are untouched.
pub open spec fn updated_edges(edges: Seq<OutEdge>, a: u64, v: u64, m: EstimatorMode) -> Seq<
    OutEdge,
> {
    edges.map_values(
        |e: OutEdge|
            if e.action == a {
                OutEdge { action: e.action, visits: (e.visits + 1) as u64, eval: new_edge_eval(e, v, m) }
            } else {
                e
            },
    )
}

/// A node after backpropagation: the visit count grows by one, the traversed
/// edge is updated, and the aggregate evaluation is recomputed as the mixed
/// estimator (initial rollout + visit-weighted edge values) / N(s).  A node
/// whose visit count has reached the maximum is frozen.
pub open spec fn node_after_update<G: Game>(
    n: NodeModel<G>,
    a: u64,
    v: u64,
    m: EstimatorMode,
) -> NodeModel<G> {
    if n.count == u64::MAX {
        n
    } else {
        let edges2 = updated_edges(n.edges, a, v, m);
        NodeModel {
            board: n.board,
            count: (n.count + 1) as u64,
            edges: edges2,
            initial_eval: n.initial_eval,
            eval: ((n.initial_eval + weighted_sum(edges2)) / (n.count + 1)) as u64,
        }
    }
}

/// The graph and returned evaluation after backpropagating v through action
/// a of the node holding s.
pub open spec fn update_full<G: Game>(g: Seq<NodeModel<G>>, s: G, a: u64, v: u64, m: EstimatorMode) -> (
    Seq<NodeModel<G>>,
    u64,
) {
    let i = find_spec(g, s);
    if i < 0 {
        (g, v)
    } else {
        let n2 = node_after_update(g[i], a, v, m);
        (g.update(i, n2), n2.eval)
    }
}

pub proof fn lemma_sums_nonneg(edges: Seq<OutEdge>)
    ensures
        sum_visits(edges) >= 0,
        weighted_sum(edges) >= 0,
    decreases edges.len(),
{
    if edges.len() != 0 {
        lemma_sums_nonneg(edges.drop_last());
        assert(edges.last().visits * edges.last().eval >= 0) by (nonlinear_arith)
            requires
                edges.last().visits >= 0,
                edges.last().eval >= 0,
        {}
    }
}

pub proof fn lemma_visits_le_sum(edges: Seq<OutEdge>, k: int)
    requires
        0 <= k < edges.len(),
    ensures
        edges[k].visits <= sum_visits(edges),
    decreases edges.len(),
{
    lemma_sums_nonneg(edges.drop_last());
    if k < edges.len() - 1 {
        lemma_visits_le_sum(edges.drop_last(), k);
    }
}

/// The weighted sum is bounded by the visit total times the scale when every
/// edge evaluation is on the scale.
pub proof fn lemma_weighted_le_scaled(edges: Seq<OutEdge>)
    requires
        forall|k: int| 0 <= k < edges.len() ==> (#[trigger] edges[k]).eval <= SCALE,
    ensures
        weighted_sum(edges) <= sum_visits(edges) * SCALE,
    decreases edges.len(),
{
    if edges.len() != 0 {
        lemma_weighted_le_scaled(edges.drop_last());
        let e = edges.last();
        assert(e == edges[edges.len() - 1]);
        assert(e.visits * e.eval <= e.visits * SCALE) by (nonlinear_arith)
            requires
                0 <= e.eval <= SCALE,
                e.visits >= 0,
        {}
        assert(sum_visits(edges.drop_last()) * SCALE + e.visits * SCALE == (sum_visits(
            edges.drop_last(),
        ) + e.visits) * SCALE) by (nonlinear_arith)
        {}
    }
}

pub proof fn lemma_sum_take_step(edges: Seq<OutEdge>, k: int)
    requires
        0 <= k < edges.len(),
    ensures
        sum_visits(edges.take(k + 1)) == sum_visits(edges.take(k)) + edges[k].visits,
        weighted_sum(edges.take(k + 1)) == weighted_sum(edges.take(k)) + edges[k].visits
            * edges[k].eval,
{
    assert(edges.take(k + 1).drop_last() =~= edges.take(k));
    assert(edges.take(k + 1).last() == edges[k]);
}

pub proof fn lemma_sum_take_le(edges: Seq<OutEdge>, k: int)
    requires
        0 <= k <= edges.len(),
    ensures
        sum_visits(edges.take(k)) <= sum_visits(edges),
    decreases edges.len() - k,
{
    if k == edges.len() {
        assert(edges.take(k) =~= edges);
    } else {
        lemma_sum_take_step(edges, k);
        lemma_sum_take_le(edges, k + 1);
    }
}

pub proof fn lemma_updated_edges_id(edges: Seq<OutEdge>, a: u64, v: u64, m: EstimatorMode)
    requires
        forall|j: int| 0 <= j < edges.len() ==> (#[trigger] edges[j]).action != a,
    ensures
        updated_edges(edges, a, v, m) == edges,
{
    assert(updated_edges(edges, a, v, m) =~= edges);
}

/// Backpropagation adds exactly one traversal to the edge totals when the
/// action matches exactly one edge.
pub proof fn lemma_sum_visits_update(edges: Seq<OutEdge>, a: u64, v: u64, m: EstimatorMode, k: int)
    requires
        0 <= k < edges.len(),
        edges[k].action == a,
        forall|j: int| 0 <= j < edges.len() && j != k ==> (#[trigger] edges[j]).action != a,
        edges[k].visits < u64::MAX,
    ensures
        sum_visits(updated_edges(edges, a, v, m)) == sum_visits(edges) + 1,
    decreases edges.len(),
{
    let up = updated_edges(edges, a, v, m);
    if k == edges.len() - 1 {
        lemma_updated_edges_id(edges.drop_last(), a, v, m);
        assert(up.drop_last() =~= edges.drop_last());
        assert(up.last() == (OutEdge {
            action: a,
            visits: (edges[k].visits + 1) as u64,
            eval: new_edge_eval(edges[k], v, m),
        }));
    } else {
        lemma_sum_visits_update(edges.drop_last(), a, v, m, k);
        assert(up.drop_last() =~= updated_edges(edges.drop_last(), a, v, m));
        assert(up.last() == edges.last());
    }
}

/// One whole playout from a position: a terminal position is scored
/// directly; an unseen position is expanded into a node seeded by the
/// rollout evaluation e; otherwise the UCB1 edge is followed recursively and
/// the result is backpropagated.  The rollout outcome e is the only
/// non-deterministic input: the rest is a function of the graph and the
/// position.
pub open spec fn playout_spec<G: Game>(g: Seq<NodeModel<G>>, s: G, e: u64, c: u64, m: EstimatorMode) -> (
    Seq<NodeModel<G>>,
    u64,
)
    decreases s.measure(),
        when s.wf() && graph_wf(g)
{
    if terminal_spec(s) {
        (g, white_score_spec(s))
    } else if find_spec(g, s) < 0 {
        (g.push(node_init_model(s, e)), e)
    } else {
        let i = find_spec(g, s);
        match select_spec(g[i], c) {
            Option::None => (g, g[i].eval),
            Option::Some(a) => {
                proof {
                    lemma_find_spec_present(g, s);
                    lemma_select_spec_in_actions(g[i], c);
                    s.lemma_apply_decreases(a);
                }
                let rec = playout_spec(g, s.apply_spec(a), e, c, m);
                update_full(rec.0, s, a, rec.1, m)
            },
        }
    }
}

impl<G: Game> MctsEngine<G> {
    /// Updates the statistics of the node holding the position, after its
    /// edge for the given action yielded the evaluation `action_eval` in a
    /// playout; returns the node's recomputed aggregate evaluation.
    #[verifier::loop_isolation(false)]
    pub fn update_eval(&mut self, board: &G, action: u64, action_eval: u64) -> (r: u64)
        requires
            old(self).wf(),
            find_spec(old(self).graph(), *board) >= 0,
            action_eval <= SCALE,
            old(self).graph()[find_spec(old(self).graph(), *board)].board.actions_spec().contains(
                action,
            ),
        ensures
            final(self).wf(),
            final(self).exploration_weight == old(self).exploration_weight,
            final(self).estimator == old(self).estimator,
            (final(self).graph(), r) == update_full(
                old(self).graph(),
                *board,
                action,
                action_eval,
                old(self).estimator,
            ),
            r <= SCALE,
            final(self).graph().len() == old(self).graph().len(),
            forall|j: int|
                0 <= j < old(self).graph().len() ==> (#[trigger] final(self).graph()[j]).board
                    == old(self).graph()[j].board,
    {
        let ghost g0 = self.graph();
        proof {
            lemma_find_spec_present(g0, *board);
        }
        let i = match self.find_node(board) {
            Some(i) => i,
            None => {
                return 0;
            },
        };
        let ghost nm = g0[i as int];
        let ghost kact = choose|k: int|
            0 <= k < nm.board.actions_spec().len() && nm.board.actions_spec()[k] == action;
        proof {
            nm.board.lemma_actions_distinct();
            assert(nm.edges.map_values(|e: OutEdge| e.action) == nm.board.actions_spec());
            assert(nm.edges[kact].action == action);
            assert forall|j: int| 0 <= j < nm.edges.len() && j != kact implies (
            #[trigger] nm.edges[j]).action != action by {
                assert(nm.board.actions_spec()[j] == nm.edges[j].action);
            }
        }
        let oldnode = self.nodes.remove(i);
        proof {
            assert(oldnode@ == nm);
        }
        if oldnode.count == u64::MAX {
            let ev = oldnode.eval;
            self.nodes.insert(i, oldnode);
            proof {
                assert(self.nodes@ =~= old(self).nodes@);
                assert(self.graph() =~= g0.update(i as int, nm));
            }
            return ev;
        }
        let ghost em = self.estimator;
        let ghost edges2s = updated_edges(nm.edges, action, action_eval, em);
        let ghost total = sum_visits(edges2s);
        proof {
            lemma_visits_le_sum(nm.edges, kact);
            lemma_sum_visits_update(nm.edges, action, action_eval, em, kact);
            assert(total == sum_visits(nm.edges) + 1);
            assert(total <= nm.count);
            assert forall|k: int| 0 <= k < edges2s.len() implies (#[trigger] edges2s[k]).eval
                <= SCALE by {
                let e = nm.edges[k];
                assert(e.eval <= SCALE);
                if e.action == action && em is RunningMean {
                    assert((e.eval as int) * (e.visits as int) + action_eval <= ((e.visits as int)
                        + 1) * (SCALE as int)) by (nonlinear_arith)
                        requires
                            0 <= e.eval <= SCALE,
                            0 <= action_eval <= SCALE,
                            e.visits >= 0,
                    {}
                    vstd::arithmetic::div_mod::lemma_div_is_ordered(
                        (e.eval as int) * (e.visits as int) + action_eval,
                        ((e.visits as int) + 1) * (SCALE as int),
                        (e.visits as int) + 1,
                    );
                    vstd::arithmetic::div_mod::lemma_div_multiples_vanish(
                        SCALE as int,
                        (e.visits as int) + 1,
                    );
                }
            }
        }
        let count2 = oldnode.count + 1;
        let mut edges2: Vec<OutEdge> = Vec::new();
        let mut wsum: u128 = 0;
        let mut k: usize = 0;
        while k < oldnode.out_edges.len()
            invariant
                k <= oldnode.out_edges@.len(),
                edges2@ == edges2s.take(k as int),
                wsum == weighted_sum(edges2s.take(k as int)),
            decreases oldnode.out_edges@.len() - k,
        {
            let e = oldnode.out_edges[k];
            proof {
                assert(nm.edges[k as int] == e);
                lemma_visits_le_sum(nm.edges, k as int);
            }
            let ne = if e.action == action {
                let nv: u64 = match self.estimator {
                    EstimatorMode::LastSample => action_eval,
                    EstimatorMode::RunningMean => {
                        proof {
                            assert((e.eval as int) * (e.visits as int) + action_eval <= ((
                            e.visits as int) + 1) * (SCALE as int)) by (nonlinear_arith)
                                requires
                                    0 <= e.eval <= SCALE,
                                    0 <= action_eval <= SCALE,
                                    e.visits >= 0,
                            {}
                            vstd::arithmetic::div_mod::lemma_div_is_ordered(
                                (e.eval as int) * (e.visits as int) + action_eval,
                                ((e.visits as int) + 1) * (SCALE as int),
                                (e.visits as int) + 1,
                            );
                            vstd::arithmetic::div_mod::lemma_div_multiples_vanish(
                                SCALE as int,
                                (e.visits as int) + 1,
                            );
                        }
                        (((e.eval as u128) * (e.visits as u128) + (action_eval as u128)) / ((
                        e.visits as u128) + 1)) as u64
                    },
                };
                OutEdge { action: e.action, visits: e.visits + 1, eval: nv }
            } else {
                e
            };
            proof {
                assert(ne == edges2s[k as int]);
                assert(ne.eval <= SCALE);
                lemma_sum_take_step(edges2s, k as int);
                lemma_sum_take_le(edges2s, k as int + 1);
                lemma_sums_nonneg(edges2s.take(k as int));
                lemma_weighted_le_scaled(edges2s.take(k as int));
                assert((ne.visits as int) * (ne.eval as int) <= (ne.visits as int) * (SCALE as int))
                    by (nonlinear_arith)
                    requires
                        0 <= ne.eval <= SCALE,
                        ne.visits >= 0,
                {}
                assert(sum_visits(edges2s.take(k as int)) * SCALE + ne.visits * SCALE == (
                sum_visits(edges2s.take(k as int)) + ne.visits) * SCALE) by (nonlinear_arith)
                {}
                assert((sum_visits(edges2s.take(k as int)) + ne.visits) * SCALE <= total * SCALE)
                    by (nonlinear_arith)
                    requires
                        sum_visits(edges2s.take(k as int)) + ne.visits <= total,
                {}
                assert(total * SCALE <= (u64::MAX as int) * (SCALE as int)) by (nonlinear_arith)
                    requires
                        0 <= total <= u64::MAX,
                {}
            }
            edges2.push(ne);
            wsum = wsum + (ne.visits as u128) * (ne.eval as u128);
            proof {
                assert(edges2@ =~= edges2s.take(k as int + 1));
            }
            k = k + 1;
        }
        proof {
            assert(edges2s.take(oldnode.out_edges@.len() as int) =~= edges2s);
            lemma_sums_nonneg(edges2s);
            lemma_weighted_le_scaled(edges2s);
            assert(weighted_sum(edges2s) <= total * SCALE);
            assert(total * SCALE <= (nm.count as int) * (SCALE as int)) by (nonlinear_arith)
                requires
                    0 <= total <= nm.count,
            {}
            assert(nm.initial_eval + weighted_sum(edges2s) <= (nm.count + 1) * SCALE)
                by (nonlinear_arith)
                requires
                    nm.initial_eval <= SCALE,
                    weighted_sum(edges2s) <= (nm.count as int) * (SCALE as int),
            {}
            vstd::arithmetic::div_mod::lemma_div_is_ordered(
                nm.initial_eval + weighted_sum(edges2s),
                (count2 as int) * SCALE,
                count2 as int,
            );
            vstd::arithmetic::div_mod::lemma_div_multiples_vanish(SCALE as int, count2 as int);
            assert((count2 as int) * (SCALE as int) == (count2 as int) * (SCALE as int));
        }
        let num: u128 = oldnode.initial_eval as u128 + wsum;
        let eval2 = (num / count2 as u128) as u64;
        let newnode = Node {
            board: oldnode.board,
            count: count2,
            out_edges: edges2,
            initial_eval: oldnode.initial_eval,
            eval: eval2,
        };
        proof {
            assert(newnode@ == node_after_update(nm, action, action_eval, em));
        }
        self.nodes.insert(i, newnode);
        proof {
            assert(self.graph() =~= g0.update(
                i as int,
                node_after_update(nm, action, action_eval, em),
            ));
            let g1 = self.graph();
            assert forall|j: int| 0 <= j < g1.len() implies node_wf(#[trigger] g1[j]) by {
                if j != i as int {
                    assert(g1[j] == g0[j]);
                } else {
                    assert(edges2s.map_values(|e: OutEdge| e.action) =~= nm.edges.map_values(
                        |e: OutEdge| e.action,
                    ));
                }
            }
            assert forall|j1: int, j2: int|
                0 <= j1 < g1.len() && 0 <= j2 < g1.len() && j1 != j2 implies (
            #[trigger] g1[j1]).board != (#[trigger] g1[j2]).board by {
                assert(g1[j1].board == g0[j1].board);
                assert(g1[j2].board == g0[j2].board);
            }
        }
        eval2
    }

    /// Performs one playout for the position and returns the (updated)
    /// evaluation of the position.  The graph changes exactly as
    /// `playout_spec` with e the outcome of the seeding rollout, if one was
    /// made: whole playouts are a deterministic function of the graph and
    /// the rollout outcomes.
    pub fn playout(&mut self, board: &G) -> (r: u64)
        requires
            old(self).wf(),
            board.wf(),
        ensures
            final(self).wf(),
            final(self).exploration_weight == old(self).exploration_weight,
            final(self).estimator == old(self).estimator,
            r <= SCALE,
            exists|e: u64|
                e <= SCALE && (final(self).graph(), r) == playout_spec(
                    old(self).graph(),
                    *board,
                    e,
                    old(self).exploration_weight,
                    old(self).estimator,
                ),
            old(self).graph().len() <= final(self).graph().len(),
            forall|j: int|
                0 <= j < old(self).graph().len() ==> (#[trigger] final(self).graph()[j]).board
                    == old(self).graph()[j].board,
            !terminal_spec(*board) ==> find_spec(final(self).graph(), *board) >= 0,
        decreases board.measure(),
    {
        let ghost g0 = self.graph();
        let ghost c = self.exploration_weight;
        let ghost em = self.estimator;
        let acts = board.actions();
        if board.is_draw() || acts.len() == 0 {
            let sc = white_score(board);
            proof {
                assert((self.graph(), sc) == playout_spec(g0, *board, 0u64, c, em));
            }
            return sc;
        }
        match self.find_node(board) {
            None => {
                let e = rollout(board);
                let node = Node::init(board.duplicate(), e);
                proof {
                    lemma_find_spec_absent(g0, *board);
                }
                self.nodes.push(node);
                proof {
                    let nmnew = node_init_model(*board, e);
                    assert(node@ == nmnew);
                    assert(self.graph() =~= g0.push(nmnew));
                    let g1 = self.graph();
                    lemma_init_edges_zero(board.actions_spec());
                    assert(nmnew.edges.map_values(|ed: OutEdge| ed.action) =~= board.actions_spec());
                    assert(node_wf(nmnew));
                    assert forall|j: int| 0 <= j < g1.len() implies node_wf(#[trigger] g1[j]) by {
                        if j < g0.len() {
                            assert(g1[j] == g0[j]);
                        }
                    }
                    assert forall|j1: int, j2: int|
                        0 <= j1 < g1.len() && 0 <= j2 < g1.len() && j1 != j2 implies (
                    #[trigger] g1[j1]).board != (#[trigger] g1[j2]).board by {
                        if j1 < g0.len() && j2 < g0.len() {
                            assert(g0[j1].board != g0[j2].board);
                        }
                    }
                    lemma_find_spec_first(g1, *board, g0.len() as int);
                    assert((g1, e) == playout_spec(g0, *board, e, c, em));
                }
                e
            },
            Some(i) => {
                let ghost nm = g0[i as int];
                proof {
                    lemma_find_spec_present(g0, *board);
                }
                match self.select_ucb1(board) {
                    None => {
                        // a node's edges can only be empty for a terminal
                        // position, which never gets a node: fall back to
                        // the stored evaluation, as the model does
                        proof {
                            lemma_select_spec_in_actions(nm, c);
                            assert(nm.edges.map_values(|ed: OutEdge| ed.action).len() == 0);
                            assert(terminal_spec(nm.board));
                            assert(false);
                        }
                        self.nodes[i].eval
                    },
                    Some(a) => {
                        proof {
                            lemma_select_spec_in_actions(nm, c);
                            board.lemma_apply_decreases(a);
                        }
                        let next = board.apply(a);
                        let v = self.playout(&next);
                        let ghost gmid = self.graph();
                        let ghost emid = choose|e: u64|
                            e <= SCALE && (gmid, v) == playout_spec(g0, next, e, c, em);
                        proof {
                            assert forall|j: int| 0 <= j < i as int implies (
                            #[trigger] gmid[j]).board != *board by {
                                assert(gmid[j].board == g0[j].board);
                            }
                            assert(gmid[i as int].board == g0[i as int].board);
                            lemma_find_spec_first(gmid, *board, i as int);
                        }
                        let r = self.update_eval(board, a, v);
                        proof {
                            let rec = playout_spec(g0, next, emid, c, em);
                            assert(rec == (gmid, v));
                            assert((self.graph(), r) == update_full(gmid, *board, a, v, em));
                            assert((self.graph(), r) == playout_spec(g0, *board, emid, c, em));
                            assert forall|j: int| 0 <= j < g0.len() implies (
                            #[trigger] self.graph()[j]).board == g0[j].board by {
                                assert(self.graph()[j].board == gmid[j].board);
                            }
                            assert(self.graph()[i as int].board == *board);
                            assert forall|j: int| 0 <= j < i as int implies (
                            #[trigger] self.graph()[j]).board != *board by {
                                assert(self.graph()[j].board == g0[j].board);
                            }
                            lemma_find_spec_first(self.graph(), *board, i as int);
                        }
                        r
                    },
                }
            },
        }
    }

    /// Selects an action for the position: runs whole playouts until the
    /// deadline passes (at least one even if it already has), then returns
    /// the action of the root's most-visited edge; `None` when the root is
    /// terminal.
    ///
    /// The final decision deliberately uses the standard robust-child rule
    /// rather than re-applying the exploration-aware UCB1 score: exploration
    /// bias is appropriate while searching, not in a committed decision.
    #[verifier::loop_isolation(false)]
    pub fn select(&mut self, board: &G, deadline: std::time::Instant) -> (r: Option<u64>)
        requires
            old(self).wf(),
            board.wf(),
        ensures
            final(self).wf(),
            final(self).exploration_weight == old(self).exploration_weight,
            final(self).estimator == old(self).estimator,
            terminal_spec(*board) ==> r is None && final(self).graph() == old(self).graph(),
            !terminal_spec(*board) ==> exists|evals: Seq<u64>|
                1 <= evals.len() && (forall|k: int|
                    0 <= k < evals.len() ==> #[trigger] evals[k] <= SCALE) && final(self).graph()
                    == run_playouts(
                    old(self).graph(),
                    *board,
                    evals,
                    old(self).exploration_weight,
                    old(self).estimator,
                ),
            !terminal_spec(*board) ==> {
                let i = find_spec(final(self).graph(), *board);
                &&& i >= 0
                &&& r == robust_child(final(self).graph()[i])
                &&& r is Some
                &&& board.actions_spec().contains(r->Some_0)
            },
    {
        let ghost g0 = self.graph();
        let ghost c = self.exploration_weight;
        let ghost em = self.estimator;
        let acts = board.actions();
        if board.is_draw() || acts.len() == 0 {
            return None;
        }
        let ghost mut evals: Seq<u64> = Seq::empty();
        let ghost mut gprev = self.graph();
        let v0 = self.playout(board);
        proof {
            let e0 = choose|e: u64|
                e <= SCALE && (self.graph(), v0) == playout_spec(gprev, *board, e, c, em);
            evals = Seq::empty().push(e0);
            assert(evals[0] == e0);
            assert(evals.drop_first() =~= Seq::<u64>::empty());
            assert(run_playouts(g0, *board, evals, c, em) == run_playouts(
                playout_spec(g0, *board, e0, c, em).0,
                *board,
                Seq::<u64>::empty(),
                c,
                em,
            ));
            assert(self.graph() == run_playouts(g0, *board, evals, c, em));
        }
        let mut playouts: u64 = 1;
        let mut stop = instant_reached(&now_instant(), &deadline);
        while !stop && playouts < PLAYOUT_CAP
            invariant
                self.wf(),
                self.exploration_weight == c,
                self.estimator == em,
                1 <= evals.len(),
                forall|k: int| 0 <= k < evals.len() ==> #[trigger] evals[k] <= SCALE,
                self.graph() == run_playouts(g0, *board, evals, c, em),
                find_spec(self.graph(), *board) >= 0,
            decreases PLAYOUT_CAP - playouts,
        {
            proof {
                gprev = self.graph();
            }
            let v = self.playout(board);
            proof {
                let e = choose|ev: u64|
                    ev <= SCALE && (self.graph(), v) == playout_spec(gprev, *board, ev, c, em);
                lemma_run_playouts_push(g0, *board, evals, e, c, em);
                evals = evals.push(e);
            }
            playouts = playouts + 1;
            stop = instant_reached(&now_instant(), &deadline);
        }
        let i = match self.find_node(board) {
            Some(i) => i,
            None => {
                return None;
            },
        };
        let ghost nm = self.graph()[i as int];
        proof {
            lemma_find_spec_present(self.graph(), *board);
            assert(node_wf(nm));
            assert(nm.edges.map_values(|e: OutEdge| e.action).len() == nm.board.actions_spec().len());
            lemma_most_visited_range(nm.edges, nm.edges.len() as int);
        }
        let node = &self.nodes[i];
        proof {
            assert(node@ == nm);
            assert(nm.edges.len() >= 1);
        }
        let mut best: usize = 0;
        let mut k: usize = 1;
        while k < node.out_edges.len()
            invariant
                1 <= k <= node.out_edges@.len(),
                best < k,
                best == most_visited_idx(nm.edges, k as int),
            decreases node.out_edges@.len() - k,
        {
            if node.out_edges[k].visits > node.out_edges[best].visits {
                best = k;
            }
            k = k + 1;
        }
        let a = node.out_edges[best].action;
        proof {
            assert(most_visited_idx(nm.edges, nm.edges.len() as int) == best as int);
            assert(robust_child(nm) == Some(a));
            assert(nm.edges.map_values(|e: OutEdge| e.action)[best as int] == a);
            assert(board.actions_spec()[best as int] == a);
        }
        Some(a)
    }
}

} // verus!
