//! The library's global laws, stated and proved over the engine's model.

use vstd::prelude::*;

use crate::game::Game;
use crate::mcts::MctsEngine;
use crate::mcts::node_wf;
use crate::mcts::run_playouts;
use crate::mcts::sum_visits;

verus! {

/// The search graph holds at most one node per distinct state, however many
/// paths reach it: in a well-formed engine no two nodes share a position.
pub proof fn lemma_one_node_per_state<G: Game>(engine: MctsEngine<G>)
    requires
        engine.wf(),
    ensures
        forall|i: int, j: int|
            0 <= i < engine.graph().len() && 0 <= j < engine.graph().len() && i != j ==> (
            #[trigger] engine.graph()[i]).board != (#[trigger] engine.graph()[j]).board,
{
}

/// For every node, the sum of its edges' visit counts is at most the node's
/// visit count minus one: the creating visit contributes no edge traversal.
pub proof fn lemma_edge_visits_bound<G: Game>(engine: MctsEngine<G>, i: int)
    requires
        engine.wf(),
        0 <= i < engine.graph().len(),
    ensures
        sum_visits(engine.graph()[i].edges) <= engine.graph()[i].count - 1,
        engine.graph()[i].count >= 1,
{
}

/// A cleared engine behaves exactly like a fresh one: from an empty graph
/// and the same exploration weight, the same playout calls with the same
/// rollout outcomes build the same graph, so no residual statistics can
/// affect any later decision.
pub proof fn lemma_clear_matches_fresh<G: Game>(
    cleared: MctsEngine<G>,
    fresh: MctsEngine<G>,
    s: G,
    evals: Seq<u64>,
)
    requires
        cleared.graph().len() == 0,
        fresh.graph().len() == 0,
        cleared.exploration_weight == fresh.exploration_weight,
        cleared.estimator == fresh.estimator,
    ensures
        run_playouts(cleared.graph(), s, evals, cleared.exploration_weight, cleared.estimator)
            == run_playouts(fresh.graph(), s, evals, fresh.exploration_weight, fresh.estimator),
{
    assert(cleared.graph() =~= fresh.graph());
}

/// Determinism: with the rollout outcomes fixed, two engines in the same
/// state given the same sequence of playout calls hold identical node and
/// edge statistics afterwards.
pub proof fn lemma_playouts_deterministic<G: Game>(
    e1: MctsEngine<G>,
    e2: MctsEngine<G>,
    s: G,
    evals: Seq<u64>,
)
    requires
        e1.graph() == e2.graph(),
        e1.exploration_weight == e2.exploration_weight,
        e1.estimator == e2.estimator,
    ensures
        run_playouts(e1.graph(), s, evals, e1.exploration_weight, e1.estimator) == run_playouts(
            e2.graph(),
            s,
            evals,
            e2.exploration_weight,
            e2.estimator,
        ),
{
}

/// Every node of a well-formed graph is itself well formed: live position,
/// one edge per legal action, values on the scale.
pub proof fn lemma_nodes_wf<G: Game>(engine: MctsEngine<G>, i: int)
    requires
        engine.wf(),
        0 <= i < engine.graph().len(),
    ensures
        node_wf(engine.graph()[i]),
{
}

} // verus!
