//! The game-state contract consumed by the engine, and a small example game.
//!
//! The engine never inspects a position beyond this trait: legal actions,
//! successors, terminal status (a draw, or no legal actions for the side to
//! move), the side to move, and state equality for transposition sharing.
//! Actions are identified by plain `u64` values chosen by the game.

use vstd::prelude::*;

verus! {

/// The side to move.  `White` is the first player: the value scale is
/// anchored so that 0 means a White loss and full scale a White win.
#[derive(Clone, Copy, PartialEq, Eq, Structural, Debug)]
pub enum Color {
    White,
    Black,
}

/// A two-player, perfect-information position.
///
/// `measure` bounds the remaining game length: applying a legal action must
/// strictly decrease it, which makes rollouts and recursive playouts
/// terminate.
pub trait Game: Sized {
    /// Well-formedness of a position.
    spec fn wf(&self) -> bool;

    /// An upper bound on the number of plies left; strictly decreases on
    /// every legal move.
    spec fn measure(&self) -> nat;

    /// The legal actions of the side to move, in a fixed order.
    spec fn actions_spec(&self) -> Seq<u64>;

    /// The successor reached by a legal action.
    spec fn apply_spec(&self, a: u64) -> Self;

    /// The side to move.
    spec fn turn_spec(&self) -> Color;

    /// Whether the position is drawn (terminal without a loser).
    spec fn draw_spec(&self) -> bool;

    /// Legal actions are pairwise distinct: one edge per action.
    proof fn lemma_actions_distinct(&self)
        requires
            self.wf(),
        ensures
            self.actions_spec().no_duplicates();

    /// Applying a legal action preserves well-formedness and strictly
    /// decreases the measure.
    proof fn lemma_apply_decreases(&self, a: u64)
        requires
            self.wf(),
            self.actions_spec().contains(a),
        ensures
            self.apply_spec(a).wf(),
            self.apply_spec(a).measure() < self.measure();

    fn actions(&self) -> (r: Vec<u64>)
        requires
            self.wf(),
        ensures
            r@ == self.actions_spec();

    fn apply(&self, a: u64) -> (r: Self)
        requires
            self.wf(),
            self.actions_spec().contains(a),
        ensures
            r == self.apply_spec(a);

    fn turn(&self) -> (r: Color)
        ensures
            r == self.turn_spec();

    fn is_draw(&self) -> (r: bool)
        requires
            self.wf(),
        ensures
            r == self.draw_spec();

    fn same_state(&self, other: &Self) -> (r: bool)
        ensures
            r == (*self == *other);

    fn duplicate(&self) -> (r: Self)
        ensures
            r == *self;
}

/// A position is terminal when it is drawn or the side to move has no legal
/// actions (and then loses).
pub open spec fn terminal_spec<G: Game>(s: G) -> bool {
    s.draw_spec() || s.actions_spec().len() == 0
}

/// A small example game: a pile of tokens, take 1 or 2 per move, the player
/// left without a move loses; the game is drawn when the move budget runs
/// out.
#[derive(Clone, Copy, PartialEq, Eq, Structural, Debug)]
pub struct TakeAway {
    pub remaining: u64,
    pub moves_left: u64,
    pub turn: Color,
}

impl Game for TakeAway {
    open spec fn wf(&self) -> bool {
        true
    }

    open spec fn measure(&self) -> nat {
        (self.remaining + self.moves_left) as nat
    }

    open spec fn actions_spec(&self) -> Seq<u64> {
        if self.moves_left == 0 || self.remaining == 0 {
            Seq::empty()
        } else if self.remaining == 1 {
            seq![1u64]
        } else {
            seq![1u64, 2u64]
        }
    }

    open spec fn apply_spec(&self, a: u64) -> Self {
        TakeAway {
            remaining: (self.remaining - a) as u64,
            moves_left: (self.moves_left - 1) as u64,
            turn: if self.turn is White { Color::Black } else { Color::White },
        }
    }

    open spec fn turn_spec(&self) -> Color {
        self.turn
    }

    open spec fn draw_spec(&self) -> bool {
        self.moves_left == 0
    }

    proof fn lemma_actions_distinct(&self) {
        let acts = self.actions_spec();
        assert forall|i: int, j: int| 0 <= i < acts.len() && 0 <= j < acts.len() && i != j
            implies acts[i] != acts[j] by {}
    }

    proof fn lemma_apply_decreases(&self, a: u64) {
        let acts = self.actions_spec();
        let i = choose|i: int| 0 <= i < acts.len() && acts[i] == a;
        assert(a == 1 || a == 2);
        assert(a <= self.remaining && self.moves_left >= 1);
    }

    fn actions(&self) -> (r: Vec<u64>) {
        let r: Vec<u64> = if self.moves_left == 0 || self.remaining == 0 {
            Vec::new()
        } else if self.remaining == 1 {
            vec![1u64]
        } else {
            vec![1u64, 2u64]
        };
        proof {
            assert(r@ =~= self.actions_spec());
        }
        r
    }

    fn apply(&self, a: u64) -> (r: Self) {
        proof {
            let acts = self.actions_spec();
            let i = choose|i: int| 0 <= i < acts.len() && acts[i] == a;
            assert(a == 1 || a == 2);
            assert(a <= self.remaining && self.moves_left >= 1);
        }
        TakeAway {
            remaining: self.remaining - a,
            moves_left: self.moves_left - 1,
            turn: match self.turn {
                Color::White => Color::Black,
                Color::Black => Color::White,
            },
        }
    }

    fn turn(&self) -> (r: Color) {
        self.turn
    }

    fn is_draw(&self) -> (r: bool) {
        self.moves_left == 0
    }

    fn same_state(&self, other: &Self) -> (r: bool) {
        *self == *other
    }

    fn duplicate(&self) -> (r: Self) {
        *self
    }
}

} // verus!
