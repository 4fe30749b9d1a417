use vstd::prelude::*;

verus! {

/// A proven outcome. Players are identified by a number chosen by the game.
#[derive(Clone, Copy, Debug, PartialEq, Eq, Structural)]
pub enum ExactUtility {
    Win(u32),
    Draw,
}

/// The value of a position.
/// - `Exact`: the outcome is known (terminal positions, or positions whose
///   children are all solved).
/// - `Approximate`: a quantized estimate for the side to move, where
///   32767 means a certain win and -32767 a certain loss.
/// - `Unknown`: not evaluated yet; random playouts decide.
#[derive(Clone, Copy, Debug, PartialEq, Eq, Structural)]
pub enum Utility {
    Exact(ExactUtility),
    Approximate(i16),
    Unknown,
}

/// A stored utility: never `Unknown`, and every estimate within the
/// quantized range.
pub open spec fn utility_wf(u: Utility) -> bool {
    match u {
        Utility::Exact(_) => true,
        Utility::Approximate(v) => -32767 <= v <= 32767,
        Utility::Unknown => false,
    }
}

/// An estimate as given by a game, brought into the quantized range.
pub open spec fn clamp_score(v: i16) -> int {
    if v < -32767 { -32767 } else { v as int }
}

/// The scalar value (in units of 1/32767) of an observed utility, seen by
/// `player`: a win for `player` is +32767, a win for anyone else -32767, a
/// draw 0, an estimate its own (clamped) value.
pub open spec fn scalar_of(u: Utility, player: u32) -> int {
    match u {
        Utility::Exact(ExactUtility::Win(p)) => if p == player { 32767 } else { -32767 },
        Utility::Exact(ExactUtility::Draw) => 0,
        Utility::Approximate(v) => clamp_score(v),
        Utility::Unknown => 0,
    }
}

/// Computes `scalar_of(u, player)`.
pub fn scalar(u: Utility, player: u32) -> (r: i32)
    ensures
        r == scalar_of(u, player),
        -32767 <= r <= 32767,
{
    match u {
        Utility::Exact(ExactUtility::Win(p)) => if p == player { 32767 } else { -32767 },
        Utility::Exact(ExactUtility::Draw) => 0,
        Utility::Approximate(v) => if v < -32767 { -32767 } else { v as i32 },
        Utility::Unknown => 0,
    }
}

/// A deterministic game with perfect information, played forward with
/// `play` and backward with `undo`.
///
/// The spec functions describe the game for the search's proofs: `after`
/// is the state that `play` produces, `before` the state that `undo` goes
/// back to, and `remaining` bounds how many more plies the game can last.
/// Every play must bring `remaining` down, so the games searched are
/// finite: each line of play ends, which is what makes a random playout
/// and a descent through the tree terminate. A game that could go on
/// forever has to bound itself (for instance by declaring a draw after a
/// number of plies) to be searched.
/// Their default bodies stand for values left unspecified, so that games
/// written in plain Rust need only the executable methods; proofs about a
/// game in general never see those defaults.
pub trait Game: Sized {
    type Action;

    /// Position key: strategically identical states have equal keys.
    closed spec fn key(&self) -> u64 {
        arbitrary()
    }

    /// The player to move.
    closed spec fn mover(&self) -> u32 {
        arbitrary()
    }

    /// The legal actions, in the order `actions` returns them.
    closed spec fn legal(&self) -> Seq<Self::Action> {
        arbitrary()
    }

    /// What `utility` reports for this state.
    closed spec fn evaluation(&self) -> Utility {
        arbitrary()
    }

    /// The state that playing `a` leads to.
    closed spec fn after(&self, a: Self::Action) -> Self {
        arbitrary()
    }

    /// The state before the most recent `play`.
    closed spec fn before(&self) -> Self {
        arbitrary()
    }

    /// Whether there is a `play` to undo.
    closed spec fn has_history(&self) -> bool {
        arbitrary()
    }

    /// An upper bound on the number of plies left in the game.
    closed spec fn remaining(&self) -> u64 {
        arbitrary()
    }

    /// Applies a legal action.
    fn play(&mut self, action: &Self::Action)
        requires
            old(self).legal().contains(*action),
        ensures
            *final(self) == old(self).after(*action),
            final(self).has_history(),
            final(self).before() == *old(self),
            final(self).remaining() < old(self).remaining(),
    ;

    /// Reverts the most recent `play`.
    fn undo(&mut self)
        requires
            old(self).has_history(),
        ensures
            *final(self) == old(self).before(),
    ;

    fn current_player(&self) -> (r: u32)
        ensures
            r == self.mover(),
    ;

    /// The legal actions; none exactly when the game is over, in which case
    /// `utility` is exact.
    fn actions(&self) -> (r: Vec<Self::Action>)
        ensures
            r@ == self.legal(),
            r@.len() == 0 ==> self.evaluation() is Exact,
    ;

    fn utility(&self) -> (r: Utility)
        ensures
            r == self.evaluation(),
    ;

    fn hash(&self) -> (r: u64)
        ensures
            r == self.key(),
    ;
}

} // verus!
