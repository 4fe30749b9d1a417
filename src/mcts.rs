//! # MCTS algorithm
//! Monte-Carlo Tree Search does a best-first search: it treats each position
//! as a multi-armed bandit, and keeps the whole searched tree in memory,
//! keyed by position, so that later searches can use earlier results.

use std::collections::HashMap;
use vstd::prelude::*;
use vstd::arithmetic::power2::pow2;

use crate::game::{ExactUtility, Game, Utility, utility_wf, scalar, scalar_of, clamp_score};

verus! {

broadcast use vstd::std_specs::hash::group_hash_axioms;

/// Statistics kept for one position.
#[derive(Clone, Copy, Debug, PartialEq, Eq, Structural)]
pub struct MonteCarloNode {
    pub utility: Utility,
    pub visits: u32,
}

/// A Monte-Carlo searched tree: the statistics of each searched position,
/// keyed by position.
pub struct MonteCarloTree {
    nodes: HashMap<u64, MonteCarloNode>,
    // The number of random playouts when expanding a node with unknown utility.
    simulations_per_node: u32,
}

/// What the tree knows of the position reached by the `j`-th legal action
/// of `s`: the stored utility, or `None` when the position is unexplored.
pub open spec fn child_utility<G: Game>(m: Map<u64, MonteCarloNode>, s: G, j: int) -> Option<Utility> {
    let k = s.after(s.legal()[j]).key();
    if m.contains_key(k) { Some(m[k].utility) } else { None }
}

/// Whether a stored utility is a proven win for `player`.
pub open spec fn is_win_for(u: Option<Utility>, player: u32) -> bool {
    u == Some(Utility::Exact(ExactUtility::Win(player)))
}

/// Whether some action of `s` leads to a proven win for its mover.
pub open spec fn has_winning_child<G: Game>(m: Map<u64, MonteCarloNode>, s: G) -> bool {
    exists|j: int| 0 <= j < s.legal().len() && #[trigger] is_win_for(child_utility(m, s, j), s.mover())
}

/// The first action of `s` leading to a proven win for its mover.
pub open spec fn first_winning_child<G: Game>(m: Map<u64, MonteCarloNode>, s: G) -> int {
    choose|j: int| 0 <= j < s.legal().len() && is_win_for(child_utility(m, s, j), s.mover())
        && forall|i: int| 0 <= i < j ==> !#[trigger] is_win_for(child_utility(m, s, i), s.mover())
}

/// A ranking candidate: the chosen index, its rank (0: none, 1: a proven
/// loss, 2: a draw or an unexplored action, 3: an estimate) and, for rank 3,
/// the best estimate.
pub struct Ranked {
    pub index: Option<int>,
    pub rank: int,
    pub score: int,
}

/// One ranking step of move selection: an estimate beats any lower rank or a
/// strictly lower estimate; a draw or unexplored action is taken only over a
/// proven loss or nothing; a proven loss only over nothing. Earlier actions
/// win ties.
pub open spec fn rank_step(acc: Ranked, j: int, u: Option<Utility>, player: u32) -> Ranked {
    match u {
        Some(Utility::Approximate(e)) =>
            if acc.rank < 3 || acc.score < e { Ranked { index: Some(j), rank: 3, score: e as int } } else { acc },
        Some(Utility::Exact(ExactUtility::Win(p))) =>
            if p != player && acc.rank < 1 { Ranked { index: Some(j), rank: 1, score: 0 } } else { acc },
        _ => if acc.rank < 2 { Ranked { index: Some(j), rank: 2, score: 0 } } else { acc },
    }
}

/// The ranking of the first `n` actions of `s`.
pub open spec fn ranked<G: Game>(m: Map<u64, MonteCarloNode>, s: G, n: int) -> Ranked
    decreases n,
{
    if n <= 0 {
        Ranked { index: None, rank: 0, score: 0 }
    } else {
        rank_step(ranked(m, s, n - 1), n - 1, child_utility(m, s, n - 1), s.mover())
    }
}

/// The index of the action that move selection picks in `s`: the first
/// proven win for the mover if there is one, else the best ranked action.
pub open spec fn best_index<G: Game>(m: Map<u64, MonteCarloNode>, s: G) -> Option<int> {
    if has_winning_child(m, s) {
        Some(first_winning_child(m, s))
    } else {
        ranked(m, s, s.legal().len() as int).index
    }
}

impl MonteCarloTree {
    /// The statistics of each searched position.
    pub closed spec fn view(&self) -> Map<u64, MonteCarloNode> {
        self.nodes@
    }

    /// The number of playouts made for each newly expanded position.
    pub closed spec fn playouts(&self) -> u32 {
        self.simulations_per_node
    }

    /// Every stored utility is proven or an estimate within
    /// [-32767, 32767], and every node has been visited.
    pub open spec fn wf(&self) -> bool {
        &&& self@.dom().finite()
        &&& forall|k: u64| #[trigger] self@.contains_key(k) ==>
                utility_wf(self@[k].utility) && self@[k].visits >= 1
    }

    /// Constructs an empty search tree, with 255 playouts per expansion.
    pub fn new() -> (r: Self)
        ensures
            r.wf(),
            r@ == Map::<u64, MonteCarloNode>::empty(),
            r.playouts() == 255,
    {
        Self::with_simulations(255)
    }

    /// Constructs an empty search tree that makes `playouts` random playouts
    /// for each newly expanded position.
    pub fn with_simulations(playouts: u32) -> (r: Self)
        ensures
            r.wf(),
            r@ == Map::<u64, MonteCarloNode>::empty(),
            r.playouts() == playouts,
    {
        MonteCarloTree { nodes: HashMap::new(), simulations_per_node: playouts }
    }

    /// The statistics stored for the position with key `key`, if searched.
    pub fn node(&self, key: u64) -> (r: Option<MonteCarloNode>)
        ensures
            r == (if self@.contains_key(key) { Some(self@[key]) } else { None }),
    {
        match self.nodes.get(&key) {
            Some(n) => Some(*n),
            None => None,
        }
    }

    /// The number of searched positions.
    pub fn len(&self) -> (r: usize)
        ensures
            r == self@.len(),
    {
        self.nodes.len()
    }

    /// Picks the action to play in `state` from the tree as it stands: the
    /// first action proven to win for the mover if any; otherwise the best
    /// estimate; failing that a draw or an unexplored action; a proven loss
    /// only as a last resort. `None` exactly when there is no legal action.
    pub fn best_action<G: Game>(&self, state: &mut G) -> (r: Option<G::Action>)
        ensures
            *final(state) == *old(state),
            r == (match best_index(self@, *old(state)) {
                Some(j) => Some(old(state).legal()[j]),
                None => None,
            }),
    {
        let ghost s = *state;
        let current_player = state.current_player();
        let mut actions = state.actions();
        let n = actions.len();
        let mut best: Option<usize> = None;
        let mut rank: u8 = 0;
        let mut best_score: i16 = 0;
        let mut j: usize = 0;
        while j < n
            invariant
                *state == s,
                s == *old(state),
                actions@ == s.legal(),
                n == actions@.len(),
                current_player == s.mover(),
                0 <= j <= n,
                forall|i: int| 0 <= i < j ==> !#[trigger] is_win_for(child_utility(self@, s, i), s.mover()),
                ranked(self@, s, j as int).index == (match best { Some(b) => Some(b as int), None => None }),
                ranked(self@, s, j as int).rank == rank as int,
                rank == 3 ==> ranked(self@, s, j as int).score == best_score as int,
                best matches Some(b) ==> b < j,
                rank <= 3,
            decreases n - j,
        {
            state.play(&actions[j]);
            let key = state.hash();
            state.undo();
            let child = match self.nodes.get(&key) {
                Some(c) => Some(c.utility),
                None => None,
            };
            assert(child == child_utility(self@, s, j as int));
            assert(ranked(self@, s, j as int + 1) == rank_step(
                ranked(self@, s, j as int), j as int, child, s.mover()));
            match child {
                Some(Utility::Approximate(e)) => {
                    if rank < 3 || best_score < e {
                        best = Some(j);
                        rank = 3;
                        best_score = e;
                    }
                },
                Some(Utility::Exact(ExactUtility::Win(p))) => {
                    if p == current_player {
                        proof {
                            assert(is_win_for(child_utility(self@, s, j as int), s.mover()));
                            assert(has_winning_child(self@, s));
                            lemma_first_win_is(self@, s, j as int);
                            assert(best_index(self@, s) == Some(j as int));
                        }
                        let a = actions.swap_remove(j);
                        assert(a == s.legal()[j as int]);
                        return Some(a);
                    }
                    if rank < 1 {
                        best = Some(j);
                        rank = 1;
                    }
                },
                _ => {
                    if rank < 2 {
                        best = Some(j);
                        rank = 2;
                    }
                },
            }
            j = j + 1;
        }
        proof {
            if has_winning_child(self@, s) {
                let w = choose|w: int| 0 <= w < s.legal().len() && #[trigger] is_win_for(child_utility(self@, s, w), s.mover());
                assert(!is_win_for(child_utility(self@, s, w), s.mover()));
            }
        }
        match best {
            Some(b) => Some(actions.swap_remove(b)),
            None => None,
        }
    }
}

/// The mean of two scores, rounded half away from zero.
pub open spec fn mean_rounded(a: int, b: int) -> int {
    if a + b >= 0 { (a + b + 1) / 2 } else { -((-(a + b) + 1) / 2) }
}

/// `total / n`, rounded half away from zero.
pub open spec fn quotient_rounded(total: int, n: int) -> int {
    if total >= 0 { (2 * total + n) / (2 * n) } else { -((-2 * total + n) / (2 * n)) }
}

/// Blends a stored estimate with a new observation: the unweighted mean of
/// the two, re-quantized.
pub fn blend(stored: i16, observed: i32) -> (r: i16)
    requires
        -32767 <= stored <= 32767,
        -32767 <= observed <= 32767,
    ensures
        r == mean_rounded(stored as int, observed as int),
        -32767 <= r <= 32767,
{
    let sum: i32 = stored as i32 + observed;
    if sum >= 0 {
        ((sum + 1) / 2) as i16
    } else {
        (-((-sum + 1) / 2)) as i16
    }
}

/// The mean of `n` playout results that add up to `total`, quantized.
pub fn mean_score(total: i64, n: u32) -> (r: i16)
    requires
        n > 0,
        -32767 * (n as int) <= total <= 32767 * (n as int),
    ensures
        r == quotient_rounded(total as int, n as int),
        -32767 <= r <= 32767,
{
    let d: i64 = 2 * (n as i64);
    if total >= 0 {
        let x: i64 = 2 * total + n as i64;
        proof {
            assert(x < d * 32768) by (nonlinear_arith)
                requires x == 2 * total + n, total <= 32767 * (n as int), d == 2 * n, n > 0;
            vstd::arithmetic::div_mod::lemma_multiply_divide_lt(x as int, d as int, 32768);
        }
        (x / d) as i16
    } else {
        let x: i64 = -2 * total + n as i64;
        proof {
            assert(x < d * 32768) by (nonlinear_arith)
                requires x == -2 * total + n, -32767 * (n as int) <= total, d == 2 * n, n > 0;
            vstd::arithmetic::div_mod::lemma_multiply_divide_lt(x as int, d as int, 32768);
        }
        (-(x / d)) as i16
    }
}

/// Relies on rand's `IteratorRandom::choose` over `0..n` with the
/// thread-local generator: on a non-empty range it returns one of its values.
#[verifier::external_body]
fn random_below(n: usize) -> (r: usize)
    requires
        n > 0,
    ensures
        r < n,
{
    rand::seq::IteratorRandom::choose(0..n, &mut rand::thread_rng()).unwrap()
}

/// Whether `path` is a line of play: each state after the first was reached
/// by a `play` from the one before it.
pub open spec fn is_line<G: Game>(path: Seq<G>) -> bool {
    forall|i: int| 1 <= i < path.len() ==>
        (#[trigger] path[i]).has_history() && path[i].before() == path[i - 1]
}

/// `b` is reached from `a` by one legal action.
pub open spec fn plays_to<G: Game>(a: G, b: G) -> bool {
    exists|j: int| 0 <= j < a.legal().len() && b == #[trigger] a.after(a.legal()[j])
}

/// `path` is a walk of legal plays from `s`.
pub open spec fn walk_from<G: Game>(path: Seq<G>, s: G) -> bool {
    &&& path.len() >= 1
    &&& path[0] == s
    &&& forall|i: int| 0 <= i < path.len() - 1 ==> plays_to(#[trigger] path[i], path[i + 1])
}

/// `v` is the score of a possible playout from `s`: a walk of legal plays
/// through positions the game does not evaluate, up to the first one it
/// does, whose evaluation is scored for the player to move in `s`.
pub open spec fn playout_score<G: Game>(s: G, v: int) -> bool {
    exists|path: Seq<G>| #[trigger] walk_from(path, s) && path.len() >= 2
        && (forall|i: int| 0 <= i < path.len() - 1 ==> (#[trigger] path[i]).evaluation() is Unknown)
        && !(path.last().evaluation() is Unknown)
        && v == scalar_of(path.last().evaluation(), s.mover())
}

/// The sum of a sequence of scores.
pub open spec fn sum_of(vals: Seq<int>) -> int
    decreases vals.len(),
{
    if vals.len() == 0 { 0 } else { sum_of(vals.drop_last()) + vals.last() }
}

/// `r` is an estimate of `s` from `n` playouts: the rounded mean of `n`
/// possible playout scores, or 0 when there are none.
pub open spec fn simulated<G: Game>(s: G, n: u32, r: Utility) -> bool {
    if n == 0 {
        r == Utility::Approximate(0)
    } else {
        exists|vals: Seq<int>| #![trigger sum_of(vals)]
            vals.len() == n
            && (forall|i: int| 0 <= i < n ==> playout_score(s, #[trigger] vals[i]))
            && r is Approximate && r->Approximate_0 == quotient_rounded(sum_of(vals), n as int)
    }
}

/// Undoes the last `path.len() - 1` plays, back to `path[0]`.
fn rewind<G: Game>(state: &mut G, plys: u64, path: Ghost<Seq<G>>)
    requires
        path@.len() == plys + 1,
        *old(state) == path@.last(),
        is_line(path@),
    ensures
        *final(state) == path@[0],
{
    let mut k: u64 = plys;
    while k > 0
        invariant
            k <= plys,
            *state == path@[k as int],
            path@.len() == plys + 1,
            is_line(path@),
        decreases k,
    {
        state.undo();
        k = k - 1;
    }
}

/// Plays uniformly random actions from `state` until the game reports a
/// result, undoes them all, and returns that result as a score for the
/// player to move in `state`.
fn playout<G: Game>(state: &mut G) -> (r: i32)
    requires
        old(state).evaluation() is Unknown,
    ensures
        *final(state) == *old(state),
        -32767 <= r <= 32767,
        playout_score(*old(state), r as int),
{
    let ghost start = *state;
    let player = state.current_player();
    let mut plys: u64 = 0;
    let ghost mut path: Seq<G> = seq![*state];
    let mut result: i32 = 0;
    let mut done = false;
    while !done
        invariant
            path.len() == plys + 1,
            path[0] == start,
            *state == path.last(),
            is_line(path),
            plys + state.remaining() <= start.remaining(),
            !done ==> state.evaluation() is Unknown,
            -32767 <= result <= 32767,
            start == *old(state),
            player == start.mover(),
            walk_from(path, start),
            forall|t: int| 0 <= t < path.len() - 1 ==> (#[trigger] path[t]).evaluation() is Unknown,
            done ==> path.len() >= 2 && !(path.last().evaluation() is Unknown)
                && result == scalar_of(path.last().evaluation(), start.mover()),
        decreases state.remaining(),
    {
        let actions = state.actions();
        let i = random_below(actions.len());
        let ghost prev = path;
        state.play(&actions[i]);
        plys = plys + 1;
        proof {
            path = path.push(*state);
            assert(plays_to(prev.last(), path.last())) by {
                assert(path.last() == prev.last().after(prev.last().legal()[i as int]));
            }
            assert forall|t: int| 0 <= t < path.len() - 1 implies plays_to(#[trigger] path[t], path[t + 1]) by {
                if t < path.len() - 2 {
                    assert(path[t] == prev[t] && path[t + 1] == prev[t + 1]);
                }
            }
            assert forall|t: int| 0 <= t < path.len() - 1 implies (#[trigger] path[t]).evaluation() is Unknown by {
                assert(path[t] == prev[t]);
            }
            assert(is_line(path)) by {
                assert forall|k: int| 1 <= k < path.len() implies
                    (#[trigger] path[k]).has_history() && path[k].before() == path[k - 1] by {
                    if k < path.len() - 1 {
                        assert(path[k] == path.drop_last()[k]);
                    }
                }
            }
        }
        let u = state.utility();
        match u {
            Utility::Unknown => {},
            _ => {
                result = scalar(u, player);
                done = true;
            },
        }
    }
    rewind(state, plys, Ghost(path));
    assert(walk_from(path, start));
    result
}

/// A visit count after one more visit (it stops at the largest count).
pub open spec fn bumped(v: u32) -> u32 {
    if v < 0xffff_ffff { (v + 1) as u32 } else { v }
}

/// Every proven node of `a` is still there in `b`, with the same outcome.
pub open spec fn exact_kept(a: Map<u64, MonteCarloNode>, b: Map<u64, MonteCarloNode>) -> bool {
    forall|k: u64| #[trigger] a.contains_key(k) && a[k].utility is Exact
        ==> b.contains_key(k) && b[k].utility == a[k].utility
}

/// Every node of `a` is in `b`, visited once more if its key is in `anc`
/// and as often as before otherwise.
pub open spec fn visits_bumped(a: Map<u64, MonteCarloNode>, b: Map<u64, MonteCarloNode>, anc: Set<u64>) -> bool {
    forall|k: u64| #[trigger] a.contains_key(k) ==> b.contains_key(k)
        && b[k].visits == (if anc.contains(k) { bumped(a[k].visits) } else { a[k].visits })
}

/// `b` is `a` after one search step: either no node was added and none
/// visited, or exactly one new node was added, with one visit, and each
/// node of a set of ancestors was visited exactly once more.
pub open spec fn one_step_growth(a: Map<u64, MonteCarloNode>, b: Map<u64, MonteCarloNode>) -> bool {
    ||| b.dom() == a.dom() && visits_bumped(a, b, Set::empty())
    ||| exists|fresh: u64, anc: Set<u64>|
            !a.contains_key(fresh) && b.dom() == #[trigger] a.dom().insert(fresh) && b[fresh].visits == 1
            && #[trigger] visits_bumped(a, b, anc) && anc.subset_of(a.dom()) && !anc.contains(fresh)
}

/// The keys of the nodes whose utility is not proven yet.
pub open spec fn open_keys(m: Map<u64, MonteCarloNode>) -> Set<u64> {
    m.dom().filter(|k: u64| !(m[k].utility is Exact))
}

/// Whether `keys` are the keys of the states `path` passes through before
/// its last one.
pub open spec fn keys_of<G: Game>(keys: Seq<u64>, path: Seq<G>) -> bool {
    &&& keys.len() + 1 == path.len()
    &&& forall|i: int| 0 <= i < keys.len() ==> keys[i] == (#[trigger] path[i]).key()
}

/// Outside the walk of a step, a node keeps its visits, and its utility
/// changes only by being proven.
pub open spec fn only_solved(a: Map<u64, MonteCarloNode>, b: Map<u64, MonteCarloNode>, k: u64) -> bool {
    &&& b.contains_key(k)
    &&& b[k].visits == a[k].visits
    &&& b[k].utility == a[k].utility || (b[k].utility is Exact && !(a[k].utility is Exact))
}

/// Some walk of legal plays from `s` reaches a position with no legal
/// action, or comes back to the key of a position already on it.
pub open spec fn dead_end<G: Game>(s: G) -> bool {
    exists|path: Seq<G>| #[trigger] walk_from(path, s) && (path.last().legal().len() == 0
        || exists|i: int| 0 <= i < path.len() - 1 && (#[trigger] path[i]).key() == path.last().key())
}

/// A step from `s` that expanded nothing: no node added, no visit counted,
/// only proofs recorded; and the root is proven, or the walk met a dead end.
pub open spec fn ended<G: Game>(a: Map<u64, MonteCarloNode>, b: Map<u64, MonteCarloNode>, s: G) -> bool {
    &&& b.dom() == a.dom()
    &&& forall|k: u64| #[trigger] a.contains_key(k) ==> only_solved(a, b, k)
    &&& (b.contains_key(s.key()) && b[s.key()].utility is Exact) || dead_end(s)
}

/// The value stored for a newly expanded position `s`: the game's own
/// proven outcome, its estimate brought into range, or, when the game does
/// not know, the estimate of `n` playouts.
pub open spec fn leaf_value<G: Game>(s: G, n: u32, leaf: Utility) -> bool {
    match s.evaluation() {
        Utility::Unknown => simulated(s, n, leaf),
        Utility::Approximate(v) => leaf == Utility::Approximate(clamp_score(v) as i16),
        Utility::Exact(e) => leaf == Utility::Exact(e),
    }
}

/// A node on the walk after backpropagation of `leaf`, where `player` was
/// to move: one more visit, and an estimate blended with the observation.
pub open spec fn backed_up_node(n: MonteCarloNode, leaf: Utility, player: u32) -> MonteCarloNode {
    MonteCarloNode {
        utility: match n.utility {
            Utility::Approximate(x) => Utility::Approximate(mean_rounded(x as int, scalar_of(leaf, player)) as i16),
            u => u,
        },
        visits: bumped(n.visits),
    }
}

/// The node of position `t` on the walk went from `a` to `b` by
/// backpropagation of `leaf`.
pub open spec fn ancestor_updated<G: Game>(a: Map<u64, MonteCarloNode>, b: Map<u64, MonteCarloNode>, t: G, leaf: Utility) -> bool {
    &&& a.contains_key(t.key())
    &&& b.contains_key(t.key())
    &&& b[t.key()] == backed_up_node(a[t.key()], leaf, t.mover())
}

/// The keys of the positions of a walk before its last one.
pub open spec fn ancestor_keys<G: Game>(path: Seq<G>) -> Set<u64> {
    Set::new(|k: u64| exists|i: int| 0 <= i < path.len() - 1 && (#[trigger] path[i]).key() == k)
}

/// A step from `s` that walked `path` and expanded its last position with
/// `leaf`: that position is the one node added, with one visit; each
/// position before it was updated by backpropagation; every other node only
/// had proofs recorded.
pub open spec fn expanded<G: Game>(
    a: Map<u64, MonteCarloNode>,
    b: Map<u64, MonteCarloNode>,
    s: G,
    n: u32,
    path: Seq<G>,
    leaf: Utility,
) -> bool {
    let k = path.last().key();
    &&& walk_from(path, s)
    &&& !a.contains_key(k)
    &&& b.dom() == a.dom().insert(k)
    &&& b[k] == MonteCarloNode { utility: leaf, visits: 1 }
    &&& leaf_value(path.last(), n, leaf)
    &&& forall|i: int| 0 <= i < path.len() - 1 ==> #[trigger] ancestor_updated(a, b, path[i], leaf)
    &&& forall|x: u64| #[trigger] a.contains_key(x) && !ancestor_keys(path).contains(x) ==> only_solved(a, b, x)
}

/// What one step from `s` does to the tree `a`, with `n` playouts per
/// expansion.
pub open spec fn step_outcome<G: Game>(a: Map<u64, MonteCarloNode>, b: Map<u64, MonteCarloNode>, s: G, n: u32) -> bool {
    ||| exists|path: Seq<G>, leaf: Utility| #[trigger] expanded(a, b, s, n, path, leaf)
    ||| ended(a, b, s)
}

impl MonteCarloTree {
    /// One search iteration from `state`.
    ///
    /// Selection walks down from `state` through searched positions: at each
    /// one, an unexplored child is expanded at once; a child proven to win
    /// for the mover, or children that are all proven, solve the position,
    /// which gets that outcome and is left for its parent; otherwise the walk
    /// descends into the child of highest potential
    /// `sqrt(2) * ln(parent visits) / child visits - estimate / 32767`,
    /// evaluated in fixed point. The reached position is evaluated by the
    /// game, or by random playouts when the game does not know, and stored
    /// with one visit. Each position walked through then gets one more visit,
    /// and its estimate, if not proven, is blended with the new observation.
    ///
    /// The step ends without expanding when the root is proven, when a
    /// position has no legal action, or when the walk would come back to a
    /// position already on it. `state` is always handed back as it came.
    pub fn step<G: Game>(&mut self, state: &mut G)
        requires
            old(self).wf(),
        ensures
            final(self).wf(),
            *final(state) == *old(state),
            final(self).playouts() == old(self).playouts(),
            exact_kept(old(self)@, final(self)@),
            one_step_growth(old(self)@, final(self)@),
            step_outcome(old(self)@, final(self)@, *old(state), old(self).playouts()),
            !old(self)@.contains_key(old(state).key()) ==> {
                let k = old(state).key();
                &&& final(self)@ == old(self)@.insert(k, final(self)@[k])
                &&& final(self)@[k].visits == 1
                &&& leaf_value(*old(state), old(self).playouts(), final(self)@[k].utility)
            },
    {
        let ghost m0 = self.nodes@;
        let ghost s0 = *state;
        let mut visited: Vec<u64> = Vec::new();
        let ghost mut path: Seq<G> = seq![*state];
        let mut key = state.hash();
        let mut here = match self.nodes.get(&key) {
            Some(n) => Some(*n),
            None => None,
        };
        let ghost root_known = m0.contains_key(s0.key());
        while here.is_some()
            invariant
                root_known == m0.contains_key(s0.key()),
                !root_known ==> path.len() == 1 && self.nodes@ == m0,
                self.wf(),
                self.simulations_per_node == old(self).simulations_per_node,
                m0 == old(self)@,
                s0 == *old(state),
                path[0] == s0,
                is_line(path),
                walk_from(path, s0),
                *state == path.last(),
                keys_of(visited@, path),
                visited@.no_duplicates(),
                !visited@.contains(key),
                forall|i: int| 0 <= i < visited@.len() ==> self.nodes@.contains_key(#[trigger] visited@[i])
                    && self.nodes@[visited@[i]] == m0[visited@[i]] && !(m0[visited@[i]].utility is Exact),
                key == state.key(),
                here == (if self.nodes@.contains_key(key) { Some(self.nodes@[key]) } else { None::<MonteCarloNode> }),
                path.len() > 1 && here is Some ==> !(here.unwrap().utility is Exact),
                self.nodes@.dom() == m0.dom(),
                forall|k: u64| #[trigger] m0.contains_key(k) ==> only_solved(m0, self.nodes@, k),
                visits_bumped(m0, self.nodes@, Set::empty()),
                exact_kept(m0, self.nodes@),
            decreases open_keys(self.nodes@).len(), state.remaining(),
        {
            let node = here.unwrap();
            if let Utility::Exact(_) = node.utility {
                proof {
                    assert(path.len() == 1);
                    assert(ended(m0, self.nodes@, s0));
                }
                rewind(state, visited.len() as u64, Ghost(path));
                return;
            }
            let actions = state.actions();
            let n_actions: usize = actions.len();
            assert(state.legal().len() == n_actions);
            let choice = self.select(state, &actions, node.visits);
            match choice {
                Choice::Expand(j) | Choice::Descend(j) => {
                    let ghost prev = path;
                    state.play(&actions[j]);
                    let child = state.hash();
                    proof {
                        assert(plays_to(prev.last(), *state)) by {
                            assert(*state == prev.last().after(prev.last().legal()[j as int]));
                        }
                        let w = prev.push(*state);
                        assert forall|t: int| 0 <= t < w.len() - 1 implies plays_to(#[trigger] w[t], w[t + 1]) by {
                            if t < w.len() - 2 {
                                assert(w[t] == prev[t] && w[t + 1] == prev[t + 1]);
                            }
                        }
                        assert(walk_from(w, s0));
                    }
                    if child == key || vec_contains(&visited, child) {
                        proof {
                            let w = prev.push(*state);
                            if child == key {
                                assert(w[w.len() - 2].key() == w.last().key());
                            } else {
                                let t = choose|t: int| 0 <= t < visited@.len() && visited@[t] == child;
                                assert(w[t].key() == w.last().key());
                            }
                            assert(dead_end(s0));
                            assert(ended(m0, self.nodes@, s0));
                        }
                        state.undo();
                        rewind(state, visited.len() as u64, Ghost(path));
                        return;
                    }
                    let ghost prior = visited@;
                    visited.push(key);
                    proof {
                        assert(!visited@.contains(child)) by {
                            assert forall|t: int| 0 <= t < visited@.len() implies visited@[t] != child by {
                                if t < prior.len() {
                                    assert(visited@[t] == prior[t]);
                                }
                            }
                        }
                        assert(only_solved(m0, self.nodes@, key));
                        assert forall|i: int| 0 <= i < visited@.len() implies self.nodes@.contains_key(#[trigger] visited@[i])
                            && self.nodes@[visited@[i]] == m0[visited@[i]] && !(m0[visited@[i]].utility is Exact) by {
                            if i < prior.len() {
                                assert(visited@[i] == prior[i]);
                            }
                        }
                        path = path.push(*state);
                        assert(is_line(path)) by {
                            assert forall|t: int| 1 <= t < path.len() implies
                                (#[trigger] path[t]).has_history() && path[t].before() == path[t - 1] by {
                                if t < path.len() - 1 {
                                    assert(path[t] == path.drop_last()[t]);
                                }
                            }
                        }
                        lemma_descend_open(self@, prev.last(), node.visits as nat);
                    }
                },
                Choice::Solved(u) => {
                    let closed = MonteCarloNode { utility: Utility::Exact(u), visits: node.visits };
                    proof {
                        lemma_close_key(self.nodes@, key, closed);
                    }
                    self.nodes.insert(key, closed);
                    assert(self.nodes@.dom() =~= m0.dom());
                    if visited.len() == 0 {
                        proof {
                            assert(ended(m0, self.nodes@, s0));
                        }
                        return;
                    }
                    state.undo();
                    let ghost last = visited@.last();
                    let ghost full = visited@;
                    let ghost oldp = path;
                    visited.pop();
                    proof {
                        path = path.drop_last();
                        assert(!visited@.contains(last)) by {
                            assert forall|t: int| 0 <= t < visited@.len() implies visited@[t] != last by {
                                assert(visited@[t] == full[t]);
                            }
                        }
                        assert forall|t: int| 0 <= t < path.len() - 1 implies plays_to(#[trigger] path[t], path[t + 1]) by {
                            assert(path[t] == oldp[t] && path[t + 1] == oldp[t + 1]);
                        }
                        assert(self.nodes@[last] == m0[last]);
                    }
                },
                Choice::Stuck => {
                    proof {
                        lemma_descend_open(self@, *state, node.visits as nat);
                        assert(path.last().legal().len() == 0);
                        assert(dead_end(s0)) by {
                            assert(walk_from(path, s0));
                        }
                        assert(ended(m0, self.nodes@, s0));
                    }
                    rewind(state, visited.len() as u64, Ghost(path));
                    return;
                },
            }
            key = state.hash();
            here = match self.nodes.get(&key) {
                Some(n) => Some(*n),
                None => None,
            };
        }
        // Expansion
        let evaluated = state.utility();
        let utility = match evaluated {
            Utility::Unknown => self.simulate(state),
            Utility::Approximate(v) => if v < -32767 { Utility::Approximate(-32767) } else { evaluated },
            Utility::Exact(_) => evaluated,
        };
        let ghost m_end = self.nodes@;
        let ghost fresh = key;
        let ghost full = path;
        let ghost vfull = visited@;
        assert(leaf_value(full.last(), self.playouts(), utility));
        self.nodes.insert(key, MonteCarloNode { utility, visits: 1 });
        let ghost m1 = self.nodes@;
        let ghost anc = visited@.to_set();
        let ghost root_expansion = visited@.len() == 0;
        // Backpropagation
        while visited.len() > 0
            invariant
                root_expansion ==> visited@.len() == 0 && self.nodes@ == m1,
                self.wf(),
                self.simulations_per_node == old(self).simulations_per_node,
                m0 == old(self)@,
                s0 == *old(state),
                path[0] == s0,
                is_line(path),
                *state == path.last(),
                keys_of(visited@, path),
                keys_of(vfull, full),
                path.len() <= full.len(),
                forall|i: int| 0 <= i < path.len() ==> path[i] == full[i],
                visited@ == vfull.take(visited@.len() as int),
                vfull.no_duplicates(),
                visited@.no_duplicates(),
                forall|i: int| 0 <= i < visited@.len() ==> anc.contains(#[trigger] visited@[i]),
                anc == vfull.to_set(),
                anc.subset_of(m0.dom()),
                forall|i: int| 0 <= i < vfull.len() ==> m_end[#[trigger] vfull[i]] == m0[vfull[i]],
                m0.dom() == m_end.dom(),
                visits_bumped(m0, m_end, Set::empty()),
                exact_kept(m0, m_end),
                !m_end.contains_key(fresh),
                m1 == m_end.insert(fresh, MonteCarloNode { utility, visits: 1 }),
                utility_wf(utility),
                self.nodes@.dom() == m1.dom(),
                forall|k: u64| #[trigger] m1.contains_key(k) && !(anc.contains(k) && !visited@.contains(k))
                    ==> self.nodes@[k] == m1[k],
                forall|i: int| visited@.len() <= i < vfull.len() ==> self.nodes@[#[trigger] vfull[i]] == backed_up_node(
                    m1[vfull[i]], utility, full[i].mover()),
                exact_kept(m1, self.nodes@),
            decreases visited.len(),
        {
            let ghost before_pop = visited@;
            let k = match visited.pop() {
                Some(k) => k,
                None => 0,
            };
            state.undo();
            proof {
                path = path.drop_last();
                assert(visited@ =~= before_pop.drop_last());
                assert(k == before_pop.last());
                assert(k == vfull[visited@.len() as int]);
                assert(visited@ =~= vfull.take(visited@.len() as int));
                assert(!visited@.contains(k)) by {
                    assert forall|t: int| 0 <= t < visited@.len() implies visited@[t] != k by {
                        assert(visited@[t] == before_pop[t]);
                    }
                }
                assert(anc.contains(k));
                assert(*state == full[visited@.len() as int]);
            }
            let player = state.current_player();
            match self.nodes.get(&k) {
                Some(n) => {
                    let n = *n;
                    let visits = if n.visits < 0xffff_ffff { n.visits + 1 } else { n.visits };
                    let updated = match n.utility {
                        Utility::Approximate(a) => Utility::Approximate(blend(a, scalar(utility, player))),
                        other => other,
                    };
                    self.nodes.insert(k, MonteCarloNode { utility: updated, visits });
                },
                None => {},
            }
            proof {
                assert(m1.contains_key(k));
                assert forall|x: u64| #[trigger] m1.contains_key(x) && !(anc.contains(x) && !visited@.contains(x))
                    implies self.nodes@[x] == m1[x] by {
                    if x != k {
                        if before_pop.contains(x) {
                            let t = choose|t: int| 0 <= t < before_pop.len() && before_pop[t] == x;
                            assert(t < visited@.len());
                            assert(visited@[t] == x);
                        }
                    }
                }
                assert forall|i: int| visited@.len() <= i < vfull.len() implies self.nodes@[#[trigger] vfull[i]]
                    == backed_up_node(m1[vfull[i]], utility, full[i].mover()) by {
                    if i > visited@.len() {
                        assert(vfull[i] != k) by {
                            assert(vfull[visited@.len() as int] == k);
                        }
                    }
                }
            }
        }
        proof {
            assert forall|i: int| 0 <= i < vfull.len() implies m1[#[trigger] vfull[i]] == m0[vfull[i]] by {
                assert(anc.contains(vfull[i]));
                assert(vfull[i] != fresh);
            }
            assert forall|x: u64| #[trigger] m0.contains_key(x) implies self.nodes@.contains_key(x)
                && self.nodes@[x].visits == (if anc.contains(x) { bumped(m0[x].visits) } else { m0[x].visits }) by {
                assert(m1.contains_key(x));
                assert(m1[x] == m_end[x]);
                if anc.contains(x) {
                    let t = choose|t: int| 0 <= t < vfull.len() && vfull[t] == x;
                    assert(self.nodes@[vfull[t]] == backed_up_node(m1[vfull[t]], utility, full[t].mover()));
                }
            }
            assert(visits_bumped(m0, self.nodes@, anc));
            assert(exact_kept(m0, self.nodes@)) by {
                assert forall|x: u64| #[trigger] m0.contains_key(x) && m0[x].utility is Exact implies
                    self.nodes@.contains_key(x) && self.nodes@[x].utility == m0[x].utility by {
                    assert(m_end.contains_key(x) && m1[x] == m_end[x]);
                    if anc.contains(x) {
                        let t = choose|t: int| 0 <= t < vfull.len() && vfull[t] == x;
                        assert(self.nodes@[vfull[t]] == backed_up_node(m1[vfull[t]], utility, full[t].mover()));
                    }
                }
            }
            if !root_known {
                assert(fresh == s0.key());
                assert(root_expansion);
                assert(self.nodes@ == m0.insert(fresh, self.nodes@[fresh]));
            }
            assert(m1.contains_key(fresh));
            assert(!anc.contains(fresh));
            assert(m1[fresh].visits == 1);
            assert(self.nodes@[fresh].visits == 1);
            assert(self.nodes@.dom() =~= m0.dom().insert(fresh));
            assert(expanded(m0, self.nodes@, s0, old(self).playouts(), full, utility)) by {
                assert forall|i: int| 0 <= i < full.len() - 1 implies #[trigger] ancestor_updated(
                    m0, self.nodes@, full[i], utility) by {
                    assert(full[i].key() == vfull[i]);
                    assert(self.nodes@[vfull[i]] == backed_up_node(m1[vfull[i]], utility, full[i].mover()));
                }
                assert forall|x: u64| #[trigger] m0.contains_key(x) && !anc.contains(x) implies
                    only_solved(m0, self.nodes@, x) by {
                    assert(m1[x] == m_end[x]);
                }
                assert(anc =~= ancestor_keys(full));
            }
        }
    }

    /// One selection pass over the children of `state`, whose node has been
    /// visited `parent_visits` times.
    fn select<G: Game>(&self, state: &mut G, actions: &Vec<G::Action>, parent_visits: u32) -> (r: Choice)
        requires
            self.wf(),
            parent_visits >= 1,
            actions@ == old(state).legal(),
        ensures
            *final(state) == *old(state),
            r == selection(self@, *old(state), parent_visits as nat),
            r matches Choice::Expand(j) ==> j < actions@.len(),
            r matches Choice::Descend(j) ==> j < actions@.len(),
    {
        let ghost s = *state;
        let explore = exploration(parent_visits);
        let ghost ex = exploration_of(parent_visits as nat);
        let current_player = state.current_player();
        let n = actions.len();
        let mut stat: Option<(usize, i128, i128)> = None;
        let mut exact: Option<ExactUtility> = None;
        let mut j: usize = 0;
        while j < n
            invariant
                *state == s,
                s == *old(state),
                self.wf(),
                actions@ == s.legal(),
                n == actions@.len(),
                current_player == s.mover(),
                explore == ex,
                ex == exploration_of(parent_visits as nat),
                0 <= explore < 2097152,
                0 <= j <= n,
                scan(self@, s, ex, j as int).stop is None,
                scan(self@, s, ex, j as int).exact == exact,
                scan(self@, s, ex, j as int).stat == (match stat {
                    Some(t) => Some((t.0 as int, t.1 as int, t.2 as int)),
                    None => None,
                }),
                stat matches Some(t) ==> t.0 < j && 1 <= t.2 <= 0xffff_ffff
                    && -0x1_0000_0000_0000_0000 < t.1 < 0x1_0000_0000_0000_0000,
            decreases n - j,
        {
            state.play(&actions[j]);
            let key = state.hash();
            state.undo();
            let child = match self.nodes.get(&key) {
                Some(c) => Some(*c),
                None => None,
            };
            assert(child == child_node(self@, s, j as int));
            assert(scan(self@, s, ex, j as int + 1) == scan_step(
                scan(self@, s, ex, j as int), j as int, child, s.mover(), ex));
            match child {
                None => {
                    proof {
                        assert(scan(self@, s, ex, j as int + 1).stop == Some(Choice::Expand(j)));
                        lemma_scan_stop_kept(self@, s, ex, j as int + 1, n as int);
                    }
                    return Choice::Expand(j);
                },
                Some(c) => match c.utility {
                    Utility::Unknown => {
                        proof {
                            assert(scan(self@, s, ex, j as int + 1).stop == Some(Choice::Expand(j)));
                            lemma_scan_stop_kept(self@, s, ex, j as int + 1, n as int);
                        }
                        return Choice::Expand(j);
                    },
                    Utility::Approximate(e) => {
                        let cv = c.visits as i128;
                        proof {
                            assert(-32767 <= e <= 32767 && c.visits >= 1);
                            assert(-0x8000_0000_0000_0000 < 65536 * cv * (e as int) < 0x8000_0000_0000_0000)
                                by (nonlinear_arith)
                                requires 1 <= cv <= 0xffff_ffff, -32767 <= e <= 32767;
                        }
                        let pn: i128 = 32767 * explore - 65536 * cv * (e as i128);
                        let better = match stat {
                            None => true,
                            Some(t) => {
                                proof {
                                    assert(-0x1_0000_0000_0000_0000_0000_0000 < pn * t.2 < 0x1_0000_0000_0000_0000_0000_0000)
                                        by (nonlinear_arith)
                                        requires 1 <= t.2 <= 0xffff_ffff,
                                            -0x1_0000_0000_0000_0000 < pn < 0x1_0000_0000_0000_0000;
                                    assert(-0x1_0000_0000_0000_0000_0000_0000 < t.1 * cv < 0x1_0000_0000_0000_0000_0000_0000)
                                        by (nonlinear_arith)
                                        requires 1 <= cv <= 0xffff_ffff,
                                            -0x1_0000_0000_0000_0000 < t.1 < 0x1_0000_0000_0000_0000;
                                }
                                pn * t.2 > t.1 * cv
                            },
                        };
                        if better {
                            stat = Some((j, pn, cv));
                        }
                    },
                    Utility::Exact(ExactUtility::Win(q)) => {
                        if q == current_player {
                            proof {
                                assert(scan(self@, s, ex, j as int + 1).stop
                                    == Some(Choice::Solved(ExactUtility::Win(current_player))));
                                lemma_scan_stop_kept(self@, s, ex, j as int + 1, n as int);
                            }
                            return Choice::Solved(ExactUtility::Win(current_player));
                        }
                        if exact.is_none() {
                            exact = Some(ExactUtility::Win(q));
                        }
                    },
                    Utility::Exact(ExactUtility::Draw) => {
                        let take = match exact {
                            None => true,
                            Some(ExactUtility::Win(_)) => true,
                            Some(ExactUtility::Draw) => false,
                        };
                        if take {
                            exact = Some(ExactUtility::Draw);
                        }
                    },
                },
            }
            j = j + 1;
        }
        match stat {
            Some(t) => Choice::Descend(t.0),
            None => match exact {
                Some(u) => Choice::Solved(u),
                None => Choice::Stuck,
            },
        }
    }

    /// Estimates `state` by the configured number of random playouts: the
    /// quantized mean of their scores (0 when there are none).
    fn simulate<G: Game>(&self, state: &mut G) -> (r: Utility)
        requires
            old(state).evaluation() is Unknown,
        ensures
            *final(state) == *old(state),
            r is Approximate,
            utility_wf(r),
            simulated(*old(state), self.playouts(), r),
    {
        let n = self.simulations_per_node;
        let mut total: i64 = 0;
        let mut k: u32 = 0;
        let ghost mut vals: Seq<int> = Seq::empty();
        while k < n
            invariant
                *state == *old(state),
                old(state).evaluation() is Unknown,
                k <= n,
                -32767 * (k as int) <= total <= 32767 * (k as int),
                vals.len() == k,
                total == sum_of(vals),
                forall|i: int| 0 <= i < k ==> playout_score(*old(state), #[trigger] vals[i]),
            decreases n - k,
        {
            let v = playout(state);
            total = total + v as i64;
            k = k + 1;
            proof {
                let prev = vals;
                vals = vals.push(v as int);
                assert(vals.drop_last() == prev);
                assert forall|i: int| 0 <= i < k implies playout_score(*old(state), #[trigger] vals[i]) by {
                    if i < k - 1 {
                        assert(vals[i] == prev[i]);
                    }
                }
            }
        }
        if n == 0 {
            Utility::Approximate(0)
        } else {
            let r = Utility::Approximate(mean_score(total, n));
            assert(sum_of(vals) == total);
            r
        }
    }
}

/// The integer part of the base-2 logarithm of `x`.
pub open spec fn floor_log2(x: nat) -> nat
    decreases x,
{
    if x < 2 { 0 } else { 1 + floor_log2(x / 2) }
}

/// The base-2 logarithm of `x >= 1` in units of 2^-16: exact at powers of
/// two, interpolated linearly between them.
pub open spec fn log2_fixed_of(x: nat) -> nat {
    let n = floor_log2(x);
    let p = pow2(n);
    n * 65536 + ((x - p) as nat * 65536) / p
}

/// The exploration term `sqrt(2) * ln(parent_visits)` in units of 2^-16,
/// through `sqrt(2) * ln(2)`, which is 64242 in those units.
pub open spec fn exploration_of(parent_visits: nat) -> int {
    (log2_fixed_of(parent_visits) * 64242 / 65536) as int
}

fn log2_fixed(x: u32) -> (r: u64)
    requires
        x >= 1,
    ensures
        r == log2_fixed_of(x as nat),
        r < 32 * 65536,
{
    let mut y: u32 = x;
    let mut n: u64 = 0;
    let mut p: u64 = 1;
    proof {
        vstd::arithmetic::power2::lemma2_to64();
    }
    while y >= 2
        invariant
            1 <= y,
            p == pow2(n as nat),
            1 <= p <= x,
            n < 32,
            y == x as nat / p as nat,
            floor_log2(x as nat) == n + floor_log2(y as nat),
        decreases y,
    {
        proof {
            vstd::arithmetic::div_mod::lemma_div_denominator(x as int, p as int, 2);
            vstd::arithmetic::power2::lemma_pow2_unfold((n + 1) as nat);
            vstd::arithmetic::div_mod::lemma_fundamental_div_mod(x as int, (p * 2) as int);
            vstd::arithmetic::div_mod::lemma_mod_pos_bound(x as int, (p * 2) as int);
            assert(p * 2 <= x) by (nonlinear_arith)
                requires
                    x == (p * 2) * (x as int / (p * 2) as int) + x as int % (p * 2) as int,
                    x as int / (p * 2) as int == (y / 2) as int,
                    y >= 2,
                    x as int % (p * 2) as int >= 0;
            vstd::arithmetic::power2::lemma2_to64();
            if n + 1 > 32 {
                vstd::arithmetic::power2::lemma_pow2_strictly_increases(32, (n + 1) as nat);
            }
        }
        y = y / 2;
        n = n + 1;
        p = p * 2;
    }
    proof {
        vstd::arithmetic::div_mod::lemma_fundamental_div_mod(x as int, p as int);
        vstd::arithmetic::div_mod::lemma_mod_pos_bound(x as int, p as int);
        if n > 32 {
            vstd::arithmetic::power2::lemma_pow2_strictly_increases(32, n as nat);
        }
        assert((x - p) * 65536 < 65536 * p) by (nonlinear_arith)
            requires x == p * 1 + (x as int % p as int), (x as int % p as int) < p;
        vstd::arithmetic::div_mod::lemma_multiply_divide_lt(((x - p) * 65536) as int, p as int, 65536);
    }
    n * 65536 + ((x as u64 - p) * 65536) / p
}

fn exploration(parent_visits: u32) -> (r: i128)
    requires
        parent_visits >= 1,
    ensures
        r == exploration_of(parent_visits as nat),
        0 <= r < 2097152,
{
    let l = log2_fixed(parent_visits);
    proof {
        vstd::arithmetic::div_mod::lemma_multiply_divide_lt((l * 64242) as int, 65536, 2097152);
    }
    ((l * 64242) / 65536) as i128
}

/// The numerator of a child's selection potential
/// `exploration / (65536 * visits) - estimate / 32767`
/// over the common denominator `65536 * 32767 * visits`.
pub open spec fn potential_num(explore: int, visits: int, estimate: int) -> int {
    32767 * explore - 65536 * visits * estimate
}

/// What one selection pass over a position decides.
#[derive(Clone, Copy, Debug, PartialEq, Eq, Structural)]
pub enum Choice {
    /// The child through this action is unexplored: expand it.
    Expand(usize),
    /// Descend through this action, the best by selection potential.
    Descend(usize),
    /// Every child is proven, or one is a proven win: the position is solved.
    Solved(ExactUtility),
    /// The position has no legal action.
    Stuck,
}

/// The state of a selection pass: a decision taken early, the best estimated
/// child so far (index, potential numerator, visits), and the best proven
/// outcome so far.
pub struct Scan {
    pub stop: Option<Choice>,
    pub stat: Option<(int, int, int)>,
    pub exact: Option<ExactUtility>,
}

/// The node stored for the `j`-th child of `s`.
pub open spec fn child_node<G: Game>(m: Map<u64, MonteCarloNode>, s: G, j: int) -> Option<MonteCarloNode> {
    let k = s.after(s.legal()[j]).key();
    if m.contains_key(k) { Some(m[k]) } else { None }
}

/// One step of selection: an unexplored child is expanded at once, a proven
/// win for `player` solves the position at once; an estimated child is kept
/// when its potential is strictly the highest so far; among proven outcomes
/// a draw beats a loss, and the first found wins ties.
pub open spec fn scan_step(acc: Scan, j: int, child: Option<MonteCarloNode>, player: u32, explore: int) -> Scan {
    if acc.stop is Some {
        acc
    } else {
        match child {
            None => Scan { stop: Some(Choice::Expand(j as usize)), stat: acc.stat, exact: acc.exact },
            Some(c) => match c.utility {
                Utility::Unknown => Scan { stop: Some(Choice::Expand(j as usize)), stat: acc.stat, exact: acc.exact },
                Utility::Approximate(e) => {
                    let pn = potential_num(explore, c.visits as int, e as int);
                    if acc.stat is None || pn * acc.stat.unwrap().2 > acc.stat.unwrap().1 * c.visits {
                        Scan { stop: None, stat: Some((j, pn, c.visits as int)), exact: acc.exact }
                    } else {
                        acc
                    }
                },
                Utility::Exact(ExactUtility::Win(q)) => if q == player {
                    Scan { stop: Some(Choice::Solved(ExactUtility::Win(player))), stat: acc.stat, exact: acc.exact }
                } else if acc.exact is None {
                    Scan { stop: None, stat: acc.stat, exact: Some(ExactUtility::Win(q)) }
                } else {
                    acc
                },
                Utility::Exact(ExactUtility::Draw) => if acc.exact is None || acc.exact.unwrap() is Win {
                    Scan { stop: None, stat: acc.stat, exact: Some(ExactUtility::Draw) }
                } else {
                    acc
                },
            },
        }
    }
}

/// The selection pass over the first `n` children of `s`.
pub open spec fn scan<G: Game>(m: Map<u64, MonteCarloNode>, s: G, explore: int, n: int) -> Scan
    decreases n,
{
    if n <= 0 {
        Scan { stop: None, stat: None, exact: None }
    } else {
        scan_step(scan(m, s, explore, n - 1), n - 1, child_node(m, s, n - 1), s.mover(), explore)
    }
}

/// The decision of a finished selection pass.
pub open spec fn scan_choice(acc: Scan) -> Choice {
    match acc.stop {
        Some(c) => c,
        None => match acc.stat {
            Some(t) => Choice::Descend(t.0 as usize),
            None => match acc.exact {
                Some(u) => Choice::Solved(u),
                None => Choice::Stuck,
            },
        },
    }
}

/// The decision of selection at `s`, whose node has been visited
/// `parent_visits` times.
pub open spec fn selection<G: Game>(m: Map<u64, MonteCarloNode>, s: G, parent_visits: nat) -> Choice {
    scan_choice(scan(m, s, exploration_of(parent_visits), s.legal().len() as int))
}

/// Once a selection pass has decided early, later children change nothing.
proof fn lemma_scan_stop_kept<G: Game>(m: Map<u64, MonteCarloNode>, s: G, explore: int, i: int, n: int)
    requires
        0 <= i <= n,
        scan(m, s, explore, i).stop is Some,
    ensures
        scan(m, s, explore, n) == scan(m, s, explore, i),
    decreases n - i,
{
    if i < n {
        lemma_scan_stop_kept(m, s, explore, i, n - 1);
    }
}

/// What a selection pass can decide: a child it expands is unexplored, a
/// child it descends into holds an estimate, and it is stuck only where
/// there is no action.
proof fn lemma_scan_facts<G: Game>(m: Map<u64, MonteCarloNode>, s: G, explore: int, n: int)
    requires
        0 <= n <= s.legal().len(),
        s.legal().len() <= usize::MAX,
    ensures
        scan(m, s, explore, n).stat matches Some(t) ==> (0 <= t.0 < n
            && (child_node(m, s, t.0) matches Some(c) && c.utility is Approximate)),
        scan(m, s, explore, n).stop matches Some(Choice::Expand(j)) ==> (j < n
            && (child_node(m, s, j as int) matches Some(c) ==> c.utility is Unknown)),
        !(scan(m, s, explore, n).stop matches Some(Choice::Descend(_))),
        !(scan(m, s, explore, n).stop matches Some(Choice::Stuck)),
        n >= 1 ==> scan(m, s, explore, n).stop is Some || scan(m, s, explore, n).stat is Some
            || scan(m, s, explore, n).exact is Some,
    decreases n,
{
    if n > 0 {
        lemma_scan_facts(m, s, explore, n - 1);
    }
}

/// Selection descends only into estimated children and expands only
/// unexplored ones.
proof fn lemma_descend_open<G: Game>(m: Map<u64, MonteCarloNode>, s: G, parent_visits: nat)
    requires
        s.legal().len() <= usize::MAX,
    ensures
        selection(m, s, parent_visits) matches Choice::Descend(j) ==> (j < s.legal().len()
            && (child_node(m, s, j as int) matches Some(c) && c.utility is Approximate)),
        selection(m, s, parent_visits) matches Choice::Expand(j) ==> (j < s.legal().len()
            && (child_node(m, s, j as int) matches Some(c) ==> c.utility is Unknown)),
        selection(m, s, parent_visits) is Stuck ==> s.legal().len() == 0,
{
    lemma_scan_facts(m, s, exploration_of(parent_visits), s.legal().len() as int);
}

/// Proving an open node shrinks the set of open nodes.
proof fn lemma_close_key(m: Map<u64, MonteCarloNode>, k: u64, v: MonteCarloNode)
    requires
        m.dom().finite(),
        m.contains_key(k),
        !(m[k].utility is Exact),
        v.utility is Exact,
    ensures
        open_keys(m.insert(k, v)).len() < open_keys(m).len(),
{
    assert(open_keys(m.insert(k, v)) =~= open_keys(m).remove(k));
    m.dom().lemma_len_filter(|j: u64| !(m[j].utility is Exact));
    vstd::set::axiom_set_remove_len(open_keys(m), k);
}

fn vec_contains(v: &Vec<u64>, x: u64) -> (r: bool)
    ensures
        r == v@.contains(x),
{
    let mut i: usize = 0;
    while i < v.len()
        invariant
            i <= v@.len(),
            forall|t: int| 0 <= t < i ==> v@[t] != x,
        decreases v@.len() - i,
    {
        if v[i] == x {
            return true;
        }
        i = i + 1;
    }
    false
}

/// The first winning action is the one found by a scan that met no earlier
/// win.
proof fn lemma_first_win_is<G: Game>(m: Map<u64, MonteCarloNode>, s: G, j: int)
    requires
        0 <= j < s.legal().len(),
        is_win_for(child_utility(m, s, j), s.mover()),
        forall|i: int| 0 <= i < j ==> !#[trigger] is_win_for(child_utility(m, s, i), s.mover()),
    ensures
        first_winning_child(m, s) == j,
{
    let w = first_winning_child(m, s);
    assert(0 <= w < s.legal().len() && is_win_for(child_utility(m, s, w), s.mover())
        && forall|i: int| 0 <= i < w ==> !#[trigger] is_win_for(child_utility(m, s, i), s.mover()));
    if w < j {
    } else if w > j {
        assert(!is_win_for(child_utility(m, s, j), s.mover()));
    }
}

/// Move selection is greedy on proofs: when the `j`-th action of `s` is
/// the first one whose position is proven won for the mover, that action
/// is picked, whatever the other children hold.
pub proof fn lemma_greedy_win<G: Game>(m: Map<u64, MonteCarloNode>, s: G, j: int)
    requires
        0 <= j < s.legal().len(),
        is_win_for(child_utility(m, s, j), s.mover()),
        forall|i: int| 0 <= i < j ==> !#[trigger] is_win_for(child_utility(m, s, i), s.mover()),
    ensures
        best_index(m, s) == Some(j),
{
    lemma_first_win_is(m, s, j);
}

/// Ranking picks nothing only before any action has been looked at.
proof fn lemma_ranked_some<G: Game>(m: Map<u64, MonteCarloNode>, s: G, n: int)
    requires
        1 <= n <= s.legal().len(),
        forall|i: int| 0 <= i < n ==> !#[trigger] is_win_for(child_utility(m, s, i), s.mover()),
    ensures
        ranked(m, s, n).index is Some,
        ranked(m, s, n).rank >= 1,
    decreases n,
{
    if n > 1 {
        lemma_ranked_some(m, s, n - 1);
    } else {
        assert(ranked(m, s, 0).rank == 0);
    }
    assert(!is_win_for(child_utility(m, s, n - 1), s.mover()));
}

/// Move selection gives no action exactly when the position has no legal
/// action, whatever the tree holds.
pub proof fn lemma_no_action_iff_terminal<G: Game>(m: Map<u64, MonteCarloNode>, s: G)
    ensures
        best_index(m, s) is None <==> s.legal().len() == 0,
{
    if s.legal().len() > 0 && !has_winning_child(m, s) {
        assert forall|i: int| 0 <= i < s.legal().len() implies
            !#[trigger] is_win_for(child_utility(m, s, i), s.mover()) by {}
        lemma_ranked_some(m, s, s.legal().len() as int);
    }
}

/// Proven outcomes are never revised: when each of two successive
/// changes of the tree keeps every proven node, so does the two together,
/// and so by induction does any run of search steps.
pub proof fn lemma_exact_kept_across_steps(
    a: Map<u64, MonteCarloNode>,
    b: Map<u64, MonteCarloNode>,
    c: Map<u64, MonteCarloNode>,
)
    requires
        exact_kept(a, b),
        exact_kept(b, c),
    ensures
        exact_kept(a, c),
{
    assert forall|k: u64| #[trigger] a.contains_key(k) && a[k].utility is Exact implies
        c.contains_key(k) && c[k].utility == a[k].utility by {
        assert(b.contains_key(k) && b[k].utility is Exact);
    }
}

} // verus!
