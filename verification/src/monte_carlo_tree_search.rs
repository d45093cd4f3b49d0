//! The PUCT-guided Monte-Carlo tree search.
//!
//! The tree is an arena of nodes addressed by indices; a node's children
//! are indices larger than its own, so the structure is acyclic and every
//! index has at most one parent. Re-rooting moves the root index to the
//! chosen child and leaves the unreachable nodes to be reclaimed with the
//! whole tree (memory grows by at most one game's worth of nodes).
//!
//! All values are fixed-point integers in units of `1 / SCALE`. A backup
//! value in `[-1, 1]` is stored shifted by `+1`, so one visit contributes
//! a number in `[0, 2 * SCALE]`; the shift is uniform over the children
//! of a node and therefore never changes which child maximises the PUCT
//! score.
use vstd::arithmetic::power::pow;
use vstd::prelude::*;

use crate::arith::{
    isqrt, isqrt_spec, lemma_sum_u128_nonneg, lemma_sum_u128_push, lemma_sum_u128_update,
    lemma_sum_u128_zero, pow_u128, sum_u128,
};
use crate::constants::{
    C_PUCT_FP, EXPLORE_EXP, GREEDY_EXP, MOVE_WIDTH, NUM_CELLS, NUM_SEARCH, SCALE, SIM_CAP,
    STATE_LEN,
};
use crate::rules::types::{
    board_full, board_of, cell_occupied, evaluate_spec, in_grid, legal_moves_spec,
    lemma_legal_moves_elems, lemma_legal_moves_membership, side_of, state_move_spec, GameResult,
    GameState, Move, Side,
};

verus! {

/// What the predictor returns for one state: a value estimate for the
/// side to move, in fixed point and nominally within `[-SCALE, SCALE]`,
/// and a dense nonnegative weight per move-space position.
pub struct PredictorOutput {
    pub value: i64,
    pub policy: Vec<u64>,
}

/// A failed inference call; fatal to the game being generated.
#[derive(Clone, Copy, Debug, PartialEq, Eq, Structural)]
pub struct PredictorError;

/// The external policy/value predictor. The search promises nothing
/// about the numbers an implementation returns and is verified for every
/// possible answer; implementations must only be safe to call repeatedly.
pub trait Predictor {
    fn infer(&self, state: &GameState) -> Result<PredictorOutput, PredictorError>;
}

/// A deterministic stub predictor: value 0 and a uniform policy. Any
/// backend satisfying the `Predictor` contract is substitutable for it;
/// tests use it to pin down the search's accounting.
pub struct UniformPredictor;

impl Predictor for UniformPredictor {
    fn infer(&self, _state: &GameState) -> (r: Result<PredictorOutput, PredictorError>)
        ensures
            r matches Ok(out) && out.value == 0 && out.policy@ == Seq::new(
                NUM_CELLS as nat,
                |j: int| 1u64,
            ),
    {
        let mut policy: Vec<u64> = Vec::new();
        let mut i: usize = 0;
        while i < NUM_CELLS
            invariant
                i <= NUM_CELLS,
                policy@.len() == i,
                forall|j: int| 0 <= j < i ==> policy@[j] == 1u64,
            decreases NUM_CELLS - i,
        {
            policy.push(1);
            i = i + 1;
        }
        proof {
            assert(policy@ =~= Seq::new(NUM_CELLS as nat, |j: int| 1u64));
        }
        Ok(PredictorOutput { value: 0, policy })
    }
}

/// One node of the search tree.
struct Node {
    game_state: GameState,
    /// Number of times a simulation visited this node.
    n: u64,
    /// Cumulative backed-up value, shifted: each visit adds a number in
    /// `[0, 2 * SCALE]`.
    w: u64,
    /// Prior probability of the move that produced this node, in
    /// `[0, SCALE]`.
    p: u64,
    /// The move that produced this node; `None` only for a search root
    /// that no expansion created.
    m: Option<Move>,
    /// Arena indices of the children, each larger than this node's own.
    children: Vec<usize>,
}

/// The move of a node, for nodes known to have one.
spec fn opt_move(m: Option<Move>) -> Move {
    match m {
        Some(mv) => mv,
        None => Move { x: 0, y: 0, p: 0 },
    }
}

/// Sum of the visit counts of the nodes listed in `ks`.
spec fn kids_sum(nodes: Seq<Node>, ks: Seq<usize>) -> int
    decreases ks.len(),
{
    if ks.len() == 0 {
        0
    } else {
        nodes[ks[0] as int].n + kids_sum(nodes, ks.drop_first())
    }
}

/// Sum of `visits^tau` of the nodes listed in `ks`.
spec fn kids_pow_sum(nodes: Seq<Node>, ks: Seq<usize>, tau: nat) -> int
    decreases ks.len(),
{
    if ks.len() == 0 {
        0
    } else {
        pow(nodes[ks[0] as int].n as int, tau) + kids_pow_sum(nodes, ks.drop_first(), tau)
    }
}

proof fn lemma_kids_sum_nonneg(nodes: Seq<Node>, ks: Seq<usize>)
    ensures
        0 <= kids_sum(nodes, ks),
    decreases ks.len(),
{
    if ks.len() > 0 {
        lemma_kids_sum_nonneg(nodes, ks.drop_first());
    }
}

/// `kids_sum` reads only the visit counts of the listed nodes.
proof fn lemma_kids_sum_congruent(nodes1: Seq<Node>, nodes2: Seq<Node>, ks: Seq<usize>)
    requires
        forall|t: int|
            0 <= t < ks.len() ==> nodes1[#[trigger] ks[t] as int].n == nodes2[ks[t] as int].n,
    ensures
        kids_sum(nodes1, ks) == kids_sum(nodes2, ks),
    decreases ks.len(),
{
    if ks.len() > 0 {
        assert forall|t: int| 0 <= t < ks.drop_first().len() implies nodes1[#[trigger] ks.drop_first()[t] as int].n
            == nodes2[ks.drop_first()[t] as int].n by {
            assert(ks.drop_first()[t] == ks[t + 1]);
        }
        lemma_kids_sum_congruent(nodes1, nodes2, ks.drop_first());
    }
}

/// Structural soundness of the child list of node `i`: children are
/// fresh indices after `i`, each carries the legal move that produced it
/// and the state that move leads to from `i`'s state.
spec fn kids_ok(nodes: Seq<Node>, i: int) -> bool {
    forall|k: int|
        0 <= k < nodes[i].children@.len() ==> {
            let c = #[trigger] nodes[i].children@[k] as int;
            &&& i < c < nodes.len()
            &&& nodes[c].m is Some
            &&& legal_moves_spec(board_of(nodes[i].game_state@)).contains(opt_move(nodes[c].m))
            &&& nodes[c].game_state@ == state_move_spec(
                nodes[i].game_state@,
                opt_move(nodes[c].m),
                None,
            )
        }
}

/// The children of one node all play pairwise distinct moves.
spec fn kid_moves_distinct(nodes: Seq<Node>, i: int) -> bool {
    forall|k1: int, k2: int|
        0 <= k1 < k2 < nodes[i].children@.len() ==> opt_move(
            nodes[#[trigger] nodes[i].children@[k1] as int].m,
        ) != opt_move(nodes[#[trigger] nodes[i].children@[k2] as int].m)
}

/// Every arena index has at most one parent, and appears at most once in
/// its parent's list.
spec fn unique_parent(nodes: Seq<Node>) -> bool {
    forall|i1: int, k1: int, i2: int, k2: int|
        0 <= i1 < nodes.len() && 0 <= k1 < nodes[i1].children@.len() && 0 <= i2 < nodes.len() && 0
            <= k2 < nodes[i2].children@.len() && #[trigger] nodes[i1].children@[k1]
            == #[trigger] nodes[i2].children@[k2] ==> i1 == i2 && k1 == k2
}

/// Numeric and structural soundness of node `i` of a tree that has run
/// `sims` simulations.
spec fn node_ok(nodes: Seq<Node>, i: int, sims: int) -> bool {
    let nd = nodes[i];
    &&& nd.game_state@.len() == STATE_LEN
    &&& nd.n <= sims
    &&& nd.w <= nd.n * (2 * SCALE)
    &&& nd.p <= SCALE
    &&& kids_sum(nodes, nd.children@) <= sims
    &&& kids_ok(nodes, i)
    &&& kid_moves_distinct(nodes, i)
}

/// The PUCT selection score of a node, in units of `1 / SCALE^2`:
/// `Q + C_PUCT * P * sqrt(total sibling visits) / (1 + visits)`, with
/// every factor in fixed point and the square root taken as the integer
/// square root of the scaled total. `Q` is the visit-weighted mean of
/// the shifted backed-up values; an unvisited node counts as the
/// shifted zero.
#[verifier::opaque]
pub open spec fn puct_score_fp(visits: int, value_sum: int, prior: int, sibling_visits: int) -> int {
    (if visits == 0 {
        SCALE as int
    } else {
        value_sum / visits
    }) * SCALE + (C_PUCT_FP * prior * isqrt_spec(sibling_visits * SCALE * SCALE)) / ((1 + visits)
        * SCALE)
}

/// The fixed-point encoding of an outcome label as a backed-up value:
/// `[-1, 1]` shifted into `[0, 2 * SCALE]`.
pub open spec fn shifted_outcome(result: GameResult, side: Side) -> int {
    (result.outcome_spec(side) + 1) * SCALE
}

/// `puct_score_fp` of the node's own numbers.
spec fn puct_score(nd: Node, total: int) -> int {
    puct_score_fp(nd.n as int, nd.w as int, nd.p as int, total)
}

/// `k` is the earliest index among `ks` whose node maximises the PUCT
/// score (the stable argmax).
spec fn is_stable_argmax(nodes: Seq<Node>, ks: Seq<usize>, total: int, k: int) -> bool {
    &&& 0 <= k < ks.len()
    &&& forall|a: int|
        0 <= a < ks.len() ==> puct_score(nodes[#[trigger] ks[a] as int], total) <= puct_score(
            nodes[ks[k] as int],
            total,
        )
    &&& forall|a: int|
        0 <= a < k ==> puct_score(nodes[#[trigger] ks[a] as int], total) < puct_score(
            nodes[ks[k] as int],
            total,
        )
}

/// `c` is a child of `i`.
spec fn is_kid_of(nodes: Seq<Node>, i: int, c: int) -> bool {
    exists|k: int| 0 <= k < nodes[i].children@.len() && nodes[i].children@[k] == c
}

/// `p` is a root-to-leaf chain: it starts at `root` and each element is
/// a child of its predecessor.
spec fn is_chain(nodes: Seq<Node>, root: int, p: Seq<usize>) -> bool {
    &&& p.len() >= 1
    &&& p[0] == root
    &&& forall|j: int| 1 <= j < p.len() ==> is_kid_of(nodes, p[j - 1] as int, #[trigger] p[j] as int)
}

/// A chain visits each node's child list at most once: two child-list
/// positions of one node whose entries both lie on the chain coincide.
proof fn lemma_chain_hits_kids_once(nodes: Seq<Node>, root: int, path: Seq<usize>, i: int)
    requires
        is_chain(nodes, root, path),
        forall|j1: int, j2: int| 0 <= j1 < j2 < path.len() ==> path[j1] < path[j2],
        forall|j: int| 0 <= j < path.len() ==> #[trigger] path[j] < nodes.len(),
        unique_parent(nodes),
        forall|ii: int| 0 <= ii < nodes.len() ==> kids_ok(nodes, ii),
        0 <= i < nodes.len(),
    ensures
        forall|a: int, b: int|
            0 <= a < nodes[i].children@.len() && 0 <= b < nodes[i].children@.len()
                && path.contains(#[trigger] nodes[i].children@[a]) && path.contains(
                #[trigger] nodes[i].children@[b],
            ) ==> a == b,
{
    assert forall|a: int, b: int|
        0 <= a < nodes[i].children@.len() && 0 <= b < nodes[i].children@.len() && path.contains(
            #[trigger] nodes[i].children@[a],
        ) && path.contains(#[trigger] nodes[i].children@[b]) implies a == b by {
        let ca = nodes[i].children@[a];
        let cb = nodes[i].children@[b];
        let ma = choose|m: int| 0 <= m < path.len() && path[m] == ca;
        let mb = choose|m: int| 0 <= m < path.len() && path[m] == cb;
        assert(kids_ok(nodes, i));
        if ma >= 1 {
            assert(is_kid_of(nodes, path[ma - 1] as int, path[ma] as int));
            let ka = choose|k: int|
                0 <= k < nodes[path[ma - 1] as int].children@.len() && #[trigger] nodes[path[ma
                    - 1] as int].children@[k] == path[ma];
            assert(path[ma - 1] == i && ka == a);
        } else {
            // the entry is the chain's start: its parent i lies before
            // every chain element, so no later chain element can also
            // sit in i's child list
            assert(path[0] == ca);
            assert(i < ca);
        }
        if mb >= 1 {
            assert(is_kid_of(nodes, path[mb - 1] as int, path[mb] as int));
            let kb = choose|k: int|
                0 <= k < nodes[path[mb - 1] as int].children@.len() && #[trigger] nodes[path[mb
                    - 1] as int].children@[k] == path[mb];
            assert(path[mb - 1] == i && kb == b);
        } else {
            assert(path[0] == cb);
            assert(i < cb);
        }
        if ma >= 1 && mb >= 1 {
            assert(path[ma - 1] == path[mb - 1]);
            if ma != mb {
                assert(path[ma - 1] != path[mb - 1]);
            }
            assert(ma == mb);
        } else if ma == 0 && mb >= 1 {
            // i is on the chain at mb - 1, yet i < path[0] <= path[mb - 1] == i
            assert(path[mb - 1] == i);
            if mb - 1 == 0 {
                assert(i == ca);
            } else {
                assert(path[0] < path[mb - 1]);
            }
            assert(false);
        } else if mb == 0 && ma >= 1 {
            assert(path[ma - 1] == i);
            if ma - 1 == 0 {
                assert(i == cb);
            } else {
                assert(path[0] < path[ma - 1]);
            }
            assert(false);
        }
    }
}

/// After one backup along a chain, the visit sum of any child list grew
/// by at most one.
proof fn lemma_kids_sum_backup(nodes1: Seq<Node>, nodes2: Seq<Node>, ks: Seq<usize>, path: Seq<
    usize,
>)
    requires
        forall|t: int|
            0 <= t < ks.len() ==> nodes2[#[trigger] ks[t] as int].n == nodes1[ks[t] as int].n + (
            if path.contains(ks[t]) {
                1int
            } else {
                0int
            }),
        forall|a: int, b: int|
            0 <= a < ks.len() && 0 <= b < ks.len() && path.contains(#[trigger] ks[a])
                && path.contains(#[trigger] ks[b]) ==> a == b,
    ensures
        kids_sum(nodes2, ks) <= kids_sum(nodes1, ks) + 1,
    decreases ks.len(),
{
    if ks.len() > 0 {
        let rest = ks.drop_first();
        assert forall|t: int| 0 <= t < rest.len() implies nodes2[#[trigger] rest[t] as int].n
            == nodes1[rest[t] as int].n + (
        if path.contains(rest[t]) {
            1int
        } else {
            0int
        }) by {
            assert(rest[t] == ks[t + 1]);
        }
        if path.contains(ks[0]) {
            // nothing further on the chain sits in this list
            assert forall|t: int| 0 <= t < rest.len() implies !path.contains(rest[t]) by {
                assert(rest[t] == ks[t + 1]);
                if path.contains(ks[t + 1]) {
                    assert(0 == t + 1);
                }
            }
            assert forall|t: int| 0 <= t < rest.len() implies nodes2[#[trigger] rest[t] as int].n
                == nodes1[rest[t] as int].n by {
                assert(!path.contains(rest[t]));
            }
            lemma_kids_sum_congruent(nodes1, nodes2, rest);
        } else {
            assert forall|a: int, b: int|
                0 <= a < rest.len() && 0 <= b < rest.len() && path.contains(#[trigger] rest[a])
                    && path.contains(#[trigger] rest[b]) implies a == b by {
                assert(rest[a] == ks[a + 1] && rest[b] == ks[b + 1]);
            }
            lemma_kids_sum_backup(nodes1, nodes2, rest, path);
        }
    }
}

/// Sum of the policy weights at the cells of the listed moves.
pub open spec fn policy_total(policy: Seq<u64>, legal: Seq<Move>) -> int
    decreases legal.len(),
{
    if legal.len() == 0 {
        0
    } else {
        policy[legal[0].x + legal[0].y * MOVE_WIDTH] + policy_total(policy, legal.drop_first())
    }
}

/// The prior probability of the `k`-th legal move, in `[0, SCALE]`: its
/// policy weight renormalized over the legal moves only (the masking of
/// the illegal positions), or a uniform prior when every legal weight is
/// zero.
pub open spec fn prior_spec(policy: Seq<u64>, legal: Seq<Move>, k: int) -> int {
    let total = policy_total(policy, legal);
    if total == 0 {
        SCALE as int / legal.len() as int
    } else {
        policy[legal[k].x + legal[k].y * MOVE_WIDTH] * SCALE / total
    }
}

proof fn lemma_policy_total_nonneg(policy: Seq<u64>, legal: Seq<Move>)
    ensures
        0 <= policy_total(policy, legal),
    decreases legal.len(),
{
    if legal.len() > 0 {
        lemma_policy_total_nonneg(policy, legal.drop_first());
    }
}

proof fn lemma_policy_total_push(policy: Seq<u64>, legal: Seq<Move>, mv: Move)
    ensures
        policy_total(policy, legal.push(mv)) == policy_total(policy, legal) + policy[mv.x + mv.y
            * MOVE_WIDTH],
    decreases legal.len(),
{
    if legal.len() == 0 {
        assert(legal.push(mv)[0] == mv);
        assert(legal.push(mv).drop_first() =~= Seq::<Move>::empty());
        assert(policy_total(policy, Seq::<Move>::empty()) == 0);
        assert(policy_total(policy, legal.push(mv)) == policy[mv.x + mv.y * MOVE_WIDTH]
            + policy_total(policy, legal.push(mv).drop_first()));
    } else {
        assert(legal.push(mv)[0] == legal[0]);
        assert(legal.push(mv).drop_first() =~= legal.drop_first().push(mv));
        lemma_policy_total_push(policy, legal.drop_first(), mv);
        assert(policy_total(policy, legal.push(mv)) == policy[legal[0].x + legal[0].y * MOVE_WIDTH]
            + policy_total(policy, legal.drop_first().push(mv)));
    }
}

/// Each legal move's policy weight is at most the sum over all of them.
proof fn lemma_policy_element_le(policy: Seq<u64>, legal: Seq<Move>, k: int)
    requires
        0 <= k < legal.len(),
    ensures
        policy[legal[k].x + legal[k].y * MOVE_WIDTH] <= policy_total(policy, legal),
    decreases legal.len(),
{
    lemma_policy_total_nonneg(policy, legal.drop_first());
    if k > 0 {
        lemma_policy_element_le(policy, legal.drop_first(), k - 1);
        assert(legal.drop_first()[k - 1] == legal[k]);
    }
}

/// A child list of unvisited nodes has visit sum zero.
proof fn lemma_kids_sum_zero(nodes: Seq<Node>, ks: Seq<usize>)
    requires
        forall|t: int| 0 <= t < ks.len() ==> nodes[#[trigger] ks[t] as int].n == 0,
    ensures
        kids_sum(nodes, ks) == 0,
    decreases ks.len(),
{
    if ks.len() > 0 {
        assert forall|t: int| 0 <= t < ks.drop_first().len() implies nodes[#[trigger] ks.drop_first()[t] as int].n
            == 0 by {
            assert(ks.drop_first()[t] == ks[t + 1]);
        }
        lemma_kids_sum_zero(nodes, ks.drop_first());
    }
}

/// A board that is not full has at least one legal move.
proof fn lemma_not_full_has_legal(s: Seq<bool>)
    requires
        !board_full(s),
    ensures
        legal_moves_spec(s).len() > 0,
{
    let (x, y): (int, int) = choose|x: int, y: int| in_grid(x, y) && !cell_occupied(s, x, y);
    let mv = Move { x: x as usize, y: y as usize, p: 0 };
    lemma_legal_moves_membership(s, 0, mv);
    assert(legal_moves_spec(s).contains(mv));
}

proof fn lemma_kids_pow_sum_nonneg(nodes: Seq<Node>, ks: Seq<usize>, tau: nat)
    ensures
        0 <= kids_pow_sum(nodes, ks, tau),
    decreases ks.len(),
{
    if ks.len() > 0 {
        crate::arith::lemma_pow_nonneg(nodes[ks[0] as int].n as int, tau);
        lemma_kids_pow_sum_nonneg(nodes, ks.drop_first(), tau);
    }
}

/// The sum of `n^tau` over a child list is at most the `tau`-th power of
/// the sum of the visit counts (powers are superadditive).
proof fn lemma_kids_pow_sum_le(nodes: Seq<Node>, ks: Seq<usize>, tau: nat)
    requires
        1 <= tau,
    ensures
        kids_pow_sum(nodes, ks, tau) <= pow(kids_sum(nodes, ks), tau),
    decreases ks.len(),
{
    if ks.len() == 0 {
        vstd::arithmetic::power::lemma0_pow(tau);
    } else {
        let n0 = nodes[ks[0] as int].n as int;
        let rest_sum = kids_sum(nodes, ks.drop_first());
        lemma_kids_pow_sum_le(nodes, ks.drop_first(), tau);
        lemma_kids_sum_nonneg(nodes, ks.drop_first());
        crate::arith::lemma_pow_superadditive(n0, rest_sum, tau);
    }
}

/// The tenth power of the simulation cap still fits a u128.
proof fn lemma_pow_sim_cap()
    ensures
        pow(SIM_CAP as int, 10) < u128::MAX,
{
    reveal_with_fuel(pow, 11);
    assert(pow(SIM_CAP as int, 10) == 5184int * 5184 * 5184 * 5184 * 5184 * 5184 * 5184 * 5184
        * 5184 * 5184);
}

/// After one backup along a chain, the visit sum of a child list grew by
/// exactly one if some listed node lies on the chain, else stayed equal.
proof fn lemma_kids_sum_backup_exact(
    nodes1: Seq<Node>,
    nodes2: Seq<Node>,
    ks: Seq<usize>,
    path: Seq<usize>,
)
    requires
        forall|t: int|
            0 <= t < ks.len() ==> nodes2[#[trigger] ks[t] as int].n == nodes1[ks[t] as int].n + (
            if path.contains(ks[t]) {
                1int
            } else {
                0int
            }),
        forall|a: int, b: int|
            0 <= a < ks.len() && 0 <= b < ks.len() && path.contains(#[trigger] ks[a])
                && path.contains(#[trigger] ks[b]) ==> a == b,
    ensures
        kids_sum(nodes2, ks) == kids_sum(nodes1, ks) + (if exists|t: int|
            0 <= t < ks.len() && path.contains(#[trigger] ks[t]) {
            1int
        } else {
            0int
        }),
    decreases ks.len(),
{
    if ks.len() > 0 {
        let rest = ks.drop_first();
        assert forall|t: int| 0 <= t < rest.len() implies nodes2[#[trigger] rest[t] as int].n
            == nodes1[rest[t] as int].n + (
        if path.contains(rest[t]) {
            1int
        } else {
            0int
        }) by {
            assert(rest[t] == ks[t + 1]);
        }
        assert forall|a: int, b: int|
            0 <= a < rest.len() && 0 <= b < rest.len() && path.contains(#[trigger] rest[a])
                && path.contains(#[trigger] rest[b]) implies a == b by {
            assert(rest[a] == ks[a + 1] && rest[b] == ks[b + 1]);
        }
        lemma_kids_sum_backup_exact(nodes1, nodes2, rest, path);
        if path.contains(ks[0]) {
            assert forall|t: int| 0 <= t < rest.len() implies !path.contains(
                #[trigger] rest[t],
            ) by {
                assert(rest[t] == ks[t + 1]);
                if path.contains(ks[t + 1]) {
                    assert(0 == t + 1);
                }
            }
            assert(!(exists|t: int| 0 <= t < rest.len() && path.contains(#[trigger] rest[t])));
            assert(exists|t: int| 0 <= t < ks.len() && path.contains(#[trigger] ks[t]));
        } else {
            if exists|t: int| 0 <= t < rest.len() && path.contains(#[trigger] rest[t]) {
                let t = choose|t: int| 0 <= t < rest.len() && path.contains(#[trigger] rest[t]);
                assert(rest[t] == ks[t + 1]);
                assert(exists|t2: int| 0 <= t2 < ks.len() && path.contains(#[trigger] ks[t2]));
            }
            if exists|t: int| 0 <= t < ks.len() && path.contains(#[trigger] ks[t]) {
                let t = choose|t: int| 0 <= t < ks.len() && path.contains(#[trigger] ks[t]);
                assert(t >= 1);
                assert(rest[t - 1] == ks[t]);
                assert(exists|t2: int| 0 <= t2 < rest.len() && path.contains(#[trigger] rest[t2]));
            }
        }
    }
}

/// A child list whose visit counts sum to something positive has a
/// positive power sum as well.
proof fn lemma_kids_pow_sum_pos(nodes: Seq<Node>, ks: Seq<usize>, tau: nat)
    requires
        1 <= tau,
        kids_sum(nodes, ks) > 0,
    ensures
        kids_pow_sum(nodes, ks, tau) > 0,
    decreases ks.len(),
{
    let n0 = nodes[ks[0] as int].n as int;
    lemma_kids_sum_nonneg(nodes, ks.drop_first());
    lemma_kids_pow_sum_nonneg(nodes, ks.drop_first(), tau);
    crate::arith::lemma_pow_nonneg(n0, tau);
    if n0 > 0 {
        vstd::arithmetic::power::lemma_pow_positive(n0, tau);
    } else {
        lemma_kids_pow_sum_pos(nodes, ks.drop_first(), tau);
    }
}

/// A vector of `n` zeroes.
fn zeroes_u128(n: usize) -> (v: Vec<u128>)
    ensures
        v@.len() == n,
        forall|i: int| 0 <= i < n ==> v@[i] == 0,
{
    let mut v: Vec<u128> = Vec::new();
    let mut i: usize = 0;
    while i < n
        invariant
            i <= n,
            v@.len() == i,
            forall|j: int| 0 <= j < i ==> v@[j] == 0,
        decreases n - i,
    {
        v.push(0);
        i = i + 1;
    }
    v
}

/// Samples an index of `ws` with probability proportional to its weight,
/// from one uniform draw: the first index whose cumulative weight
/// exceeds the draw. The chosen index always has nonzero weight.
#[verifier::loop_isolation(false)]
fn sample_weighted(ws: &Vec<u128>, total: u128) -> (k: usize)
    requires
        total == sum_u128(ws@),
        total > 0,
    ensures
        k < ws@.len(),
        ws@[k as int] > 0,
{
    let r = crate::rng::random_below(total);
    let mut acc: u128 = 0;
    let mut k: usize = 0;
    proof {
        assert(ws@.skip(0) =~= ws@);
    }
    while k < ws.len()
        invariant
            k <= ws@.len(),
            acc + sum_u128(ws@.skip(k as int)) == total,
            acc <= r,
            r < total,
        decreases ws@.len() - k,
    {
        proof {
            assert(ws@.skip(k as int).drop_first() =~= ws@.skip(k as int + 1));
            assert(ws@.skip(k as int)[0] == ws@[k as int]);
            lemma_sum_u128_nonneg(ws@.skip(k as int + 1));
        }
        let w = ws[k];
        if r < acc + w {
            return k;
        }
        acc = acc + w;
        k = k + 1;
    }
    proof {
        assert(ws@.skip(ws@.len() as int) =~= Seq::<u128>::empty());
        assert(false);
    }
    0
}

/// The effect of one simulation, from tree `pre` to tree `post`: the
/// nodes of `path` — one selection descent by the stable-argmax PUCT
/// rule, root and leaf included — each gain one visit and the same
/// backed-up value `v`, and no other node's counts move. A terminal
/// leaf adds no node anywhere and `v` is exactly its own outcome,
/// shifted into fixed point — the predictor contributes nothing there.
/// Any other leaf gains one child per legal move of its state, in the
/// deterministic move order, with priors renormalized from some policy
/// over the legal cells, and `v` is the predictor's value estimate,
/// clamped and shifted into `[0, 2 * SCALE]`.
pub open spec fn sim_step(pre: TreeSearch, post: TreeSearch, path: Seq<usize>, v: int) -> bool {
    let leaf = path[path.len() - 1] as int;
    let leaf_board = board_of(pre.node_state(leaf));
    &&& pre.is_selection_path(path)
    &&& 0 <= v <= 2 * SCALE
    &&& forall|j: int|
        #![trigger path[j]]
        0 <= j < path.len() ==> {
            &&& post.node_visits(path[j] as int) == pre.node_visits(path[j] as int) + 1
            &&& post.node_value_sum(path[j] as int) == pre.node_value_sum(path[j] as int) + v
        }
    &&& forall|i: int|
        #![trigger post.node_visits(i)]
        0 <= i < pre.num_nodes() && !path.contains(i as usize) ==> {
            &&& post.node_visits(i) == pre.node_visits(i)
            &&& post.node_value_sum(i) == pre.node_value_sum(i)
        }
    &&& forall|i: int|
        #![trigger post.node_state(i)]
        0 <= i < pre.num_nodes() ==> {
            &&& post.node_state(i) == pre.node_state(i)
            &&& post.node_prior(i) == pre.node_prior(i)
            &&& post.node_move(i) == pre.node_move(i)
            &&& (i != leaf ==> post.kids_count(i) == pre.kids_count(i) && (forall|k: int|
                0 <= k < pre.kids_count(i) ==> #[trigger] post.kid(i, k) == pre.kid(i, k)))
        }
    &&& if evaluate_spec(leaf_board) != GameResult::NotFinished {
        &&& post.num_nodes() == pre.num_nodes()
        &&& post.kids_count(leaf) == 0
        &&& v == shifted_outcome(evaluate_spec(leaf_board), side_of(leaf_board))
    } else {
        let legal = legal_moves_spec(leaf_board);
        &&& post.num_nodes() == pre.num_nodes() + legal.len()
        &&& post.kids_count(leaf) == legal.len()
        &&& forall|k: int|
            0 <= k < legal.len() ==> {
                &&& #[trigger] post.kid(leaf, k) == pre.num_nodes() + k
                &&& post.node_move(pre.num_nodes() + k) == Some(legal[k])
                &&& post.node_state(pre.num_nodes() + k) == state_move_spec(
                    pre.node_state(leaf),
                    legal[k],
                    None,
                )
                &&& post.node_visits(pre.num_nodes() + k) == 0
                &&& 0 <= post.node_prior(pre.num_nodes() + k) <= SCALE
            }
        &&& exists|policy: Seq<u64>|
            policy.len() == NUM_CELLS && (forall|k: int|
                0 <= k < legal.len() ==> post.node_prior(pre.num_nodes() + k)
                    == #[trigger] prior_spec(policy, legal, k))
    }
}

/// The internal stable-argmax statement coincides with the public
/// `is_selected_kid` form over the accessors.
proof fn lemma_stable_is_selected(ts: &TreeSearch, i: int, k: int)
    requires
        is_stable_argmax(
            ts.nodes@,
            ts.nodes@[i].children@,
            kids_sum(ts.nodes@, ts.nodes@[i].children@),
            k,
        ),
    ensures
        ts.is_selected_kid(i, k),
{
    reveal(TreeSearch::is_selected_kid);
    assert forall|a: int| 0 <= a < ts.kids_count(i) implies #[trigger] ts.kid_score(i, a)
        == puct_score(
        ts.nodes@[ts.nodes@[i].children@[a] as int],
        kids_sum(ts.nodes@, ts.nodes@[i].children@),
    ) by {
        assert(ts.kid(i, a) == ts.nodes@[i].children@[a] as int);
    }
}

/// One stable-argmax step, in the internal form, is a selected-kid step
/// in the public form.
proof fn lemma_step_selected(ts: &TreeSearch, prev: usize, cur: usize)
    requires
        exists|k: int|
            {
                &&& 0 <= k < ts.nodes@[prev as int].children@.len()
                &&& cur == #[trigger] ts.nodes@[prev as int].children@[k]
                &&& is_stable_argmax(
                    ts.nodes@,
                    ts.nodes@[prev as int].children@,
                    kids_sum(ts.nodes@, ts.nodes@[prev as int].children@),
                    k,
                )
            },
    ensures
        exists|k: int|
            ts.is_selected_kid(prev as int, k) && cur == #[trigger] ts.kid(prev as int, k),
{
    let k = choose|k: int|
        {
            &&& 0 <= k < ts.nodes@[prev as int].children@.len()
            &&& cur == #[trigger] ts.nodes@[prev as int].children@[k]
            &&& is_stable_argmax(
                ts.nodes@,
                ts.nodes@[prev as int].children@,
                kids_sum(ts.nodes@, ts.nodes@[prev as int].children@),
                k,
            )
        };
    lemma_stable_is_selected(ts, prev as int, k);
    assert(ts.kid(prev as int, k) == cur);
}

/// A chain of stable-argmax steps, in the internal form, is a selection
/// path in the public form.
#[verifier::rlimit(100)]
#[verifier::spinoff_prover]
proof fn lemma_selection_path_public(ts: &TreeSearch, path: Seq<usize>)
    requires
        is_chain(ts.nodes@, ts.root_index(), path),
        forall|j: int| 0 <= j < path.len() ==> #[trigger] path[j] < ts.nodes@.len(),
        forall|j1: int, j2: int| 0 <= j1 < j2 < path.len() ==> path[j1] < path[j2],
        ts.nodes@[path[path.len() - 1] as int].children@.len() == 0,
        forall|j: int|
            1 <= j < path.len() ==> exists|k: int|
                {
                    &&& 0 <= k < ts.nodes@[#[trigger] path[j - 1] as int].children@.len()
                    &&& path[j] == #[trigger] ts.nodes@[path[j - 1] as int].children@[k]
                    &&& is_stable_argmax(
                        ts.nodes@,
                        ts.nodes@[path[j - 1] as int].children@,
                        kids_sum(ts.nodes@, ts.nodes@[path[j - 1] as int].children@),
                        k,
                    )
                },
    ensures
        ts.is_selection_path(path),
{
    assert forall|j: int|
        #![trigger path[j]]
        1 <= j < path.len() implies exists|k: int|
        ts.is_selected_kid(path[j - 1] as int, k) && path[j] == #[trigger] ts.kid(
            path[j - 1] as int,
            k,
        ) by {
        lemma_step_selected(ts, path[j - 1], path[j]);
    }
    assert(path[0] == ts.root_index());
    assert forall|j: int| 0 <= j < path.len() implies #[trigger] path[j] < ts.num_nodes() by {}
    assert forall|j1: int, j2: int| 0 <= j1 < j2 < path.len() implies path[j1] < path[j2] by {}
    assert(ts.kids_count(path[path.len() - 1] as int) == 0);
    assert(ts.is_selection_path(path)) by {
        reveal(TreeSearch::is_selection_path);
    }
}

/// A mutable borrow of one arena slot.
fn node_mut(nodes: &mut Vec<Node>, i: usize) -> (r: &mut Node)
    requires
        i < old(nodes).len(),
    ensures
        *r == old(nodes)@[i as int],
        final(nodes)@ == old(nodes)@.update(i as int, *final(r)),
{
    &mut nodes[i]
}

/// The best move the search found, and the visit distribution over the
/// move space it derives from: `pi[j]` is the numerator of position `j`
/// and `pi_total` the common denominator, so the distribution sums to
/// exactly one whenever `pi_total > 0`.
pub struct MCTSOutput {
    pub best_move: Move,
    pub pi: Vec<u128>,
    pub pi_total: u128,
}

/// The search tree of one self-play game.
pub struct TreeSearch {
    nodes: Vec<Node>,
    root: usize,
    /// Total simulations this tree has run, over all `search` calls.
    sims: u64,
}

impl TreeSearch {
    /// Every structural and numeric invariant of the arena.
    pub closed spec fn wf(&self) -> bool {
        &&& self.root < self.nodes@.len()
        &&& self.sims <= SIM_CAP
        &&& unique_parent(self.nodes@)
        &&& forall|i: int|
            0 <= i < self.nodes@.len() ==> node_ok(self.nodes@, i, self.sims as int)
    }

    /// Total simulations this tree has run.
    pub closed spec fn sims_done(&self) -> int {
        self.sims as int
    }

    pub closed spec fn num_nodes(&self) -> int {
        self.nodes@.len() as int
    }

    pub closed spec fn root_index(&self) -> int {
        self.root as int
    }

    /// The game state of node `i`.
    pub closed spec fn node_state(&self, i: int) -> Seq<bool> {
        self.nodes@[i].game_state@
    }

    /// The state the search is currently rooted at.
    pub open spec fn root_state(&self) -> Seq<bool> {
        self.node_state(self.root_index())
    }

    pub closed spec fn node_visits(&self, i: int) -> int {
        self.nodes@[i].n as int
    }

    /// The cumulative backed-up value of node `i`, in the shifted fixed
    /// point: each visit contributed a number in `[0, 2 * SCALE]`.
    pub closed spec fn node_value_sum(&self, i: int) -> int {
        self.nodes@[i].w as int
    }

    /// The prior probability of node `i`, in `[0, SCALE]`.
    pub closed spec fn node_prior(&self, i: int) -> int {
        self.nodes@[i].p as int
    }

    /// The move that produced node `i`; `None` only for a root that no
    /// expansion created.
    pub closed spec fn node_move(&self, i: int) -> Option<Move> {
        self.nodes@[i].m
    }

    pub closed spec fn kids_count(&self, i: int) -> int {
        self.nodes@[i].children@.len() as int
    }

    pub closed spec fn kid(&self, i: int, k: int) -> int {
        self.nodes@[i].children@[k] as int
    }

    /// The move that leads from node `i` to its `k`-th child.
    pub closed spec fn kid_move(&self, i: int, k: int) -> Move {
        opt_move(self.nodes@[self.kid(i, k)].m)
    }

    /// Sum of the visit counts of the children of node `i`.
    pub closed spec fn kids_visit_sum(&self, i: int) -> int {
        kids_sum(self.nodes@, self.nodes@[i].children@)
    }

    /// Sum of `visits^tau` over the children of node `i`.
    pub closed spec fn kids_pow_visit_sum(&self, i: int, tau: nat) -> int {
        kids_pow_sum(self.nodes@, self.nodes@[i].children@, tau)
    }

    /// The PUCT score of the `k`-th child of node `i`, against the
    /// visit total of all of `i`'s children.
    pub open spec fn kid_score(&self, i: int, k: int) -> int {
        puct_score_fp(
            self.node_visits(self.kid(i, k)),
            self.node_value_sum(self.kid(i, k)),
            self.node_prior(self.kid(i, k)),
            self.kids_visit_sum(i),
        )
    }

    /// The `k`-th child of node `i` is the one selection descends to:
    /// the earliest child maximising the PUCT score (the stable argmax;
    /// ties go to the earliest child in order).
    #[verifier::opaque]
    pub open spec fn is_selected_kid(&self, i: int, k: int) -> bool {
        &&& 0 <= k < self.kids_count(i)
        &&& forall|a: int|
            0 <= a < self.kids_count(i) ==> #[trigger] self.kid_score(i, a) <= self.kid_score(i, k)
        &&& forall|a: int| 0 <= a < k ==> #[trigger] self.kid_score(i, a) < self.kid_score(i, k)
    }

    /// `path` is one simulation's selection path through this tree: it
    /// starts at the root, each step descends to the stable-argmax
    /// child, and it stops at the first node without children. Both
    /// endpoints are included; the whole path is what the backup then
    /// increments.
    #[verifier::opaque]
    pub open spec fn is_selection_path(&self, path: Seq<usize>) -> bool {
        &&& path.len() >= 1
        &&& path[0] == self.root_index()
        &&& forall|j: int| 0 <= j < path.len() ==> #[trigger] path[j] < self.num_nodes()
        &&& forall|j1: int, j2: int| 0 <= j1 < j2 < path.len() ==> path[j1] < path[j2]
        &&& forall|j: int|
            #![trigger path[j]]
            1 <= j < path.len() ==> exists|k: int|
                self.is_selected_kid(path[j - 1] as int, k) && path[j] == #[trigger] self.kid(
                    path[j - 1] as int,
                    k,
                )
        &&& self.kids_count(path[path.len() - 1] as int) == 0
    }

    /// A fresh search rooted at `game_state`, with no simulations run.
    pub fn new(game_state: GameState) -> (r: TreeSearch)
        requires
            game_state.wf(),
        ensures
            r.wf(),
            r.sims_done() == 0,
            r.num_nodes() == 1,
            r.root_index() == 0,
            r.root_state() == game_state@,
            r.kids_count(0) == 0,
            r.node_visits(0) == 0,
    {
        let root_node = Node {
            game_state,
            n: 0,
            w: 0,
            p: 0,
            m: None,
            children: Vec::new(),
        };
        let mut nodes: Vec<Node> = Vec::new();
        nodes.push(root_node);
        TreeSearch { nodes, root: 0, sims: 0 }
    }

    /// The PUCT score of the `k`-th child of node `i`, computed in
    /// 128-bit fixed point exactly as `puct_score` states it.
    fn score_of(&self, i: usize, k: usize, total: u64, sf: u64) -> (s: u128)
        requires
            self.wf(),
            i < self.nodes@.len(),
            k < self.nodes@[i as int].children@.len(),
            total <= SIM_CAP,
            sf == isqrt_spec(total * SCALE * SCALE),
            sf * sf <= total * SCALE * SCALE,
        ensures
            s == puct_score(
                self.nodes@[self.nodes@[i as int].children@[k as int] as int],
                total as int,
            ),
    {
        proof {
            assert(node_ok(self.nodes@, i as int, self.sims as int));
            assert(kids_ok(self.nodes@, i as int));
            assert(self.nodes@[i as int].children@[k as int] < self.nodes@.len());
        }
        let c = self.nodes[i].children[k];
        proof {
            assert(node_ok(self.nodes@, c as int, self.sims as int));
            assert(sf <= 72000000) by (nonlinear_arith)
                requires
                    sf * sf <= total * SCALE * SCALE,
                    total <= SIM_CAP,
                    SCALE == 1000000,
                    SIM_CAP == 5184,
            ;
        }
        let nd = &self.nodes[c];
        proof {
            assert(nd.n <= SIM_CAP);
            assert(C_PUCT_FP * nd.p * sf <= 72000000000000000000) by (nonlinear_arith)
                requires
                    nd.p <= SCALE,
                    sf <= 72000000,
                    SCALE == 1000000,
                    C_PUCT_FP == 1000000,
            ;
        }
        let q: u64 = if nd.n == 0 {
            SCALE
        } else {
            nd.w / nd.n
        };
        let explore: u128 = ((C_PUCT_FP as u128) * (nd.p as u128) * (sf as u128)) / (((1 + nd.n)
            as u128) * (SCALE as u128));
        proof {
            reveal(puct_score_fp);
        }
        (q as u128) * (SCALE as u128) + explore
    }

    /// The child of node `i` the selection step descends to: the stable
    /// argmax of the PUCT score over the children.
    #[verifier::loop_isolation(false)]
    fn select_child(&self, i: usize) -> (kt: usize)
        requires
            self.wf(),
            i < self.nodes@.len(),
            self.nodes@[i as int].children@.len() > 0,
        ensures
            is_stable_argmax(
                self.nodes@,
                self.nodes@[i as int].children@,
                kids_sum(self.nodes@, self.nodes@[i as int].children@),
                kt as int,
            ),
            self.is_selected_kid(i as int, kt as int),
    {
        let ghost ks = self.nodes@[i as int].children@;
        let ghost full = kids_sum(self.nodes@, ks);
        proof {
            assert(node_ok(self.nodes@, i as int, self.sims as int));
            assert(full <= SIM_CAP);
            lemma_kids_sum_nonneg(self.nodes@, ks);
        }
        let num = self.nodes[i].children.len();
        let mut total: u64 = 0;
        let mut t: usize = 0;
        proof {
            assert(ks.skip(0) =~= ks);
        }
        while t < num
            invariant
                t <= num,
                total + kids_sum(self.nodes@, ks.skip(t as int)) == full,
                0 <= total,
            decreases num - t,
        {
            proof {
                assert(ks.skip(t as int).drop_first() =~= ks.skip(t as int + 1));
                assert(ks.skip(t as int)[0] == ks[t as int]);
                lemma_kids_sum_nonneg(self.nodes@, ks.skip(t as int + 1));
                assert(kids_ok(self.nodes@, i as int));
                assert(ks[t as int] < self.nodes@.len());
            }
            let c = self.nodes[i].children[t];
            total = total + self.nodes[c].n;
            t = t + 1;
        }
        proof {
            assert(ks.skip(num as int) =~= Seq::<usize>::empty());
            assert(total == full);
        }
        let sf = isqrt(total * SCALE * SCALE);
        let mut best: usize = 0;
        let mut best_score: u128 = self.score_of(i, 0, total, sf);
        let mut a: usize = 1;
        while a < num
            invariant
                1 <= a <= num,
                best < a,
                best_score == puct_score(self.nodes@[ks[best as int] as int], total as int),
                forall|b: int|
                    0 <= b < a ==> puct_score(self.nodes@[#[trigger] ks[b] as int], total as int)
                        <= best_score,
                forall|b: int|
                    0 <= b < best ==> puct_score(self.nodes@[#[trigger] ks[b] as int], total as int)
                        < best_score,
            decreases num - a,
        {
            let s = self.score_of(i, a, total, sf);
            if s > best_score {
                best = a;
                best_score = s;
            }
            a = a + 1;
        }
        proof {
            lemma_stable_is_selected(self, i as int, best as int);
        }
        best
    }

    /// The selection phase of one simulation: from the root, repeatedly
    /// descend to the PUCT-maximal child (earliest on ties) until a node
    /// without children is reached; the returned path lists every node
    /// visited, root and leaf inclusive.
    #[verifier::loop_isolation(false)]
    #[verifier::rlimit(100)]
    fn select_path(&self) -> (path: Vec<usize>)
        requires
            self.wf(),
        ensures
            is_chain(self.nodes@, self.root_index(), path@),
            forall|j: int| 0 <= j < path@.len() ==> #[trigger] path@[j] < self.nodes@.len(),
            forall|j1: int, j2: int| 0 <= j1 < j2 < path@.len() ==> path@[j1] < path@[j2],
            self.nodes@[path@[path@.len() - 1] as int].children@.len() == 0,
            forall|j: int|
                1 <= j < path@.len() ==> exists|k: int|
                    {
                        &&& 0 <= k < self.nodes@[#[trigger] path@[j - 1] as int].children@.len()
                        &&& path@[j] == #[trigger] self.nodes@[path@[j - 1] as int].children@[k]
                        &&& is_stable_argmax(
                            self.nodes@,
                            self.nodes@[path@[j - 1] as int].children@,
                            kids_sum(self.nodes@, self.nodes@[path@[j - 1] as int].children@),
                            k,
                        )
                    },
            self.is_selection_path(path@),
    {
        let mut path: Vec<usize> = Vec::new();
        path.push(self.root);
        let mut cur = self.root;
        while self.nodes[cur].children.len() > 0
            invariant
                cur < self.nodes@.len(),
                path@.len() >= 1,
                path@[path@.len() - 1] == cur,
                is_chain(self.nodes@, self.root_index(), path@),
                forall|j: int| 0 <= j < path@.len() ==> #[trigger] path@[j] < self.nodes@.len(),
                forall|j1: int, j2: int| 0 <= j1 < j2 < path@.len() ==> path@[j1] < path@[j2],
                forall|j: int|
                    1 <= j < path@.len() ==> exists|k: int|
                        {
                            &&& 0 <= k < self.nodes@[#[trigger] path@[j
                                - 1] as int].children@.len()
                            &&& path@[j] == #[trigger] self.nodes@[path@[j - 1] as int].children@[k]
                            &&& is_stable_argmax(
                                self.nodes@,
                                self.nodes@[path@[j - 1] as int].children@,
                                kids_sum(self.nodes@, self.nodes@[path@[j - 1] as int].children@),
                                k,
                            )
                        },
            decreases self.nodes@.len() - cur,
        {
            let k = self.select_child(cur);
            proof {
                assert(node_ok(self.nodes@, cur as int, self.sims as int));
                assert(kids_ok(self.nodes@, cur as int));
            }
            let c = self.nodes[cur].children[k];
            path.push(c);
            cur = c;
            proof {
                assert(is_kid_of(self.nodes@, path@[path@.len() - 2] as int, c as int));
            }
        }
        proof {
            lemma_selection_path_public(self, path@);
        }
        path
    }

    /// The backup phase of one simulation: counts the simulation and
    /// adds one visit and the same backed-up value to every node on the
    /// path, root through leaf inclusive.
    #[verifier::loop_isolation(false)]
    #[verifier::rlimit(100)]
    fn backup(&mut self, path: &Vec<usize>, value: u64)
        requires
            old(self).wf(),
            old(self).sims < SIM_CAP,
            value <= 2 * SCALE,
            is_chain(old(self).nodes@, old(self).root_index(), path@),
            forall|j1: int, j2: int| 0 <= j1 < j2 < path@.len() ==> path@[j1] < path@[j2],
            forall|j: int| 0 <= j < path@.len() ==> #[trigger] path@[j] < old(self).nodes@.len(),
        ensures
            final(self).wf(),
            final(self).nodes@.len() == old(self).nodes@.len(),
            final(self).root == old(self).root,
            final(self).sims == old(self).sims + 1,
            forall|i: int|
                0 <= i < final(self).nodes@.len() ==> {
                    let nd = #[trigger] final(self).nodes@[i];
                    let prev = old(self).nodes@[i];
                    &&& nd.n == prev.n + (if path@.contains(i as usize) {
                        1int
                    } else {
                        0int
                    })
                    &&& nd.w == prev.w + (if path@.contains(i as usize) {
                        value as int
                    } else {
                        0int
                    })
                    &&& nd.children@ == prev.children@
                    &&& nd.game_state@ == prev.game_state@
                    &&& nd.m == prev.m
                    &&& nd.p == prev.p
                },
    {
        self.sims = self.sims + 1;
        let mut j: usize = 0;
        while j < path.len()
            invariant
                j <= path@.len(),
                self.nodes@.len() == old(self).nodes@.len(),
                self.root == old(self).root,
                self.sims == old(self).sims + 1,
                forall|i: int|
                    0 <= i < self.nodes@.len() ==> {
                        let nd = #[trigger] self.nodes@[i];
                        let prev = old(self).nodes@[i];
                        &&& nd.n == prev.n + (if path@.take(j as int).contains(i as usize) {
                            1int
                        } else {
                            0int
                        })
                        &&& nd.w == prev.w + (if path@.take(j as int).contains(i as usize) {
                            value as int
                        } else {
                            0int
                        })
                        &&& nd.children@ == prev.children@
                        &&& nd.game_state@ == prev.game_state@
                        &&& nd.m == prev.m
                        &&& nd.p == prev.p
                    },
            decreases path@.len() - j,
        {
            let idx = path[j];
            proof {
                // this node has not been visited yet on this backup
                if path@.take(j as int).contains(idx) {
                    let t = choose|t: int|
                        0 <= t < j && #[trigger] path@.take(j as int)[t] == idx;
                    assert(path@[t] == path@[j as int]);
                    assert(false);
                }
                assert(node_ok(old(self).nodes@, idx as int, old(self).sims as int));
                assert(self.nodes@[idx as int].n == old(self).nodes@[idx as int].n);
                assert(self.nodes@[idx as int].w == old(self).nodes@[idx as int].w);
                assert(self.nodes@[idx as int].n < SIM_CAP);
                assert(self.nodes@[idx as int].w <= (SIM_CAP - 1) * (2 * SCALE))
                    by (nonlinear_arith)
                    requires
                        self.nodes@[idx as int].w <= self.nodes@[idx as int].n * (2 * SCALE),
                        self.nodes@[idx as int].n <= SIM_CAP - 1,
                        SCALE == 1000000,
                        SIM_CAP == 5184,
                ;
            }
            let nd = node_mut(&mut self.nodes, idx);
            nd.n = nd.n + 1;
            nd.w = nd.w + value;
            proof {
                assert forall|i: int|
                    0 <= i < self.nodes@.len() implies (#[trigger] path@.take(j + 1).contains(
                    i as usize,
                ) == (path@.take(j as int).contains(i as usize) || i == idx)) by {
                    if path@.take(j + 1).contains(i as usize) {
                        let t = choose|t: int|
                            0 <= t < j + 1 && #[trigger] path@.take(j + 1)[t] == i as usize;
                        if t < j {
                            assert(path@.take(j as int)[t] == i as usize);
                            assert(path@.take(j as int).contains(i as usize));
                        } else {
                            assert(path@.take(j + 1)[t] == path@[j as int]);
                            assert(i as usize == idx);
                            assert(self.nodes@.len() <= usize::MAX) by {
                                assert(self.nodes@.len() == self.nodes.len());
                            }
                            assert(i == idx);
                        }
                    } else {
                        if path@.take(j as int).contains(i as usize) {
                            let t = choose|t: int|
                                0 <= t < j && #[trigger] path@.take(j as int)[t] == i as usize;
                            assert(path@.take(j + 1)[t] == i as usize);
                            assert(path@.take(j + 1).contains(i as usize));
                        }
                        if i == idx {
                            assert(path@.take(j + 1)[j as int] == idx);
                            assert(path@.take(j + 1).contains(i as usize));
                        }
                    }
                }
            }
            j = j + 1;
        }
        proof {
            assert(path@.take(path@.len() as int) =~= path@);
            let n1 = old(self).nodes@;
            let n2 = self.nodes@;
            let sims2 = self.sims as int;
            assert forall|ii: int| 0 <= ii < n1.len() implies kids_ok(n1, ii) by {
                assert(node_ok(n1, ii, old(self).sims as int));
            }
            assert forall|i: int| 0 <= i < n2.len() implies node_ok(n2, i, sims2) by {
                assert(node_ok(n1, i, old(self).sims as int));
                let nd = n2[i];
                let prev = n1[i];
                if path@.contains(i as usize) {
                    assert(nd.w == prev.w + value);
                    assert(prev.w + value <= prev.n * (2 * SCALE) + (2 * SCALE));
                    assert(prev.n * (2 * SCALE) + (2 * SCALE) == (prev.n + 1) * (2 * SCALE))
                        by (nonlinear_arith);
                }
                assert(nd.w <= nd.n * (2 * SCALE));
                // the child-list sum grew by at most one
                lemma_chain_hits_kids_once(n1, old(self).root_index(), path@, i);
                assert forall|t: int| 0 <= t < nd.children@.len() implies n2[#[trigger] nd.children@[t] as int].n
                    == n1[nd.children@[t] as int].n + (
                if path@.contains(nd.children@[t]) {
                    1int
                } else {
                    0int
                }) by {
                    assert(kids_ok(n1, i));
                    assert(nd.children@[t] < n1.len());
                }
                lemma_kids_sum_backup(n1, n2, nd.children@, path@);
                assert(kids_sum(n1, nd.children@) == kids_sum(n1, prev.children@));
                assert(kids_sum(n2, nd.children@) <= old(self).sims + 1);
                // the structural clauses carry over unchanged
                assert forall|k: int| 0 <= k < nd.children@.len() implies {
                    let c = #[trigger] nd.children@[k] as int;
                    &&& i < c < n2.len()
                    &&& n2[c].m is Some
                    &&& legal_moves_spec(board_of(nd.game_state@)).contains(opt_move(n2[c].m))
                    &&& n2[c].game_state@ == state_move_spec(
                        nd.game_state@,
                        opt_move(n2[c].m),
                        None,
                    )
                } by {
                    assert(kids_ok(n1, i));
                    assert(prev.children@[k] == nd.children@[k]);
                }
                assert forall|k1: int, k2: int|
                    0 <= k1 < k2 < nd.children@.len() implies opt_move(
                    n2[#[trigger] nd.children@[k1] as int].m,
                ) != opt_move(n2[#[trigger] nd.children@[k2] as int].m) by {
                    assert(kid_moves_distinct(n1, i));
                    assert(prev.children@[k1] == nd.children@[k1]);
                    assert(prev.children@[k2] == nd.children@[k2]);
                }
            }
            assert forall|i1: int, k1: int, i2: int, k2: int|
                0 <= i1 < n2.len() && 0 <= k1 < n2[i1].children@.len() && 0 <= i2 < n2.len() && 0
                    <= k2 < n2[i2].children@.len() && #[trigger] n2[i1].children@[k1]
                    == #[trigger] n2[i2].children@[k2] implies i1 == i2 && k1 == k2 by {
                assert(n1[i1].children@[k1] == n2[i1].children@[k1]);
                assert(n1[i2].children@[k2] == n2[i2].children@[k2]);
            }
        }
    }

    /// The expansion phase of one simulation: creates one child of
    /// `leaf` per legal move of its state, in the deterministic move
    /// order, each carrying the masked and renormalized policy weight of
    /// its move as prior probability.
    #[verifier::loop_isolation(false)]
    #[verifier::rlimit(80)]
    fn expand(&mut self, leaf: usize, policy: &Vec<u64>)
        requires
            old(self).wf(),
            leaf < old(self).nodes@.len(),
            old(self).nodes@[leaf as int].children@.len() == 0,
            evaluate_spec(board_of(old(self).nodes@[leaf as int].game_state@))
                == GameResult::NotFinished,
            policy@.len() == NUM_CELLS,
        ensures
            final(self).wf(),
            final(self).root == old(self).root,
            final(self).sims == old(self).sims,
            final(self).nodes@.len() == old(self).nodes@.len() + legal_moves_spec(
                board_of(old(self).nodes@[leaf as int].game_state@),
            ).len(),
            final(self).nodes@.len() > old(self).nodes@.len(),
            forall|i: int|
                0 <= i < old(self).nodes@.len() ==> {
                    let nd = #[trigger] final(self).nodes@[i];
                    let prev = old(self).nodes@[i];
                    &&& nd.n == prev.n
                    &&& nd.w == prev.w
                    &&& nd.p == prev.p
                    &&& nd.m == prev.m
                    &&& nd.game_state@ == prev.game_state@
                    &&& (i != leaf ==> nd.children@ == prev.children@)
                },
            final(self).nodes@[leaf as int].children@ =~= Seq::new(
                (final(self).nodes@.len() - old(self).nodes@.len()) as nat,
                |k: int| (old(self).nodes@.len() + k) as usize,
            ),
            forall|k: int|
                0 <= k < final(self).nodes@.len() - old(self).nodes@.len() ==> {
                    let nd = #[trigger] final(self).nodes@[old(self).nodes@.len() + k];
                    let legal = legal_moves_spec(
                        board_of(old(self).nodes@[leaf as int].game_state@),
                    );
                    &&& nd.n == 0
                    &&& nd.children@.len() == 0
                    &&& nd.m == Some(legal[k])
                    &&& nd.p == prior_spec(policy@, legal, k)
                },
    {
        let ghost old_nodes = self.nodes@;
        let ghost old_len = self.nodes@.len() as int;
        proof {
            assert(node_ok(old_nodes, leaf as int, self.sims as int));
        }
        let leaf_state = self.nodes[leaf].game_state.duplicate();
        let ghost board = board_of(leaf_state@);
        let legal = leaf_state.get_legal_moves(None);
        proof {
            lemma_not_full_has_legal(board);
            lemma_legal_moves_elems(board, 0);
        }
        let num_legal = legal.len();
        // total policy weight over the legal cells
        let mut total: u128 = 0;
        let mut t: usize = 0;
        proof {
            assert(legal@.take(0) =~= Seq::<Move>::empty());
        }
        while t < num_legal
            invariant
                t <= num_legal,
                total == policy_total(policy@, legal@.take(t as int)),
                total <= (t as int) * 0xffffffffffffffff,
            decreases num_legal - t,
        {
            let mv = legal[t];
            let idx = crate::constants::move_to_index((mv.x, mv.y));
            proof {
                lemma_policy_total_push(policy@, legal@.take(t as int), legal@[t as int]);
                assert(legal@.take(t as int + 1) =~= legal@.take(t as int).push(
                    legal@[t as int],
                ));
            }
            total = total + (policy[idx] as u128);
            t = t + 1;
        }
        proof {
            assert(legal@.take(num_legal as int) =~= legal@);
            lemma_policy_total_nonneg(policy@, legal@);
        }
        // create one child per legal move
        let mut kids: Vec<usize> = Vec::new();
        let mut k: usize = 0;
        while k < num_legal
            invariant
                k <= num_legal,
                num_legal == legal@.len(),
                total == policy_total(policy@, legal@),
                self.sims == old(self).sims,
                self.root == old(self).root,
                self.nodes@.len() == old_len + k,
                kids@.len() == k,
                forall|i: int| 0 <= i < old_len ==> #[trigger] self.nodes@[i] == old_nodes[i],
                forall|kk: int| 0 <= kk < k ==> #[trigger] kids@[kk] == (old_len + kk) as usize,
                forall|kk: int|
                    0 <= kk < k ==> {
                        let nd = #[trigger] self.nodes@[old_len + kk];
                        &&& nd.n == 0
                        &&& nd.w == 0
                        &&& nd.children@.len() == 0
                        &&& nd.m == Some(legal@[kk])
                        &&& nd.p == prior_spec(policy@, legal@, kk)
                        &&& nd.p <= SCALE
                        &&& nd.game_state@ == state_move_spec(leaf_state@, legal@[kk], None)
                        &&& nd.game_state@.len() == STATE_LEN
                    },
            decreases num_legal - k,
        {
            let mv = legal[k];
            let idx = crate::constants::move_to_index((mv.x, mv.y));
            let prior: u64;
            if total == 0 {
                proof {
                    vstd::arithmetic::div_mod::lemma_div_is_ordered_by_denominator(
                        SCALE as int,
                        1,
                        num_legal as int,
                    );
                    vstd::arithmetic::div_mod::lemma_div_pos_is_pos(
                        SCALE as int,
                        num_legal as int,
                    );
                }
                prior = SCALE / (num_legal as u64);
                assert(prior == prior_spec(policy@, legal@, k as int));
            } else {
                let w = policy[idx];
                proof {
                    lemma_policy_element_le(policy@, legal@, k as int);
                    assert(w * SCALE <= total * SCALE) by (nonlinear_arith)
                        requires
                            w <= total,
                            SCALE >= 0,
                    ;
                    vstd::arithmetic::div_mod::lemma_div_is_ordered(
                        w * SCALE,
                        total as int * SCALE,
                        total as int,
                    );
                    vstd::arithmetic::div_mod::lemma_div_multiples_vanish(
                        SCALE as int,
                        total as int,
                    );
                    vstd::arithmetic::div_mod::lemma_div_pos_is_pos(
                        w * SCALE,
                        total as int,
                    );
                }
                prior = ((w as u128) * (SCALE as u128) / total) as u64;
                assert(prior == prior_spec(policy@, legal@, k as int));
            }
            let mut st = leaf_state.duplicate();
            st.move_game(mv, None);
            let new_idx = self.nodes.len();
            self.nodes.push(
                Node { game_state: st, n: 0, w: 0, p: prior, m: Some(mv), children: Vec::new() },
            );
            kids.push(new_idx);
            k = k + 1;
        }
        // attach the children to the leaf
        let ghost pre = self.nodes@;
        let nd = node_mut(&mut self.nodes, leaf);
        nd.children = kids;
        proof {
            let n2 = self.nodes@;
            assert(n2.len() <= usize::MAX) by {
                assert(self.nodes@.len() == self.nodes.len());
            }
            assert(n2 == pre.update(leaf as int, n2[leaf as int]));
            assert forall|i: int| 0 <= i < n2.len() && i != leaf implies #[trigger] n2[i]
                == pre[i] by {}
            assert forall|kk: int| 0 <= kk < num_legal implies {
                let nd2 = #[trigger] n2[old_len + kk];
                &&& nd2.n == 0
                &&& nd2.w == 0
                &&& nd2.children@.len() == 0
                &&& nd2.m == Some(legal@[kk])
                &&& nd2.p == prior_spec(policy@, legal@, kk)
                &&& nd2.p <= SCALE
                &&& nd2.game_state@ == state_move_spec(leaf_state@, legal@[kk], None)
                &&& nd2.game_state@.len() == STATE_LEN
            } by {
                assert(pre[old_len + kk].n == 0);
                assert(n2[old_len + kk] == pre[old_len + kk]);
            }
            let sims = self.sims as int;
            let lf = leaf as int;
            assert(n2.len() == old_len + num_legal);
            assert(n2[lf].children@ =~= Seq::new(
                num_legal as nat,
                |kk: int| (old_len + kk) as usize,
            ));
            assert(board_of(n2[lf].game_state@) == board);
            // unchanged nodes stay sound
            assert forall|i: int| 0 <= i < n2.len() implies node_ok(n2, i, sims) by {
                if i < old_len && i != lf {
                    assert(node_ok(old_nodes, i, sims));
                    assert(n2[i] == old_nodes[i]);
                    assert(kids_ok(old_nodes, i));
                    assert forall|kk: int| 0 <= kk < n2[i].children@.len() implies {
                        let c = #[trigger] n2[i].children@[kk] as int;
                        &&& i < c < n2.len()
                        &&& n2[c].m is Some
                        &&& legal_moves_spec(board_of(n2[i].game_state@)).contains(
                            opt_move(n2[c].m),
                        )
                        &&& n2[c].game_state@ == state_move_spec(
                            n2[i].game_state@,
                            opt_move(n2[c].m),
                            None,
                        )
                    } by {
                        assert(old_nodes[i].children@[kk] == n2[i].children@[kk]);
                        assert(n2[i].children@[kk] < old_len);
                        let c0 = n2[i].children@[kk] as int;
                        assert(n2[c0].m == old_nodes[c0].m);
                        assert(n2[c0].game_state@ == old_nodes[c0].game_state@);
                    }
                    assert forall|t1: int| 0 <= t1 < n2[i].children@.len() implies n2[#[trigger] n2[i].children@[t1] as int].n
                        == old_nodes[n2[i].children@[t1] as int].n by {
                        assert(kids_ok(old_nodes, i));
                    }
                    lemma_kids_sum_congruent(n2, old_nodes, n2[i].children@);
                    assert forall|k1: int, k2: int|
                        0 <= k1 < k2 < n2[i].children@.len() implies opt_move(
                        n2[#[trigger] n2[i].children@[k1] as int].m,
                    ) != opt_move(n2[#[trigger] n2[i].children@[k2] as int].m) by {
                        assert(kid_moves_distinct(old_nodes, i));
                        assert(old_nodes[i].children@[k1] == n2[i].children@[k1]);
                        assert(old_nodes[i].children@[k2] == n2[i].children@[k2]);
                    }
                } else if i == lf {
                    assert(node_ok(old_nodes, lf, sims));
                    assert(n2[lf].n == old_nodes[lf].n);
                    assert forall|t1: int| 0 <= t1 < n2[lf].children@.len() implies n2[#[trigger] n2[lf].children@[t1] as int].n
                        == 0 by {
                        assert(n2[lf].children@[t1] == (old_len + t1) as usize);
                        assert(n2[old_len + t1].n == 0);
                    }
                    lemma_kids_sum_zero(n2, n2[lf].children@);
                    assert forall|kk: int| 0 <= kk < n2[lf].children@.len() implies {
                        let c = #[trigger] n2[lf].children@[kk] as int;
                        &&& lf < c < n2.len()
                        &&& n2[c].m is Some
                        &&& legal_moves_spec(board_of(n2[lf].game_state@)).contains(
                            opt_move(n2[c].m),
                        )
                        &&& n2[c].game_state@ == state_move_spec(
                            n2[lf].game_state@,
                            opt_move(n2[c].m),
                            None,
                        )
                    } by {
                        assert(n2[lf].children@[kk] == (old_len + kk) as usize);
                        let c = n2[lf].children@[kk] as int;
                        assert(c == old_len + kk);
                        assert(n2[old_len + kk].m == Some(legal@[kk]));
                        assert(legal@.contains(legal@[kk]));
                        assert(n2[lf].game_state@ == old_nodes[lf].game_state@);
                    }
                    assert forall|k1: int, k2: int|
                        0 <= k1 < k2 < n2[lf].children@.len() implies opt_move(
                        n2[#[trigger] n2[lf].children@[k1] as int].m,
                    ) != opt_move(n2[#[trigger] n2[lf].children@[k2] as int].m) by {
                        assert(n2[lf].children@[k1] == (old_len + k1) as usize);
                        assert(n2[lf].children@[k2] == (old_len + k2) as usize);
                        assert(opt_move(n2[old_len + k1].m) == legal@[k1]);
                        assert(opt_move(n2[old_len + k2].m) == legal@[k2]);
                        assert(crate::rules::types::move_key(legal@[k1])
                            < crate::rules::types::move_key(legal@[k2]));
                    }
                } else {
                    // a fresh child: unvisited, no children of its own
                    let kk = i - old_len;
                    assert(n2[old_len + kk].children@.len() == 0);
                    assert(n2[i].children@.len() == 0);
                    assert(kids_sum(n2, n2[i].children@) == 0);
                }
            }
            // every index still has at most one parent
            assert forall|i1: int, k1: int, i2: int, k2: int|
                0 <= i1 < n2.len() && 0 <= k1 < n2[i1].children@.len() && 0 <= i2 < n2.len() && 0
                    <= k2 < n2[i2].children@.len() && #[trigger] n2[i1].children@[k1]
                    == #[trigger] n2[i2].children@[k2] implies i1 == i2 && k1 == k2 by {
                if i1 < old_len && i1 != lf {
                    assert(pre[i1] == old_nodes[i1]);
                    assert(n2[i1] == pre[i1]);
                    assert(node_ok(old_nodes, i1, old(self).sims as int));
                    assert(kids_ok(old_nodes, i1));
                    assert(old_nodes[i1].children@[k1] < old_len);
                    assert(n2[i1].children@[k1] < old_len);
                } else if i1 == lf {
                    assert(n2[i1].children@[k1] == (old_len + k1) as usize);
                } else {
                    let kk = i1 - old_len;
                    assert(n2[old_len + kk].children@.len() == 0);
                }
                if i2 < old_len && i2 != lf {
                    assert(pre[i2] == old_nodes[i2]);
                    assert(n2[i2] == pre[i2]);
                    assert(node_ok(old_nodes, i2, old(self).sims as int));
                    assert(kids_ok(old_nodes, i2));
                    assert(old_nodes[i2].children@[k2] < old_len);
                    assert(n2[i2].children@[k2] < old_len);
                } else if i2 == lf {
                    assert(n2[i2].children@[k2] == (old_len + k2) as usize);
                } else {
                    let kk = i2 - old_len;
                    assert(n2[old_len + kk].children@.len() == 0);
                }
            }
        }
    }

    /// The visit-count weights `visits^tau` of the root's children, and
    /// their sum.
    #[verifier::loop_isolation(false)]
    fn child_weights(&self, tau: u32) -> (r: (Vec<u128>, u128))
        requires
            self.wf(),
            1 <= tau <= 10,
        ensures
            r.0@.len() == self.kids_count(self.root_index()),
            forall|k: int|
                0 <= k < r.0@.len() ==> r.0@[k] == pow(
                    self.nodes@[#[trigger] self.nodes@[self.root_index()].children@[k] as int].n
                        as int,
                    tau as nat,
                ),
            r.1 == kids_pow_sum(self.nodes@, self.nodes@[self.root_index()].children@, tau as nat),
            r.1 == sum_u128(r.0@),
    {
        let ghost ks = self.nodes@[self.root_index()].children@;
        let ghost full = kids_pow_sum(self.nodes@, ks, tau as nat);
        proof {
            assert(node_ok(self.nodes@, self.root_index(), self.sims as int));
            lemma_kids_sum_nonneg(self.nodes@, ks);
            lemma_kids_pow_sum_le(self.nodes@, ks, tau as nat);
            crate::arith::lemma_pow_base_monotone(
                kids_sum(self.nodes@, ks),
                SIM_CAP as int,
                tau as nat,
            );
            vstd::arithmetic::power::lemma_pow_increases(SIM_CAP as nat, tau as nat, 10);
            lemma_pow_sim_cap();
            lemma_kids_sum_nonneg(self.nodes@, ks);
            assert(full <= pow(SIM_CAP as int, 10));
            assert(ks.skip(0) =~= ks);
        }
        let num = self.nodes[self.root].children.len();
        let mut ws: Vec<u128> = Vec::new();
        let mut total: u128 = 0;
        let mut t: usize = 0;
        while t < num
            invariant
                t <= num,
                num == ks.len(),
                ws@.len() == t,
                forall|k: int|
                    0 <= k < t ==> ws@[k] == pow(
                        self.nodes@[#[trigger] ks[k] as int].n as int,
                        tau as nat,
                    ),
                total == sum_u128(ws@),
                total + kids_pow_sum(self.nodes@, ks.skip(t as int), tau as nat) == full,
                full <= pow(SIM_CAP as int, 10),
            decreases num - t,
        {
            proof {
                assert(ks.skip(t as int).drop_first() =~= ks.skip(t as int + 1));
                assert(ks.skip(t as int)[0] == ks[t as int]);
                assert(kids_ok(self.nodes@, self.root_index()));
                assert(ks[t as int] < self.nodes@.len());
                assert(node_ok(self.nodes@, ks[t as int] as int, self.sims as int));
                crate::arith::lemma_pow_base_monotone(
                    self.nodes@[ks[t as int] as int].n as int,
                    SIM_CAP as int,
                    tau as nat,
                );
                lemma_kids_pow_sum_nonneg(self.nodes@, ks.skip(t as int + 1), tau as nat);
                crate::arith::lemma_pow_nonneg(self.nodes@[ks[t as int] as int].n as int,
                    tau as nat);
            }
            let c = self.nodes[self.root].children[t];
            let w = pow_u128(self.nodes[c].n, tau);
            proof {
                lemma_sum_u128_push(ws@, w);
            }
            ws.push(w);
            total = total + w;
            t = t + 1;
        }
        proof {
            assert(ks.skip(num as int) =~= Seq::<usize>::empty());
        }
        (ws, total)
    }

    /// The visit distribution over the move space: the `k`-th child's
    /// weight at the cell of its move, zero everywhere else.
    #[verifier::loop_isolation(false)]
    #[verifier::rlimit(50)]
    fn make_pi(&self, ws: &Vec<u128>) -> (pi: Vec<u128>)
        requires
            self.wf(),
            ws@.len() == self.kids_count(self.root_index()),
        ensures
            pi@.len() == NUM_CELLS,
            sum_u128(pi@) == sum_u128(ws@),
            forall|k: int|
                0 <= k < ws@.len() ==> pi@[self.kid_move(self.root_index(), k).x + self.kid_move(
                    self.root_index(),
                    k,
                ).y * MOVE_WIDTH] == ws@[k],
            forall|j: int|
                0 <= j < NUM_CELLS && (forall|k: int|
                    0 <= k < ws@.len() ==> j != self.kid_move(self.root_index(), k).x
                        + self.kid_move(self.root_index(), k).y * MOVE_WIDTH) ==> pi@[j] == 0,
    {
        let ghost ks = self.nodes@[self.root_index()].children@;
        proof {
            assert(node_ok(self.nodes@, self.root_index(), self.sims as int));
            assert(kids_ok(self.nodes@, self.root_index()));
            assert forall|k: int| 0 <= k < ks.len() implies in_grid(
                self.kid_move(self.root_index(), k).x as int,
                self.kid_move(self.root_index(), k).y as int,
            ) by {
                assert(ks[k] < self.nodes@.len());
                let m = opt_move(self.nodes@[ks[k] as int].m);
                lemma_legal_moves_membership(
                    board_of(self.nodes@[self.root_index()].game_state@),
                    0,
                    m,
                );
            }
        }
        let num = self.nodes[self.root].children.len();
        let mut pi: Vec<u128> = zeroes_u128(NUM_CELLS);
        proof {
            lemma_sum_u128_zero(pi@);
            assert(sum_u128(ws@.take(0)) == 0);
        }
        let mut k: usize = 0;
        while k < num
            invariant
                k <= num,
                num == ks.len(),
                ws@.len() == num,
                pi@.len() == NUM_CELLS,
                sum_u128(pi@) == sum_u128(ws@.take(k as int)),
                forall|kk: int|
                    0 <= kk < k ==> pi@[self.kid_move(self.root_index(), kk).x + self.kid_move(
                        self.root_index(),
                        kk,
                    ).y * MOVE_WIDTH] == ws@[kk],
                forall|j: int|
                    0 <= j < NUM_CELLS && (forall|kk: int|
                        0 <= kk < k ==> j != self.kid_move(self.root_index(), kk).x
                            + self.kid_move(self.root_index(), kk).y * MOVE_WIDTH) ==> pi@[j] == 0,
            decreases num - k,
        {
            proof {
                assert(kids_ok(self.nodes@, self.root_index()));
                assert(self.nodes@[self.root_index()].children@[k as int]
                    < self.nodes@.len());
                assert(self.nodes@[ks[k as int] as int].m is Some);
            }
            let c = self.nodes[self.root].children[k];
            let mv = self.nodes[c].m.unwrap();
            proof {
                assert(mv == self.kid_move(self.root_index(), k as int));
                assert(in_grid(mv.x as int, mv.y as int));
            }
            let j = crate::constants::move_to_index((mv.x, mv.y));
            let ghost prev = pi@;
            proof {
                // the cell is still unclaimed: earlier children play
                // other moves, and distinct in-grid moves sit on
                // distinct cells
                assert(mv == self.kid_move(self.root_index(), k as int));
                assert forall|kk: int|
                    0 <= kk < k implies j != self.kid_move(self.root_index(), kk).x
                        + self.kid_move(self.root_index(), kk).y * MOVE_WIDTH by {
                    let m2 = self.kid_move(self.root_index(), kk);
                    assert(kid_moves_distinct(self.nodes@, self.root_index()));
                    assert(m2 != mv);
                    if j == m2.x + m2.y * MOVE_WIDTH {
                        vstd::arithmetic::div_mod::lemma_fundamental_div_mod_converse(
                            j as int,
                            MOVE_WIDTH as int,
                            m2.y as int,
                            m2.x as int,
                        );
                        vstd::arithmetic::div_mod::lemma_fundamental_div_mod_converse(
                            j as int,
                            MOVE_WIDTH as int,
                            mv.y as int,
                            mv.x as int,
                        );
                        assert(m2.x == mv.x && m2.y == mv.y);
                        assert(m2.p == 0 && mv.p == 0) by {
                            let root_board = board_of(
                                self.nodes@[self.root_index()].game_state@,
                            );
                            lemma_legal_moves_membership(root_board, 0, m2);
                            lemma_legal_moves_membership(root_board, 0, mv);
                        }
                    }
                }
                assert(pi@[j as int] == 0);
                lemma_sum_u128_update(pi@, j as int, ws@[k as int]);
                assert(ws@.take(k as int + 1) =~= ws@.take(k as int).push(ws@[k as int]));
                lemma_sum_u128_push(ws@.take(k as int), ws@[k as int]);
            }
            let w = ws[k];
            pi.set(j, w);
            k = k + 1;
        }
        proof {
            assert(ws@.take(num as int) =~= ws@);
        }
        pi
    }


    /// One simulation, as its own public step: select a leaf along the
    /// stable-argmax PUCT path, evaluate or expand it, and back the
    /// value up the whole path — everything `sim_step` states. In
    /// particular a terminal leaf adds no node and backs up its own
    /// shifted outcome; the predictor contributes only to non-terminal
    /// leaves. A predictor failure leaves the tree exactly as it was.
    #[verifier::loop_isolation(false)]
    #[verifier::rlimit(100)]
    pub fn simulate<P: Predictor>(&mut self, net: &P) -> (r: Result<(), PredictorError>)
        requires
            old(self).wf(),
            old(self).sims_done() < SIM_CAP,
            evaluate_spec(board_of(old(self).root_state())) == GameResult::NotFinished,
        ensures
            final(self).wf(),
            final(self).root_index() == old(self).root_index(),
            match r {
                Ok(u) => {
                    let r0 = old(self).root_index();
                    &&& final(self).sims_done() == old(self).sims_done() + 1
                    &&& exists|path: Seq<usize>, v: int|
                        #[trigger] sim_step(*old(self), *final(self), path, v)
                    &&& final(self).num_nodes() >= old(self).num_nodes()
                    &&& final(self).node_visits(r0) == old(self).node_visits(r0) + 1
                    &&& final(self).node_state(r0) == old(self).node_state(r0)
                    &&& final(self).kids_count(r0) > 0
                    &&& (old(self).kids_count(r0) > 0 ==> {
                        &&& final(self).kids_count(r0) == old(self).kids_count(r0)
                        &&& (forall|k: int|
                            0 <= k < old(self).kids_count(r0) ==> #[trigger] final(self).kid(r0, k)
                                == old(self).kid(r0, k))
                        &&& final(self).kids_visit_sum(r0) == old(self).kids_visit_sum(r0) + 1
                    })
                    &&& (old(self).kids_count(r0) == 0 ==> final(self).kids_visit_sum(r0) == 0)
                },
                Err(e) => *final(self) == *old(self),
            },
    {
        let ghost r0 = self.root_index();
        let ghost pre = *self;
        let ghost pre_sim = self.nodes@;
        let path = self.select_path();
        let leaf = path[path.len() - 1];
        proof {
            assert(node_ok(self.nodes@, leaf as int, self.sims as int));
            if self.nodes@[r0].children@.len() == 0 {
                // a childless root is its own leaf
                if path@.len() >= 2 {
                    assert(is_kid_of(self.nodes@, r0, path@[1] as int));
                    assert(false);
                }
                assert(leaf == self.root);
            } else {
                assert(path@.len() >= 2) by {
                    if path@.len() < 2 {
                        assert(self.nodes@[path@[0] as int].children@.len() == 0);
                    }
                }
                assert(leaf != self.root) by {
                    if leaf == self.root {
                        assert(path@[0] < path@[path@.len() - 1]);
                    }
                }
            }
        }
        let res = self.nodes[leaf].game_state.evaluate();
        let backup_val: u64;
        let ghost mut policy_ghost: Seq<u64> = Seq::empty();
        if res.has_ended() {
            let o = res.outcome_for_side(self.nodes[leaf].game_state.get_side());
            backup_val = ((o + 1) as u64) * SCALE;
            proof {
                assert(self.nodes@[r0].children@.len() > 0 ==> leaf != self.root);
                assert(leaf == self.root ==> res == evaluate_spec(
                    board_of(self.nodes@[r0].game_state@),
                ));
                assert(leaf != self.root);
                assert(backup_val == shifted_outcome(
                    res,
                    side_of(board_of(pre.node_state(leaf as int))),
                ));
            }
        } else {
            let output = match net.infer(&self.nodes[leaf].game_state) {
                Ok(o) => o,
                Err(e) => {
                    return Err(e);
                },
            };
            if output.policy.len() != NUM_CELLS {
                return Err(PredictorError);
            }
            proof {
                policy_ghost = output.policy@;
            }
            self.expand(leaf, &output.policy);
            let v = output.value;
            backup_val = if v >= SCALE as i64 {
                2 * SCALE
            } else if v <= -(SCALE as i64) {
                0
            } else {
                (v + SCALE as i64) as u64
            };
        }
        proof {
            // the chain survives the expansion: no list on the path
            // other than the leaf's own was touched, and the leaf is
            // the last element
            assert(is_chain(self.nodes@, r0, path@)) by {
                assert forall|j: int| 1 <= j < path@.len() implies is_kid_of(
                    self.nodes@,
                    path@[j - 1] as int,
                    #[trigger] path@[j] as int,
                ) by {
                    assert(is_kid_of(pre_sim, path@[j - 1] as int, path@[j] as int));
                    let kx = choose|kx: int|
                        0 <= kx < pre_sim[path@[j - 1] as int].children@.len()
                            && #[trigger] pre_sim[path@[j - 1] as int].children@[kx] == path@[j];
                    assert(path@[j - 1] < path@[j]);
                    assert(path@[j - 1] != leaf);
                    assert(self.nodes@[path@[j - 1] as int].children@ == pre_sim[path@[j
                        - 1] as int].children@);
                    assert(self.nodes@[path@[j - 1] as int].children@[kx] == path@[j]);
                }
            }
        }
        let ghost pre_backup = self.nodes@;
        proof {
            // at most one root child can lie on the path
            assert forall|ii: int| 0 <= ii < pre_backup.len() implies kids_ok(pre_backup, ii) by {
                assert(node_ok(pre_backup, ii, self.sims as int));
            }
            assert forall|j: int| 0 <= j < path@.len() implies #[trigger] path@[j]
                < pre_backup.len() by {}
            lemma_chain_hits_kids_once(pre_backup, r0, path@, r0);
        }
        self.backup(&path, backup_val);
        proof {
            let nodes2 = self.nodes@;
            let ks_now = nodes2[r0].children@;
            assert(path@.contains(path@[0]));
            assert(nodes2[r0].n == pre_backup[r0].n + 1);
            assert(pre_backup[r0].n == pre_sim[r0].n);
            assert(nodes2[r0].game_state@ == pre_sim[r0].game_state@);
            assert(ks_now == pre_backup[r0].children@);
            assert forall|t: int| 0 <= t < ks_now.len() implies nodes2[#[trigger] ks_now[t] as int].n
                == pre_backup[ks_now[t] as int].n + (
            if path@.contains(ks_now[t]) {
                1int
            } else {
                0int
            }) by {
                assert(kids_ok(pre_backup, r0));
                assert(ks_now[t] < pre_backup.len());
            }
            lemma_kids_sum_backup_exact(pre_backup, nodes2, ks_now, path@);
            if pre_sim[r0].children@.len() == 0 {
                // this simulation expanded the root itself: its fresh
                // children are unvisited and off the path
                assert(path@.len() == 1);
                assert forall|t: int| 0 <= t < ks_now.len() implies !path@.contains(
                    #[trigger] ks_now[t],
                ) by {
                    if path@.contains(ks_now[t]) {
                        let m = choose|m: int| 0 <= m < path@.len() && path@[m] == ks_now[t];
                        assert(m == 0);
                        assert(kids_ok(pre_backup, r0));
                        assert(r0 < ks_now[t]);
                    }
                }
                assert(!(exists|t: int|
                    0 <= t < ks_now.len() && path@.contains(#[trigger] ks_now[t])));
                assert(leaf as int == r0);
                assert(pre_backup.len() <= usize::MAX) by {
                    assert(self.nodes@.len() == self.nodes.len());
                    assert(self.nodes@.len() == pre_backup.len());
                }
                assert(pre_backup[r0].children@ =~= Seq::new(
                    (pre_backup.len() - pre_sim.len()) as nat,
                    |k: int| (pre_sim.len() + k) as usize,
                ));
                assert(pre_backup.len() == pre_sim.len() + ks_now.len());
                assert forall|t: int| 0 <= t < ks_now.len() implies pre_backup[#[trigger] ks_now[t] as int].n
                    == 0 by {
                    assert(ks_now[t] == (pre_sim.len() + t) as usize);
                    assert(pre_sim.len() + t < pre_backup.len());
                    assert(pre_backup[pre_sim.len() as int + t].n == 0);
                }
                lemma_kids_sum_zero(pre_backup, ks_now);
                assert(kids_sum(nodes2, ks_now) == 0);
                assert(ks_now.len() > 0);
            } else {
                // the path passes through exactly one root child
                assert(ks_now == pre_sim[r0].children@);
                assert(path@.len() >= 2);
                assert(is_kid_of(pre_backup, r0, path@[1] as int));
                let kx = choose|kx: int|
                    0 <= kx < pre_backup[r0].children@.len()
                        && #[trigger] pre_backup[r0].children@[kx] == path@[1];
                assert(path@.contains(path@[1]));
                assert(path@.contains(ks_now[kx]));
                assert(exists|t: int|
                    0 <= t < ks_now.len() && path@.contains(#[trigger] ks_now[t]));
                // the expansion left every listed visit count alone
                assert(node_ok(pre_sim, r0, old(self).sims as int));
                assert forall|t: int| 0 <= t < ks_now.len() implies pre_backup[#[trigger] ks_now[t] as int].n
                    == pre_sim[ks_now[t] as int].n by {
                    assert(kids_ok(pre_sim, r0));
                    assert(ks_now[t] < pre_sim.len());
                }
                lemma_kids_sum_congruent(pre_backup, pre_sim, ks_now);
                assert(kids_sum(nodes2, ks_now) == kids_sum(pre_sim, ks_now) + 1);
            }
        }
        proof {
            // assemble the public step statement
            let post = *self;
            let vint = backup_val as int;
            assert(pre.is_selection_path(path@));
            assert forall|j: int|
                #![trigger path@[j]]
                0 <= j < path@.len() implies {
                &&& post.node_visits(path@[j] as int) == pre.node_visits(path@[j] as int) + 1
                &&& post.node_value_sum(path@[j] as int) == pre.node_value_sum(path@[j] as int)
                    + vint
            } by {
                assert(path@[j] < pre_sim.len());
                assert(path@.contains(path@[j]));
                assert(pre_backup[path@[j] as int].n == pre_sim[path@[j] as int].n);
                assert(pre_backup[path@[j] as int].w == pre_sim[path@[j] as int].w);
                assert(self.nodes@[path@[j] as int].n == pre_backup[path@[j] as int].n + 1);
                assert(self.nodes@[path@[j] as int].w == pre_backup[path@[j] as int].w
                    + backup_val);
            }
            assert forall|i: int|
                #![trigger post.node_visits(i)]
                0 <= i < pre.num_nodes() && !path@.contains(i as usize) implies {
                &&& post.node_visits(i) == pre.node_visits(i)
                &&& post.node_value_sum(i) == pre.node_value_sum(i)
            } by {
                assert(pre_backup[i].n == pre_sim[i].n);
                assert(pre_backup[i].w == pre_sim[i].w);
                assert(self.nodes@[i].n == pre_backup[i].n);
                assert(self.nodes@[i].w == pre_backup[i].w);
                assert(post.nodes@[i].n == self.nodes@[i].n);
            }
            assert forall|i: int|
                #![trigger post.node_state(i)]
                0 <= i < pre.num_nodes() implies {
                &&& post.node_state(i) == pre.node_state(i)
                &&& post.node_prior(i) == pre.node_prior(i)
                &&& post.node_move(i) == pre.node_move(i)
                &&& (i != leaf ==> post.kids_count(i) == pre.kids_count(i) && (forall|k: int|
                    0 <= k < pre.kids_count(i) ==> #[trigger] post.kid(i, k) == pre.kid(i, k)))
            } by {
                assert(pre_backup[i].game_state@ == pre_sim[i].game_state@);
                assert(pre_backup[i].p == pre_sim[i].p);
                assert(pre_backup[i].m == pre_sim[i].m);
                assert(self.nodes@[i].game_state@ == pre_backup[i].game_state@);
                assert(self.nodes@[i].p == pre_backup[i].p);
                assert(self.nodes@[i].m == pre_backup[i].m);
                if i != leaf {
                    assert(pre_backup[i].children@ == pre_sim[i].children@);
                    assert(self.nodes@[i].children@ == pre_backup[i].children@);
                    assert(post.nodes@[i].children@ == pre_sim[i].children@);
                }
            }
            if res != GameResult::NotFinished {
                assert(post.num_nodes() == pre.num_nodes());
                assert(post.kids_count(leaf as int) == 0);
                assert(vint == shifted_outcome(
                    evaluate_spec(board_of(pre.node_state(leaf as int))),
                    side_of(board_of(pre.node_state(leaf as int))),
                ));
            } else {
                let legal = legal_moves_spec(board_of(pre.node_state(leaf as int)));
                assert(post.num_nodes() == pre.num_nodes() + legal.len());
                assert(post.kids_count(leaf as int) == legal.len());
                assert(pre_backup.len() <= usize::MAX) by {
                    assert(self.nodes@.len() == self.nodes.len());
                    assert(self.nodes@.len() == pre_backup.len());
                }
                assert(pre_backup[leaf as int].children@ =~= Seq::new(
                    (pre_backup.len() - pre_sim.len()) as nat,
                    |k: int| (pre_sim.len() + k) as usize,
                ));
                assert forall|k: int| 0 <= k < legal.len() implies {
                    &&& #[trigger] post.kid(leaf as int, k) == pre.num_nodes() + k
                    &&& post.node_move(pre.num_nodes() + k) == Some(legal[k])
                    &&& post.node_state(pre.num_nodes() + k) == state_move_spec(
                        pre.node_state(leaf as int),
                        legal[k],
                        None,
                    )
                    &&& post.node_visits(pre.num_nodes() + k) == 0
                    &&& 0 <= post.node_prior(pre.num_nodes() + k) <= SCALE
                } by {
                    assert(self.nodes@[leaf as int].children@ == pre_backup[leaf as int].children@);
                    assert(post.nodes@[leaf as int].children@[k] == pre_backup[leaf as int].children@[k]);
                    assert(pre_backup[leaf as int].children@[k] == (pre_sim.len() + k) as usize);
                    assert(pre_backup.len() <= usize::MAX) by {
                        assert(self.nodes@.len() == self.nodes.len());
                        assert(self.nodes@.len() == pre_backup.len());
                    }
                    assert(!path@.contains((pre_sim.len() + k) as usize)) by {
                        if path@.contains((pre_sim.len() + k) as usize) {
                            let m = choose|m: int|
                                0 <= m < path@.len() && path@[m] == (pre_sim.len() + k) as usize;
                            assert(path@[m] < pre_sim.len());
                        }
                    }
                    assert(pre_backup[pre_sim.len() as int + k].n == 0);
                    assert(pre_backup[pre_sim.len() as int + k].m == Some(legal[k]));
                    // the child-state link comes from the arena invariant
                    assert(kids_ok(pre_backup, leaf as int));
                    assert(opt_move(pre_backup[pre_sim.len() as int + k].m) == legal[k]);
                    assert(pre_backup[leaf as int].game_state@ == pre_sim[leaf as int].game_state@);
                    assert(pre_backup[pre_sim.len() as int + k].game_state@ == state_move_spec(
                        pre_sim[leaf as int].game_state@,
                        legal[k],
                        None,
                    ));
                    assert(self.nodes@[pre_sim.len() as int + k].game_state@ == pre_backup[pre_sim.len() as int
                        + k].game_state@);
                    assert(self.nodes@[pre_sim.len() as int + k].p == pre_backup[pre_sim.len() as int
                        + k].p);
                    assert(node_ok(self.nodes@, pre_sim.len() as int + k, self.sims as int));
                }
                assert(exists|policy: Seq<u64>|
                    policy.len() == NUM_CELLS && (forall|k: int|
                        0 <= k < legal.len() ==> post.node_prior(pre.num_nodes() + k)
                            == #[trigger] prior_spec(policy, legal, k))) by {
                    assert forall|k: int| 0 <= k < legal.len() implies post.node_prior(
                        pre.num_nodes() + k,
                    ) == #[trigger] prior_spec(policy_ghost, legal, k) by {
                        assert(pre_backup[pre_sim.len() as int + k].p == prior_spec(
                            policy_ghost,
                            legal,
                            k,
                        ));
                    }
                }
            }
            assert(sim_step(pre, post, path@, vint));
            assert(exists|path2: Seq<usize>, v2: int|
                #[trigger] sim_step(pre, post, path2, v2));
            // the root-focused accounting, as the callers track it
            assert(post.node_visits(r0) == pre.node_visits(r0) + 1);
            assert(post.node_state(r0) == pre.node_state(r0));
            if pre.kids_count(r0) > 0 {
                assert(post.kids_count(r0) == pre.kids_count(r0));
                assert forall|k: int| 0 <= k < pre.kids_count(r0) implies #[trigger] post.kid(
                    r0,
                    k,
                ) == pre.kid(r0, k) by {}
                assert(post.kids_visit_sum(r0) == pre.kids_visit_sum(r0) + 1);
            } else {
                assert(post.kids_visit_sum(r0) == 0);
                assert(post.kids_count(r0) > 0);
            }
        }
        Ok(())
    }

    /// The simulation phase of one move decision: `NUM_SEARCH` rounds
    /// of select, evaluate or expand, and back up. The root gains one
    /// visit per simulation; its children together gain one per
    /// simulation except the one, if any, that had to expand a childless
    /// root (that simulation ends at the root itself).
    #[verifier::loop_isolation(false)]
    #[verifier::rlimit(100)]
    fn run_simulations<P: Predictor>(&mut self, net: &P) -> (r: Result<(), PredictorError>)
        requires
            old(self).wf(),
            old(self).sims_done() + NUM_SEARCH <= SIM_CAP,
            evaluate_spec(board_of(old(self).root_state())) == GameResult::NotFinished,
        ensures
            final(self).wf(),
            final(self).root_index() == old(self).root_index(),
            final(self).root_state() == old(self).root_state(),
            final(self).nodes@.len() >= old(self).nodes@.len(),
            match r {
                Ok(u) => {
                    let r0 = old(self).root_index();
                    &&& final(self).sims_done() == old(self).sims_done() + NUM_SEARCH
                    &&& final(self).node_visits(r0) == old(self).node_visits(r0) + NUM_SEARCH
                    &&& final(self).kids_count(r0) > 0
                    &&& (old(self).kids_count(r0) > 0 ==> final(self).nodes@[r0].children@ == old(
                        self,
                    ).nodes@[r0].children@)
                    &&& final(self).kids_visit_sum(r0) == old(self).kids_visit_sum(r0) + NUM_SEARCH
                        - (if old(self).kids_count(r0) == 0 {
                        1int
                    } else {
                        0int
                    })
                },
                Err(e) => final(self).sims_done() <= old(self).sims_done() + NUM_SEARCH,
            },
    {
        let ghost r0 = self.root_index();
        let ghost had_kids = self.nodes@[r0].children@.len() > 0;
        let ghost old_ksum = kids_sum(self.nodes@, self.nodes@[r0].children@);
        proof {
            if !had_kids {
                assert(old_ksum == 0);
            }
        }
        let mut sim: usize = 0;
        while sim < NUM_SEARCH
            invariant
                sim <= NUM_SEARCH,
                self.wf(),
                self.root == old(self).root,
                r0 == self.root_index(),
                self.nodes@.len() >= old(self).nodes@.len(),
                self.sims == old(self).sims + sim,
                self.nodes@[r0].game_state@ == old(self).nodes@[r0].game_state@,
                self.nodes@[r0].n == old(self).nodes@[r0].n + sim,
                had_kids ==> self.nodes@[r0].children@ == old(self).nodes@[r0].children@,
                had_kids ==> kids_sum(self.nodes@, self.nodes@[r0].children@) == old_ksum + sim,
                !had_kids && sim == 0 ==> self.nodes@[r0].children@.len() == 0,
                !had_kids && sim >= 1 ==> self.nodes@[r0].children@.len() > 0 && kids_sum(
                    self.nodes@,
                    self.nodes@[r0].children@,
                ) == sim - 1,
            decreases NUM_SEARCH - sim,
        {
            let ghost pre = *self;
            match self.simulate(net) {
                Ok(u) => {},
                Err(e) => {
                    return Err(e);
                },
            }
            proof {
                // map the step's public accounting onto the tracked facts
                assert(self.root_index() == pre.root_index());
                assert(self.root == pre.root);
                assert(self.nodes@[r0].game_state@ == pre.nodes@[r0].game_state@);
                assert(self.nodes@[r0].n == pre.nodes@[r0].n + 1);
                if pre.kids_count(r0) > 0 {
                    assert(self.nodes@[r0].children@ =~= pre.nodes@[r0].children@) by {
                        assert forall|k: int|
                            0 <= k < pre.kids_count(r0) implies #[trigger] self.nodes@[r0].children@[k]
                            == pre.nodes@[r0].children@[k] by {
                            assert(self.kid(r0, k) == pre.kid(r0, k));
                        }
                    }
                    assert(kids_sum(self.nodes@, self.nodes@[r0].children@) == kids_sum(
                        pre.nodes@,
                        pre.nodes@[r0].children@,
                    ) + 1);
                } else {
                    assert(self.kids_visit_sum(r0) == 0);
                    assert(self.kids_count(r0) > 0);
                }
            }
            sim = sim + 1;
        }
        proof {
            lemma_kids_sum_nonneg(old(self).nodes@, old(self).nodes@[r0].children@);
            if old(self).kids_count(r0) == 0 {
                assert(old(self).kids_visit_sum(r0) == 0);
            }
        }
        Ok(())
    }

    /// One full move decision: `NUM_SEARCH` rounds of `simulate` — whose
    /// own contract pins the stable-argmax selection, the terminal-leaf
    /// outcome backup and the expansion, see `sim_step` — then samples a
    /// move from the children's visit counts raised to the configured
    /// exponent, re-roots the tree at the chosen child (keeping its
    /// subtree) and abandons its siblings.
    ///
    /// Visit accounting: the root gains exactly `NUM_SEARCH` visits and
    /// its children together gain `NUM_SEARCH`, less one when the root
    /// had no children yet — that one simulation ends at the root
    /// itself and expands it.
    ///
    /// A predictor failure is returned as the error and aborts the move
    /// decision; the tree stays well-formed and keeps its root.
    #[verifier::loop_isolation(false)]
    #[verifier::rlimit(100)]
    pub fn search<P: Predictor>(&mut self, net: &P, play_stochastically: bool) -> (r: Result<
        MCTSOutput,
        PredictorError,
    >)
        requires
            old(self).wf(),
            old(self).sims_done() + NUM_SEARCH <= SIM_CAP,
            evaluate_spec(board_of(old(self).root_state())) == GameResult::NotFinished,
        ensures
            final(self).wf(),
            match r {
                Ok(out) => {
                    let r0 = old(self).root_index();
                    let tau = (if play_stochastically {
                        EXPLORE_EXP
                    } else {
                        GREEDY_EXP
                    }) as nat;
                    &&& final(self).sims_done() == old(self).sims_done() + NUM_SEARCH
                    &&& final(self).node_visits(r0) == old(self).node_visits(r0) + NUM_SEARCH
                    &&& final(self).kids_visit_sum(r0) == old(self).kids_visit_sum(r0) + NUM_SEARCH
                        - (if old(self).kids_count(r0) == 0 {
                        1int
                    } else {
                        0int
                    })
                    &&& legal_moves_spec(board_of(old(self).root_state())).contains(out.best_move)
                    &&& final(self).root_state() == state_move_spec(
                        old(self).root_state(),
                        out.best_move,
                        None,
                    )
                    &&& exists|k: int|
                        0 <= k < final(self).kids_count(r0) && final(self).root_index()
                            == #[trigger] final(self).kid(r0, k) && out.best_move == final(self).kid_move(r0, k) && final(self).node_visits(final(self).kid(r0, k)) > 0
                    &&& out.pi@.len() == NUM_CELLS
                    &&& out.pi_total == sum_u128(out.pi@)
                    &&& out.pi_total > 0
                    &&& out.pi_total == final(self).kids_pow_visit_sum(r0, tau)
                    &&& forall|k: int|
                        0 <= k < final(self).kids_count(r0) ==> out.pi@[#[trigger] final(self).kid_move(r0, k).x + final(self).kid_move(r0, k).y * MOVE_WIDTH] == pow(
                            final(self).node_visits(final(self).kid(r0, k)),
                            tau,
                        )
                    &&& forall|j: int|
                        0 <= j < NUM_CELLS && (forall|k: int|
                            0 <= k < final(self).kids_count(r0) ==> j != #[trigger] final(self).kid_move(r0, k).x + final(self).kid_move(r0, k).y * MOVE_WIDTH)
                            ==> out.pi@[j] == 0
                    &&& out.pi@[out.best_move.x + out.best_move.y * MOVE_WIDTH] > 0
                },
                Err(_) => {
                    &&& final(self).sims_done() <= old(self).sims_done() + NUM_SEARCH
                    &&& final(self).root_index() == old(self).root_index()
                    &&& final(self).root_state() == old(self).root_state()
                },
            },
    {
        let ghost r0 = self.root_index();
        match self.run_simulations(net) {
            Ok(u) => {},
            Err(e) => {
                return Err(e);
            },
        }
        let tau = if play_stochastically {
            EXPLORE_EXP
        } else {
            GREEDY_EXP
        };
        proof {
            lemma_kids_sum_nonneg(old(self).nodes@, old(self).nodes@[r0].children@);
            assert(kids_sum(self.nodes@, self.nodes@[r0].children@) > 0);
        }
        let (ws, total) = self.child_weights(tau);
        proof {
            lemma_kids_pow_sum_pos(self.nodes@, self.nodes@[r0].children@, tau as nat);
        }
        let pi = self.make_pi(&ws);
        let kidx = sample_weighted(&ws, total);
        proof {
            assert(node_ok(self.nodes@, r0, self.sims as int));
            assert(kids_ok(self.nodes@, r0));
            assert(self.nodes@[r0].children@[kidx as int] < self.nodes@.len());
        }
        let new_root = self.nodes[self.root].children[kidx];
        proof {
            assert(self.nodes@[new_root as int].m is Some);
        }
        let best_move = self.nodes[new_root].m.unwrap();
        let ghost mid = *self;
        proof {
            // the two distribution clauses, settled before re-rooting
            assert(forall|k: int|
                0 <= k < mid.kids_count(r0) ==> pi@[#[trigger] mid.kid_move(r0, k).x
                    + mid.kid_move(r0, k).y * MOVE_WIDTH] == pow(
                    mid.node_visits(mid.kid(r0, k)),
                    tau as nat,
                ));
            assert(forall|j: int|
                0 <= j < NUM_CELLS && (forall|k: int|
                    0 <= k < mid.kids_count(r0) ==> j != #[trigger] mid.kid_move(r0, k).x
                        + mid.kid_move(r0, k).y * MOVE_WIDTH) ==> pi@[j] == 0);
        }
        self.root = new_root;
        proof {
            assert(self.nodes@ == mid.nodes@);
            assert(self.sims == mid.sims);
            assert(self.kids_count(r0) == mid.kids_count(r0));
            assert forall|k: int| 0 <= k < self.kids_count(r0) implies #[trigger] self.kid(r0, k)
                == mid.kid(r0, k) && self.kid_move(r0, k) == mid.kid_move(r0, k)
                && self.node_visits(self.kid(r0, k)) == mid.node_visits(mid.kid(r0, k)) by {}
            assert(self.kids_pow_visit_sum(r0, tau as nat) == mid.kids_pow_visit_sum(
                r0,
                tau as nat,
            ));
            assert forall|k: int|
                0 <= k < self.kids_count(r0) implies pi@[#[trigger] self.kid_move(r0, k).x
                    + self.kid_move(r0, k).y * MOVE_WIDTH] == pow(
                self.node_visits(self.kid(r0, k)),
                tau as nat,
            ) by {
                assert(pi@[mid.kid_move(r0, k).x + mid.kid_move(r0, k).y * MOVE_WIDTH] == pow(
                    mid.node_visits(mid.kid(r0, k)),
                    tau as nat,
                ));
            }
            assert forall|j: int|
                0 <= j < NUM_CELLS && (forall|k: int|
                    0 <= k < self.kids_count(r0) ==> j != #[trigger] self.kid_move(r0, k).x
                        + self.kid_move(r0, k).y * MOVE_WIDTH) implies pi@[j] == 0 by {
                if forall|k: int|
                    0 <= k < self.kids_count(r0) ==> j != #[trigger] self.kid_move(r0, k).x
                        + self.kid_move(r0, k).y * MOVE_WIDTH {
                    assert forall|k: int| 0 <= k < mid.kids_count(r0) implies j
                        != #[trigger] mid.kid_move(r0, k).x + mid.kid_move(r0, k).y * MOVE_WIDTH by {
                        assert(j != self.kid_move(r0, k).x + self.kid_move(r0, k).y * MOVE_WIDTH);
                    }
                }
            }
            assert(self.wf());
            let tau_n = tau as nat;
            assert(self.kid(r0, kidx as int) == new_root as int);
            assert(self.kid_move(r0, kidx as int) == best_move);
            // the chosen child carries a legal move of the old root
            // state and the state that move leads to
            assert(legal_moves_spec(board_of(self.nodes@[r0].game_state@)).contains(best_move));
            assert(self.nodes@[new_root as int].game_state@ == state_move_spec(
                self.nodes@[r0].game_state@,
                best_move,
                None,
            ));
            // a zero-weight child cannot have been sampled
            if self.nodes@[new_root as int].n == 0 {
                vstd::arithmetic::power::lemma0_pow(tau_n);
                assert(ws@[kidx as int] == 0);
                assert(false);
            }
            assert(self.node_visits(self.kid(r0, kidx as int)) > 0);
            // the committed move's cell holds a positive weight
            assert(pi@[best_move.x + best_move.y * MOVE_WIDTH] == ws@[kidx as int]);
            // each postcondition clause, spelled out
            assert(old(self).root_state() == self.nodes@[r0].game_state@);
            assert(self.sims_done() == old(self).sims_done() + NUM_SEARCH);
            assert(self.node_visits(r0) == old(self).node_visits(r0) + NUM_SEARCH);
            assert(self.kids_visit_sum(r0) == old(self).kids_visit_sum(r0) + NUM_SEARCH - (
            if old(self).kids_count(r0) == 0 {
                1int
            } else {
                0int
            }));
            assert(legal_moves_spec(board_of(old(self).root_state())).contains(best_move));
            assert(self.root_state() == state_move_spec(old(self).root_state(), best_move, None));
            assert(exists|k: int|
                0 <= k < self.kids_count(r0) && self.root_index() == #[trigger] self.kid(r0, k)
                    && best_move == self.kid_move(r0, k) && self.node_visits(self.kid(r0, k)) > 0);
            assert(pi@.len() == NUM_CELLS);
            assert(total == sum_u128(pi@));
            assert(total > 0);
            assert(total == self.kids_pow_visit_sum(r0, tau as nat));
            assert(forall|k: int|
                0 <= k < self.kids_count(r0) ==> pi@[#[trigger] self.kid_move(r0, k).x
                    + self.kid_move(r0, k).y * MOVE_WIDTH] == pow(
                    self.node_visits(self.kid(r0, k)),
                    tau as nat,
                ));
            assert(forall|j: int|
                0 <= j < NUM_CELLS && (forall|k: int|
                    0 <= k < self.kids_count(r0) ==> j != #[trigger] self.kid_move(r0, k).x
                        + self.kid_move(r0, k).y * MOVE_WIDTH) ==> pi@[j] == 0);
            assert(pi@[best_move.x + best_move.y * MOVE_WIDTH] > 0);
        }
        Ok(MCTSOutput { best_move, pi, pi_total: total })
    }

    /// The number of times the current root has been visited.
    pub fn root_visits(&self) -> (r: u64)
        requires
            self.wf(),
        ensures
            r == self.node_visits(self.root_index()),
    {
        self.nodes[self.root].n
    }

    /// How many children the current root has.
    pub fn root_children_count(&self) -> (r: usize)
        requires
            self.wf(),
        ensures
            r == self.kids_count(self.root_index()),
    {
        self.nodes[self.root].children.len()
    }
}

} // verus!
