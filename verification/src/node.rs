//! One vertex of the search tree: a position snapshot, visit and reward
//! statistics, and parent/child linkage expressed as arena indices.

use vstd::prelude::*;
use vstd::arithmetic::div_mod::{
    lemma_div_is_ordered,
    lemma_div_multiples_vanish,
    lemma_div_nonincreasing,
    lemma_div_pos_is_pos,
};
use crate::arena::Arena;
use crate::num::{
    isqrt,
    lemma_log2_floor_34,
    lemma_log2_floor_nonneg,
    lemma_sqrt_floor_props,
    log2_floor,
    log2_floor_u64,
    q_fp_spec,
    sqrt_floor,
    LN2_FP,
};
use crate::state::State;
use crate::{C_MAX, SCALE, VISITS_CAP};

verus! {

/// One search-tree node.
pub struct Node<S: State> {
    /// The game position this node stands for.
    pub state: S,
    /// The action that produced the position (a placeholder for the root,
    /// which no action produced).
    pub action: S::Action,
    /// Arena index of the parent; `None` only for the root.
    pub parent: Option<usize>,
    /// Arena indices of the children; empty until the node is expanded.
    pub children: Vec<usize>,
    /// Number of rollouts whose outcome flowed through this node.
    pub n: u64,
    /// Sum of those rollouts' rewards, sign-adjusted per tree level.
    pub reward_sum: i64,
    /// Stored fixed-point mean reward `⌊reward_sum · SCALE / n⌋`;
    /// 0 before the first visit.
    pub q_fp: i64,
}

/// The fixed-point UCB score of a node with totals `rs` over `n` visits,
/// under a parent with `parent_n` visits and exploration constant `c_fp`
/// (both scaled by [`crate::SCALE`]).
///
/// An unvisited node scores `u64::MAX`, standing in for +infinity, so it is
/// preferred over every visited sibling. A visited node scores its mean
/// shifted up by one reward unit (so the score is never negative; the shift
/// is the same for all siblings and cannot change which of them is best)
/// plus the exploration bonus `c · sqrt(ln(parent_n) / n)`, evaluated in
/// fixed point with `ln` rounded to whole powers of two.
pub open spec fn ucb_fp_spec(rs: int, n: int, parent_n: int, c_fp: int) -> int {
    if n == 0 {
        u64::MAX as int
    } else {
        q_fp_spec(rs, n) + SCALE + (c_fp * sqrt_floor((log2_floor(parent_n) * LN2_FP * SCALE) / n))
            / (SCALE as int)
    }
}

/// The UCB score of the child at position `j` of `children`.
pub open spec fn child_score<S: State>(
    nodes: Seq<Node<S>>,
    children: Seq<usize>,
    j: int,
    parent_n: int,
    c_fp: int,
) -> int {
    ucb_fp_spec(
        nodes[children[j] as int].reward_sum as int,
        nodes[children[j] as int].n as int,
        parent_n,
        c_fp,
    )
}

/// Position (within `children`) of the first highest-scoring child among the
/// first `upto` children: later children must score strictly higher to
/// displace an earlier one.
pub open spec fn best_child_in_prefix<S: State>(
    nodes: Seq<Node<S>>,
    children: Seq<usize>,
    parent_n: int,
    c_fp: int,
    upto: int,
) -> int
    decreases upto,
{
    if upto <= 1 {
        0
    } else {
        let b = best_child_in_prefix(nodes, children, parent_n, c_fp, upto - 1);
        if child_score(nodes, children, upto - 1, parent_n, c_fp) > child_score(
            nodes,
            children,
            b,
            parent_n,
            c_fp,
        ) {
            upto - 1
        } else {
            b
        }
    }
}

/// The first highest-scoring prefix position is in range, no child in the
/// prefix beats it, and every earlier child scores strictly lower.
pub proof fn lemma_best_child_in_prefix<S: State>(
    nodes: Seq<Node<S>>,
    children: Seq<usize>,
    parent_n: int,
    c_fp: int,
    upto: int,
)
    requires
        1 <= upto,
    ensures
        0 <= best_child_in_prefix(nodes, children, parent_n, c_fp, upto) < upto,
        forall|j: int|
            0 <= j < upto ==> #[trigger] child_score(nodes, children, j, parent_n, c_fp)
                <= child_score(
                nodes,
                children,
                best_child_in_prefix(nodes, children, parent_n, c_fp, upto),
                parent_n,
                c_fp,
            ),
        forall|j: int|
            0 <= j < best_child_in_prefix(nodes, children, parent_n, c_fp, upto)
                ==> #[trigger] child_score(nodes, children, j, parent_n, c_fp) < child_score(
                nodes,
                children,
                best_child_in_prefix(nodes, children, parent_n, c_fp, upto),
                parent_n,
                c_fp,
            ),
    decreases upto,
{
    if upto > 1 {
        lemma_best_child_in_prefix(nodes, children, parent_n, c_fp, upto - 1);
    }
}

/// The arena index of `node`'s best child under the UCB rule.
pub open spec fn best_child_spec<S: State>(nodes: Seq<Node<S>>, node: Node<S>, c_fp: int) -> int {
    node.children@[best_child_in_prefix(
        nodes,
        node.children@,
        node.n as int,
        c_fp,
        node.children@.len() as int,
    )] as int
}

impl<S: State> Node<S> {
    /// Statistics sanity: the reward sum is bounded by the visit count, the
    /// visit count is within the engine's cap, and the stored mean agrees
    /// with the totals.
    pub open spec fn stats_wf(self) -> bool {
        &&& -(self.n as int) <= self.reward_sum as int <= self.n as int
        &&& self.n <= VISITS_CAP
        &&& self.q_fp == q_fp_spec(self.reward_sum as int, self.n as int)
    }

    /// A fresh, unvisited node.
    pub fn new(state: S, action: S::Action, parent: Option<usize>) -> (r: Node<S>)
        ensures
            r.state == state,
            r.action == action,
            r.parent == parent,
            r.children@.len() == 0,
            r.n == 0,
            r.reward_sum == 0,
            r.q_fp == 0,
            r.stats_wf(),
    {
        Node { state, action, parent, children: Vec::new(), n: 0, reward_sum: 0, q_fp: 0 }
    }

    /// Whether the node has not been expanded yet.
    pub fn is_leaf(&self) -> (r: bool)
        ensures
            r == (self.children@.len() == 0),
    {
        self.children.len() == 0
    }

    /// The node's UCB score under a parent with `parent_n` visits.
    pub fn ucb(&self, parent_n: u64, c_fp: u64) -> (r: u64)
        requires
            self.stats_wf(),
            parent_n <= VISITS_CAP,
            c_fp <= C_MAX,
        ensures
            r == ucb_fp_spec(self.reward_sum as int, self.n as int, parent_n as int, c_fp as int),
    {
        if self.n == 0 {
            return u64::MAX;
        }
        proof {
            lemma_q_fp_bounds(self.reward_sum as int, self.n as int);
        }
        let q_off: u64 = (self.q_fp + SCALE as i64) as u64;
        let lg: u64 = log2_floor_u64(parent_n);
        let lnp: u64 = lg * LN2_FP;
        proof {
            lemma_div_nonincreasing(lnp as int * SCALE, self.n as int);
        }
        let arg: u64 = (lnp * SCALE) / self.n;
        let root: u64 = isqrt(arg);
        proof {
            assert(c_fp * root < 0x4000_0000_0000_0000) by (nonlinear_arith)
                requires
                    c_fp <= C_MAX,
                    root < 0x100_0000,
            ;
            lemma_div_nonincreasing(c_fp as int * root, SCALE as int);
        }
        let explore: u64 = (c_fp * root) / SCALE;
        q_off + explore
    }

    /// The arena index of the child with the highest UCB score; earlier
    /// children win ties.
    pub fn get_best_child(&self, arena: &Arena<S>, c_fp: u64) -> (r: usize)
        requires
            self.children@.len() > 0,
            forall|j: int|
                0 <= j < self.children@.len() ==> self.children@[j] < arena.nodes@.len(),
            forall|j: int|
                0 <= j < self.children@.len() ==> arena.nodes@[self.children@[j] as int].stats_wf(),
            self.n <= VISITS_CAP,
            c_fp <= C_MAX,
        ensures
            r == best_child_spec(arena.nodes@, *self, c_fp as int),
            self.children@.contains(r),
    {
        let ghost nodes = arena.nodes@;
        let ghost cs = self.children@;
        let mut best: usize = self.children[0];
        let mut best_score: u64 = arena.get_node(best).ucb(self.n, c_fp);
        let mut j: usize = 1;
        while j < self.children.len()
            invariant
                1 <= j <= cs.len(),
                cs.len() == self.children@.len(),
                cs == self.children@,
                nodes == arena.nodes@,
                forall|i: int| 0 <= i < cs.len() ==> cs[i] < nodes.len(),
                forall|i: int| 0 <= i < cs.len() ==> nodes[cs[i] as int].stats_wf(),
                self.n <= VISITS_CAP,
                c_fp <= C_MAX,
                best == cs[best_child_in_prefix(nodes, cs, self.n as int, c_fp as int, j as int)],
                best_score == child_score(
                    nodes,
                    cs,
                    best_child_in_prefix(nodes, cs, self.n as int, c_fp as int, j as int),
                    self.n as int,
                    c_fp as int,
                ),
            decreases cs.len() - j,
        {
            proof {
                lemma_best_child_in_prefix(nodes, cs, self.n as int, c_fp as int, j as int);
            }
            let c: usize = self.children[j];
            let s: u64 = arena.get_node(c).ucb(self.n, c_fp);
            if s > best_score {
                best = c;
                best_score = s;
            }
            j = j + 1;
        }
        proof {
            lemma_best_child_in_prefix(nodes, cs, self.n as int, c_fp as int, cs.len() as int);
        }
        best
    }
}

/// Unvisited-first guarantee: the UCB score of an unvisited node exceeds
/// that of any visited sibling, whatever the sibling's statistics, for every
/// accepted exploration constant and parent visit count.
pub proof fn lemma_unvisited_first(rs0: int, rs: int, n: int, parent_n: int, c_fp: int)
    requires
        1 <= n <= VISITS_CAP,
        -n <= rs <= n,
        0 <= parent_n <= VISITS_CAP,
        0 <= c_fp <= C_MAX,
    ensures
        ucb_fp_spec(rs0, 0, parent_n, c_fp) > ucb_fp_spec(rs, n, parent_n, c_fp),
{
    lemma_q_fp_bounds(rs, n);
    lemma_log2_floor_nonneg(parent_n);
    lemma_log2_floor_34(parent_n);
    let lnv = log2_floor(parent_n) * LN2_FP;
    assert(0 <= lnv <= 34 * 693147);
    let arg = (lnv * SCALE) / n;
    lemma_div_pos_is_pos(lnv * (SCALE as int), n);
    lemma_div_nonincreasing(lnv * (SCALE as int), n);
    assert(0 <= arg < 0x1_0000_0000_0000);
    let s = sqrt_floor(arg);
    lemma_sqrt_floor_props(arg);
    assert(s < 0x100_0000) by (nonlinear_arith)
        requires
            0 <= s,
            s * s <= arg,
            arg < 0x1_0000_0000_0000,
    ;
    assert(c_fp * s <= C_MAX * 0x100_0000) by (nonlinear_arith)
        requires
            0 <= c_fp <= C_MAX,
            0 <= s <= 0x100_0000,
    ;
    lemma_div_pos_is_pos(c_fp * s, SCALE as int);
    lemma_div_nonincreasing(c_fp * s, SCALE as int);
    assert(ucb_fp_spec(rs, n, parent_n, c_fp) <= SCALE + SCALE + C_MAX * 0x100_0000);
}

/// The stored fixed-point mean of a visited node lies between losing and
/// winning every rollout.
pub proof fn lemma_q_fp_bounds(rs: int, n: int)
    requires
        1 <= n,
        -n <= rs <= n,
    ensures
        -(SCALE as int) <= q_fp_spec(rs, n) <= SCALE,
{
    lemma_div_is_ordered(-n * (SCALE as int), rs * SCALE, n);
    lemma_div_is_ordered(rs * SCALE, n * (SCALE as int), n);
    lemma_div_multiples_vanish(-(SCALE as int), n);
    lemma_div_multiples_vanish(SCALE as int, n);
    assert(-n * (SCALE as int) == n * (-(SCALE as int)) && n * (SCALE as int) == (SCALE as int) * n
        && rs * SCALE <= n * (SCALE as int) && -n * (SCALE as int) <= rs * SCALE)
        by (nonlinear_arith)
        requires
            1 <= n,
            -n <= rs <= n,
        ;
}

} // verus!
