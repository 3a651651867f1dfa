//! The search engine: it drives the select → expand → simulate →
//! backpropagate loop over a fixed iteration budget and then extracts the
//! root action with the highest mean reward.

use vstd::prelude::*;
use crate::arena::Arena;
use crate::ext::{gen_index, par_rollouts, rng_from_entropy, rng_from_seed};
use crate::node::{best_child_spec, Node};
use crate::num::q_fp_spec;
use crate::state::{lemma_reachable_mono, lemma_reachable_step, reachable_within, State};
use crate::{BATCH_CAP, C_MAX};

verus! {

/// The search-tree invariant over an arena's nodes.
///
/// The tree is rooted at `root`; every other node names a parent that was
/// inserted before it, parents and children list each other, child states
/// arise from the parent state by the child's action, expansion is
/// all-or-nothing (a child list is empty or has exactly one child per legal
/// action, in order), statistics are internally consistent, and no node has
/// been visited more often than the root.
pub open spec fn tree_wf<S: State>(nodes: Seq<Node<S>>, root: int) -> bool {
    &&& 0 <= root < nodes.len()
    &&& nodes[root].parent is None
    &&& forall|i: int| 0 <= i < nodes.len() && i != root ==> (#[trigger] nodes[i].parent) is Some
    &&& forall|i: int|
        0 <= i < nodes.len() && nodes[i].parent is Some ==> 0 <= (#[trigger] nodes[i].parent)->0
            < i
    &&& forall|i: int| 0 <= i < nodes.len() && i != root ==> #[trigger] linked_to_parent(nodes, i)
    &&& forall|i: int, j: int|
        0 <= i < nodes.len() && 0 <= j < nodes[i].children@.len() ==> i < (
        #[trigger] nodes[i].children@[j]) < nodes.len()
    &&& forall|i: int, j: int|
        0 <= i < nodes.len() && 0 <= j < nodes[i].children@.len() ==> nodes[(
        #[trigger] nodes[i].children@[j]) as int].parent == Some(i as usize)
    &&& forall|i: int| 0 <= i < nodes.len() ==> (#[trigger] nodes[i].state).wf()
    &&& forall|i: int| 0 <= i < nodes.len() ==> (#[trigger] nodes[i]).stats_wf()
    &&& forall|i: int| 0 <= i < nodes.len() ==> (#[trigger] nodes[i]).n <= nodes[root].n
    &&& forall|i: int|
        0 <= i < nodes.len() && nodes[i].children@.len() > 0 ==> #[trigger] expanded_shape(
            nodes,
            i,
        )
    &&& (nodes[root].children@.len() == 0 ==> nodes[root].n == 0)
}

/// The node at `i` appears in its parent's child list.
pub open spec fn linked_to_parent<S: State>(nodes: Seq<Node<S>>, i: int) -> bool {
    nodes[(nodes[i].parent)->0 as int].children@.contains(i as usize)
}

/// All-or-nothing expansion: the node at `i` has exactly one child per legal
/// action of its (non-terminal) state, in enumeration order, and each child
/// holds the action that produced it and the position it leads to.
pub open spec fn expanded_shape<S: State>(nodes: Seq<Node<S>>, i: int) -> bool {
    &&& !nodes[i].state.terminal_spec()
    &&& nodes[i].children@.len() == nodes[i].state.legal_spec().len()
    &&& forall|j: int|
        0 <= j < nodes[i].children@.len() ==> nodes[(#[trigger] nodes[i].children@[j]) as int].action
            == nodes[i].state.legal_spec()[j]
    &&& forall|j: int|
        0 <= j < nodes[i].children@.len() ==> nodes[(#[trigger] nodes[i].children@[j]) as int].state
            == nodes[i].state.step_spec(nodes[i].state.legal_spec()[j])
}

/// The chain of arena indices from `i` up through parent links to the root.
pub open spec fn path_to_root<S: State>(nodes: Seq<Node<S>>, i: int) -> Seq<int>
    decreases i,
{
    if !(0 <= i < nodes.len()) {
        Seq::empty()
    } else {
        match nodes[i].parent {
            Option::None => seq![i],
            Option::Some(p) => if p < i {
                seq![i] + path_to_root(nodes, p as int)
            } else {
                seq![i]
            },
        }
    }
}

/// One backpropagation step at a single node: `k` visits and a reward total
/// of `delta` are added, the stored mean is refreshed, and the node's
/// position, action and parent stay as they were.
#[verifier::opaque]
pub open spec fn stats_bumped<S: State>(before: Node<S>, after: Node<S>, delta: int, k: int) -> bool {
    &&& after.n == before.n + k
    &&& after.reward_sum == before.reward_sum + delta
    &&& after.q_fp == q_fp_spec(before.reward_sum + delta, before.n + k)
    &&& after.state == before.state
    &&& after.action == before.action
    &&& after.parent == before.parent
}

/// Shape of the path to the root: it starts at `i`, strictly descends (a
/// parent was inserted before its child), follows parent links, and ends at
/// the one node without a parent.
pub proof fn lemma_path_props<S: State>(nodes: Seq<Node<S>>, i: int)
    requires
        0 <= i < nodes.len(),
        forall|x: int|
            0 <= x < nodes.len() && nodes[x].parent is Some ==> 0 <= (#[trigger] nodes[x].parent)->0
                < x,
    ensures
        path_to_root(nodes, i).len() >= 1,
        path_to_root(nodes, i)[0] == i,
        forall|t: int|
            0 <= t < path_to_root(nodes, i).len() ==> 0 <= #[trigger] path_to_root(nodes, i)[t]
                <= i,
        forall|a: int, b: int|
            0 <= a < b < path_to_root(nodes, i).len() ==> path_to_root(nodes, i)[b] < path_to_root(
                nodes,
                i,
            )[a],
        forall|t: int|
            0 <= t < path_to_root(nodes, i).len() - 1 ==> nodes[#[trigger] path_to_root(nodes, i)[t]].parent
                == Some((#[trigger] path_to_root(nodes, i)[t + 1]) as usize),
        nodes[path_to_root(nodes, i).last()].parent is None,
    decreases i,
{
    let path = path_to_root(nodes, i);
    match nodes[i].parent {
        Option::None => {},
        Option::Some(p) => {
            lemma_path_props(nodes, p as int);
            let rest = path_to_root(nodes, p as int);
            assert forall|t: int| 0 <= t < path.len() implies 0 <= #[trigger] path[t] <= i by {
                if t > 0 {
                    assert(path[t] == rest[t - 1]);
                }
            }
            assert forall|a: int, b: int| 0 <= a < b < path.len() implies path[b] < path[a] by {
                if a > 0 {
                    assert(path[a] == rest[a - 1] && path[b] == rest[b - 1]);
                }
            }
            assert forall|t: int| 0 <= t < path.len() - 1 implies nodes[#[trigger] path[t]].parent
                == Some((#[trigger] path[t + 1]) as usize) by {
                if t > 0 {
                    let s0 = t - 1;
                    assert(path[t] == rest[s0] && path[t + 1] == rest[s0 + 1]);
                    assert(nodes[rest[s0]].parent == Some((rest[s0 + 1]) as usize));
                } else {
                    assert(path[1] == rest[0]);
                    assert(rest[0] == p as int);
                }
            }
            assert(path.last() == rest.last());
        },
    }
}

/// The path to the root is determined by the parent links alone: it does not
/// change when nodes are appended or when statistics change.
pub proof fn lemma_path_stable<S: State>(nodes1: Seq<Node<S>>, nodes2: Seq<Node<S>>, i: int)
    requires
        0 <= i < nodes1.len() <= nodes2.len(),
        forall|x: int|
            0 <= x < nodes1.len() && nodes1[x].parent is Some ==> 0 <= (
            #[trigger] nodes1[x].parent)->0 < x,
        forall|x: int| 0 <= x < nodes1.len() ==> nodes1[x].parent == (#[trigger] nodes2[x].parent),
    ensures
        path_to_root(nodes2, i) == path_to_root(nodes1, i),
    decreases i,
{
    match nodes1[i].parent {
        Option::None => {},
        Option::Some(p) => {
            lemma_path_stable(nodes1, nodes2, p as int);
        },
    }
}

/// The numerator of a node's mean reward `q`; an unvisited node counts as 0.
pub open spec fn q_num<S: State>(node: Node<S>) -> int {
    if node.n == 0 {
        0
    } else {
        node.reward_sum as int
    }
}

/// The (positive) denominator of a node's mean reward `q`.
pub open spec fn q_den<S: State>(node: Node<S>) -> int {
    if node.n == 0 {
        1
    } else {
        node.n as int
    }
}

/// Whether `a`'s mean reward is strictly above `b`'s: the exact rational
/// comparison `a.reward_sum / a.n > b.reward_sum / b.n`, cross-multiplied so
/// that it stays within the integers.
pub open spec fn q_above<S: State>(a: Node<S>, b: Node<S>) -> bool {
    q_num(a) * q_den(b) > q_num(b) * q_den(a)
}

/// Position (within `children`) of the first child with the highest mean
/// reward among the first `upto` children: later children must score
/// strictly higher to displace an earlier one.
pub open spec fn best_q_in_prefix<S: State>(
    nodes: Seq<Node<S>>,
    children: Seq<usize>,
    upto: int,
) -> int
    decreases upto,
{
    if upto <= 1 {
        0
    } else {
        let b = best_q_in_prefix(nodes, children, upto - 1);
        if q_above(nodes[children[upto - 1] as int], nodes[children[b] as int]) {
            upto - 1
        } else {
            b
        }
    }
}

/// The first highest-mean prefix position is in range, no child in the
/// prefix has a higher mean, and every earlier child's mean is strictly
/// lower.
pub proof fn lemma_best_q_in_prefix<S: State>(nodes: Seq<Node<S>>, children: Seq<usize>, upto: int)
    requires
        1 <= upto,
    ensures
        0 <= best_q_in_prefix(nodes, children, upto) < upto,
        forall|j: int|
            0 <= j < upto ==> !q_above(
                nodes[#[trigger] children[j] as int],
                nodes[children[best_q_in_prefix(nodes, children, upto)] as int],
            ),
        forall|j: int|
            0 <= j < best_q_in_prefix(nodes, children, upto) ==> q_above(
                nodes[children[best_q_in_prefix(nodes, children, upto)] as int],
                nodes[#[trigger] children[j] as int],
            ),
    decreases upto,
{
    if upto > 1 {
        lemma_best_q_in_prefix(nodes, children, upto - 1);
        assert forall|a: Node<S>, b: Node<S>, c: Node<S>|
            !q_above(a, b) && !q_above(b, c) implies !q_above(a, c) by {
            lemma_q_order_transitive(a, b, c);
        }
    }
}

/// The cross-multiplied mean comparison is transitive (with the strict and
/// non-strict directions mixed as the argmax proof needs them).
proof fn lemma_q_order_transitive<S: State>(a: Node<S>, b: Node<S>, c: Node<S>)
    requires
        !q_above(a, b),
        !q_above(b, c),
    ensures
        !q_above(a, c),
{
    assert(q_num(a) * q_den(c) <= q_num(c) * q_den(a)) by (nonlinear_arith)
        requires
            q_num(a) * q_den(b) <= q_num(b) * q_den(a),
            q_num(b) * q_den(c) <= q_num(c) * q_den(b),
            q_den(a) > 0,
            q_den(b) > 0,
            q_den(c) > 0,
    ;
}

/// The selection rule as a function of the tree: from `i`, descend to the
/// best UCB child until a leaf or a terminal position is reached.
pub open spec fn select_spec<S: State>(nodes: Seq<Node<S>>, i: int, c_fp: int) -> int
    decreases nodes.len() - i,
{
    if !(0 <= i < nodes.len()) {
        i
    } else if nodes[i].children@.len() == 0 || nodes[i].state.terminal_spec() {
        i
    } else {
        let c = best_child_spec(nodes, nodes[i], c_fp);
        if i < c < nodes.len() {
            select_spec(nodes, c, c_fp)
        } else {
            i
        }
    }
}

/// A freshly created, unvisited child node: it records the action that
/// produced it, the position that action leads to, and its parent's index.
pub open spec fn child_shape<S: State>(c: Node<S>, parent_state: S, a: S::Action, id: int) -> bool {
    &&& c.parent == Some(id as usize)
    &&& c.action == a
    &&& c.state == parent_state.step_spec(a)
    &&& c.state.wf()
    &&& c.children@.len() == 0
    &&& c.n == 0
    &&& c.reward_sum == 0
    &&& c.q_fp == 0
}

/// What one expansion of the node at `id` does to the engine: one child per
/// legal action is appended and attached in order (all-or-nothing
/// expansion), every other node keeps its position, action and links, and
/// one batch of as many rollouts is backpropagated from the expanded node,
/// with some total reward bounded by the batch size.
pub open spec fn expand_post<S: State>(pre: Mcts<S>, post: Mcts<S>, id: int) -> bool {
    let nodes0 = pre.arena.nodes@;
    let nodes1 = post.arena.nodes@;
    let legal = nodes0[id].state.legal_spec();
    let base = nodes0.len() as int;
    &&& post.wf()
    &&& post.root_id == pre.root_id
    &&& post.c_fp == pre.c_fp
    &&& nodes1.len() == base + legal.len()
    &&& nodes1[id].children@.len() == legal.len()
    &&& forall|j: int| 0 <= j < legal.len() ==> #[trigger] nodes1[id].children@[j] == base + j
    &&& nodes1[id].state == nodes0[id].state
    &&& nodes1[id].action == nodes0[id].action
    &&& nodes1[id].parent == nodes0[id].parent
    &&& forall|j: int|
        0 <= j < legal.len() ==> child_shape(
            #[trigger] nodes1[base + j],
            nodes0[id].state,
            legal[j],
            id,
        )
    &&& forall|j: int|
        0 <= j < base && j != id ==> (#[trigger] nodes1[j]).children@ == nodes0[j].children@
    &&& forall|j: int| 0 <= j < base ==> (#[trigger] nodes1[j]).state == nodes0[j].state
    &&& forall|j: int| 0 <= j < base ==> (#[trigger] nodes1[j]).action == nodes0[j].action
    &&& forall|j: int| 0 <= j < base ==> (#[trigger] nodes1[j]).parent == nodes0[j].parent
    &&& forall|j: int|
        0 <= j < base && j != id && !path_to_root(nodes0, id).contains(j) ==> #[trigger] nodes1[j]
            == nodes0[j]
    &&& nodes1[pre.root_id as int].n == nodes0[pre.root_id as int].n + legal.len()
    &&& exists|total: int|
        -legal.len() <= total <= legal.len() && #[trigger] batch_bumped(
            nodes0,
            nodes1,
            id,
            total,
            legal.len() as int,
        )
}

/// One batch backpropagation from `id`: every node on the path to the root
/// gained `k` visits and the reward total `total`, its sign flipped at each
/// level.
pub open spec fn batch_bumped<S: State>(
    nodes0: Seq<Node<S>>,
    nodes1: Seq<Node<S>>,
    id: int,
    total: int,
    k: int,
) -> bool {
    forall|t: int|
        0 <= t < path_to_root(nodes0, id).len() ==> stats_bumped(
            nodes0[#[trigger] path_to_root(nodes0, id)[t]],
            nodes1[path_to_root(nodes0, id)[t]],
            if t % 2 == 0 {
                total
            } else {
                -total
            },
            k,
        )
}

/// Attaching one full batch of fresh children to a childless node keeps the
/// tree invariant: the new nodes are leaves with no visits, their parent is
/// the expanded node, and the expanded node now has exactly one child per
/// legal action.
#[verifier::rlimit(100)]
proof fn lemma_attach_wf<S: State>(
    nodes0: Seq<Node<S>>,
    mid: Seq<Node<S>>,
    root: int,
    id: int,
)
    requires
        tree_wf(nodes0, root),
        0 <= id < nodes0.len(),
        nodes0[id].children@.len() == 0,
        !nodes0[id].state.terminal_spec(),
        mid.len() == nodes0.len() + nodes0[id].state.legal_spec().len(),
        nodes0[id].state.legal_spec().len() >= 1,
        forall|x: int| 0 <= x < nodes0.len() && x != id ==> #[trigger] mid[x] == nodes0[x],
        mid[id].children@.len() == nodes0[id].state.legal_spec().len(),
        forall|x: int|
            0 <= x < nodes0[id].state.legal_spec().len() ==> #[trigger] mid[id].children@[x]
                == nodes0.len() + x,
        mid[id].state == nodes0[id].state,
        mid[id].action == nodes0[id].action,
        mid[id].parent == nodes0[id].parent,
        mid[id].n == nodes0[id].n,
        mid[id].reward_sum == nodes0[id].reward_sum,
        mid[id].q_fp == nodes0[id].q_fp,
        forall|x: int|
            0 <= x < nodes0[id].state.legal_spec().len() ==> child_shape(
                #[trigger] mid[nodes0.len() + x],
                nodes0[id].state,
                nodes0[id].state.legal_spec()[x],
                id,
            ),
    ensures
        tree_wf(mid, root),
{
    let len0 = nodes0.len() as int;
    let legal = nodes0[id].state.legal_spec();
    let ln = legal.len() as int;
    assert forall|x: int|
        0 <= x < mid.len() && x != root implies (#[trigger] mid[x].parent) is Some by {
        if x >= len0 {
            let d = x - len0;
            assert(child_shape(mid[nodes0.len() + d], nodes0[id].state, legal[d], id));
        } else if x != id {
            assert(mid[x] == nodes0[x]);
        }
    }
    assert forall|x: int|
        0 <= x < mid.len() && mid[x].parent is Some implies 0 <= (#[trigger] mid[x].parent)->0
        < x by {
        if x >= len0 {
            let d = x - len0;
            assert(child_shape(mid[nodes0.len() + d], nodes0[id].state, legal[d], id));
        } else if x != id {
            assert(mid[x] == nodes0[x]);
        }
    }
    assert forall|x: int| 0 <= x < mid.len() && x != root implies #[trigger] linked_to_parent(
        mid,
        x,
    ) by {
        if x >= len0 {
            let d = x - len0;
            assert(child_shape(mid[nodes0.len() + d], nodes0[id].state, legal[d], id));
            assert(mid[id].children@[d] == x);
            assert(mid[id].children@.contains(x as usize));
        } else {
            assert(linked_to_parent(nodes0, x));
            let pr = (nodes0[x].parent)->0 as int;
            assert(0 <= pr < len0);
            if pr == id {
                assert(nodes0[id].children@.contains(x as usize));
                assert(false);
            }
            assert(mid[pr] == nodes0[pr]);
            if x != id {
                assert(mid[x] == nodes0[x]);
            }
        }
    }
    assert forall|i: int, j: int|
        0 <= i < mid.len() && 0 <= j < mid[i].children@.len() implies i < (
    #[trigger] mid[i].children@[j]) < mid.len() && mid[mid[i].children@[j] as int].parent == Some(
        i as usize,
    ) by {
        if i >= len0 {
            let d = i - len0;
            assert(child_shape(mid[nodes0.len() + d], nodes0[id].state, legal[d], id));
        } else if i == id {
            assert(mid[id].children@[j] == len0 + j);
            assert(child_shape(mid[nodes0.len() + j], nodes0[id].state, legal[j], id));
        } else {
            assert(mid[i] == nodes0[i]);
            let c = nodes0[i].children@[j];
            assert(i < c < len0);
            if c as int != id {
                assert(mid[c as int] == nodes0[c as int]);
            }
        }
    }
    assert forall|x: int| 0 <= x < mid.len() implies (#[trigger] mid[x]).stats_wf() && mid[x].n
        <= mid[root].n && mid[x].state.wf() by {
        if x >= len0 {
            let d = x - len0;
            assert(child_shape(mid[nodes0.len() + d], nodes0[id].state, legal[d], id));
            assert(q_fp_spec(0, 0) == 0);
        } else if x != id {
            assert(mid[x] == nodes0[x]);
        }
        if root != id && 0 <= root < len0 {
            assert(mid[root] == nodes0[root]);
        }
    }
    assert forall|x: int| 0 <= x < mid.len() implies (#[trigger] mid[x].state).wf() by {
        assert(mid[x].stats_wf() && mid[x].state.wf());
    }
    assert forall|i: int|
        0 <= i < mid.len() && mid[i].children@.len() > 0 implies #[trigger] expanded_shape(
        mid,
        i,
    ) by {
        if i == id {
            assert forall|j: int| 0 <= j < mid[id].children@.len() implies {
                &&& mid[(#[trigger] mid[id].children@[j]) as int].action == legal[j]
                &&& mid[mid[id].children@[j] as int].state == nodes0[id].state.step_spec(legal[j])
            } by {
                assert(mid[id].children@[j] == len0 + j);
                assert(child_shape(mid[len0 + j], nodes0[id].state, legal[j], id));
            }
        } else if i < len0 {
            assert(mid[i] == nodes0[i]);
            assert(expanded_shape(nodes0, i));
            assert forall|j: int| 0 <= j < mid[i].children@.len() implies {
                &&& mid[(#[trigger] mid[i].children@[j]) as int].action
                    == mid[i].state.legal_spec()[j]
                &&& mid[mid[i].children@[j] as int].state == mid[i].state.step_spec(
                    mid[i].state.legal_spec()[j],
                )
            } by {
                let c = nodes0[i].children@[j];
                assert(i < c < len0);
                assert(nodes0[c as int].action == nodes0[i].state.legal_spec()[j]);
                assert(nodes0[c as int].state == nodes0[i].state.step_spec(
                    nodes0[i].state.legal_spec()[j],
                ));
                if c as int != id {
                    assert(mid[c as int] == nodes0[c as int]);
                }
            }
        } else {
            let d = i - len0;
            assert(child_shape(mid[nodes0.len() + d], nodes0[id].state, legal[d], id));
        }
    }
    if root != id {
        assert(mid[root] == nodes0[root]);
    }
}

/// Why a search request was rejected before any work was done.
#[derive(Clone, Copy, Debug, PartialEq, Eq, Structural)]
pub enum SearchError {
    /// The iteration budget was zero: no iteration would ever run.
    ZeroBudget,
    /// The root position is already terminal: there is no action to pick.
    TerminalRoot,
}

/// What one finished search guarantees: the engine still holds a well-formed
/// tree over the same root position, the root has exactly one child per
/// legal action, and the returned action is that of the first root child
/// with the highest mean reward.
pub open spec fn search_post<S: State>(pre: Mcts<S>, post: Mcts<S>, r: S::Action) -> bool {
    let nodes = post.arena.nodes@;
    let root = post.root_id as int;
    let kids = nodes[root].children@;
    &&& post.wf()
    &&& post.root_id == pre.root_id
    &&& post.c_fp == pre.c_fp
    &&& nodes[root].state == pre.arena.nodes@[pre.root_id as int].state
    &&& kids.len() == nodes[root].state.legal_spec().len()
    &&& kids.len() > 0
    &&& forall|j: int|
        0 <= j < kids.len() ==> nodes[(#[trigger] kids[j]) as int].action
            == nodes[root].state.legal_spec()[j]
    &&& r == nodes[kids[best_q_in_prefix(nodes, kids, kids.len() as int)] as int].action
}

/// Exec comparison of two nodes' mean rewards, by cross-multiplication over
/// 128-bit integers so the rational comparison is exact.
fn q_above_exec<S: State>(a: &Node<S>, b: &Node<S>) -> (r: bool)
    requires
        a.stats_wf(),
        b.stats_wf(),
    ensures
        r == q_above(*a, *b),
{
    let a_num: i64 = if a.n == 0 {
        0
    } else {
        a.reward_sum
    };
    let a_den: u64 = if a.n == 0 {
        1
    } else {
        a.n
    };
    let b_num: i64 = if b.n == 0 {
        0
    } else {
        b.reward_sum
    };
    let b_den: u64 = if b.n == 0 {
        1
    } else {
        b.n
    };
    proof {
        assert(-(0x2_0000_0000 * 0x2_0000_0000) <= (a_num as int) * (b_den as int) <= 0x2_0000_0000
            * 0x2_0000_0000 && -(0x2_0000_0000 * 0x2_0000_0000) <= (b_num as int) * (a_den as int)
            <= 0x2_0000_0000 * 0x2_0000_0000) by (nonlinear_arith)
            requires
                -0x2_0000_0000 <= a_num as int <= 0x2_0000_0000,
                -0x2_0000_0000 <= b_num as int <= 0x2_0000_0000,
                1 <= a_den as int <= 0x2_0000_0000,
                1 <= b_den as int <= 0x2_0000_0000,
        ;
    }
    let left: i128 = (a_num as i128) * (b_den as i128);
    let right: i128 = (b_num as i128) * (a_den as i128);
    left > right
}

/// Zero-sum alternation made concrete: along a three-level path from the
/// evaluated node `b` through its parent `a` to the root, backpropagating a
/// reward of `r` adds `r` at `b`, `-r` at `a`, and `r` again at the root —
/// the sign flips exactly once per tree level.
pub proof fn lemma_sign_flips_once_per_level<S: State>(
    before: Seq<Node<S>>,
    after: Seq<Node<S>>,
    b: int,
    reward: int,
    k: int,
)
    requires
        batch_bumped(before, after, b, reward, k),
        path_to_root(before, b).len() == 3,
    ensures
        after[path_to_root(before, b)[0]].reward_sum == before[path_to_root(before, b)[0]].reward_sum
            + reward,
        after[path_to_root(before, b)[1]].reward_sum == before[path_to_root(before, b)[1]].reward_sum
            - reward,
        after[path_to_root(before, b)[2]].reward_sum == before[path_to_root(before, b)[2]].reward_sum
            + reward,
{
    reveal(stats_bumped);
    let path = path_to_root(before, b);
    assert(stats_bumped(before[path[0]], after[path[0]], reward, k));
    assert(stats_bumped(before[path[1]], after[path[1]], -reward, k));
    assert(stats_bumped(before[path[2]], after[path[2]], reward, k));
}

/// Root extraction is deterministic when only one action is legal: whatever
/// the gathered statistics and however large the budget was, the chosen
/// child is the only child, and its action is the root's only legal action.
pub proof fn lemma_single_action_extraction<S: State>(nodes: Seq<Node<S>>, root: int)
    requires
        tree_wf(nodes, root),
        nodes[root].children@.len() > 0,
        nodes[root].state.legal_spec().len() == 1,
    ensures
        best_q_in_prefix(nodes, nodes[root].children@, nodes[root].children@.len() as int) == 0,
        nodes[nodes[root].children@[0] as int].action == nodes[root].state.legal_spec()[0],
{
    assert(expanded_shape(nodes, root));
    assert(nodes[root].children@.len() == 1);
}

/// Root extraction on a root with a single legal action deterministically
/// returns that action, whatever the iteration budget was and whatever
/// statistics the search gathered.
pub proof fn lemma_search_single_action<S: State>(pre: Mcts<S>, post: Mcts<S>, r: S::Action)
    requires
        search_post(pre, post, r),
        post.arena.nodes@[post.root_id as int].state.legal_spec().len() == 1,
    ensures
        r == post.arena.nodes@[post.root_id as int].state.legal_spec()[0],
{
    lemma_single_action_extraction(post.arena.nodes@, post.root_id as int);
}

/// The mean reward of every node in a well-formed tree is exactly its reward
/// sum over its visit count (in fixed point, and 0 before the first visit):
/// the mean is never tracked apart from the totals that define it.
pub proof fn lemma_mean_is_exact<S: State>(nodes: Seq<Node<S>>, root: int, i: int)
    requires
        tree_wf(nodes, root),
        0 <= i < nodes.len(),
    ensures
        nodes[i].q_fp == q_fp_spec(nodes[i].reward_sum as int, nodes[i].n as int),
{
    assert(nodes[i].stats_wf());
}

/// The search engine: the tree arena, the root's index, the exploration
/// constant, and the rollout policy's random number generator.
pub struct Mcts<S: State> {
    /// The node store of this search's tree.
    pub arena: Arena<S>,
    /// Arena index of the root node.
    pub root_id: usize,
    /// Exploration constant `C`, scaled by [`crate::SCALE`].
    pub c_fp: u64,
    /// Generator behind the uniformly random rollout policy.
    pub rng: rand::rngs::StdRng,
}

impl<S: State> Mcts<S> {
    /// The engine invariant: the arena holds a well-formed tree rooted at
    /// `root_id` and the exploration constant is within the accepted range.
    pub open spec fn wf(&self) -> bool {
        &&& tree_wf(self.arena.nodes@, self.root_id as int)
        &&& self.c_fp <= C_MAX
    }

    /// A fresh engine over `state`, with its rollout generator seeded from
    /// the operating system.
    pub fn new(state: S, c_fp: u64) -> (r: Mcts<S>)
        requires
            state.wf(),
            c_fp <= C_MAX,
        ensures
            r.wf(),
            r.c_fp == c_fp,
            r.root_id == 0,
            r.arena.nodes@.len() == 1,
            r.arena.nodes@[0].state == state,
            r.arena.nodes@[0].action == S::default_action_spec(),
            r.arena.nodes@[0].parent is None,
            r.arena.nodes@[0].children@.len() == 0,
            r.arena.nodes@[0].n == 0,
            r.arena.nodes@[0].reward_sum == 0,
            r.arena.nodes@[0].q_fp == 0,
    {
        Mcts::with_rng(state, c_fp, rng_from_entropy())
    }

    /// A fresh engine over `state` whose rollout generator is seeded with
    /// `seed`, so that searches can be reproduced.
    pub fn with_seed(state: S, c_fp: u64, seed: u64) -> (r: Mcts<S>)
        requires
            state.wf(),
            c_fp <= C_MAX,
        ensures
            r.wf(),
            r.c_fp == c_fp,
            r.root_id == 0,
            r.arena.nodes@.len() == 1,
            r.arena.nodes@[0].state == state,
            r.arena.nodes@[0].action == S::default_action_spec(),
            r.arena.nodes@[0].parent is None,
            r.arena.nodes@[0].children@.len() == 0,
            r.arena.nodes@[0].n == 0,
            r.arena.nodes@[0].reward_sum == 0,
            r.arena.nodes@[0].q_fp == 0,
    {
        Mcts::with_rng(state, c_fp, rng_from_seed(seed))
    }

    /// Shared constructor body: a one-node tree holding `state`.
    fn with_rng(state: S, c_fp: u64, rng: rand::rngs::StdRng) -> (r: Mcts<S>)
        requires
            state.wf(),
            c_fp <= C_MAX,
        ensures
            r.wf(),
            r.c_fp == c_fp,
            r.root_id == 0,
            r.arena.nodes@.len() == 1,
            r.arena.nodes@[0].state == state,
            r.arena.nodes@[0].action == S::default_action_spec(),
            r.arena.nodes@[0].parent is None,
            r.arena.nodes@[0].children@.len() == 0,
            r.arena.nodes@[0].n == 0,
            r.arena.nodes@[0].reward_sum == 0,
            r.arena.nodes@[0].q_fp == 0,
    {
        let mut arena: Arena<S> = Arena::new();
        let root: Node<S> = Node::new(state, S::default_action(), Option::None);
        let root_id: usize = arena.add_node(root);
        Mcts { arena, root_id, c_fp, rng }
    }

    /// Selection: starting at the root, descend to the child with the best
    /// UCB score until reaching a leaf or a node whose position is terminal.
    /// The tree is not touched.
    pub fn select(&self) -> (r: usize)
        requires
            self.wf(),
        ensures
            r < self.arena.nodes@.len(),
            r == select_spec(self.arena.nodes@, self.root_id as int, self.c_fp as int),
            self.arena.nodes@[r as int].children@.len() == 0 || self.arena.nodes@[r as int].state.terminal_spec(),
    {
        let ghost nodes = self.arena.nodes@;
        let mut current: usize = self.root_id;
        loop
            invariant
                self.wf(),
                nodes == self.arena.nodes@,
                current < nodes.len(),
                select_spec(nodes, self.root_id as int, self.c_fp as int) == select_spec(
                    nodes,
                    current as int,
                    self.c_fp as int,
                ),
            decreases nodes.len() - current,
        {
            let node = self.arena.get_node(current);
            if node.is_leaf() {
                return current;
            }
            if node.state.is_terminal() {
                return current;
            }
            let next = node.get_best_child(&self.arena, self.c_fp);
            proof {
                let cs = nodes[current as int].children@;
                let j = choose|j: int| 0 <= j < cs.len() && cs[j] == next;
                assert(current < next < nodes.len());
                assert(select_spec(nodes, current as int, self.c_fp as int) == select_spec(
                    nodes,
                    next as int,
                    self.c_fp as int,
                ));
            }
            current = next;
        }
    }

    /// Backpropagation: walk from `id` up the parent chain to the root,
    /// adding `k` visits at every node on the way and the reward total
    /// `reward` with its sign flipped at each level (zero-sum alternation: a
    /// gain for the player who moved into a node is a loss for the player
    /// who moved into its parent).
    pub fn backprop(&mut self, id: usize, reward: i64, k: u32)
        requires
            old(self).wf(),
            id < old(self).arena.nodes@.len(),
            1 <= k,
            -(k as int) <= reward as int <= k as int,
            old(self).arena.nodes@[old(self).root_id as int].n <= BATCH_CAP,
            id == old(self).root_id ==> old(self).arena.nodes@[id as int].children@.len() > 0,
        ensures
            final(self).wf(),
            final(self).root_id == old(self).root_id,
            final(self).c_fp == old(self).c_fp,
            final(self).arena.nodes@.len() == old(self).arena.nodes@.len(),
            forall|j: int|
                0 <= j < old(self).arena.nodes@.len() && !path_to_root(
                    old(self).arena.nodes@,
                    id as int,
                ).contains(j) ==> final(self).arena.nodes@[j] == old(self).arena.nodes@[j],
            forall|t: int|
                0 <= t < path_to_root(old(self).arena.nodes@, id as int).len() ==> stats_bumped(
                    old(self).arena.nodes@[#[trigger] path_to_root(
                        old(self).arena.nodes@,
                        id as int,
                    )[t]],
                    final(self).arena.nodes@[path_to_root(old(self).arena.nodes@, id as int)[t]],
                    if t % 2 == 0 {
                        reward as int
                    } else {
                        -(reward as int)
                    },
                    k as int,
                ),
            forall|t: int|
                0 <= t < path_to_root(old(self).arena.nodes@, id as int).len()
                    ==> final(self).arena.nodes@[#[trigger] path_to_root(
                    old(self).arena.nodes@,
                    id as int,
                )[t]].children@ == old(self).arena.nodes@[path_to_root(
                    old(self).arena.nodes@,
                    id as int,
                )[t]].children@,
            final(self).arena.nodes@[old(self).root_id as int].n == old(
                self,
            ).arena.nodes@[old(self).root_id as int].n + k,
    {
        let ghost nodes0 = self.arena.nodes@;
        let ghost root = self.root_id as int;
        proof {
            assert(nodes0.len() == self.arena.nodes.len());
        }
        self.backprop_from(id, reward, k);
        proof {
            lemma_backprop_preserves_tree_wf(
                nodes0,
                self.arena.nodes@,
                root,
                id as int,
                reward as int,
                k as int,
            );
        }
    }

    /// Walks the parent chain from `id`, adding `k` visits per node and the
    /// running reward total, whose sign flips at each level.
    fn backprop_from(&mut self, id: usize, reward: i64, k: u32)
        requires
            id < old(self).arena.nodes@.len(),
            1 <= k,
            -(k as int) <= reward as int <= k as int,
            forall|x: int|
                0 <= x < old(self).arena.nodes@.len() && old(self).arena.nodes@[x].parent is Some
                    ==> 0 <= (#[trigger] old(self).arena.nodes@[x].parent)->0 < x,
            forall|x: int|
                0 <= x < old(self).arena.nodes@.len() ==> (
                #[trigger] old(self).arena.nodes@[x]).stats_wf(),
            forall|x: int| 0 <= x <= id ==> old(self).arena.nodes@[x].n <= BATCH_CAP,
        ensures
            final(self).root_id == old(self).root_id,
            final(self).c_fp == old(self).c_fp,
            final(self).arena.nodes@.len() == old(self).arena.nodes@.len(),
            forall|j: int|
                0 <= j < old(self).arena.nodes@.len() && !path_to_root(
                    old(self).arena.nodes@,
                    id as int,
                ).contains(j) ==> final(self).arena.nodes@[j] == old(self).arena.nodes@[j],
            forall|t: int|
                0 <= t < path_to_root(old(self).arena.nodes@, id as int).len() ==> stats_bumped(
                    old(self).arena.nodes@[#[trigger] path_to_root(
                        old(self).arena.nodes@,
                        id as int,
                    )[t]],
                    final(self).arena.nodes@[path_to_root(old(self).arena.nodes@, id as int)[t]],
                    if t % 2 == 0 {
                        reward as int
                    } else {
                        -(reward as int)
                    },
                    k as int,
                ),
            forall|t: int|
                0 <= t < path_to_root(old(self).arena.nodes@, id as int).len()
                    ==> final(self).arena.nodes@[#[trigger] path_to_root(
                    old(self).arena.nodes@,
                    id as int,
                )[t]].children@ == old(self).arena.nodes@[path_to_root(
                    old(self).arena.nodes@,
                    id as int,
                )[t]].children@,
        decreases id,
    {
        let ghost nodes0 = self.arena.nodes@;
        self.arena.update_stats(id, reward, k);
        let parent_opt = self.arena.get_node(id).parent;
        proof {
            assert(parent_opt == nodes0[id as int].parent);
        }
        match parent_opt {
            Option::Some(p) => {
                let ghost mid = self.arena.nodes@;
                proof {
                    reveal(stats_bumped);
                    assert(stats_bumped(nodes0[id as int], mid[id as int], reward as int, k as int));
                    assert forall|x: int|
                        0 <= x < mid.len() && mid[x].parent is Some implies 0 <= (
                    #[trigger] mid[x].parent)->0 < x by {
                        if x != id as int {
                            assert(mid[x] == nodes0[x]);
                        } else {
                            assert(mid[x].parent == nodes0[x].parent);
                        }
                    }
                    assert forall|x: int| 0 <= x < mid.len() implies (
                    #[trigger] mid[x]).stats_wf() by {
                        if x != id as int {
                            assert(mid[x] == nodes0[x]);
                        }
                    }
                    assert forall|x: int| 0 <= x <= p as int implies mid[x].n <= BATCH_CAP by {
                        assert(mid[x] == nodes0[x]);
                    }
                    assert forall|x: int| 0 <= x < nodes0.len() implies nodes0[x].parent == (
                    #[trigger] mid[x].parent) by {
                        if x != id as int {
                            assert(mid[x] == nodes0[x]);
                        }
                    }
                    lemma_path_stable(nodes0, mid, p as int);
                }
                let flipped: i64 = -reward;
                self.backprop_from(p, flipped, k);
                proof {
                    lemma_backprop_step(
                        nodes0,
                        mid,
                        self.arena.nodes@,
                        id as int,
                        p,
                        reward as int,
                        k as int,
                    );
                }
            },
            Option::None => {
                proof {
                    reveal(stats_bumped);
                    let fin = self.arena.nodes@;
                    let path = path_to_root(nodes0, id as int);
                    assert(path =~= seq![id as int]);
                    assert forall|j: int|
                        0 <= j < nodes0.len() && !path.contains(j) implies fin[j] == nodes0[j] by {
                        assert(path[0] == id as int);
                        assert(j != id as int);
                    }
                    assert forall|t: int| 0 <= t < path.len() implies stats_bumped(
                        nodes0[#[trigger] path[t]],
                        fin[path[t]],
                        if t % 2 == 0 {
                            reward as int
                        } else {
                            -(reward as int)
                        },
                        k as int,
                    ) && fin[path[t]].children@ == nodes0[path[t]].children@ by {
                        assert(path[t] == id as int);
                    }
                }
            },
        }
    }

    /// Creates one detached child node per legal action and returns a
    /// private copy of each child position for the rollouts.
    fn create_children(&mut self, id: usize, parent_state: &S, actions: &Vec<S::Action>) -> (r:
        Vec<S>)
        requires
            id < old(self).arena.nodes@.len(),
            *parent_state == old(self).arena.nodes@[id as int].state,
            parent_state.wf(),
            !parent_state.terminal_spec(),
            actions@ == parent_state.legal_spec(),
        ensures
            final(self).root_id == old(self).root_id,
            final(self).c_fp == old(self).c_fp,
            final(self).arena.nodes@.len() == old(self).arena.nodes@.len() + actions@.len(),
            forall|x: int|
                0 <= x < old(self).arena.nodes@.len() ==> final(self).arena.nodes@[x] == old(
                    self,
                ).arena.nodes@[x],
            forall|x: int|
                0 <= x < actions@.len() ==> child_shape(
                    #[trigger] final(self).arena.nodes@[old(self).arena.nodes@.len() + x],
                    old(self).arena.nodes@[id as int].state,
                    actions@[x],
                    id as int,
                ),
            r@.len() == actions@.len(),
            forall|x: int|
                0 <= x < r@.len() ==> #[trigger] r@[x] == old(self).arena.nodes@[id as int].state.step_spec(
                    actions@[x],
                ),
            forall|x: int| 0 <= x < r@.len() ==> (#[trigger] r@[x]).wf(),
    {
        let ghost nodes0 = self.arena.nodes@;
        let ghost base = nodes0.len() as int;
        let mut child_states: Vec<S> = Vec::new();
        let mut j: usize = 0;
        while j < actions.len()
            invariant
                j <= actions@.len(),
                actions@ == parent_state.legal_spec(),
                parent_state.wf(),
                !parent_state.terminal_spec(),
                id < nodes0.len(),
                *parent_state == nodes0[id as int].state,
                base == nodes0.len() as int,
                self.arena.nodes@.len() == base + j,
                self.root_id == old(self).root_id,
                self.c_fp == old(self).c_fp,
                forall|x: int| 0 <= x < base ==> self.arena.nodes@[x] == nodes0[x],
                forall|x: int|
                    0 <= x < j ==> child_shape(
                        #[trigger] self.arena.nodes@[base + x],
                        nodes0[id as int].state,
                        actions@[x],
                        id as int,
                    ),
                child_states@.len() == j,
                forall|x: int|
                    0 <= x < j ==> #[trigger] child_states@[x] == nodes0[id as int].state.step_spec(
                        actions@[x],
                    ),
                forall|x: int| 0 <= x < j ==> (#[trigger] child_states@[x]).wf(),
            decreases actions@.len() - j,
        {
            let a = &actions[j];
            proof {
                assert(parent_state.legal_spec().contains(actions@[j as int]));
            }
            let child_state = parent_state.step(a);
            let dup = child_state.duplicate();
            let node = Node::new(child_state, S::clone_action(a), Some(id));
            let _cid = self.arena.add_node(node);
            child_states.push(dup);
            j = j + 1;
        }
        child_states
    }

    /// Attaches the freshly created children `base .. base + count` to the
    /// node at `id`, in creation order and in one batch.
    fn attach_children(&mut self, id: usize, base: usize, count: usize)
        requires
            id < base,
            base + count <= usize::MAX,
            old(self).arena.nodes@.len() == base + count,
            old(self).arena.nodes@[id as int].children@.len() == 0,
        ensures
            final(self).root_id == old(self).root_id,
            final(self).c_fp == old(self).c_fp,
            final(self).arena.nodes@.len() == base + count,
            forall|x: int|
                0 <= x < base + count && x != id ==> final(self).arena.nodes@[x] == old(
                    self,
                ).arena.nodes@[x],
            final(self).arena.nodes@[id as int].children@.len() == count,
            forall|x: int|
                0 <= x < count ==> #[trigger] final(self).arena.nodes@[id as int].children@[x]
                    == base + x,
            final(self).arena.nodes@[id as int].state == old(self).arena.nodes@[id as int].state,
            final(self).arena.nodes@[id as int].action == old(self).arena.nodes@[id as int].action,
            final(self).arena.nodes@[id as int].parent == old(self).arena.nodes@[id as int].parent,
            final(self).arena.nodes@[id as int].n == old(self).arena.nodes@[id as int].n,
            final(self).arena.nodes@[id as int].reward_sum == old(self).arena.nodes@[id as int].reward_sum,
            final(self).arena.nodes@[id as int].q_fp == old(self).arena.nodes@[id as int].q_fp,
    {
        let mut j: usize = 0;
        while j < count
            invariant
                j <= count,
                id < base,
                base + count <= usize::MAX,
                self.arena.nodes@.len() == base + count,
                self.root_id == old(self).root_id,
                self.c_fp == old(self).c_fp,
                forall|x: int|
                    0 <= x < base + count && x != id ==> self.arena.nodes@[x] == old(
                        self,
                    ).arena.nodes@[x],
                self.arena.nodes@[id as int].children@.len() == j,
                forall|x: int|
                    0 <= x < j ==> #[trigger] self.arena.nodes@[id as int].children@[x] == base + x,
                self.arena.nodes@[id as int].state == old(self).arena.nodes@[id as int].state,
                self.arena.nodes@[id as int].action == old(self).arena.nodes@[id as int].action,
                self.arena.nodes@[id as int].parent == old(self).arena.nodes@[id as int].parent,
                self.arena.nodes@[id as int].n == old(self).arena.nodes@[id as int].n,
                self.arena.nodes@[id as int].reward_sum == old(self).arena.nodes@[id as int].reward_sum,
                self.arena.nodes@[id as int].q_fp == old(self).arena.nodes@[id as int].q_fp,
            decreases count - j,
        {
            self.arena.push_child(id, base + j);
            j = j + 1;
        }
    }

    /// Backpropagates one expansion batch and re-establishes the engine
    /// invariant and the expansion contract.
    fn finish_expansion(
        &mut self,
        id: usize,
        Ghost(pre): Ghost<Mcts<S>>,
        base: usize,
        count: usize,
        total: i64,
    )
        requires
            pre.wf(),
            old(self).root_id == pre.root_id,
            old(self).c_fp == pre.c_fp,
            base == pre.arena.nodes@.len(),
            id < base,
            pre.arena.nodes@[id as int].children@.len() == 0,
            !pre.arena.nodes@[id as int].state.terminal_spec(),
            pre.arena.nodes@[pre.root_id as int].n <= BATCH_CAP,
            count == pre.arena.nodes@[id as int].state.legal_spec().len(),
            1 <= count <= 0xFFFF_FFFF,
            -(count as int) <= total as int <= count as int,
            old(self).arena.nodes@.len() == base + count,
            forall|x: int|
                0 <= x < base && x != id ==> old(self).arena.nodes@[x] == pre.arena.nodes@[x],
            old(self).arena.nodes@[id as int].children@.len() == count,
            forall|x: int|
                0 <= x < count ==> #[trigger] old(self).arena.nodes@[id as int].children@[x] == base
                    + x,
            old(self).arena.nodes@[id as int].state == pre.arena.nodes@[id as int].state,
            old(self).arena.nodes@[id as int].action == pre.arena.nodes@[id as int].action,
            old(self).arena.nodes@[id as int].parent == pre.arena.nodes@[id as int].parent,
            old(self).arena.nodes@[id as int].n == pre.arena.nodes@[id as int].n,
            old(self).arena.nodes@[id as int].reward_sum == pre.arena.nodes@[id as int].reward_sum,
            old(self).arena.nodes@[id as int].q_fp == pre.arena.nodes@[id as int].q_fp,
            forall|x: int|
                0 <= x < count ==> child_shape(
                    #[trigger] old(self).arena.nodes@[base + x],
                    pre.arena.nodes@[id as int].state,
                    pre.arena.nodes@[id as int].state.legal_spec()[x],
                    id as int,
                ),
        ensures
            expand_post(pre, *final(self), id as int),
    {
        let ghost nodes0 = pre.arena.nodes@;
        let ghost mid = self.arena.nodes@;
        let ghost root = pre.root_id as int;
        proof {
            lemma_attach_wf(nodes0, mid, root, id as int);
            assert(self.wf());
            assert(mid[root].n == nodes0[root].n);
            lemma_path_props(nodes0, id as int);
            assert forall|x: int| 0 <= x < nodes0.len() implies nodes0[x].parent == (
            #[trigger] mid[x].parent) by {
                if x != id as int {
                    assert(mid[x] == nodes0[x]);
                }
            }
            lemma_path_stable(nodes0, mid, id as int);
        }
        self.backprop(id, total, count as u32);
        proof {
            reveal(stats_bumped);
            let fin = self.arena.nodes@;
            let path = path_to_root(nodes0, id as int);
            let legal = nodes0[id as int].state.legal_spec();
            assert(path[0] == id as int);
            assert(path.contains(id as int));
            assert forall|t: int| 0 <= t < path.len() implies 0 <= #[trigger] path[t]
                <= id as int by {}
            assert(!path.contains(base as int + count));
            assert forall|x: int| 0 <= x < count implies #[trigger] fin[base + x] == mid[base
                + x] by {
                if path.contains(base + x) {
                    let t = choose|t: int| 0 <= t < path.len() && path[t] == base + x;
                    assert(path[t] <= id as int);
                }
            }
            assert forall|j: int|
                0 <= j < base && j != id as int && !path.contains(j) implies fin[j] == nodes0[j] by {
                assert(fin[j] == mid[j]);
            }
            assert forall|t: int| 0 <= t < path.len() implies stats_bumped(
                nodes0[#[trigger] path[t]],
                fin[path[t]],
                if t % 2 == 0 {
                    total as int
                } else {
                    -(total as int)
                },
                count as int,
            ) && fin[path[t]].children@ == mid[path[t]].children@ by {
                assert(stats_bumped(
                    mid[path_to_root(mid, id as int)[t]],
                    fin[path_to_root(mid, id as int)[t]],
                    if t % 2 == 0 {
                        total as int
                    } else {
                        -(total as int)
                    },
                    count as int,
                ));
                assert(fin[path_to_root(mid, id as int)[t]].children@ == mid[path_to_root(
                    mid,
                    id as int,
                )[t]].children@);
                if path[t] != id as int {
                    assert(mid[path[t]] == nodes0[path[t]]);
                }
            }
            assert forall|j: int| 0 <= j < base implies (#[trigger] fin[j]).state
                == nodes0[j].state && fin[j].action == nodes0[j].action && fin[j].parent
                == nodes0[j].parent && (j != id as int ==> fin[j].children@
                == nodes0[j].children@) by {
                if path.contains(j) {
                    let t = choose|t: int| 0 <= t < path.len() && path[t] == j;
                    assert(stats_bumped(
                        nodes0[path[t]],
                        fin[path[t]],
                        if t % 2 == 0 {
                            total as int
                        } else {
                            -(total as int)
                        },
                        count as int,
                    ));
                    assert(fin[path[t]].children@ == mid[path[t]].children@);
                    if j != id as int {
                        assert(mid[j] == nodes0[j]);
                    }
                } else {
                    assert(j != id as int);
                    assert(fin[j] == mid[j] && mid[j] == nodes0[j]);
                }
            }
            assert(fin[id as int].children@ == mid[id as int].children@) by {
                let t0 = 0int;
                assert(path[t0] == id as int);
                assert(fin[path[t0]].children@ == mid[path[t0]].children@);
            }
            assert(batch_bumped(nodes0, fin, id as int, total as int, count as int));
            assert(-(count as int) <= total as int <= count as int);
        }
    }

    /// Expansion: create one child per legal action of the non-terminal leaf
    /// at `id` and attach them in one batch, run one rollout per new child,
    /// and backpropagate the summed rewards once with the batch's size as
    /// the visit increment. Rollouts draw from the engine's own generator,
    /// one after the other.
    pub fn expand(&mut self, id: usize)
        requires
            old(self).wf(),
            id < old(self).arena.nodes@.len(),
            old(self).arena.nodes@[id as int].children@.len() == 0,
            !old(self).arena.nodes@[id as int].state.terminal_spec(),
            old(self).arena.nodes@[old(self).root_id as int].n <= BATCH_CAP,
        ensures
            expand_post(*old(self), *final(self), id as int),
    {
        let ghost pre = *self;
        let base = self.arena.nodes.len();
        let parent_state = self.arena.get_node(id).state.duplicate();
        let actions = parent_state.get_legal_actions();
        proof {
            parent_state.lemma_nonterminal_has_actions();
        }
        let count = actions.len();
        let child_states = self.create_children(id, &parent_state, &actions);
        let grown = self.arena.nodes.len();
        proof {
            assert(grown == base + count);
        }
        self.attach_children(id, base, count);
        let mut total: i64 = 0;
        let mut j: usize = 0;
        let ghost frame = *self;
        while j < count
            invariant
                j <= count,
                count <= 0xFFFF_FFFF,
                count == child_states@.len(),
                -(j as int) <= total as int <= j as int,
                forall|x: int| 0 <= x < child_states@.len() ==> (#[trigger] child_states@[x]).wf(),
                self.arena.nodes@ == frame.arena.nodes@,
                self.root_id == frame.root_id,
                self.c_fp == frame.c_fp,
            decreases count - j,
        {
            let st = child_states[j].duplicate();
            let tp = st.to_play();
            let reward = self.simulate_from_state(st, tp);
            total = total + reward;
            j = j + 1;
        }
        self.finish_expansion(id, Ghost(pre), base, count, total);
    }

    /// The parallel variant of [`Mcts::expand`]: the same batch expansion,
    /// but the new children's rollouts run concurrently on worker threads,
    /// each on a generator freshly seeded from the operating system.
    pub fn expand_parallel(&mut self, id: usize)
        requires
            old(self).wf(),
            id < old(self).arena.nodes@.len(),
            old(self).arena.nodes@[id as int].children@.len() == 0,
            !old(self).arena.nodes@[id as int].state.terminal_spec(),
            old(self).arena.nodes@[old(self).root_id as int].n <= BATCH_CAP,
        ensures
            expand_post(*old(self), *final(self), id as int),
    {
        let ghost pre = *self;
        let base = self.arena.nodes.len();
        let parent_state = self.arena.get_node(id).state.duplicate();
        let actions = parent_state.get_legal_actions();
        proof {
            parent_state.lemma_nonterminal_has_actions();
        }
        let count = actions.len();
        let child_states = self.create_children(id, &parent_state, &actions);
        let grown = self.arena.nodes.len();
        proof {
            assert(grown == base + count);
        }
        self.attach_children(id, base, count);
        let rewards = par_rollouts(&child_states);
        let mut total: i64 = 0;
        let mut j: usize = 0;
        while j < count
            invariant
                j <= count,
                count <= 0xFFFF_FFFF,
                count == rewards@.len(),
                -(j as int) <= total as int <= j as int,
                forall|x: int| 0 <= x < rewards@.len() ==> -1 <= #[trigger] rewards@[x] <= 1,
            decreases count - j,
        {
            let reward = rewards[j];
            total = total + reward;
            j = j + 1;
        }
        self.finish_expansion(id, Ghost(pre), base, count, total);
    }

    /// One full search: runs the select → expand / simulate → backpropagate
    /// iteration `budget` times (stopping early only if the root's visit
    /// count could overflow the statistics), then returns the action of the
    /// root child with the highest mean reward, the earliest such child
    /// winning ties. The root position must not be terminal.
    pub fn search(&mut self, budget: usize) -> (r: S::Action)
        requires
            old(self).wf(),
            budget >= 1,
            !old(self).arena.nodes@[old(self).root_id as int].state.terminal_spec(),
        ensures
            search_post(*old(self), *final(self), r),
            final(self).arena.nodes@[final(self).root_id as int].n
                >= old(self).arena.nodes@[old(self).root_id as int].n + budget
                || final(self).arena.nodes@[final(self).root_id as int].n > BATCH_CAP,
    {
        let mut it: usize = 0;
        let ghost pre = *self;
        let ghost root = self.root_id as int;
        while it < budget
            invariant
                self.wf(),
                self.root_id == pre.root_id,
                self.c_fp == pre.c_fp,
                root == self.root_id as int,
                self.arena.nodes@[root].state == pre.arena.nodes@[pre.root_id as int].state,
                !self.arena.nodes@[root].state.terminal_spec(),
                it <= budget,
                1 <= budget,
                it >= 1 ==> self.arena.nodes@[root].children@.len() > 0,
                self.arena.nodes@[root].n >= pre.arena.nodes@[pre.root_id as int].n + it
                    || self.arena.nodes@[root].n > BATCH_CAP,
            ensures
                self.wf(),
                self.root_id == pre.root_id,
                self.c_fp == pre.c_fp,
                root == self.root_id as int,
                self.arena.nodes@[root].state == pre.arena.nodes@[pre.root_id as int].state,
                self.arena.nodes@[root].children@.len() > 0,
                self.arena.nodes@[root].n >= pre.arena.nodes@[pre.root_id as int].n + budget
                    || self.arena.nodes@[root].n > BATCH_CAP,
            decreases budget - it,
        {
            let iterated = self.search_iteration(false);
            if !iterated {
                break;
            }
            it = it + 1;
        }
        self.extract_best_action(Ghost(pre))
    }

    /// The parallel variant of [`Mcts::search`]: identical except that each
    /// expansion's rollouts run concurrently on worker threads, seeded from
    /// the operating system, so its outcomes are not reproducible.
    pub fn search_parallel(&mut self, budget: usize) -> (r: S::Action)
        requires
            old(self).wf(),
            budget >= 1,
            !old(self).arena.nodes@[old(self).root_id as int].state.terminal_spec(),
        ensures
            search_post(*old(self), *final(self), r),
            final(self).arena.nodes@[final(self).root_id as int].n
                >= old(self).arena.nodes@[old(self).root_id as int].n + budget
                || final(self).arena.nodes@[final(self).root_id as int].n > BATCH_CAP,
    {
        let mut it: usize = 0;
        let ghost pre = *self;
        let ghost root = self.root_id as int;
        while it < budget
            invariant
                self.wf(),
                self.root_id == pre.root_id,
                self.c_fp == pre.c_fp,
                root == self.root_id as int,
                self.arena.nodes@[root].state == pre.arena.nodes@[pre.root_id as int].state,
                !self.arena.nodes@[root].state.terminal_spec(),
                it <= budget,
                1 <= budget,
                it >= 1 ==> self.arena.nodes@[root].children@.len() > 0,
                self.arena.nodes@[root].n >= pre.arena.nodes@[pre.root_id as int].n + it
                    || self.arena.nodes@[root].n > BATCH_CAP,
            ensures
                self.wf(),
                self.root_id == pre.root_id,
                self.c_fp == pre.c_fp,
                root == self.root_id as int,
                self.arena.nodes@[root].state == pre.arena.nodes@[pre.root_id as int].state,
                self.arena.nodes@[root].children@.len() > 0,
                self.arena.nodes@[root].n >= pre.arena.nodes@[pre.root_id as int].n + budget
                    || self.arena.nodes@[root].n > BATCH_CAP,
            decreases budget - it,
        {
            let iterated = self.search_iteration(true);
            if !iterated {
                break;
            }
            it = it + 1;
        }
        self.extract_best_action(Ghost(pre))
    }

    /// Checked entry point: rejects an invalid configuration — a zero
    /// iteration budget, or a root position that is already terminal — up
    /// front with a descriptive error, and otherwise runs [`Mcts::search`].
    pub fn try_search(&mut self, budget: usize) -> (r: Result<S::Action, SearchError>)
        requires
            old(self).wf(),
        ensures
            budget == 0 ==> r == Result::<S::Action, SearchError>::Err(SearchError::ZeroBudget)
                && *final(self) == *old(self),
            budget >= 1 && old(self).arena.nodes@[old(self).root_id as int].state.terminal_spec()
                ==> r == Result::<S::Action, SearchError>::Err(SearchError::TerminalRoot)
                && *final(self) == *old(self),
            budget >= 1 && !old(self).arena.nodes@[old(self).root_id as int].state.terminal_spec()
                ==> r is Ok && search_post(*old(self), *final(self), r->Ok_0),
    {
        if budget == 0 {
            return Result::Err(SearchError::ZeroBudget);
        }
        if self.arena.get_node(self.root_id).state.is_terminal() {
            return Result::Err(SearchError::TerminalRoot);
        }
        Result::Ok(self.search(budget))
    }

    /// One search iteration: select a node, then either expand it (with one
    /// rollout per new child) or, if its position is terminal, run a single
    /// rollout there; in both cases the outcome is backpropagated. Returns
    /// `false`, doing nothing, only when another batch could overflow the
    /// root's statistics — the root then already has children.
    fn search_iteration(&mut self, parallel: bool) -> (iterated: bool)
        requires
            old(self).wf(),
            !old(self).arena.nodes@[old(self).root_id as int].state.terminal_spec(),
        ensures
            final(self).wf(),
            final(self).root_id == old(self).root_id,
            final(self).c_fp == old(self).c_fp,
            final(self).arena.nodes@[final(self).root_id as int].state == old(
                self,
            ).arena.nodes@[old(self).root_id as int].state,
            final(self).arena.nodes@[final(self).root_id as int].children@.len() > 0,
            iterated ==> final(self).arena.nodes@[final(self).root_id as int].n > old(
                self,
            ).arena.nodes@[old(self).root_id as int].n,
            !iterated ==> *final(self) == *old(self) && old(
                self,
            ).arena.nodes@[old(self).root_id as int].n > BATCH_CAP,
    {
        let ghost nodes0 = self.arena.nodes@;
        let ghost root = self.root_id as int;
        let root_n = self.arena.get_node(self.root_id).n;
        if root_n > BATCH_CAP {
            proof {
                assert(nodes0[root].n > 0);
                assert(nodes0[root].children@.len() > 0);
            }
            return false;
        }
        let selected = self.select();
        let selected_terminal = self.arena.get_node(selected).state.is_terminal();
        if !selected_terminal {
            if parallel {
                self.expand_parallel(selected);
            } else {
                self.expand(selected);
            }
            proof {
                let post = self.arena.nodes@;
                nodes0[selected as int].state.lemma_nonterminal_has_actions();
                if selected as int != root {
                    assert(nodes0[root].children@.len() > 0) by {
                        if nodes0[root].children@.len() == 0 {
                            assert(select_spec(nodes0, root, self.c_fp as int) == root);
                        }
                    }
                    assert(post[root].children@ == nodes0[root].children@);
                }
            }
        } else {
            proof {
                assert(selected as int != root);
                assert(nodes0[root].children@.len() > 0) by {
                    if nodes0[root].children@.len() == 0 {
                        assert(select_spec(nodes0, root, self.c_fp as int) == root);
                    }
                }
            }
            let st = self.arena.get_node(selected).state.duplicate();
            // A node's statistics are kept from the perspective of the
            // player who moved into it, so a terminal node's own reward is
            // taken from its mover's perspective, not from the (losing)
            // player left to move.
            let tp = st.to_play();
            let mover = 1 - tp;
            let reward = self.simulate_from_state(st, mover);
            let ghost mid = self.arena.nodes@;
            proof {
                assert(mid == nodes0);
            }
            self.backprop(selected, reward, 1);
            proof {
                reveal(stats_bumped);
                let fin = self.arena.nodes@;
                let path = path_to_root(nodes0, selected as int);
                lemma_path_props(nodes0, selected as int);
                assert forall|j: int| 0 <= j < nodes0.len() implies (#[trigger] fin[j]).children@
                    == nodes0[j].children@ && fin[j].state == nodes0[j].state by {
                    if path.contains(j) {
                        let t = choose|t: int| 0 <= t < path.len() && path[t] == j;
                        assert(stats_bumped(
                            nodes0[path[t]],
                            fin[path[t]],
                            if t % 2 == 0 {
                                reward as int
                            } else {
                                -(reward as int)
                            },
                            1,
                        ));
                        assert(fin[path[t]].children@ == nodes0[path[t]].children@);
                    } else {
                        assert(fin[j] == nodes0[j]);
                    }
                }
            }
        }
        true
    }

    /// Root-action extraction: returns the action of the root child with the
    /// highest mean reward, the earliest such child winning ties; the tree
    /// itself is not changed. `pre` records the engine the search began with.
    fn extract_best_action(&mut self, Ghost(pre): Ghost<Mcts<S>>) -> (r: S::Action)
        requires
            old(self).wf(),
            old(self).root_id == pre.root_id,
            old(self).c_fp == pre.c_fp,
            old(self).arena.nodes@[old(self).root_id as int].state == pre.arena.nodes@[pre.root_id as int].state,
            old(self).arena.nodes@[old(self).root_id as int].children@.len() > 0,
        ensures
            *final(self) == *old(self),
            search_post(pre, *final(self), r),
    {
        proof {
            let nodes = self.arena.nodes@;
            let root = self.root_id as int;
            assert(expanded_shape(nodes, root));
        }
        let best = self.best_q_child();
        S::clone_action(&self.arena.get_node(best).action)
    }

    /// The arena index of the root child with the highest mean reward,
    /// earlier children winning ties. Exploration plays no role here: once
    /// the search budget is spent, the choice is purely exploiting.
    pub fn best_q_child(&self) -> (r: usize)
        requires
            self.wf(),
            self.arena.nodes@[self.root_id as int].children@.len() > 0,
        ensures
            r < self.arena.nodes@.len(),
            r == self.arena.nodes@[self.root_id as int].children@[best_q_in_prefix(
                self.arena.nodes@,
                self.arena.nodes@[self.root_id as int].children@,
                self.arena.nodes@[self.root_id as int].children@.len() as int,
            )] as int,
    {
        let ghost nodes = self.arena.nodes@;
        let root_node = self.arena.get_node(self.root_id);
        let ghost cs = root_node.children@;
        let mut best: usize = root_node.children[0];
        let mut j: usize = 1;
        while j < root_node.children.len()
            invariant
                self.wf(),
                nodes == self.arena.nodes@,
                self.root_id < nodes.len(),
                cs == nodes[self.root_id as int].children@,
                cs == root_node.children@,
                forall|i: int| 0 <= i < cs.len() ==> #[trigger] cs[i] < nodes.len(),
                forall|i: int| 0 <= i < cs.len() ==> nodes[#[trigger] cs[i] as int].stats_wf(),
                1 <= j <= cs.len(),
                best == cs[best_q_in_prefix(nodes, cs, j as int)],
            decreases cs.len() - j,
        {
            proof {
                lemma_best_q_in_prefix(nodes, cs, j as int);
            }
            let c = root_node.children[j];
            let challenger = self.arena.get_node(c);
            let incumbent = self.arena.get_node(best);
            if q_above_exec(challenger, incumbent) {
                best = c;
            }
            j = j + 1;
        }
        proof {
            lemma_best_q_in_prefix(nodes, cs, cs.len() as int);
        }
        best
    }

    /// One rollout: from `state`, play uniformly random legal actions until
    /// a terminal position, and report its reward from `to_play`'s
    /// perspective. Only the engine's random number generator changes: the
    /// result is the reward of some terminal position reachable from
    /// `state` by legal steps, and a terminal `state` draws nothing and
    /// yields exactly its own reward.
    pub fn simulate_from_state(&mut self, state: S, to_play: usize) -> (r: i64)
        requires
            state.wf(),
            to_play < 2,
        ensures
            -1 <= r <= 1,
            exists|t: S|
                {
                    &&& #[trigger] reachable_within(state, t, state.measure_spec())
                    &&& t.terminal_spec()
                    &&& r == t.reward_spec(to_play as int)
                },
            state.terminal_spec() ==> r == state.reward_spec(to_play as int),
            final(self).arena.nodes@ == old(self).arena.nodes@,
            final(self).root_id == old(self).root_id,
            final(self).c_fp == old(self).c_fp,
    {
        random_playout(state, to_play, &mut self.rng)
    }
}

/// Combining one statistics update at `id` with a finished walk from its
/// parent `p` gives the walk from `id`: the path from `id` is `id` followed
/// by the path from `p`, and the sign pattern shifts by one level.
#[verifier::rlimit(100)]
proof fn lemma_backprop_step<S: State>(
    nodes0: Seq<Node<S>>,
    mid: Seq<Node<S>>,
    fin: Seq<Node<S>>,
    id: int,
    p: usize,
    reward: int,
    k: int,
)
    requires
        0 <= id < nodes0.len(),
        p < id,
        mid.len() == nodes0.len(),
        fin.len() == nodes0.len(),
        forall|x: int|
            0 <= x < nodes0.len() && nodes0[x].parent is Some ==> 0 <= (
            #[trigger] nodes0[x].parent)->0 < x,
        nodes0[id].parent == Some(p),
        forall|j: int| 0 <= j < nodes0.len() && j != id ==> mid[j] == nodes0[j],
        stats_bumped(nodes0[id], mid[id], reward, k),
        mid[id].children@ == nodes0[id].children@,
        path_to_root(mid, p as int) == path_to_root(nodes0, p as int),
        forall|j: int|
            0 <= j < mid.len() && !path_to_root(mid, p as int).contains(j) ==> fin[j] == mid[j],
        forall|t: int|
            0 <= t < path_to_root(mid, p as int).len() ==> stats_bumped(
                mid[#[trigger] path_to_root(mid, p as int)[t]],
                fin[path_to_root(mid, p as int)[t]],
                if t % 2 == 0 {
                    -reward
                } else {
                    reward
                },
                k,
            ),
        forall|t: int|
            0 <= t < path_to_root(mid, p as int).len() ==> fin[#[trigger] path_to_root(
                mid,
                p as int,
            )[t]].children@ == mid[path_to_root(mid, p as int)[t]].children@,
    ensures
        forall|j: int|
            0 <= j < nodes0.len() && !path_to_root(nodes0, id).contains(j) ==> fin[j] == nodes0[j],
        forall|t: int|
            0 <= t < path_to_root(nodes0, id).len() ==> stats_bumped(
                nodes0[#[trigger] path_to_root(nodes0, id)[t]],
                fin[path_to_root(nodes0, id)[t]],
                if t % 2 == 0 {
                    reward
                } else {
                    -reward
                },
                k,
            ),
        forall|t: int|
            0 <= t < path_to_root(nodes0, id).len() ==> fin[#[trigger] path_to_root(
                nodes0,
                id,
            )[t]].children@ == nodes0[path_to_root(nodes0, id)[t]].children@,
{
    let path = path_to_root(nodes0, id);
    let rest = path_to_root(nodes0, p as int);
    lemma_path_props(nodes0, id);
    lemma_path_props(nodes0, p as int);
    assert(path == seq![id] + rest);
    assert(!rest.contains(id)) by {
        if rest.contains(id) {
            let s = choose|s: int| 0 <= s < rest.len() && rest[s] == id;
            assert(rest[s] <= p as int);
        }
    }
    assert(fin[id] == mid[id]);
    assert forall|j: int|
        0 <= j < nodes0.len() && !path.contains(j) implies fin[j] == nodes0[j] by {
        assert(path[0] == id);
        assert(j != id);
        assert(!rest.contains(j)) by {
            if rest.contains(j) {
                let s = choose|s: int| 0 <= s < rest.len() && rest[s] == j;
                assert(path[s + 1] == j);
            }
        }
        assert(mid[j] == nodes0[j]);
        assert(fin[j] == mid[j]);
    }
    assert forall|t: int| 0 <= t < path.len() implies stats_bumped(
        nodes0[#[trigger] path[t]],
        fin[path[t]],
        if t % 2 == 0 {
            reward
        } else {
            -reward
        },
        k,
    ) && fin[path[t]].children@ == nodes0[path[t]].children@ by {
        if t == 0 {
            assert(path[0] == id);
        } else {
            assert(path[t] == rest[t - 1]);
            assert(stats_bumped(
                mid[path_to_root(mid, p as int)[t - 1]],
                fin[path_to_root(mid, p as int)[t - 1]],
                if (t - 1) % 2 == 0 {
                    -reward
                } else {
                    reward
                },
                k,
            ));
            assert(fin[path_to_root(mid, p as int)[t - 1]].children@ == mid[path_to_root(
                mid,
                p as int,
            )[t - 1]].children@);
            assert(rest[t - 1] <= p as int);
            assert(rest[t - 1] != id);
            assert(mid[rest[t - 1]] == nodes0[rest[t - 1]]);
        }
    }
}

/// A statistics-only rewrite of the tree keeps the invariant, provided the
/// new statistics are sane, no node overtakes the root, and an unvisited
/// root is still a leaf.
proof fn lemma_tree_wf_after_stats_change<S: State>(
    before: Seq<Node<S>>,
    after: Seq<Node<S>>,
    root: int,
)
    requires
        tree_wf(before, root),
        after.len() == before.len(),
        forall|j: int| 0 <= j < before.len() ==> (#[trigger] after[j]).parent == before[j].parent,
        forall|j: int|
            0 <= j < before.len() ==> (#[trigger] after[j]).children@ == before[j].children@,
        forall|j: int| 0 <= j < before.len() ==> (#[trigger] after[j]).state == before[j].state,
        forall|j: int| 0 <= j < before.len() ==> (#[trigger] after[j]).action == before[j].action,
        forall|j: int| 0 <= j < before.len() ==> (#[trigger] after[j]).stats_wf(),
        forall|j: int| 0 <= j < before.len() ==> (#[trigger] after[j]).n <= after[root].n,
        after[root].children@.len() == 0 ==> after[root].n == 0,
    ensures
        tree_wf(after, root),
{
    assert forall|i: int| 0 <= i < after.len() && i != root implies #[trigger] linked_to_parent(
        after,
        i,
    ) by {
        assert(linked_to_parent(before, i));
        let pr = (before[i].parent)->0 as int;
        assert(0 <= pr < before.len());
        assert(after[pr].children@ == before[pr].children@);
    }
    assert forall|i: int|
        0 <= i < after.len() && after[i].children@.len() > 0 implies #[trigger] expanded_shape(
        after,
        i,
    ) by {
        assert(expanded_shape(before, i));
        assert forall|j: int| 0 <= j < after[i].children@.len() implies {
            &&& after[(#[trigger] after[i].children@[j]) as int].action
                == after[i].state.legal_spec()[j]
            &&& after[after[i].children@[j] as int].state == after[i].state.step_spec(
                after[i].state.legal_spec()[j],
            )
        } by {
            let c = before[i].children@[j];
            assert(i < c < before.len());
            assert(before[c as int].action == before[i].state.legal_spec()[j]);
            assert(before[c as int].state == before[i].state.step_spec(
                before[i].state.legal_spec()[j],
            ));
        }
    }
}

/// Backpropagation preserves the tree invariant: only the statistics of the
/// nodes on the path to the root change, each of them gains the same visit
/// count, and the root — the last node of the path — gains it too, so no
/// node overtakes the root.
#[verifier::rlimit(100)]
proof fn lemma_backprop_preserves_tree_wf<S: State>(
    before: Seq<Node<S>>,
    after: Seq<Node<S>>,
    root: int,
    id: int,
    reward: int,
    k: int,
)
    requires
        tree_wf(before, root),
        before.len() <= usize::MAX,
        0 <= id < before.len(),
        1 <= k <= BATCH_CAP,
        -k <= reward <= k,
        before[root].n <= BATCH_CAP,
        id == root ==> before[id].children@.len() > 0,
        after.len() == before.len(),
        forall|j: int|
            0 <= j < before.len() && !path_to_root(before, id).contains(j) ==> after[j] == before[j],
        forall|t: int|
            0 <= t < path_to_root(before, id).len() ==> stats_bumped(
                before[#[trigger] path_to_root(before, id)[t]],
                after[path_to_root(before, id)[t]],
                if t % 2 == 0 {
                    reward
                } else {
                    -reward
                },
                k,
            ),
        forall|t: int|
            0 <= t < path_to_root(before, id).len() ==> after[#[trigger] path_to_root(
                before,
                id,
            )[t]].children@ == before[path_to_root(before, id)[t]].children@,
    ensures
        tree_wf(after, root),
        after[root].n == before[root].n + k,
{
    reveal(stats_bumped);
    let path = path_to_root(before, id);
    lemma_path_props(before, id);
    assert(path.last() == root) by {
        let l = path.last();
        if l != root {
            assert(before[l].parent is Some);
        }
    }
    let last = path.len() - 1;
    assert(stats_bumped(
        before[path_to_root(before, id)[last]],
        after[path_to_root(before, id)[last]],
        if last % 2 == 0 {
            reward
        } else {
            -reward
        },
        k,
    ));
    assert(after[root].n == before[root].n + k);
    assert forall|j: int| 0 <= j < before.len() implies {
        &&& (#[trigger] after[j]).parent == before[j].parent
        &&& after[j].children@ == before[j].children@
        &&& after[j].state == before[j].state
        &&& after[j].action == before[j].action
    } by {
        if path.contains(j) {
            let s = choose|s: int| 0 <= s < path.len() && path[s] == j;
            assert(stats_bumped(
                before[path_to_root(before, id)[s]],
                after[path_to_root(before, id)[s]],
                if s % 2 == 0 {
                    reward
                } else {
                    -reward
                },
                k,
            ));
            assert(after[path_to_root(before, id)[s]].children@ == before[path_to_root(
                before,
                id,
            )[s]].children@);
        }
    }
    assert forall|j: int|
        0 <= j < before.len() implies (#[trigger] after[j]).stats_wf() && after[j].n
        <= after[root].n by {
        assert(before[j].stats_wf());
        assert(before[j].n <= before[root].n);
        if path.contains(j) {
            let s = choose|s: int| 0 <= s < path.len() && path[s] == j;
            assert(stats_bumped(
                before[path_to_root(before, id)[s]],
                after[path_to_root(before, id)[s]],
                if s % 2 == 0 {
                    reward
                } else {
                    -reward
                },
                k,
            ));
        }
    }
    // The root has a child: either backpropagation started there, in which
    // case a child is required, or the path has at least two nodes and its
    // second-to-last node is a child of the root.
    assert(after[root].children@.len() > 0) by {
        if id == root {
            assert(before[root].children@.len() > 0);
        } else {
            assert(path[0] == id && path.last() == root);
            let t0 = path.len() - 2;
            let y = path[t0];
            assert(path[t0 + 1] == root);
            assert(before[path[t0]].parent == Some((path[t0 + 1]) as usize));
            assert(before[y].parent == Some(root as usize));
            assert(0 <= y < before.len());
            assert(y != root);
            assert(linked_to_parent(before, y));
            assert((before[y].parent)->0 as int == root);
            assert(before[root].children@.contains(y as usize));
        }
    }
    lemma_tree_wf_after_stats_change(before, after, root);
}

/// One random playout to a terminal position; the reward is reported from
/// `to_play`'s perspective.
///
/// Which terminal position is reached depends on the random draws, but the
/// result is always the reward of a terminal position reachable from
/// `state` by legal steps, and a playout started at a terminal position
/// draws nothing and returns exactly that position's reward.
pub fn random_playout<S: State>(state: S, to_play: usize, rng: &mut rand::rngs::StdRng) -> (r: i64)
    requires
        state.wf(),
        to_play < 2,
    ensures
        -1 <= r <= 1,
        exists|t: S|
            {
                &&& #[trigger] reachable_within(state, t, state.measure_spec())
                &&& t.terminal_spec()
                &&& r == t.reward_spec(to_play as int)
            },
        state.terminal_spec() ==> r == state.reward_spec(to_play as int),
{
    let ghost state0 = state;
    let ghost mut used: nat = 0;
    let mut s = state;
    while !s.is_terminal()
        invariant
            s.wf(),
            to_play < 2,
            state0.wf(),
            reachable_within(state0, s, used),
            used + s.measure_spec() <= state0.measure_spec(),
            state0.terminal_spec() ==> s == state0,
        decreases s.measure_spec(),
    {
        proof {
            s.lemma_nonterminal_has_actions();
        }
        let actions = s.get_legal_actions();
        let i = gen_index(rng, actions.len());
        let next = s.step(&actions[i]);
        proof {
            assert(next == s.step_spec(s.legal_spec()[i as int]));
            lemma_reachable_step(state0, s, next, used);
            used = used + 1;
        }
        s = next;
    }
    proof {
        lemma_reachable_mono(state0, s, used, state0.measure_spec());
        assert(reachable_within(state0, s, state0.measure_spec()));
    }
    s.reward(to_play)
}

} // verus!
