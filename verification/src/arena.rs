//! The node store: an append-only, index-addressed collection of search-tree
//! nodes. Indices are stable handles — entries are never removed, reordered
//! or relocated, so the tree can link parents and children by position.

use vstd::prelude::*;
use crate::node::Node;
use crate::num::{mean_fp, q_fp_spec};
use crate::state::State;
use crate::VISITS_CAP;

verus! {

/// Owns every node of one search tree.
pub struct Arena<S: State> {
    pub nodes: Vec<Node<S>>,
}

impl<S: State> Arena<S> {
    /// An empty arena.
    pub fn new() -> (r: Arena<S>)
        ensures
            r.nodes@.len() == 0,
    {
        Arena { nodes: Vec::new() }
    }

    /// Appends a node and returns its stable index.
    pub fn add_node(&mut self, node: Node<S>) -> (id: usize)
        ensures
            final(self).nodes@ == old(self).nodes@.push(node),
            id == old(self).nodes@.len(),
    {
        let id = self.nodes.len();
        self.nodes.push(node);
        id
    }

    /// Read access to the node at `id`.
    pub fn get_node(&self, id: usize) -> (r: &Node<S>)
        requires
            id < self.nodes@.len(),
        ensures
            *r == self.nodes@[id as int],
    {
        &self.nodes[id]
    }

    /// Appends one child index to the child list of the node at `id`;
    /// nothing else changes.
    pub fn push_child(&mut self, id: usize, child: usize)
        requires
            id < old(self).nodes@.len(),
        ensures
            final(self).nodes@.len() == old(self).nodes@.len(),
            forall|j: int|
                0 <= j < old(self).nodes@.len() && j != id ==> final(self).nodes@[j] == old(
                    self,
                ).nodes@[j],
            final(self).nodes@[id as int].children@ == old(self).nodes@[id as int].children@.push(
                child,
            ),
            final(self).nodes@[id as int].state == old(self).nodes@[id as int].state,
            final(self).nodes@[id as int].action == old(self).nodes@[id as int].action,
            final(self).nodes@[id as int].parent == old(self).nodes@[id as int].parent,
            final(self).nodes@[id as int].n == old(self).nodes@[id as int].n,
            final(self).nodes@[id as int].reward_sum == old(self).nodes@[id as int].reward_sum,
            final(self).nodes@[id as int].q_fp == old(self).nodes@[id as int].q_fp,
    {
        let node = &mut self.nodes[id];
        node.children.push(child);
    }

    /// Adds `k` visits and a reward total of `delta` to the node at `id` and
    /// refreshes its stored mean; nothing else changes.
    pub fn update_stats(&mut self, id: usize, delta: i64, k: u32)
        requires
            id < old(self).nodes@.len(),
            old(self).nodes@[id as int].stats_wf(),
            1 <= k,
            -(k as int) <= delta as int <= k as int,
            old(self).nodes@[id as int].n + k <= VISITS_CAP,
        ensures
            final(self).nodes@.len() == old(self).nodes@.len(),
            forall|j: int|
                0 <= j < old(self).nodes@.len() && j != id ==> final(self).nodes@[j] == old(
                    self,
                ).nodes@[j],
            final(self).nodes@[id as int].n == old(self).nodes@[id as int].n + k,
            final(self).nodes@[id as int].reward_sum == old(self).nodes@[id as int].reward_sum
                + delta,
            final(self).nodes@[id as int].q_fp == q_fp_spec(
                old(self).nodes@[id as int].reward_sum + delta,
                old(self).nodes@[id as int].n + k,
            ),
            final(self).nodes@[id as int].stats_wf(),
            final(self).nodes@[id as int].children@ == old(self).nodes@[id as int].children@,
            final(self).nodes@[id as int].state == old(self).nodes@[id as int].state,
            final(self).nodes@[id as int].action == old(self).nodes@[id as int].action,
            final(self).nodes@[id as int].parent == old(self).nodes@[id as int].parent,
    {
        let node = &mut self.nodes[id];
        node.n = node.n + k as u64;
        node.reward_sum = node.reward_sum + delta as i64;
        node.q_fp = mean_fp(node.reward_sum, node.n);
    }
}

} // verus!
