//! The unbalanced Merkle tree: the same array layout as the balanced tree,
//! but tracking the actual (possibly non-power-of-two) leaf count. Where a
//! node has no live right sibling, the left child is promoted unchanged to
//! the parent slot. The tree grows on demand when a leaf is inserted beyond
//! the current count.

use vstd::prelude::*;
use std::collections::VecDeque;
use crate::chunk::output_views;
use crate::constants::{IV, ROOT, iv_seq, lemma_iv_view};
use crate::numeric::{
    bitlen, is_pow2, lemma_queue_measure_push, next_pow2, next_power_of_two, queue_measure,
};
use crate::output::{Output, OutputView, output_cv_spec, parent_output, parent_output_spec};
use crate::tree::{
    ints_of, offset_indices, root_spec, sentinel_output_spec, sibling_spec, strictly_ascending,
    write_leaves_spec,
};

verus! {

#[derive(Debug, Clone)]
pub struct UnbalancedMerkleTree {
    tree: Vec<Output>,
    actual_leaves: usize,
}

pub ghost struct UnbalancedView {
    pub tree: Seq<OutputView>,
    pub actual_leaves: nat,
}

impl View for UnbalancedMerkleTree {
    type V = UnbalancedView;

    closed spec fn view(&self) -> UnbalancedView {
        UnbalancedView { tree: output_views(self.tree@), actual_leaves: self.actual_leaves as nat }
    }
}

pub open spec fn unbalanced_wf(v: UnbalancedView) -> bool {
    &&& v.tree.len() >= 2
    &&& is_pow2(v.tree.len() as int)
    &&& v.actual_leaves <= v.tree.len() / 2
}

/// One level of the bottom-up construction: parent `i` of the level that
/// starts at `s` with `n` live nodes is the pair of its children, or the
/// left child promoted unchanged when the right one (pair index 2i + 1) is
/// beyond the live count.
pub open spec fn build_one_level_spec(t: Seq<OutputView>, s: int, n: nat, i: nat) -> Seq<
    OutputView,
>
    decreases (n + 1) / 2 - i,
{
    if i >= ((n + 1) / 2) {
        t
    } else {
        let left = s + 2 * i;
        let right = left + 1;
        let parent = s / 2 + i;
        let t2 = if 2 * i + 1 >= n {
            t.update(parent, t[left])
        } else {
            t.update(
                parent,
                parent_output_spec(output_cv_spec(t[left]), output_cv_spec(t[right]), iv_seq(), 0),
            )
        };
        build_one_level_spec(t2, s, n, i + 1)
    }
}

/// All levels from the one starting at `s` (with `n` live nodes) up to the
/// root.
pub open spec fn build_levels_spec(t: Seq<OutputView>, s: int, n: nat) -> Seq<OutputView>
    decreases s,
{
    if s <= 1 {
        t
    } else {
        build_levels_spec(build_one_level_spec(t, s, n, 0), s / 2, ((n + 1) / 2) as nat)
    }
}

/// The construction: storage sized to twice the next power of two of the
/// leaf count, leaves at [C, C + actual), ancestors built level by level;
/// a single leaf is also copied to the root slot.
pub open spec fn unbalanced_new_spec(leaves: Seq<OutputView>) -> Seq<OutputView> {
    let c = next_pow2(leaves.len()) as int;
    let t = Seq::new(
        (2 * c) as nat,
        |i: int|
            if c <= i < c + leaves.len() {
                leaves[i - c]
            } else {
                sentinel_output_spec()
            },
    );
    if leaves.len() == 1 {
        t.update(1, t[c])
    } else {
        build_levels_spec(t, c, leaves.len())
    }
}

/// Recomputing the ancestors of node `p` bottom up, pairing or promoting:
/// a parent is the pair of its children when the right child index is below
/// `leaf_start + actual` (always so above the leaf level), and the left
/// child promoted unchanged otherwise.
pub open spec fn update_path_unbalanced_spec(
    t: Seq<OutputView>,
    p: int,
    leaf_start: int,
    actual: nat,
) -> Seq<OutputView>
    decreases p,
{
    if p <= 1 {
        t
    } else {
        let parent = p / 2;
        let left = 2 * parent;
        let right = left + 1;
        let t2 = if right < leaf_start + actual {
            t.update(
                parent,
                parent_output_spec(output_cv_spec(t[left]), output_cv_spec(t[right]), iv_seq(), 0),
            )
        } else {
            t.update(parent, t[left])
        };
        update_path_unbalanced_spec(t2, parent, leaf_start, actual)
    }
}

/// The storage after growing for a leaf at `leaf_index`: unchanged if it
/// already fits, else extended with copies of slot 0's sentinel to twice
/// the next power of two of the new leaf count.
pub open spec fn grown_tree_spec(t: Seq<OutputView>, new_actual: nat) -> Seq<OutputView> {
    let new_size = 2 * next_pow2(new_actual);
    if new_size > t.len() {
        t + Seq::new((new_size - t.len()) as nat, |i: int| t[0])
    } else {
        t
    }
}

/// The ancestor-update queue with the pair-or-promote rule; otherwise as in
/// the balanced tree.
pub open spec fn bulk_update_unbalanced_spec(
    t: Seq<OutputView>,
    q: Seq<int>,
    leaf_start: int,
    actual: nat,
) -> Seq<OutputView>
    decreases queue_measure(q),
{
    if q.len() == 0 {
        t
    } else {
        let cur = q[0];
        let rest = q.skip(1);
        if cur <= 1 {
            t
        } else {
            let rest2 = if rest.len() > 0 && rest[0] == sibling_spec(cur) {
                rest.skip(1)
            } else {
                rest
            };
            let parent = cur / 2;
            let left = 2 * parent;
            let right = left + 1;
            let po = if right < leaf_start + actual {
                parent_output_spec(output_cv_spec(t[left]), output_cv_spec(t[right]), iv_seq(), 0)
            } else {
                t[left]
            };
            proof {
                lemma_queue_measure_push(rest2, parent);
                assert(queue_measure(q) == bitlen(cur) + queue_measure(rest));
                assert(bitlen(cur) == 1 + bitlen(parent));
                if rest.len() > 0 && rest[0] == sibling_spec(cur) {
                    assert(queue_measure(rest) == bitlen(rest[0]) + queue_measure(rest.skip(1)));
                }
            }
            bulk_update_unbalanced_spec(t.update(parent, po), rest2.push(parent), leaf_start,
                actual)
        }
    }
}

impl UnbalancedMerkleTree {
    pub fn new_from_leaves(leaves: Vec<Output>) -> (r: Self)
        requires
            leaves@.len() <= usize::MAX / 4,
        ensures
            r@.tree == unbalanced_new_spec(output_views(leaves@)),
            r@.actual_leaves == leaves@.len(),
            unbalanced_wf(r@),
    {
        let actual_leaves = leaves.len();
        // Calculate the next power of two to allocate enough space.
        let number_of_leaves = next_power_of_two(actual_leaves);
        let empty_output = crate::tree::BinaryMerkleTree::new_empty(number_of_leaves as u64);
        let mut binary_tree = UnbalancedMerkleTree { tree: empty_output.tree, actual_leaves };
        proof {
            crate::numeric::lemma_next_pow2_props(leaves@.len());
        }
        binary_tree.create_tree_from_leaves(leaves);
        binary_tree
    }

    /// The root slot's Output with the ROOT flag applied to the returned
    /// copy only.
    pub fn root(&self) -> (r: Output)
        requires
            self@.tree.len() >= 2,
        ensures
            r@ == root_spec(self@.tree),
    {
        let mut root = self.tree[1];
        // Apply ROOT flag to the final root output.
        root.flags = root.flags | ROOT;
        root
    }

    /// The actual number of leaves, not the capacity.
    pub fn num_leaves(&self) -> (r: usize)
        ensures
            r == self@.actual_leaves,
    {
        self.actual_leaves
    }

    /// Grows the storage (with copies of slot 0's sentinel) so that
    /// `new_actual` leaves fit, and records the new leaf count.
    fn grow_for(&mut self, new_actual: usize)
        requires
            unbalanced_wf(old(self)@),
            old(self)@.actual_leaves < new_actual,
            new_actual <= usize::MAX / 4,
        ensures
            final(self)@.tree == grown_tree_spec(old(self)@.tree, new_actual as nat),
            final(self)@.actual_leaves == new_actual,
            unbalanced_wf(final(self)@),
            new_actual <= final(self)@.tree.len() / 2,
    {
        let new_size = next_power_of_two(new_actual) * 2;
        proof {
            crate::numeric::lemma_next_pow2_props(new_actual as nat);
        }
        if new_size > self.tree.len() {
            let ghost t0 = self@.tree;
            let filler = self.tree[0];
            let mut grow_to = self.tree.len();
            while grow_to < new_size
                invariant
                    grow_to == self@.tree.len(),
                    t0.len() <= grow_to <= new_size,
                    filler@ == t0[0],
                    forall|j: int| #![trigger self@.tree[j]] 0 <= j < t0.len() ==> self@.tree[j]
                        == t0[j],
                    forall|j: int| #![trigger self@.tree[j]] t0.len() <= j < grow_to
                        ==> self@.tree[j] == t0[0],
                decreases new_size - grow_to,
            {
                let ghost pre = self@.tree;
                self.tree.push(filler);
                proof {
                    assert(self@.tree =~= pre.push(filler@));
                }
                grow_to += 1;
            }
            proof {
                assert(self@.tree =~= grown_tree_spec(t0, new_actual as nat));
            }
        }
        self.actual_leaves = new_actual;
    }

    /// Replaces (or appends) one leaf, growing the storage when the index
    /// lies beyond the current leaf count, then recomputes its ancestors
    /// with the pair-or-promote rule.
    pub fn insert_leaf(&mut self, leaf_index: usize, leaf_output: Output)
        requires
            unbalanced_wf(old(self)@),
            leaf_index < usize::MAX / 4,
        ensures
            final(self)@.actual_leaves == if leaf_index + 1 > old(self)@.actual_leaves {
                (leaf_index + 1) as nat
            } else {
                old(self)@.actual_leaves
            },
            unbalanced_wf(final(self)@),
            ({
                let na = final(self)@.actual_leaves;
                let grown = if leaf_index + 1 > old(self)@.actual_leaves {
                    grown_tree_spec(old(self)@.tree, na)
                } else {
                    old(self)@.tree
                };
                let ls = grown.len() as int / 2;
                final(self)@.tree == update_path_unbalanced_spec(
                    grown.update(ls + leaf_index, leaf_output@),
                    ls + leaf_index,
                    ls,
                    na,
                )
            }),
    {
        if leaf_index >= self.actual_leaves {
            // Extend the tree if inserting beyond the current leaves.
            self.grow_for(leaf_index + 1);
        }
        let ghost grown = self@.tree;
        let ghost na = self@.actual_leaves;
        let len = self.tree.len();
        let leaf_start = len / 2;
        let real_leaf_index = leaf_index + leaf_start;
        proof {
            assert(len % 2 == 0);
        }
        let ghost pre = self@.tree;
        self.tree.set(real_leaf_index, leaf_output);
        proof {
            assert(self@.tree =~= pre.update(real_leaf_index as int, leaf_output@));
        }
        let ghost target = update_path_unbalanced_spec(
            self@.tree,
            real_leaf_index as int,
            leaf_start as int,
            na,
        );

        let mut current_index = real_leaf_index;
        while current_index > 1
            invariant
                1 <= current_index < len,
                len == self@.tree.len(),
                len % 2 == 0,
                leaf_start == len / 2,
                self.actual_leaves == na,
                na <= leaf_start,
                update_path_unbalanced_spec(
                    self@.tree,
                    current_index as int,
                    leaf_start as int,
                    na,
                ) == target,
            decreases current_index,
        {
            let parent_index = current_index / 2;
            let left_index = parent_index * 2;
            let right_index = left_index + 1;
            let ghost t0 = self@.tree;

            // Check if there is a live right sibling; otherwise promote the
            // left node directly.
            if right_index < leaf_start + self.actual_leaves {
                let left_node = self.tree[left_index];
                let right_node = self.tree[right_index];
                proof {
                    lemma_iv_view();
                }
                let po = parent_output(
                    left_node.chaining_value(),
                    right_node.chaining_value(),
                    IV,
                    0,
                );
                self.tree.set(parent_index, po);
                proof {
                    assert(self@.tree =~= t0.update(parent_index as int, po@));
                }
            } else {
                let promoted = self.tree[left_index];
                self.tree.set(parent_index, promoted);
                proof {
                    assert(self@.tree =~= t0.update(parent_index as int, t0[left_index as int]));
                }
            }
            current_index = parent_index;
        }
    }

    /// Bulk-replaces the given leaves (0-indexed, strictly ascending),
    /// growing the storage when needed, and propagates updates to all
    /// ancestors with the pair-or-promote rule, computing each shared
    /// parent once. A non-ascending index sequence is rejected before
    /// anything is written or resized.
    #[verifier::loop_isolation(false)]
    #[verifier::rlimit(100)]
    pub fn bulk_insert_leaves(&mut self, leaf_indices: Vec<usize>, leaf_hashes: Vec<Output>) -> (r:
        Option<()>)
        requires
            unbalanced_wf(old(self)@),
            leaf_indices@.len() == leaf_hashes@.len(),
            forall|i: int| 0 <= i < leaf_indices@.len() ==> leaf_indices@[i] < usize::MAX / 4,
        ensures
            r is Some <==> strictly_ascending(ints_of(leaf_indices@)),
            !strictly_ascending(ints_of(leaf_indices@)) ==> final(self)@ == old(self)@,
            strictly_ascending(ints_of(leaf_indices@)) ==> ({
                let n = leaf_indices@.len() as int;
                let na = if n > 0 && leaf_indices@[n - 1] + 1 > old(self)@.actual_leaves {
                    (leaf_indices@[n - 1] + 1) as nat
                } else {
                    old(self)@.actual_leaves
                };
                let grown = if n > 0 && leaf_indices@[n - 1] + 1 > old(self)@.actual_leaves {
                    grown_tree_spec(old(self)@.tree, na)
                } else {
                    old(self)@.tree
                };
                let ls = grown.len() as int / 2;
                let offs = offset_indices(leaf_indices@, ls);
                &&& final(self)@.actual_leaves == na
                &&& final(self)@.tree == bulk_update_unbalanced_spec(
                    write_leaves_spec(grown, offs, output_views(leaf_hashes@)),
                    offs,
                    ls,
                    na,
                )
            }),
    {
        let n = leaf_indices.len();

        // Check that the indices are strictly ascending before any write or
        // resize, so that failure leaves the tree untouched.
        let mut k: usize = 1;
        while k < n
            invariant
                1 <= k,
                forall|t: int| #![trigger leaf_indices@[t]] 0 <= t < k - 1 ==> leaf_indices@[t]
                    < leaf_indices@[t + 1],
            decreases n - k,
        {
            if leaf_indices[k - 1] >= leaf_indices[k] {
                proof {
                    assert(ints_of(leaf_indices@)[k - 1] >= ints_of(leaf_indices@)[k as int]);
                    assert(!strictly_ascending(ints_of(leaf_indices@)));
                }
                return None;
            }
            k += 1;
        }
        proof {
            assert(strictly_ascending(ints_of(leaf_indices@)));
        }

        // Find the maximum leaf index (the last, as they ascend) and resize
        // if needed.
        if n > 0 {
            let max_index = leaf_indices[n - 1];
            if max_index >= self.actual_leaves {
                self.grow_for(max_index + 1);
            }
        }
        let ghost grown = self@.tree;
        let ghost na = self@.actual_leaves;
        let len = self.tree.len();
        let leaf_start = len / 2;
        let ghost offs = offset_indices(leaf_indices@, leaf_start as int);
        proof {
            if n > 0 {
                crate::tree::lemma_ascending_last(ints_of(leaf_indices@));
            }
            assert forall|t: int| #![trigger leaf_indices@[t]] 0 <= t < n implies leaf_indices@[t]
                < na by {
                assert(ints_of(leaf_indices@)[t] <= ints_of(leaf_indices@)[n - 1]);
            }
        }

        // Insert all leaf nodes.
        let ghost vals = output_views(leaf_hashes@);
        let ghost t0 = self@.tree;
        let ghost written = write_leaves_spec(t0, offs, vals);
        let mut w: usize = 0;
        proof {
            assert(offs.skip(0) =~= offs);
            assert(vals.skip(0) =~= vals);
        }
        while w < n
            invariant
                w <= n,
                write_leaves_spec(self@.tree, offs.skip(w as int), vals.skip(w as int)) == written,
                self@.tree.len() == len,
                self.actual_leaves == na,
            decreases n - w,
        {
            let ghost pre = self@.tree;
            self.tree.set(leaf_start + leaf_indices[w], leaf_hashes[w]);
            proof {
                assert(self@.tree =~= pre.update(offs[w as int], vals[w as int]));
                assert(offs.skip(w as int)[0] == offs[w as int]);
                assert(offs.skip(w as int).skip(1) =~= offs.skip(w as int + 1));
                assert(vals.skip(w as int).skip(1) =~= vals.skip(w as int + 1));
            }
            w += 1;
        }
        proof {
            assert(offs.skip(n as int) =~= Seq::<int>::empty());
            assert(self@.tree == written);
        }

        // Update ancestors with a queue, skipping a sibling that shares the
        // parent just computed.
        let mut update_queue: VecDeque<usize> = VecDeque::new();
        let mut p: usize = 0;
        while p < n
            invariant
                p <= n,
                update_queue@.len() == p,
                forall|t: int| #![trigger update_queue@[t]] 0 <= t < p ==> update_queue@[t]
                    == leaf_indices@[t] + leaf_start,
            decreases n - p,
        {
            update_queue.push_back(leaf_start + leaf_indices[p]);
            p += 1;
        }
        proof {
            assert(ints_of(update_queue@) =~= offs);
        }
        self.update_ancestors(update_queue);
        Some(())
    }

    /// Runs the ancestor-update queue with the pair-or-promote rule: the
    /// front node's parent is recomputed and enqueued, a queued sibling is
    /// skipped, and the loop stops at the root.
    #[verifier::loop_isolation(false)]
    fn update_ancestors(&mut self, queue: VecDeque<usize>)
        requires
            old(self)@.tree.len() >= 2,
            old(self)@.tree.len() % 2 == 0,
            old(self)@.actual_leaves <= old(self)@.tree.len() / 2,
            forall|t: int| #![trigger queue@[t]] 0 <= t < queue@.len() ==> 1 <= queue@[t] < old(
                self,
            )@.tree.len(),
        ensures
            final(self)@.tree == bulk_update_unbalanced_spec(
                old(self)@.tree,
                ints_of(queue@),
                old(self)@.tree.len() as int / 2,
                old(self)@.actual_leaves,
            ),
            final(self)@.tree.len() == old(self)@.tree.len(),
            final(self)@.actual_leaves == old(self)@.actual_leaves,
    {
        let len = self.tree.len();
        let leaf_start = len / 2;
        let ghost na = self@.actual_leaves;
        let ghost target = bulk_update_unbalanced_spec(
            self@.tree,
            ints_of(queue@),
            leaf_start as int,
            na,
        );
        let mut update_queue = queue;
        // Stop when the queue is drained or the root has been reached.
        while update_queue.len() > 0 && update_queue[0] != 1
            invariant
                self@.tree.len() == len,
                self.actual_leaves == na,
                forall|t: int| #![trigger update_queue@[t]] 0 <= t < update_queue@.len() ==> 1
                    <= update_queue@[t] < len,
                bulk_update_unbalanced_spec(
                    self@.tree,
                    ints_of(update_queue@),
                    leaf_start as int,
                    na,
                ) == target,
            decreases queue_measure(ints_of(update_queue@)),
        {
            let ghost q0 = ints_of(update_queue@);
            let current_index = update_queue.pop_front().unwrap();
            proof {
                assert(ints_of(update_queue@) =~= q0.skip(1));
            }

            // If the next node to update is the sibling, pop it from the
            // queue, since it shares the parent computed below.
            let sibling_index = crate::tree::BinaryMerkleTree::get_sibling_index(current_index);
            if update_queue.len() > 0 {
                let next_index = update_queue[0];
                if next_index == sibling_index {
                    let ghost before = ints_of(update_queue@);
                    update_queue.pop_front();
                    proof {
                        assert(ints_of(update_queue@) =~= before.skip(1));
                    }
                }
            }
            let ghost rest2 = ints_of(update_queue@);

            let parent_index = current_index / 2;
            let left_index = parent_index * 2;
            let right_index = left_index + 1;
            let ghost t_pre = self@.tree;

            // Check if there is a live right sibling; otherwise promote the
            // left node directly.
            if right_index < leaf_start + self.actual_leaves {
                let left_node = self.tree[left_index];
                let right_node = self.tree[right_index];
                proof {
                    lemma_iv_view();
                }
                let po = parent_output(
                    left_node.chaining_value(),
                    right_node.chaining_value(),
                    IV,
                    0,
                );
                self.tree.set(parent_index, po);
                proof {
                    assert(self@.tree =~= t_pre.update(parent_index as int, po@));
                }
            } else {
                let promoted = self.tree[left_index];
                self.tree.set(parent_index, promoted);
                proof {
                    assert(self@.tree =~= t_pre.update(parent_index as int, t_pre[
                        left_index as int]));
                }
            }
            update_queue.push_back(parent_index);
            proof {
                assert(ints_of(update_queue@) =~= rest2.push(parent_index as int));
                lemma_queue_measure_push(rest2, parent_index as int);
                assert(queue_measure(q0) == bitlen(q0[0]) + queue_measure(q0.skip(1)));
                assert(bitlen(q0[0]) == 1 + bitlen(q0[0] / 2));
                if q0.skip(1).len() > 0 {
                    assert(queue_measure(q0.skip(1)) == bitlen(q0.skip(1)[0]) + queue_measure(
                        q0.skip(1).skip(1),
                    ));
                }
                assert(rest2 == q0.skip(1) || (q0.skip(1).len() > 0 && rest2 =~= q0.skip(1).skip(
                    1,
                )));
                assert(queue_measure(rest2) <= queue_measure(q0.skip(1)));
                assert(bulk_update_unbalanced_spec(
                    self@.tree,
                    ints_of(update_queue@),
                    leaf_start as int,
                    na,
                ) == bulk_update_unbalanced_spec(t_pre, q0, leaf_start as int, na));
            }
        }
    }

    fn create_tree_from_leaves(&mut self, leaves: Vec<Output>)
        requires
            old(self)@.tree.len() == 2 * next_pow2(leaves@.len()),
            old(self)@.actual_leaves == leaves@.len(),
            leaves@.len() <= old(self)@.tree.len() / 2,
            forall|i: int| 0 <= i < old(self)@.tree.len() ==> old(self)@.tree[i]
                == sentinel_output_spec(),
        ensures
            final(self)@.tree == unbalanced_new_spec(output_views(leaves@)),
            final(self)@.actual_leaves == old(self)@.actual_leaves,
            final(self)@.tree.len() == old(self)@.tree.len(),
    {
        let ghost g_leaves = output_views(leaves@);
        let len = self.tree.len();
        proof {
            crate::numeric::lemma_next_pow2_props(leaves@.len());
            assert(is_pow2(len as int / 2));
        }
        // Copy the actual leaves into the leaf level of the tree.
        let leaf_start_index = len / 2;
        let n = leaves.len();
        let mut i: usize = 0;
        while i < n
            invariant
                i <= n,
                n == g_leaves.len(),
                g_leaves == output_views(leaves@),
                self@.tree.len() == len,
                self.actual_leaves == old(self).actual_leaves,
                leaf_start_index == len / 2,
                n <= len / 2,
                len % 2 == 0,
                forall|j: int| #![trigger self@.tree[j]] 0 <= j < len && !(leaf_start_index <= j
                    < leaf_start_index + i) ==> self@.tree[j] == sentinel_output_spec(),
                forall|j: int| #![trigger self@.tree[j]] leaf_start_index <= j < leaf_start_index
                    + i ==> self@.tree[j] == g_leaves[j - leaf_start_index],
            decreases n - i,
        {
            let ghost pre = self@.tree;
            let leaf = leaves[i];
            self.tree.set(leaf_start_index + i, leaf);
            proof {
                assert(self@.tree =~= pre.update(leaf_start_index + i, leaf@));
            }
            i += 1;
        }
        let ghost c = len as int / 2;
        let ghost t1 = Seq::new(
            len as nat,
            |j: int|
                if c <= j < c + g_leaves.len() {
                    g_leaves[j - c]
                } else {
                    sentinel_output_spec()
                },
        );
        proof {
            assert(self@.tree =~= t1);
        }

        // If there is only one leaf, the tree is simply that leaf.
        if self.actual_leaves == 1 {
            let ghost pre = self@.tree;
            let single = self.tree[leaf_start_index];
            self.tree.set(1, single);
            proof {
                assert(self@.tree =~= pre.update(1, pre[c]));
            }
            return ;
        }

        // Build ancestors level by level, from bottom to top.
        let ghost target = build_levels_spec(t1, c, g_leaves.len());
        let mut current_level_start = leaf_start_index;
        let mut nodes_at_current_level = self.actual_leaves;
        while current_level_start > 1
            invariant
                1 <= current_level_start,
                self@.tree.len() == len,
                self.actual_leaves == old(self).actual_leaves,
                nodes_at_current_level <= current_level_start,
                current_level_start <= len / 2,
                len % 2 == 0,
                is_pow2(current_level_start as int),
                build_levels_spec(
                    self@.tree,
                    current_level_start as int,
                    nodes_at_current_level as nat,
                ) == target,
            decreases current_level_start,
        {
            let parent_level_start = current_level_start / 2;
            let nodes_in_parent_level = (nodes_at_current_level + 1) / 2;
            let ghost t_level = self@.tree;
            let ghost s = current_level_start as int;
            let ghost nn = nodes_at_current_level as nat;

            let mut i: usize = 0;
            while i < nodes_in_parent_level
                invariant
                    i <= nodes_in_parent_level,
                    nodes_in_parent_level == (nodes_at_current_level + 1) / 2,
                    nn == nodes_at_current_level as nat,
                    s == current_level_start as int,
                    parent_level_start == current_level_start / 2,
                    1 < current_level_start <= len / 2,
                    nodes_at_current_level <= current_level_start,
                    self@.tree.len() == len,
                    self.actual_leaves == old(self).actual_leaves,
                    len % 2 == 0,
                    build_one_level_spec(self@.tree, s, nn, i as nat) == build_one_level_spec(
                        t_level,
                        s,
                        nn,
                        0,
                    ),
                decreases nodes_in_parent_level - i,
            {
                let left_index = current_level_start + 2 * i;
                let right_index = left_index + 1;
                let parent_index = parent_level_start + i;
                let ghost pre = self@.tree;

                // For the last node in a level without a right sibling,
                // promote the left node directly to the parent slot.
                if 2 * i + 1 >= nodes_at_current_level {
                    let promoted = self.tree[left_index];
                    self.tree.set(parent_index, promoted);
                    proof {
                        assert(self@.tree =~= pre.update(parent_index as int, pre[
                            left_index as int]));
                    }
                } else {
                    let left_node = self.tree[left_index];
                    let right_node = self.tree[right_index];
                    proof {
                        lemma_iv_view();
                    }
                    let po = parent_output(
                        left_node.chaining_value(),
                        right_node.chaining_value(),
                        IV,
                        0,
                    );
                    self.tree.set(parent_index, po);
                    proof {
                        assert(self@.tree =~= pre.update(parent_index as int, po@));
                    }
                }
                i += 1;
            }
            current_level_start = parent_level_start;
            nodes_at_current_level = nodes_in_parent_level;
        }
    }
}

} // verus!
