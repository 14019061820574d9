//! The balanced Merkle tree: a fixed-capacity, 1-indexed array tree whose
//! capacity is the next power of two of the leaf count. Slot 0 is unused
//! padding; slot 1 is the root; the children of node i are 2i and 2i + 1.
//! Leaves carry per-chunk Outputs; parents are built with the PARENT flag
//! and the unkeyed initial values; the ROOT flag is applied only on the
//! copy that `root` returns.

use vstd::prelude::*;
use std::collections::VecDeque;
use crate::chunk::{
    chunk_absorb, chunk_output_spec, chunk_outputs_spec, chunk_state_fresh, output_views,
};
use crate::constants::{IV, ROOT, iv_seq, lemma_iv_view};
use crate::hasher::{finalize_output_spec, hasher_absorb, hasher_fresh};
use crate::numeric::{
    bitlen, is_pow2, lemma_queue_measure_push, next_pow2, next_power_of_two, queue_measure,
};
use crate::output::{
    Output, OutputView, output_cv_spec, parent_output, parent_output_spec, root_output_bytes_spec,
};

verus! {

#[derive(Debug, Clone)]
pub struct BinaryMerkleTree {
    pub tree: Vec<Output>,
}

impl View for BinaryMerkleTree {
    type V = Seq<OutputView>;

    open spec fn view(&self) -> Seq<OutputView> {
        output_views(self.tree@)
    }
}

/// The storage is a power of two of size at least 2: capacity leaves plus
/// as many internal slots (slot 0 being padding).
pub open spec fn tree_wf(t: Seq<OutputView>) -> bool {
    &&& t.len() >= 2
    &&& is_pow2(t.len() as int)
}

/// The sentinel filling unoccupied slots: a zero-message Output carrying
/// the initial values.
pub open spec fn sentinel_output_spec() -> OutputView {
    OutputView {
        input_chaining_value: iv_seq(),
        block_words: Seq::new(16, |i: int| 0u32),
        counter: 0,
        block_len: 64,
        flags: 0,
    }
}

fn sentinel_output() -> (r: Output)
    ensures
        r@ == sentinel_output_spec(),
{
    let r = Output {
        input_chaining_value: IV,
        block_words: [0u32; 16],
        counter: 0,
        block_len: 64,
        flags: 0,
    };
    proof {
        lemma_iv_view();
        assert(r@.block_words =~= sentinel_output_spec().block_words);
    }
    r
}

/// The root slot's Output with the ROOT flag applied.
pub open spec fn root_spec(t: Seq<OutputView>) -> OutputView {
    OutputView {
        input_chaining_value: t[1].input_chaining_value,
        block_words: t[1].block_words,
        counter: t[1].counter,
        block_len: t[1].block_len,
        flags: t[1].flags | ROOT,
    }
}

/// The index of the other child of the same parent.
pub open spec fn sibling_spec(i: int) -> int {
    if i % 2 == 0 {
        i + 1
    } else {
        i - 1
    }
}

/// One queue step of the construction: the two front entries become left
/// and right child of the slot above the left one, and the parent is
/// enqueued; the loop ends when a single entry remains.
pub open spec fn build_queue_spec(t: Seq<OutputView>, q: Seq<(OutputView, int)>) -> Seq<
    OutputView,
>
    decreases q.len(),
{
    if q.len() <= 1 {
        t
    } else {
        let left = q[0];
        let right = q[1];
        let parent = parent_output_spec(
            output_cv_spec(left.0),
            output_cv_spec(right.0),
            iv_seq(),
            0,
        );
        let parent_index = left.1 / 2;
        build_queue_spec(t.update(parent_index, parent), q.skip(2).push((parent, parent_index)))
    }
}

/// Storage of size 2C with the given leaves placed in the last slots.
pub open spec fn spliced_leaves_spec(leaves: Seq<OutputView>, c: int) -> Seq<OutputView> {
    Seq::new(
        (2 * c) as nat,
        |i: int|
            if 2 * c - leaves.len() <= i {
                leaves[i - (2 * c - leaves.len())]
            } else {
                sentinel_output_spec()
            },
    )
}

/// The whole construction: capacity is the next power of two of the leaf
/// count; the leaves fill the tail of the storage; with a single leaf the
/// tree is just that leaf; otherwise ancestors are built pairwise through a
/// queue that starts at slot C.
pub open spec fn new_from_leaves_spec(leaves: Seq<OutputView>) -> Seq<OutputView> {
    let c = next_pow2(leaves.len()) as int;
    let t = spliced_leaves_spec(leaves, c);
    if leaves.len() == 1 {
        t
    } else {
        build_queue_spec(t, Seq::new(leaves.len(), |j: int| (t[c + j], c + j)))
    }
}

/// The views of the queue entries of the construction loop.
pub open spec fn pair_views(q: Seq<(Output, usize)>) -> Seq<(OutputView, int)> {
    Seq::new(q.len(), |i: int| (q[i].0@, q[i].1 as int))
}

/// A queue of node indices as mathematical integers.
pub open spec fn ints_of(q: Seq<usize>) -> Seq<int> {
    Seq::new(q.len(), |i: int| q[i] as int)
}

/// Recomputing every ancestor of node `p` from its children, bottom up;
/// each parent is rebuilt from the current values of both its children.
pub open spec fn update_path_spec(t: Seq<OutputView>, p: int) -> Seq<OutputView>
    decreases p,
{
    if p <= 1 {
        t
    } else {
        let parent = p / 2;
        let po = parent_output_spec(
            output_cv_spec(t[2 * parent]),
            output_cv_spec(t[2 * parent + 1]),
            iv_seq(),
            0,
        );
        update_path_spec(t.update(parent, po), parent)
    }
}

pub open spec fn strictly_ascending(s: Seq<int>) -> bool {
    forall|i: int| #![trigger s[i]] 0 <= i < s.len() - 1 ==> s[i] < s[i + 1]
}

pub open spec fn offset_indices(indices: Seq<usize>, off: int) -> Seq<int> {
    Seq::new(indices.len(), |i: int| indices[i] + off)
}

/// In a strictly ascending sequence every element is at most the last.
pub proof fn lemma_ascending_last(s: Seq<int>)
    requires
        strictly_ascending(s),
        s.len() >= 1,
    ensures
        forall|t: int| #![trigger s[t]] 0 <= t < s.len() ==> s[t] <= s[s.len() - 1],
    decreases s.len(),
{
    if s.len() >= 2 {
        let prefix = s.drop_last();
        assert(strictly_ascending(prefix));
        lemma_ascending_last(prefix);
        assert forall|t: int| #![trigger s[t]] 0 <= t < s.len() implies s[t] <= s[s.len() - 1] by {
            if t < s.len() - 1 {
                assert(prefix[t] <= prefix[s.len() - 2]);
            }
        }
    }
}

/// Writing the given values into the given slots, in order.
pub open spec fn write_leaves_spec(
    t: Seq<OutputView>,
    offs: Seq<int>,
    vals: Seq<OutputView>,
) -> Seq<OutputView>
    decreases offs.len(),
{
    if offs.len() == 0 {
        t
    } else {
        write_leaves_spec(t.update(offs[0], vals[0]), offs.skip(1), vals.skip(1))
    }
}

/// The ancestor-update queue: the front node's parent is rebuilt from the
/// current values of both children and enqueued; when the next queue entry
/// is the front node's sibling it is skipped, since the pair shares the
/// parent just computed. The loop stops at the root.
pub open spec fn bulk_update_spec(t: Seq<OutputView>, q: Seq<int>) -> Seq<OutputView>
    decreases queue_measure(q),
{
    if q.len() == 0 {
        t
    } else {
        let cur = q[0];
        let rest = q.skip(1);
        if cur <= 1 {
            t
        } else {
            let rest2 = if rest.len() > 0 && rest[0] == sibling_spec(cur) {
                rest.skip(1)
            } else {
                rest
            };
            let parent = cur / 2;
            let po = parent_output_spec(
                output_cv_spec(t[2 * parent]),
                output_cv_spec(t[2 * parent + 1]),
                iv_seq(),
                0,
            );
            proof {
                lemma_queue_measure_push(rest2, parent);
                assert(queue_measure(q) == bitlen(cur) + queue_measure(rest));
                assert(bitlen(cur) == 1 + bitlen(parent));
                if rest.len() > 0 && rest[0] == sibling_spec(cur) {
                    assert(queue_measure(rest) == bitlen(rest[0]) + queue_measure(rest.skip(1)));
                }
            }
            bulk_update_spec(t.update(parent, po), rest2.push(parent))
        }
    }
}

/// A work queue holding a single node behaves exactly like the single-leaf
/// path walk: starting from node `p`, each ancestor is rebuilt in turn.
pub proof fn lemma_bulk_update_single(t: Seq<OutputView>, p: int)
    requires
        p >= 1,
    ensures
        bulk_update_spec(t, seq![p]) == update_path_spec(t, p),
    decreases p,
{
    let q = seq![p];
    assert(q.skip(1) =~= Seq::<int>::empty());
    if p == 1 {
    } else {
        let parent = p / 2;
        let po = parent_output_spec(
            output_cv_spec(t[2 * parent]),
            output_cv_spec(t[2 * parent + 1]),
            iv_seq(),
            0,
        );
        assert(Seq::<int>::empty().push(parent) =~= seq![parent]);
        lemma_bulk_update_single(t.update(parent, po), parent);
    }
}

/// A bulk update of a single leaf leaves the tree exactly as one call of
/// `insert_leaf` for that slot does: the leaf is written, then every
/// ancestor on its path is recomputed.
pub proof fn lemma_bulk_insert_single_leaf(t: Seq<OutputView>, off: int, val: OutputView)
    requires
        off >= 1,
    ensures
        bulk_update_spec(write_leaves_spec(t, seq![off], seq![val]), seq![off])
            == update_path_spec(t.update(off, val), off),
{
    assert(seq![off].skip(1) =~= Seq::<int>::empty());
    assert(seq![val].skip(1) =~= Seq::<OutputView>::empty());
    assert(seq![off][0] == off);
    assert(seq![val][0] == val);
    assert(write_leaves_spec(t.update(off, val), Seq::<int>::empty(), Seq::<OutputView>::empty())
        == t.update(off, val));
    assert(write_leaves_spec(t, seq![off], seq![val]) == t.update(off, val));
    lemma_bulk_update_single(t.update(off, val), off);
}

/// Whether `a` lies on the path from `p`'s parent up to the root.
pub open spec fn is_proper_ancestor(a: int, p: int) -> bool
    decreases p,
{
    p > 1 && (a == p / 2 || is_proper_ancestor(a, p / 2))
}

pub proof fn lemma_ancestor_below(a: int, p: int)
    requires
        is_proper_ancestor(a, p),
    ensures
        1 <= a <= p / 2,
    decreases p,
{
    if a != p / 2 {
        lemma_ancestor_below(a, p / 2);
    }
}

pub proof fn lemma_update_path_len(t: Seq<OutputView>, p: int)
    requires
        1 <= p < t.len(),
    ensures
        update_path_spec(t, p).len() == t.len(),
    decreases p,
{
    if p > 1 {
        let k = p / 2;
        let po = parent_output_spec(
            output_cv_spec(t[2 * k]),
            output_cv_spec(t[2 * k + 1]),
            iv_seq(),
            0,
        );
        lemma_update_path_len(t.update(k, po), k);
    }
}

/// A path update changes no slot outside the proper ancestors of `p`.
pub proof fn lemma_update_path_untouched(t: Seq<OutputView>, p: int, n: int)
    requires
        1 <= p < t.len(),
        0 <= n < t.len(),
        !is_proper_ancestor(n, p),
    ensures
        update_path_spec(t, p)[n] == t[n],
    decreases p,
{
    if p > 1 {
        let k = p / 2;
        let po = parent_output_spec(
            output_cv_spec(t[2 * k]),
            output_cv_spec(t[2 * k + 1]),
            iv_seq(),
            0,
        );
        lemma_update_path_untouched(t.update(k, po), k, n);
    }
}

/// Running the same path update twice changes nothing the second time: the
/// recomputed parents read only slots the first run left at their final
/// values.
pub proof fn lemma_update_path_idempotent(t: Seq<OutputView>, p: int)
    requires
        1 <= p < t.len(),
        t.len() % 2 == 0,
    ensures
        update_path_spec(update_path_spec(t, p), p) == update_path_spec(t, p),
    decreases p,
{
    if p > 1 {
        let k = p / 2;
        let v = parent_output_spec(
            output_cv_spec(t[2 * k]),
            output_cv_spec(t[2 * k + 1]),
            iv_seq(),
            0,
        );
        let y = t.update(k, v);
        let x = update_path_spec(y, k);
        if is_proper_ancestor(2 * k, k) {
            lemma_ancestor_below(2 * k, k);
        }
        if is_proper_ancestor(2 * k + 1, k) {
            lemma_ancestor_below(2 * k + 1, k);
        }
        if is_proper_ancestor(k, k) {
            lemma_ancestor_below(k, k);
        }
        lemma_update_path_untouched(y, k, 2 * k);
        lemma_update_path_untouched(y, k, 2 * k + 1);
        lemma_update_path_untouched(y, k, k);
        assert(x[2 * k] == t[2 * k] && x[2 * k + 1] == t[2 * k + 1] && x[k] == v);
        lemma_update_path_len(y, k);
        assert(x.update(k, v) =~= x);
        lemma_update_path_idempotent(y, k);
    }
}

/// Two trees that agree outside the proper ancestors of `p` are carried to
/// the same tree by the path update of `p`: every ancestor is recomputed
/// from slots on which they agree.
pub proof fn lemma_update_path_agree(t1: Seq<OutputView>, t2: Seq<OutputView>, p: int)
    requires
        1 <= p < t1.len(),
        t1.len() == t2.len(),
        t1.len() % 2 == 0,
        forall|n: int| 0 <= n < t1.len() && !is_proper_ancestor(n, p) ==> t1[n] == t2[n],
    ensures
        update_path_spec(t1, p) == update_path_spec(t2, p),
    decreases p,
{
    if p <= 1 {
        assert(t1 =~= t2);
    } else {
        let k = p / 2;
        if is_proper_ancestor(2 * k, p) {
            lemma_ancestor_below(2 * k, p);
        }
        if is_proper_ancestor(2 * k + 1, p) {
            lemma_ancestor_below(2 * k + 1, p);
        }
        assert(t1[2 * k] == t2[2 * k]);
        assert(t1[2 * k + 1] == t2[2 * k + 1]);
        let v = parent_output_spec(
            output_cv_spec(t1[2 * k]),
            output_cv_spec(t1[2 * k + 1]),
            iv_seq(),
            0,
        );
        assert forall|n: int|
            0 <= n < t1.update(k, v).len() && !is_proper_ancestor(n, k) implies t1.update(k, v)[n]
            == t2.update(k, v)[n] by {
            if n != k {
                assert(!is_proper_ancestor(n, p));
            }
        }
        lemma_update_path_agree(t1.update(k, v), t2.update(k, v), k);
        assert(update_path_spec(t1, p) == update_path_spec(t1.update(k, v), k));
        assert(update_path_spec(t2, p) == update_path_spec(t2.update(k, v), k));
    }
}

/// A work queue holding a sibling pair (an even node and the next) behaves
/// exactly like two single-leaf path walks in ascending order: the shared
/// parent is computed once from the pair, and the second walk would have
/// recomputed only values the first already wrote.
pub proof fn lemma_bulk_update_sibling_pair(t: Seq<OutputView>, p: int)
    requires
        p >= 2,
        p % 2 == 0,
        p + 1 < t.len(),
        t.len() % 2 == 0,
    ensures
        bulk_update_spec(t, seq![p, p + 1]) == update_path_spec(update_path_spec(t, p), p + 1),
{
    let k = p / 2;
    let v = parent_output_spec(
        output_cv_spec(t[2 * k]),
        output_cv_spec(t[2 * k + 1]),
        iv_seq(),
        0,
    );
    let y = t.update(k, v);
    // The bulk side: the front is p, the next entry is its sibling, so it
    // is skipped and the queue continues from the shared parent.
    assert(seq![p, p + 1][0] == p);
    assert(seq![p, p + 1].skip(1) =~= seq![p + 1]);
    assert(seq![p + 1][0] == p + 1);
    assert(seq![p + 1].skip(1) =~= Seq::<int>::empty());
    assert(Seq::<int>::empty().push(k) =~= seq![k]);
    lemma_bulk_update_single(y, k);
    assert(bulk_update_spec(t, seq![p, p + 1]) == update_path_spec(y, k));

    // The sequential side: the second walk recomputes the shared parent
    // from the unchanged leaf pair, then re-runs the first walk's path.
    let x = update_path_spec(y, k);
    if is_proper_ancestor(2 * k, k) {
        lemma_ancestor_below(2 * k, k);
    }
    if is_proper_ancestor(2 * k + 1, k) {
        lemma_ancestor_below(2 * k + 1, k);
    }
    if is_proper_ancestor(k, k) {
        lemma_ancestor_below(k, k);
    }
    lemma_update_path_untouched(y, k, 2 * k);
    lemma_update_path_untouched(y, k, 2 * k + 1);
    lemma_update_path_untouched(y, k, k);
    assert(x[2 * k] == t[2 * k] && x[2 * k + 1] == t[2 * k + 1] && x[k] == v);
    lemma_update_path_len(y, k);
    assert(x.update(k, v) =~= x);
    lemma_update_path_idempotent(y, k);
    assert(update_path_spec(x, p + 1) == update_path_spec(x, k));
}

/// A bulk update of a sibling pair of leaves leaves the tree exactly as
/// two calls of `insert_leaf`, in ascending order, do: the interleaved
/// writes of the sequential calls do not change the outcome, since the
/// second call recomputes every ancestor the first call wrote from a stale
/// sibling value.
pub proof fn lemma_bulk_insert_sibling_leaves(
    t: Seq<OutputView>,
    off: int,
    v1: OutputView,
    v2: OutputView,
)
    requires
        off >= 2,
        off % 2 == 0,
        off + 1 < t.len(),
        t.len() % 2 == 0,
    ensures
        bulk_update_spec(write_leaves_spec(t, seq![off, off + 1], seq![v1, v2]), seq![off, off
            + 1]) == update_path_spec(
            update_path_spec(t.update(off, v1), off).update(off + 1, v2),
            off + 1,
        ),
{
    let w = t.update(off, v1).update(off + 1, v2);
    reveal_with_fuel(write_leaves_spec, 3);
    assert(seq![off, off + 1].skip(1) =~= seq![off + 1]);
    assert(seq![off + 1].skip(1) =~= Seq::<int>::empty());
    assert(seq![v1, v2].skip(1) =~= seq![v2]);
    assert(seq![v2].skip(1) =~= Seq::<OutputView>::empty());
    assert(seq![off, off + 1][0] == off && seq![v1, v2][0] == v1);
    assert(seq![off + 1][0] == off + 1 && seq![v2][0] == v2);
    assert(write_leaves_spec(t.update(off, v1), seq![off + 1], seq![v2]) == w);
    assert(write_leaves_spec(t, seq![off, off + 1], seq![v1, v2]) == w);
    lemma_bulk_update_sibling_pair(w, off);

    // The two second-walk inputs agree outside the shared ancestor path.
    let x1 = update_path_spec(w, off);
    let t2 = update_path_spec(t.update(off, v1), off).update(off + 1, v2);
    lemma_update_path_len(w, off);
    lemma_update_path_len(t.update(off, v1), off);
    assert forall|n: int|
        0 <= n < x1.len() && !is_proper_ancestor(n, off + 1) implies x1[n] == t2[n] by {
        assert(!is_proper_ancestor(n, off));
        lemma_update_path_untouched(w, off, n);
        lemma_update_path_untouched(t.update(off, v1), off, n);
    }
    lemma_update_path_agree(x1, t2, off + 1);
}

/// Setting the ROOT flag is idempotent, so an Output whose flags already
/// carry ROOT yields the same root byte stream.
pub proof fn lemma_root_flag_absorbed(o: OutputView, n: nat)
    ensures
        root_output_bytes_spec(
            OutputView {
                input_chaining_value: o.input_chaining_value,
                block_words: o.block_words,
                counter: o.counter,
                block_len: o.block_len,
                flags: o.flags | ROOT,
            },
            n,
        ) == root_output_bytes_spec(o, n),
{
    let f = o.flags;
    assert((f | 8u32) | 8u32 == f | 8u32) by (bit_vector);
    assert(root_output_bytes_spec(
        OutputView {
            input_chaining_value: o.input_chaining_value,
            block_words: o.block_words,
            counter: o.counter,
            block_len: o.block_len,
            flags: o.flags | ROOT,
        },
        n,
    ) =~= root_output_bytes_spec(o, n));
}

/// For an input of exactly one full chunk, the one-leaf tree's root output
/// bytes equal the streaming hash of the same bytes: the single leaf is the
/// root slot, and the streaming hasher finalizes the very same chunk Output
/// with an empty subtree stack.
pub proof fn lemma_one_chunk_root_matches_streaming_hash(b: Seq<u8>, n: nat)
    requires
        b.len() == 1024,
    ensures
        root_output_bytes_spec(root_spec(new_from_leaves_spec(chunk_outputs_spec(b))), n)
            == root_output_bytes_spec(
            finalize_output_spec(hasher_absorb(hasher_fresh(iv_seq(), 0), b)),
            n,
        ),
{
    let o = chunk_absorb(chunk_state_fresh(iv_seq(), 0, 0), b);
    let leaf = chunk_output_spec(o);
    let leaves = chunk_outputs_spec(b);
    assert(crate::chunk::chunk_bytes(b, 0) =~= b);
    assert(leaves =~= seq![leaf]);

    // The tree side: capacity 1, storage of two slots, the leaf in slot 1.
    let t = spliced_leaves_spec(seq![leaf], 1);
    assert(next_pow2(1) == 1);
    assert(new_from_leaves_spec(leaves) == t);
    assert(t[1] == leaf);

    // The hasher side: the whole input fits the first chunk, and the stack
    // stays empty, so finalization emits the chunk's own Output.
    let h = hasher_fresh(iv_seq(), 0);
    let h2 = hasher_absorb(h, b);
    assert(b.take(1024) =~= b);
    assert(b.skip(1024) =~= Seq::<u8>::empty());
    reveal_with_fuel(hasher_absorb, 2);
    assert(crate::chunk::chunk_len(h.chunk_state) == 0);
    assert(h2.chunk_state == o && h2.cv_stack =~= Seq::<Seq<u32>>::empty());
    assert(finalize_output_spec(h2) == leaf);

    lemma_root_flag_absorbed(leaf, n);
    assert(root_spec(t) == OutputView {
        input_chaining_value: leaf.input_chaining_value,
        block_words: leaf.block_words,
        counter: leaf.counter,
        block_len: leaf.block_len,
        flags: leaf.flags | ROOT,
    });
}

/// For an input of exactly two full chunks, the two-leaf tree's root output
/// bytes equal the streaming hash of the same bytes: the tree pairs the two
/// chunk Outputs into one parent, and the streaming hasher pushes the first
/// chunk's chaining value and folds it with the second at finalization.
pub proof fn lemma_two_chunk_root_matches_streaming_hash(b: Seq<u8>, n: nat)
    requires
        b.len() == 2048,
    ensures
        root_output_bytes_spec(root_spec(new_from_leaves_spec(chunk_outputs_spec(b))), n)
            == root_output_bytes_spec(
            finalize_output_spec(hasher_absorb(hasher_fresh(iv_seq(), 0), b)),
            n,
        ),
{
    let c0 = chunk_absorb(chunk_state_fresh(iv_seq(), 0, 0), crate::chunk::chunk_bytes(b, 0));
    let c1 = chunk_absorb(chunk_state_fresh(iv_seq(), 1, 0), crate::chunk::chunk_bytes(b, 1));
    let leaf0 = chunk_output_spec(c0);
    let leaf1 = chunk_output_spec(c1);
    let leaves = chunk_outputs_spec(b);
    assert(leaves =~= seq![leaf0, leaf1]);

    // The tree side: capacity 2, leaves in slots 2 and 3, their parent in
    // the root slot.
    assert(next_pow2(2) == 2) by {
        reveal_with_fuel(next_pow2, 3);
    }
    let t = spliced_leaves_spec(seq![leaf0, leaf1], 2);
    assert(t[2] == leaf0 && t[3] == leaf1);
    let q0 = Seq::new(2nat, |j: int| (t[2 + j], 2 + j));
    assert(new_from_leaves_spec(leaves) == build_queue_spec(t, q0));
    let parent = parent_output_spec(output_cv_spec(leaf0), output_cv_spec(leaf1), iv_seq(), 0);
    assert(q0[0] == (leaf0, 2int) && q0[1] == (leaf1, 3int));
    assert(q0.skip(2).push((parent, 1int)) =~= seq![(parent, 1int)]);
    reveal_with_fuel(build_queue_spec, 3);
    assert(build_queue_spec(t, q0) == t.update(1, parent));

    // The hasher side: the first chunk fills, its chaining value is pushed
    // as the single stack entry, and the second chunk stays buffered.
    let h = hasher_fresh(iv_seq(), 0);
    let h2 = hasher_absorb(h, b);
    assert(b.take(1024) =~= crate::chunk::chunk_bytes(b, 0));
    assert(b.skip(1024) =~= crate::chunk::chunk_bytes(b, 1));
    reveal_with_fuel(hasher_absorb, 4);
    assert(crate::chunk::chunk_len(h.chunk_state) == 0);
    crate::chunk::lemma_chunk_absorb_len(
        chunk_state_fresh(iv_seq(), 0, 0),
        crate::chunk::chunk_bytes(b, 0),
    );
    assert(crate::chunk::chunk_len(c0) == 1024);
    assert(c0.chunk_counter == 0);
    let cv0 = output_cv_spec(leaf0);
    assert(crate::hasher::add_chunk_cv_spec(Seq::<Seq<u32>>::empty(), cv0, 1, iv_seq(), 0)
        =~= seq![cv0]);
    assert(b.skip(1024).take(1024) =~= crate::chunk::chunk_bytes(b, 1));
    assert(b.skip(1024).skip(1024) =~= Seq::<u8>::empty());
    assert(h2.chunk_state == c1 && h2.cv_stack =~= seq![cv0] && h2.key_words == iv_seq()
        && h2.flags == 0);
    assert(seq![cv0].drop_last() =~= Seq::<Seq<u32>>::empty());
    assert(seq![cv0].last() == cv0);
    reveal_with_fuel(crate::hasher::fold_stack_spec, 3);
    assert(finalize_output_spec(h2) == parent);

    lemma_root_flag_absorbed(parent, n);
    assert(root_spec(t.update(1, parent)) == OutputView {
        input_chaining_value: parent.input_chaining_value,
        block_words: parent.block_words,
        counter: parent.counter,
        block_len: parent.block_len,
        flags: parent.flags | ROOT,
    });
}

/// For an input of exactly four full chunks, the four-leaf tree's root
/// output bytes equal the streaming hash of the same bytes. This covers the
/// hasher's subtree merge: the second completed chunk pops the first's
/// chaining value off the stack and pushes their parent, which the tree
/// mirrors as the left internal node.
pub proof fn lemma_four_chunk_root_matches_streaming_hash(b: Seq<u8>, n: nat)
    requires
        b.len() == 4096,
    ensures
        root_output_bytes_spec(root_spec(new_from_leaves_spec(chunk_outputs_spec(b))), n)
            == root_output_bytes_spec(
            finalize_output_spec(hasher_absorb(hasher_fresh(iv_seq(), 0), b)),
            n,
        ),
{
    let c0 = chunk_absorb(chunk_state_fresh(iv_seq(), 0, 0), crate::chunk::chunk_bytes(b, 0));
    let c1 = chunk_absorb(chunk_state_fresh(iv_seq(), 1, 0), crate::chunk::chunk_bytes(b, 1));
    let c2 = chunk_absorb(chunk_state_fresh(iv_seq(), 2, 0), crate::chunk::chunk_bytes(b, 2));
    let c3 = chunk_absorb(chunk_state_fresh(iv_seq(), 3, 0), crate::chunk::chunk_bytes(b, 3));
    let leaf0 = chunk_output_spec(c0);
    let leaf1 = chunk_output_spec(c1);
    let leaf2 = chunk_output_spec(c2);
    let leaf3 = chunk_output_spec(c3);
    let cv0 = output_cv_spec(leaf0);
    let cv1 = output_cv_spec(leaf1);
    let cv2 = output_cv_spec(leaf2);
    let cv3 = output_cv_spec(leaf3);
    let leaves = chunk_outputs_spec(b);
    assert(leaves =~= seq![leaf0, leaf1, leaf2, leaf3]);

    // The tree side: capacity 4; the queue pairs the leaves into the two
    // internal nodes and those into the root slot.
    assert(next_pow2(4) == 4) by {
        reveal_with_fuel(next_pow2, 4);
    }
    let t = spliced_leaves_spec(seq![leaf0, leaf1, leaf2, leaf3], 4);
    assert(t[4] == leaf0 && t[5] == leaf1 && t[6] == leaf2 && t[7] == leaf3);
    let q0 = Seq::new(4nat, |j: int| (t[4 + j], 4 + j));
    assert(new_from_leaves_spec(leaves) == build_queue_spec(t, q0));
    let p01 = parent_output_spec(cv0, cv1, iv_seq(), 0);
    let p23 = parent_output_spec(cv2, cv3, iv_seq(), 0);
    let proot = parent_output_spec(output_cv_spec(p01), output_cv_spec(p23), iv_seq(), 0);
    let t1 = t.update(2, p01);
    let t2 = t1.update(3, p23);
    let t3 = t2.update(1, proot);
    assert(q0[0] == (leaf0, 4int) && q0[1] == (leaf1, 5int));
    assert(q0.skip(2).push((p01, 2int)) =~= seq![(leaf2, 6int), (leaf3, 7int), (p01, 2int)]);
    let q1 = seq![(leaf2, 6int), (leaf3, 7int), (p01, 2int)];
    assert(q1.skip(2).push((p23, 3int)) =~= seq![(p01, 2int), (p23, 3int)]);
    let q2 = seq![(p01, 2int), (p23, 3int)];
    assert(q2.skip(2).push((proot, 1int)) =~= seq![(proot, 1int)]);
    reveal_with_fuel(build_queue_spec, 5);
    assert(t1[6] == leaf2 && t1[7] == leaf3);
    assert(t2[2] == p01 && t2[3] == p23);
    assert(build_queue_spec(t, q0) == t3);

    // The hasher side: chunks 0 through 2 complete during absorption. The
    // first completion pushes cv0; the second pops it and pushes the pair's
    // parent chaining value; the third pushes cv2; chunk 3 stays buffered.
    let h = hasher_fresh(iv_seq(), 0);
    let h2 = hasher_absorb(h, b);
    let pcv01 = crate::output::parent_cv_spec(cv0, cv1, iv_seq(), 0);
    assert(b.take(1024) =~= crate::chunk::chunk_bytes(b, 0));
    let r1 = b.skip(1024);
    assert(r1.take(1024) =~= crate::chunk::chunk_bytes(b, 1));
    let r2 = r1.skip(1024);
    assert(r2 =~= b.skip(2048));
    assert(r2.take(1024) =~= crate::chunk::chunk_bytes(b, 2));
    let r3 = r2.skip(1024);
    assert(r3 =~= b.skip(3072));
    assert(r3.take(1024) =~= crate::chunk::chunk_bytes(b, 3));
    assert(r3.skip(1024) =~= Seq::<u8>::empty());
    crate::chunk::lemma_chunk_absorb_len(
        chunk_state_fresh(iv_seq(), 0, 0),
        crate::chunk::chunk_bytes(b, 0),
    );
    crate::chunk::lemma_chunk_absorb_len(
        chunk_state_fresh(iv_seq(), 1, 0),
        crate::chunk::chunk_bytes(b, 1),
    );
    crate::chunk::lemma_chunk_absorb_len(
        chunk_state_fresh(iv_seq(), 2, 0),
        crate::chunk::chunk_bytes(b, 2),
    );
    assert(crate::chunk::chunk_len(h.chunk_state) == 0);
    assert(crate::chunk::chunk_len(c0) == 1024 && c0.chunk_counter == 0);
    assert(crate::chunk::chunk_len(c1) == 1024 && c1.chunk_counter == 1);
    assert(crate::chunk::chunk_len(c2) == 1024 && c2.chunk_counter == 2);
    reveal_with_fuel(crate::hasher::add_chunk_cv_spec, 3);
    assert(crate::hasher::add_chunk_cv_spec(Seq::<Seq<u32>>::empty(), cv0, 1, iv_seq(), 0)
        =~= seq![cv0]);
    assert(seq![cv0].drop_last() =~= Seq::<Seq<u32>>::empty());
    assert(seq![cv0].last() == cv0);
    assert(crate::hasher::add_chunk_cv_spec(seq![cv0], cv1, 2, iv_seq(), 0) =~= seq![pcv01]);
    assert(crate::hasher::add_chunk_cv_spec(seq![pcv01], cv2, 3, iv_seq(), 0) =~= seq![
        pcv01,
        cv2,
    ]);
    reveal_with_fuel(hasher_absorb, 6);
    assert(h2.chunk_state == c3 && h2.cv_stack =~= seq![pcv01, cv2] && h2.key_words == iv_seq()
        && h2.flags == 0);

    // Finalization folds the stack along the right edge: first the sibling
    // of the buffered chunk, then the left subtree's chaining value.
    assert(seq![pcv01, cv2].drop_last() =~= seq![pcv01]);
    assert(seq![pcv01, cv2].last() == cv2);
    assert(seq![pcv01].drop_last() =~= Seq::<Seq<u32>>::empty());
    assert(seq![pcv01].last() == pcv01);
    reveal_with_fuel(crate::hasher::fold_stack_spec, 4);
    assert(finalize_output_spec(h2) == proot);

    lemma_root_flag_absorbed(proot, n);
    assert(root_spec(t3) == OutputView {
        input_chaining_value: proot.input_chaining_value,
        block_words: proot.block_words,
        counter: proot.counter,
        block_len: proot.block_len,
        flags: proot.flags | ROOT,
    });
}

/// For a two-chunk input with one chunk's bytes edited, replacing that
/// chunk's leaf puts the tree root back in step with the streaming hash of
/// the edited input: the path update recomputes the root parent from the
/// fresh leaf and the untouched sibling leaf.
pub proof fn lemma_two_chunk_insert_leaf_matches_streaming_hash(
    b0: Seq<u8>,
    b1: Seq<u8>,
    j: int,
    n: nat,
)
    requires
        b0.len() == 2048,
        b1.len() == 2048,
        0 <= j < 2,
        forall|i: int| 0 <= i < 2048 && !(1024 * j <= i < 1024 * (j + 1)) ==> b0[i] == b1[i],
    ensures
        root_output_bytes_spec(
            root_spec(
                update_path_spec(
                    new_from_leaves_spec(chunk_outputs_spec(b0)).update(
                        2 + j,
                        chunk_outputs_spec(b1)[j],
                    ),
                    2 + j,
                ),
            ),
            n,
        ) == root_output_bytes_spec(
            finalize_output_spec(hasher_absorb(hasher_fresh(iv_seq(), 0), b1)),
            n,
        ),
{
    let l0 = chunk_outputs_spec(b1)[0];
    let l1 = chunk_outputs_spec(b1)[1];
    // The untouched chunk has the same bytes in both inputs.
    if j == 0 {
        assert(crate::chunk::chunk_bytes(b0, 1) =~= crate::chunk::chunk_bytes(b1, 1));
    } else {
        assert(crate::chunk::chunk_bytes(b0, 0) =~= crate::chunk::chunk_bytes(b1, 0));
    }
    let t0 = new_from_leaves_spec(chunk_outputs_spec(b0));
    assert(next_pow2(2) == 2) by {
        reveal_with_fuel(next_pow2, 3);
    }
    // The tree over b0: leaves in slots 2 and 3 under a root parent.
    let s0 = spliced_leaves_spec(
        seq![chunk_outputs_spec(b0)[0], chunk_outputs_spec(b0)[1]],
        2,
    );
    assert(chunk_outputs_spec(b0) =~= seq![chunk_outputs_spec(b0)[0], chunk_outputs_spec(b0)[1]]);
    let q0 = Seq::new(2nat, |i: int| (s0[2 + i], 2 + i));
    assert(q0.skip(2).push(
        (
            parent_output_spec(
                output_cv_spec(s0[2]),
                output_cv_spec(s0[3]),
                iv_seq(),
                0,
            ),
            1int,
        ),
    ) =~= seq![
        (
            parent_output_spec(
                output_cv_spec(s0[2]),
                output_cv_spec(s0[3]),
                iv_seq(),
                0,
            ),
            1int,
        ),
    ]);
    reveal_with_fuel(build_queue_spec, 3);
    assert(t0.len() == 4 && t0[2] == chunk_outputs_spec(b0)[2 - 2] && t0[3]
        == chunk_outputs_spec(b0)[3 - 2]);

    // Replacing leaf j and walking the path rewrites the root parent from
    // the two current leaves, both of which now match b1's chunks.
    let t1 = t0.update(2 + j, chunk_outputs_spec(b1)[j]);
    assert(t1[2] == l0 && t1[3] == l1);
    let parent = parent_output_spec(output_cv_spec(l0), output_cv_spec(l1), iv_seq(), 0);
    reveal_with_fuel(update_path_spec, 3);
    let t2 = update_path_spec(t1, 2 + j);
    assert(t2 == t1.update(1, parent));

    // The fresh tree over b1 carries the same root slot, so the root bytes
    // agree; and they equal the streaming hash of b1.
    lemma_two_chunk_root_matches_streaming_hash(b1, n);
    let f1 = new_from_leaves_spec(chunk_outputs_spec(b1));
    assert(chunk_outputs_spec(b1) =~= seq![l0, l1]);
    let s1 = spliced_leaves_spec(seq![l0, l1], 2);
    let q1 = Seq::new(2nat, |i: int| (s1[2 + i], 2 + i));
    assert(q1.skip(2).push((parent, 1int)) =~= seq![(parent, 1int)]);
    assert(f1 == s1.update(1, parent));
    lemma_root_output_deterministic(t2, f1, n);
}

/// For a two-chunk input with both chunks' bytes edited, a bulk update of
/// the two leaves puts the tree root back in step with the streaming hash
/// of the edited input — and, through the sibling-pair law, does so through
/// exactly the state that two sequential single-leaf inserts reach.
pub proof fn lemma_two_chunk_bulk_matches_streaming_hash(b0: Seq<u8>, b1: Seq<u8>, n: nat)
    requires
        b0.len() == 2048,
        b1.len() == 2048,
    ensures
        root_output_bytes_spec(
            root_spec(
                bulk_update_spec(
                    write_leaves_spec(
                        new_from_leaves_spec(chunk_outputs_spec(b0)),
                        seq![2int, 3int],
                        seq![chunk_outputs_spec(b1)[0], chunk_outputs_spec(b1)[1]],
                    ),
                    seq![2int, 3int],
                ),
            ),
            n,
        ) == root_output_bytes_spec(
            finalize_output_spec(hasher_absorb(hasher_fresh(iv_seq(), 0), b1)),
            n,
        ),
{
    let l0 = chunk_outputs_spec(b1)[0];
    let l1 = chunk_outputs_spec(b1)[1];
    let t0 = new_from_leaves_spec(chunk_outputs_spec(b0));
    assert(next_pow2(2) == 2) by {
        reveal_with_fuel(next_pow2, 3);
    }
    let s0 = spliced_leaves_spec(
        seq![chunk_outputs_spec(b0)[0], chunk_outputs_spec(b0)[1]],
        2,
    );
    assert(chunk_outputs_spec(b0) =~= seq![chunk_outputs_spec(b0)[0], chunk_outputs_spec(b0)[1]]);
    let q0 = Seq::new(2nat, |i: int| (s0[2 + i], 2 + i));
    assert(q0.skip(2).push(
        (
            parent_output_spec(
                output_cv_spec(s0[2]),
                output_cv_spec(s0[3]),
                iv_seq(),
                0,
            ),
            1int,
        ),
    ) =~= seq![
        (
            parent_output_spec(
                output_cv_spec(s0[2]),
                output_cv_spec(s0[3]),
                iv_seq(),
                0,
            ),
            1int,
        ),
    ]);
    reveal_with_fuel(build_queue_spec, 3);
    assert(t0.len() == 4);

    // The bulk update equals two sequential single-leaf inserts.
    assert(seq![2int, 3int] =~= seq![2int, 2int + 1]);
    assert(seq![l0, l1][0] == l0);
    lemma_bulk_insert_sibling_leaves(t0, 2, l0, l1);

    // Two sequential inserts end with the root parent computed from the two
    // fresh leaves.
    reveal_with_fuel(update_path_spec, 3);
    let x = update_path_spec(t0.update(2, l0), 2).update(3, l1);
    assert(x[2] == l0 && x[3] == l1);
    let parent = parent_output_spec(output_cv_spec(l0), output_cv_spec(l1), iv_seq(), 0);
    let t2 = update_path_spec(x, 3);
    assert(t2 == x.update(1, parent));

    // The fresh tree over b1 carries the same root slot, so the root bytes
    // agree; and they equal the streaming hash of b1.
    lemma_two_chunk_root_matches_streaming_hash(b1, n);
    let f1 = new_from_leaves_spec(chunk_outputs_spec(b1));
    assert(chunk_outputs_spec(b1) =~= seq![l0, l1]);
    let s1 = spliced_leaves_spec(seq![l0, l1], 2);
    let q1 = Seq::new(2nat, |i: int| (s1[2 + i], 2 + i));
    assert(q1.skip(2).push((parent, 1int)) =~= seq![(parent, 1int)]);
    assert(f1 == s1.update(1, parent));
    lemma_root_output_deterministic(t2, f1, n);
}

/// Deriving root output bytes is deterministic: the bytes depend only on
/// the tree's root slot and the requested length, so repeated calls to
/// `root` and `root_output_bytes` without intervening mutation return
/// identical bytes.
pub proof fn lemma_root_output_deterministic(t1: Seq<OutputView>, t2: Seq<OutputView>, n: nat)
    requires
        t1.len() >= 2,
        t2.len() >= 2,
        t1[1] == t2[1],
    ensures
        crate::output::root_output_bytes_spec(root_spec(t1), n) == crate::output::root_output_bytes_spec(
            root_spec(t2),
            n,
        ),
{
}

/// Node `i` carries the parent Output of its two children.
pub open spec fn merkle_node_ok(t: Seq<OutputView>, i: int) -> bool {
    t[i] == parent_output_spec(
        output_cv_spec(t[2 * i]),
        output_cv_spec(t[2 * i + 1]),
        iv_seq(),
        0,
    )
}

/// The construction queue, part way through one level: the unprocessed tail
/// of the level starting at `s`, followed by the parents already produced.
pub open spec fn build_frontier(t: Seq<OutputView>, s: int, u: int) -> Seq<(OutputView, int)> {
    Seq::new((2 * s - u) as nat, |j: int| (t[u + j], u + j)) + Seq::new(
        (u / 2 - s / 2) as nat,
        |j: int| (t[s / 2 + j], s / 2 + j),
    )
}

/// The frontier induction behind the constructor law: if every level below
/// the one being processed already satisfies the Merkle parent relation,
/// running the queue to completion establishes it at every internal node,
/// without touching the leaves.
proof fn lemma_build_queue_merkle(t: Seq<OutputView>, c: int, s: int, u: int)
    requires
        t.len() == 2 * c,
        is_pow2(c),
        is_pow2(s),
        1 <= s <= c,
        s <= u < 2 * s,
        s >= 2 ==> u % 2 == 0,
        forall|i: int| s <= i < c ==> merkle_node_ok(t, i),
        forall|i: int| s / 2 <= i < u / 2 ==> merkle_node_ok(t, i),
    ensures
        ({
            let r = build_queue_spec(t, build_frontier(t, s, u));
            &&& r.len() == 2 * c
            &&& forall|i: int| 1 <= i < c ==> merkle_node_ok(r, i)
            &&& forall|i: int| c <= i < 2 * c ==> r[i] == t[i]
        }),
    decreases (2 * s - u) + (u / 2 - s / 2),
{
    let q = build_frontier(t, s, u);
    if q.len() <= 1 {
        // Only the root entry remains: s == 1, and every internal node is
        // already in place.
        assert(s == 1);
    } else {
        assert(s >= 2);
        let parent = parent_output_spec(
            output_cv_spec(t[u]),
            output_cv_spec(t[u + 1]),
            iv_seq(),
            0,
        );
        assert(q[0] == (t[u], u) && q[1] == (t[u + 1], u + 1));
        let t2 = t.update(u / 2, parent);
        assert(u / 2 < s);
        assert(build_queue_spec(t, q) == build_queue_spec(
            t2,
            q.skip(2).push((parent, u / 2)),
        ));
        // The written parent now satisfies the relation, and nothing below
        // the write is disturbed.
        assert(merkle_node_ok(t2, u / 2));
        assert forall|i: int| s <= i < c implies merkle_node_ok(t2, i) by {
            assert(merkle_node_ok(t, i));
        }
        assert forall|i: int| s / 2 <= i < (u + 2) / 2 implies merkle_node_ok(t2, i) by {
            if i != u / 2 {
                assert(merkle_node_ok(t, i));
            }
        }
        if u + 2 < 2 * s {
            assert(q.skip(2).push((parent, u / 2)) =~= build_frontier(t2, s, u + 2));
            lemma_build_queue_merkle(t2, c, s, u + 2);
        } else {
            // The level is complete: the queue now holds exactly the next
            // level, in order.
            assert(q.skip(2).push((parent, u / 2)) =~= build_frontier(t2, s / 2, s / 2));
            assert(is_pow2(s / 2));
            if s / 2 >= 2 {
                assert(s / 2 != 1 && s / 2 > 0);
                assert(s / 2 % 2 == 0);
            }
            lemma_build_queue_merkle(t2, c, s / 2, s / 2);
        }
    }
}

/// The constructor law for power-of-two leaf counts: the tree built from
/// 2^k leaves (k >= 1) holds the leaves in its leaf slots and satisfies the
/// Merkle parent relation at every internal node, the root included.
pub proof fn lemma_new_from_leaves_merkle(leaves: Seq<OutputView>)
    requires
        leaves.len() >= 2,
        is_pow2(leaves.len() as int),
    ensures
        ({
            let r = new_from_leaves_spec(leaves);
            let c = leaves.len() as int;
            &&& r.len() == 2 * c
            &&& forall|j: int| 0 <= j < c ==> r[c + j] == leaves[j]
            &&& forall|i: int| 1 <= i < c ==> merkle_node_ok(r, i)
        }),
{
    let c = leaves.len() as int;
    crate::numeric::lemma_next_pow2_unique(leaves.len(), leaves.len());
    assert(next_pow2(leaves.len()) == leaves.len());
    let t = spliced_leaves_spec(leaves, c);
    assert(forall|j: int| 0 <= j < c ==> t[c + j] == leaves[j]);
    assert(Seq::new(leaves.len(), |j: int| (t[c + j], c + j)) =~= build_frontier(t, c, c));
    lemma_build_queue_merkle(t, c, c, c);
}

impl BinaryMerkleTree {
    /// Storage for `number_of_leaves` (a power of two) leaf slots, all
    /// filled with the sentinel.
    pub fn new_empty(number_of_leaves: u64) -> (r: Self)
        requires
            is_pow2(number_of_leaves as int),
            number_of_leaves <= usize::MAX / 2,
        ensures
            r@ == Seq::new((2 * number_of_leaves) as nat, |i: int| sentinel_output_spec()),
            r@.len() == 2 * number_of_leaves,
            tree_wf(r@),
    {
        let empty_output = sentinel_output();
        let count = 2 * (number_of_leaves as usize);
        let mut tree: Vec<Output> = Vec::new();
        let mut i: usize = 0;
        while i < count
            invariant
                i <= count,
                tree@.len() == i,
                empty_output@ == sentinel_output_spec(),
                forall|j: int| #![trigger tree@[j]] 0 <= j < i ==> tree@[j]@
                    == sentinel_output_spec(),
            decreases count - i,
        {
            tree.push(empty_output);
            i += 1;
        }
        let r = BinaryMerkleTree { tree };
        proof {
            assert(r@ =~= Seq::new((2 * number_of_leaves) as nat, |i: int| sentinel_output_spec()));
        }
        r
    }

    pub fn new_from_leaves(leaves: Vec<Output>) -> (r: BinaryMerkleTree)
        requires
            1 <= leaves@.len() <= usize::MAX / 4,
        ensures
            r@ == new_from_leaves_spec(output_views(leaves@)),
            tree_wf(r@),
            r@.len() == 2 * next_pow2(leaves@.len()),
    {
        let number_of_leaves = next_power_of_two(leaves.len());
        let mut tree = Self::new_empty(number_of_leaves as u64);
        tree.create_tree_from_leaves(leaves);
        tree
    }

    /// The root Output, with the ROOT flag applied to the returned copy
    /// only; the stored node keeps its flags.
    pub fn root(&self) -> (r: Output)
        requires
            self@.len() >= 2,
        ensures
            r@ == root_spec(self@),
    {
        let mut root = self.tree[1];
        // Apply ROOT flag to the final root output.
        root.flags = root.flags | ROOT;
        root
    }

    /// The leaf capacity C.
    pub fn num_leaves(&self) -> (r: usize)
        ensures
            r == self@.len() / 2,
    {
        self.tree.len() / 2
    }

    /// The count of addressable nodes (the tree is 1-indexed).
    pub fn get_tree_length(&self) -> (r: usize)
        requires
            self@.len() >= 1,
        ensures
            r == self@.len() - 1,
    {
        self.tree.len() - 1
    }

    // The parent of a node is always at node_index / 2.
    fn get_parent_index(index: usize) -> (r: usize)
        ensures
            r == index as int / 2,
    {
        proof {
            assert(index >> 1usize == index / 2) by (bit_vector);
        }
        index >> 1
    }

    pub(crate) fn get_sibling_index(index: usize) -> (r: usize)
        ensures
            r == sibling_spec(index as int),
    {
        // Bit-wise XOR flips the lowest bit: an even node's sibling is the
        // next slot, an odd node's the one before.
        proof {
            assert((index % 2 == 0 ==> (index ^ 1) == index + 1) && (index % 2 == 1 ==> (index
                ^ 1) == index - 1)) by (bit_vector);
        }
        index ^ 1
    }

    fn is_left(index: usize) -> (r: bool)
        ensures
            r == (index % 2 == 0),
    {
        // All left children have an even node index.
        index % 2 == 0
    }

    /// Given the index of the current node, identify its direct sibling and
    /// return the pair ordered left then right.
    fn get_left_and_right_node_indices_from_index(&self, current_index: usize) -> (r: (
        usize,
        usize,
    ))
        requires
            current_index >= 2,
        ensures
            r.0 == 2 * (current_index as int / 2),
            r.1 == r.0 + 1,
            r.0 == current_index || r.0 == sibling_spec(current_index as int),
            r.1 == current_index || r.1 == sibling_spec(current_index as int),
    {
        let sibling_index = BinaryMerkleTree::get_sibling_index(current_index);
        if BinaryMerkleTree::is_left(current_index) {
            (current_index, sibling_index)
        } else {
            (sibling_index, current_index)
        }
    }

    /// Replaces one leaf (0-indexed) and recomputes every ancestor on its
    /// path to the root.
    pub fn insert_leaf(&mut self, leaf_index: usize, leaf_output: Output)
        requires
            tree_wf(old(self)@),
            leaf_index < old(self)@.len() / 2,
        ensures
            final(self)@ == update_path_spec(
                old(self)@.update(leaf_index + old(self)@.len() / 2, leaf_output@),
                leaf_index + old(self)@.len() / 2,
            ),
    {
        let len = self.tree.len();
        let real_leaf_index = leaf_index + self.num_leaves();
        let ghost pre = self@;
        self.tree.set(real_leaf_index, leaf_output);
        proof {
            assert(self@ =~= pre.update(real_leaf_index as int, leaf_output@));
        }
        let ghost target = update_path_spec(self@, real_leaf_index as int);

        let mut current_index = real_leaf_index;
        while current_index > 1
            invariant
                1 <= current_index < len,
                len == self@.len(),
                len >= 2,
                len % 2 == 0,
                update_path_spec(self@, current_index as int) == target,
            decreases current_index,
        {
            // Update parent.
            let parent_index = BinaryMerkleTree::get_parent_index(current_index);
            let (left_node_index, right_node_index) =
                self.get_left_and_right_node_indices_from_index(current_index);
            let left_node = self.tree[left_node_index];
            let right_node = self.tree[right_node_index];
            proof {
                lemma_iv_view();
            }
            let po = parent_output(left_node.chaining_value(), right_node.chaining_value(), IV, 0);
            let ghost t0 = self@;
            self.tree.set(parent_index, po);
            proof {
                assert(self@ =~= t0.update(parent_index as int, po@));
            }
            current_index = parent_index;
        }
    }

    /// Bulk-replaces the given leaves (0-indexed, strictly ascending) and
    /// propagates hash updates to all ancestors, computing each shared
    /// parent only once. A non-ascending index sequence is rejected before
    /// anything is written, and the tree is left unchanged.
    #[verifier::loop_isolation(false)]
    #[verifier::rlimit(100)]
    pub fn bulk_insert_leaves(&mut self, leaf_indices: Vec<usize>, leaf_hashes: Vec<Output>) -> (r:
        Option<()>)
        requires
            tree_wf(old(self)@),
            leaf_indices@.len() >= 1,
            leaf_indices@.len() == leaf_hashes@.len(),
            forall|i: int| 0 <= i < leaf_indices@.len() ==> leaf_indices@[i] < old(self)@.len()
                / 2,
        ensures
            ({
                let offs = offset_indices(leaf_indices@, old(self)@.len() as int / 2);
                &&& (r is Some <==> strictly_ascending(offs))
                &&& (!strictly_ascending(offs) ==> final(self)@ == old(self)@)
                &&& (strictly_ascending(offs) ==> final(self)@ == bulk_update_spec(
                    write_leaves_spec(old(self)@, offs, output_views(leaf_hashes@)),
                    offs,
                ))
            }),
    {
        let len = self.tree.len();
        let leaf_offset = self.num_leaves();
        let ghost offs = offset_indices(leaf_indices@, leaf_offset as int);
        let n = leaf_indices.len();

        // Offset the input indices to physical leaf slots.
        let mut offset_vec: Vec<usize> = Vec::new();
        let mut i: usize = 0;
        while i < n
            invariant
                i <= n,
                n == leaf_indices@.len(),
                offs == offset_indices(leaf_indices@, leaf_offset as int),
                leaf_offset == len / 2,
                len % 2 == 0,
                forall|k: int| 0 <= k < n ==> leaf_indices@[k] < leaf_offset,
                offset_vec@.len() == i,
                forall|k: int| #![trigger offset_vec@[k]] 0 <= k < i ==> offset_vec@[k] == offs[k],
            decreases n - i,
        {
            offset_vec.push(leaf_indices[i] + leaf_offset);
            i += 1;
        }

        // Check that the physical indices are strictly ascending; reject
        // before any write, so that failure leaves the tree untouched.
        let mut k: usize = 1;
        while k < n
            invariant
                1 <= k,
                n == offs.len(),
                offset_vec@.len() == n,
                forall|t: int| #![trigger offset_vec@[t]] 0 <= t < n ==> offset_vec@[t] == offs[t],
                forall|t: int| #![trigger offs[t]] 0 <= t < k - 1 ==> offs[t] < offs[t + 1],
            decreases n - k,
        {
            if offset_vec[k - 1] >= offset_vec[k] {
                proof {
                    assert(offs[k - 1] >= offs[k as int]);
                    assert(!strictly_ascending(offs));
                }
                return None;
            }
            k += 1;
        }
        proof {
            assert(strictly_ascending(offs));
        }

        // Insert all leaf nodes.
        let ghost vals = output_views(leaf_hashes@);
        let ghost t0 = self@;
        let ghost written = write_leaves_spec(t0, offs, vals);
        let mut w: usize = 0;
        proof {
            assert(offs.skip(0) =~= offs);
            assert(vals.skip(0) =~= vals);
        }
        while w < n
            invariant
                w <= n,
                n == offs.len(),
                n == vals.len(),
                vals == output_views(leaf_hashes@),
                leaf_hashes@.len() == n,
                offset_vec@.len() == n,
                forall|t: int| #![trigger offset_vec@[t]] 0 <= t < n ==> offset_vec@[t] == offs[t],
                forall|t: int| #![trigger offs[t]] 0 <= t < n ==> 0 <= offs[t] < len,
                self@.len() == len,
                write_leaves_spec(self@, offs.skip(w as int), vals.skip(w as int)) == written,
            decreases n - w,
        {
            let ghost pre = self@;
            self.tree.set(offset_vec[w], leaf_hashes[w]);
            proof {
                assert(self@ =~= pre.update(offs[w as int], vals[w as int]));
                assert(offs.skip(w as int)[0] == offs[w as int]);
                assert(offs.skip(w as int).skip(1) =~= offs.skip(w as int + 1));
                assert(vals.skip(w as int).skip(1) =~= vals.skip(w as int + 1));
            }
            w += 1;
        }
        proof {
            assert(offs.skip(n as int) =~= Seq::<int>::empty());
            assert(self@ == written);
        }

        // Update ancestors based on the sorted physical leaf indices.
        let ghost target = bulk_update_spec(written, offs);
        let mut update_queue: VecDeque<usize> = VecDeque::new();
        let mut p: usize = 0;
        while p < n
            invariant
                p <= n,
                n == offs.len(),
                offset_vec@.len() == n,
                forall|t: int| #![trigger offset_vec@[t]] 0 <= t < n ==> offset_vec@[t] == offs[t],
                forall|t: int| #![trigger offs[t]] 0 <= t < n ==> 1 <= offs[t] < len,
                len >= 2,
                update_queue@.len() == p,
                forall|t: int| #![trigger update_queue@[t]] 0 <= t < p ==> update_queue@[t]
                    == offset_vec@[t],
            decreases n - p,
        {
            update_queue.push_back(offset_vec[p]);
            p += 1;
        }
        proof {
            assert(ints_of(update_queue@) =~= offs);
        }
        self.update_ancestors(update_queue);
        Some(())
    }

    /// Runs the ancestor-update queue: the front node's parent is
    /// recomputed from both children and enqueued, a queued sibling is
    /// skipped, and the loop stops at the root.
    #[verifier::loop_isolation(false)]
    fn update_ancestors(&mut self, queue: VecDeque<usize>)
        requires
            old(self)@.len() >= 2,
            old(self)@.len() % 2 == 0,
            forall|t: int| #![trigger queue@[t]] 0 <= t < queue@.len() ==> 1 <= queue@[t] < old(
                self,
            )@.len(),
        ensures
            final(self)@ == bulk_update_spec(old(self)@, ints_of(queue@)),
            final(self)@.len() == old(self)@.len(),
    {
        let len = self.tree.len();
        let ghost target = bulk_update_spec(self@, ints_of(queue@));
        let mut update_queue = queue;
        // Stop when the queue is drained or the root has been reached.
        while update_queue.len() > 0 && update_queue[0] != 1
            invariant
                self@.len() == len,
                forall|t: int| #![trigger update_queue@[t]] 0 <= t < update_queue@.len() ==> 1
                    <= update_queue@[t] < len,
                bulk_update_spec(self@, ints_of(update_queue@)) == target,
            decreases queue_measure(ints_of(update_queue@)),
        {
            let ghost q0 = ints_of(update_queue@);
            let current_index = update_queue.pop_front().unwrap();
            proof {
                assert(ints_of(update_queue@) =~= q0.skip(1));
            }

            // If the next node to update is the sibling, pop it from the
            // queue, since it shares the parent computed below.
            let sibling_index = BinaryMerkleTree::get_sibling_index(current_index);
            if update_queue.len() > 0 {
                let next_index = update_queue[0];
                if next_index == sibling_index {
                    let ghost before = ints_of(update_queue@);
                    update_queue.pop_front();
                    proof {
                        assert(ints_of(update_queue@) =~= before.skip(1));
                    }
                }
            }
            let ghost rest2 = ints_of(update_queue@);

            let (left_node_index, right_node_index) =
                self.get_left_and_right_node_indices_from_index(current_index);
            let left_node = self.tree[left_node_index];
            let right_node = self.tree[right_node_index];
            proof {
                lemma_iv_view();
            }
            let po = parent_output(left_node.chaining_value(), right_node.chaining_value(), IV, 0);
            let parent_index = BinaryMerkleTree::get_parent_index(current_index);
            let ghost t_pre = self@;
            self.tree.set(parent_index, po);
            update_queue.push_back(parent_index);
            proof {
                assert(self@ =~= t_pre.update(parent_index as int, po@));
                assert(ints_of(update_queue@) =~= rest2.push(parent_index as int));
                lemma_queue_measure_push(rest2, parent_index as int);
                assert(queue_measure(q0) == bitlen(q0[0]) + queue_measure(q0.skip(1)));
                assert(bitlen(q0[0]) == 1 + bitlen(q0[0] / 2));
                if q0.skip(1).len() > 0 {
                    assert(queue_measure(q0.skip(1)) == bitlen(q0.skip(1)[0]) + queue_measure(
                        q0.skip(1).skip(1),
                    ));
                }
                assert(rest2 == q0.skip(1) || (q0.skip(1).len() > 0 && rest2 =~= q0.skip(1).skip(
                    1,
                )));
                assert(queue_measure(rest2) <= queue_measure(q0.skip(1)));
                assert(bulk_update_spec(self@, ints_of(update_queue@)) == bulk_update_spec(
                    t_pre,
                    q0,
                ));
            }
        }
    }

    fn create_tree_from_leaves(&mut self, leaves: Vec<Output>)
        requires
            tree_wf(old(self)@),
            1 <= leaves@.len(),
            old(self)@.len() == 2 * next_pow2(leaves@.len()),
            forall|i: int| 0 <= i < old(self)@.len() ==> old(self)@[i] == sentinel_output_spec(),
        ensures
            final(self)@ == new_from_leaves_spec(output_views(leaves@)),
            final(self)@.len() == old(self)@.len(),
    {
        let ghost g_leaves = output_views(leaves@);
        let number_of_leaves = leaves.len();
        let len = self.tree.len();
        let c = len / 2;
        proof {
            crate::numeric::lemma_next_pow2_props(leaves@.len());
        }
        // Copy the leaves into the end of the tree.
        let mut j: usize = 0;
        while j < number_of_leaves
            invariant
                j <= number_of_leaves,
                number_of_leaves == g_leaves.len(),
                g_leaves == output_views(leaves@),
                self@.len() == len,
                len == 2 * c,
                number_of_leaves <= c,
                forall|i: int| #![trigger self@[i]] 0 <= i < len && i < len - number_of_leaves
                    ==> self@[i] == sentinel_output_spec(),
                forall|i: int| #![trigger self@[i]] len - number_of_leaves <= i < len
                    - number_of_leaves + j ==> self@[i] == g_leaves[i - (len - number_of_leaves)],
                forall|i: int| #![trigger self@[i]] len - number_of_leaves + j <= i < len
                    ==> self@[i] == sentinel_output_spec(),
            decreases number_of_leaves - j,
        {
            let idx = len - number_of_leaves + j;
            let leaf = leaves[j];
            let ghost pre = self@;
            self.tree.set(idx, leaf);
            proof {
                assert(self@ =~= pre.update(idx as int, leaf@));
            }
            j += 1;
        }
        proof {
            assert(self@ =~= spliced_leaves_spec(g_leaves, c as int));
        }
        // If there is only one leaf (plus the filler first slot), the tree
        // is simply that leaf.
        if number_of_leaves == 1 {
            return ;
        }

        // Build ancestors pairwise through a FIFO queue seeded from slot C.
        let ghost t_spliced = self@;
        let leaf_start_index = self.get_tree_length() / 2 + 1;
        proof {
            assert(leaf_start_index == c);
        }
        let mut hash_queue: VecDeque<(Output, usize)> = VecDeque::new();
        let mut k: usize = 0;
        while k < number_of_leaves
            invariant
                k <= number_of_leaves,
                number_of_leaves <= c,
                leaf_start_index == c,
                len == 2 * c,
                self@.len() == len,
                self@ == t_spliced,
                hash_queue@.len() == k,
                forall|i: int| #![trigger hash_queue@[i]] 0 <= i < k ==> hash_queue@[i].0@
                    == t_spliced[c + i] && hash_queue@[i].1 == c + i,
            decreases number_of_leaves - k,
        {
            let entry = self.tree[leaf_start_index + k];
            hash_queue.push_back((entry, leaf_start_index + k));
            k += 1;
        }
        proof {
            assert(pair_views(hash_queue@) =~= Seq::new(
                g_leaves.len(),
                |j: int| (t_spliced[c + j], c + j),
            ));
        }
        let ghost target = build_queue_spec(t_spliced, pair_views(hash_queue@));
        while hash_queue.len() > 1
            invariant
                self@.len() == len,
                len == 2 * c,
                forall|i: int| #![trigger hash_queue@[i]] 0 <= i < hash_queue@.len() ==> 0
                    <= hash_queue@[i].1 < len,
                build_queue_spec(self@, pair_views(hash_queue@)) == target,
            decreases hash_queue@.len(),
        {
            let ghost q0 = pair_views(hash_queue@);
            let ghost t0 = self@;
            proof {
                lemma_iv_view();
            }
            let front_left = hash_queue.pop_front().unwrap();
            let front_right = hash_queue.pop_front().unwrap();
            let (left_child, left_index) = front_left;
            let (right_child, _right_index) = front_right;
            let po = parent_output(
                left_child.chaining_value(),
                right_child.chaining_value(),
                IV,
                0,
            );
            let parent_index = left_index / 2;
            self.tree.set(parent_index, po);
            hash_queue.push_back((po, parent_index));
            proof {
                assert(q0[0] == (left_child@, left_index as int));
                assert(self@ =~= t0.update(parent_index as int, po@));
                assert(pair_views(hash_queue@) =~= q0.skip(2).push((po@, parent_index as int)));
                assert(build_queue_spec(self@, pair_views(hash_queue@)) == build_queue_spec(
                    t0,
                    q0,
                ));
            }
        }
    }
}

} // verus!
