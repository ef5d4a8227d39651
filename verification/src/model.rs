//! The mathematical model of trees and proofs. Every executable function of
//! the library is specified against the functions here: the node values of
//! the implicit tree built from a leaf sequence, the walk that collects a
//! proof's lemmas, and the walk that recomputes a root from a proof.

use vstd::prelude::*;

use crate::merge::Merge;
use crate::tree_index::{is_left_spec, parent_spec, sibling_spec};

verus! {

/// The value of the node at flat index `i` of the implicit tree over
/// `leaves`: leaves occupy indices `len-1 .. 2*len-2` in order, and every
/// internal node is the merge of its two children.
pub open spec fn node_value<M: Merge>(leaves: Seq<M::Item>, i: int) -> M::Item
    decreases 2 * leaves.len() - 2 - i,
{
    if leaves.len() == 0 {
        M::spec_default()
    } else if i < 0 {
        M::spec_default()
    } else if i >= leaves.len() - 1 {
        leaves[i - (leaves.len() - 1)]
    } else {
        M::spec_merge(node_value::<M>(leaves, 2 * i + 1), node_value::<M>(leaves, 2 * i + 2))
    }
}

/// The full node sequence of the tree over `leaves`: empty for no leaves,
/// else `2*len - 1` nodes with the root at index 0.
pub open spec fn tree_nodes<M: Merge>(leaves: Seq<M::Item>) -> Seq<M::Item> {
    if leaves.len() == 0 {
        Seq::empty()
    } else {
        Seq::new((2 * leaves.len() - 1) as nat, |i: int| node_value::<M>(leaves, i))
    }
}

/// The root of the tree over `leaves`: the neutral value for no leaves.
pub open spec fn merkle_root<M: Merge>(leaves: Seq<M::Item>) -> M::Item {
    if leaves.len() == 0 {
        M::spec_default()
    } else {
        node_value::<M>(leaves, 0)
    }
}

/// The root a stored node sequence carries: its first node, or the neutral
/// value when the tree is empty.
pub open spec fn root_of<M: Merge>(nodes: Seq<M::Item>) -> M::Item {
    if nodes.len() == 0 {
        M::spec_default()
    } else {
        nodes[0]
    }
}

/// A node sequence is well formed when it is empty or has odd length with
/// every internal node equal to the merge of its two children.
pub open spec fn wf_nodes<M: Merge>(nodes: Seq<M::Item>) -> bool {
    ||| nodes.len() == 0
    ||| {
        &&& nodes.len() % 2 == 1
        &&& forall|i: int|
            0 <= i < nodes.len() / 2 ==> nodes[i] == M::spec_merge(
                #[trigger] nodes[2 * i + 1],
                nodes[2 * i + 2],
            )
    }
}

/// The leaf count of a tree stored as `nodes`: 0 for the empty tree, else
/// `(len + 1) / 2`.
pub open spec fn leaf_count(nodes_len: int) -> int {
    if nodes_len == 0 {
        0
    } else {
        (nodes_len + 1) / 2
    }
}

pub proof fn lemma_tree_nodes_wf<M: Merge>(leaves: Seq<M::Item>)
    ensures
        wf_nodes::<M>(tree_nodes::<M>(leaves)),
        tree_nodes::<M>(leaves).len() == if leaves.len() == 0 {
            0int
        } else {
            2 * leaves.len() - 1
        },
        leaf_count(tree_nodes::<M>(leaves).len() as int) == leaves.len(),
        forall|p: int|
            0 <= p < leaves.len() ==> #[trigger] tree_nodes::<M>(leaves)[leaves.len() - 1 + p]
                == leaves[p],
{
}

/// The termination measure of the proof walks: one plus the index for every
/// queue entry, negatives counting as zero. Each walk step removes at least
/// one entry and can only append that entry's parent, whose index is
/// strictly smaller, so the measure strictly decreases.
pub open spec fn weight(q: Seq<int>) -> int
    decreases q.len(),
{
    if q.len() == 0 {
        0
    } else {
        weight(q.drop_last()) + (if q.last() >= 0 {
            q.last()
        } else {
            0
        }) + 1
    }
}

pub proof fn lemma_weight_nonneg(q: Seq<int>)
    ensures
        weight(q) >= q.len(),
    decreases q.len(),
{
    if q.len() > 0 {
        lemma_weight_nonneg(q.drop_last());
    }
}

pub proof fn lemma_weight_drop_first(q: Seq<int>)
    requires
        q.len() >= 1,
    ensures
        weight(q) == weight(q.drop_first()) + (if q[0] >= 0 {
            q[0]
        } else {
            0
        }) + 1,
    decreases q.len(),
{
    if q.len() == 1 {
        assert(q.drop_first() =~= Seq::<int>::empty());
        assert(q.drop_last() =~= Seq::<int>::empty());
    } else {
        lemma_weight_drop_first(q.drop_last());
        assert(q.drop_last().drop_first() =~= q.drop_first().drop_last());
        assert(q.drop_first().last() == q.last());
    }
}

/// One walk step pops the front (and possibly its sibling) and appends at
/// most the front's parent, so the weight strictly shrinks.
pub proof fn lemma_walk_step_weight(q: Seq<int>)
    requires
        q.len() >= 1,
        q[0] >= 1,
    ensures
        weight(enqueue_parent(q.subrange(1, q.len() as int), parent_spec(q[0]))) < weight(q),
        q.len() >= 2 ==> weight(
            enqueue_parent(q.subrange(2, q.len() as int), parent_spec(q[0])),
        ) < weight(q),
{
    let par = parent_spec(q[0]);
    let q1 = q.subrange(1, q.len() as int);
    lemma_weight_drop_first(q);
    assert(q1 =~= q.drop_first());
    lemma_weight_push(q1, par);
    if q.len() >= 2 {
        let q2 = q.subrange(2, q.len() as int);
        lemma_weight_drop_first(q1);
        assert(q2 =~= q1.drop_first());
        lemma_weight_push(q2, par);
    }
}

pub proof fn lemma_weight_push(q: Seq<int>, x: int)
    ensures
        weight(q.push(x)) == weight(q) + (if x >= 0 {
            x
        } else {
            0
        }) + 1,
{
    assert(q.push(x).drop_last() =~= q);
}

/// The queue after a walk step: the parent of the popped index is enqueued
/// at the back, unless it is the root.
pub open spec fn enqueue_parent(q: Seq<int>, par: int) -> Seq<int> {
    if par == 0 {
        q
    } else {
        q.push(par)
    }
}

/// The lemma values a proof records, walking the queue of flat indices in
/// descending order: pop the front; if the next entry is its sibling the
/// verifier can derive that value, else the sibling's node value is a lemma;
/// then enqueue the parent. Popping the root completes the walk.
pub open spec fn proof_lemmas_walk<M: Merge>(q: Seq<int>, nodes: Seq<M::Item>) -> Seq<M::Item>
    decreases weight(q),
    via proof_lemmas_walk_decreases::<M>
{
    if q.len() == 0 {
        Seq::empty()
    } else if q[0] <= 0 {
        Seq::empty()
    } else {
        let idx = q[0];
        let sib = sibling_spec(idx);
        let par = parent_spec(idx);
        if q.len() >= 2 && q[1] == sib {
            proof_lemmas_walk::<M>(enqueue_parent(q.subrange(2, q.len() as int), par), nodes)
        } else {
            seq![nodes[sib]] + proof_lemmas_walk::<M>(
                enqueue_parent(q.subrange(1, q.len() as int), par),
                nodes,
            )
        }
    }
}

#[via_fn]
proof fn proof_lemmas_walk_decreases<M: Merge>(q: Seq<int>, nodes: Seq<M::Item>) {
    if q.len() >= 1 && q[0] >= 1 {
        lemma_walk_step_weight(q);
        lemma_weight_nonneg(enqueue_parent(q.subrange(1, q.len() as int), parent_spec(q[0])));
        if q.len() >= 2 {
            lemma_weight_nonneg(enqueue_parent(q.subrange(2, q.len() as int), parent_spec(q[0])));
        }
    }
}

/// The merge a verifier performs at flat index `idx`: a left child is the
/// left operand, a right child the right operand.
pub open spec fn combine_at<M: Merge>(idx: int, val: M::Item, sib_val: M::Item) -> M::Item {
    if is_left_spec(idx) {
        M::spec_merge(val, sib_val)
    } else {
        M::spec_merge(sib_val, val)
    }
}

/// The indices of a queue of (flat index, value) pairs.
pub open spec fn indices_of<A>(q: Seq<(int, A)>) -> Seq<int> {
    q.map_values(|p: (int, A)| p.0)
}

/// Root reconstruction from a queue of (flat index, value) pairs, the pairs
/// in descending index order, and the proof's lemma values, consumed front
/// to back. Succeeds only when the walk reaches the root with the queue and
/// the lemmas both exhausted.
pub open spec fn root_walk<M: Merge>(q: Seq<(int, M::Item)>, lemmas: Seq<M::Item>) -> Option<
    M::Item,
>
    decreases weight(indices_of::<M::Item>(q)),
    via root_walk_decreases::<M>
{
    if q.len() == 0 {
        None
    } else {
        let idx = q[0].0;
        let val = q[0].1;
        if idx <= 0 {
            if lemmas.len() == 0 && q.len() == 1 {
                Some(val)
            } else {
                None
            }
        } else {
            let sib = sibling_spec(idx);
            let par = parent_spec(idx);
            if q.len() >= 2 && q[1].0 == sib {
                root_walk::<M>(
                    q.subrange(2, q.len() as int).push((par, combine_at::<M>(idx, val, q[1].1))),
                    lemmas,
                )
            } else if lemmas.len() >= 1 {
                root_walk::<M>(
                    q.subrange(1, q.len() as int).push((par, combine_at::<M>(idx, val, lemmas[0]))),
                    lemmas.drop_first(),
                )
            } else {
                None
            }
        }
    }
}

#[via_fn]
proof fn root_walk_decreases<M: Merge>(q: Seq<(int, M::Item)>, lemmas: Seq<M::Item>) {
    let iq = indices_of::<M::Item>(q);
    assert(iq.len() == q.len());
    if q.len() >= 1 && q[0].0 >= 1 {
        assert(iq[0] == q[0].0);
        let idx = q[0].0;
        let val = q[0].1;
        let par = parent_spec(idx);
        let sub1 = iq.subrange(1, iq.len() as int);
        lemma_weight_drop_first(iq);
        assert(sub1 =~= iq.drop_first());
        if q.len() >= 2 && q[1].0 == sibling_spec(idx) {
            let qq = q.subrange(2, q.len() as int).push((par, combine_at::<M>(idx, val, q[1].1)));
            let sub2 = iq.subrange(2, iq.len() as int);
            assert(indices_of::<M::Item>(qq) =~= sub2.push(par));
            lemma_weight_drop_first(sub1);
            assert(sub2 =~= sub1.drop_first());
            assert(sub1[0] == iq[1]);
            assert(iq[1] == sibling_spec(idx));
            lemma_weight_push(sub2, par);
            lemma_weight_nonneg(sub2.push(par));
        } else if lemmas.len() >= 1 {
            let qq = q.subrange(1, q.len() as int).push(
                (par, combine_at::<M>(idx, val, lemmas[0])),
            );
            assert(indices_of::<M::Item>(qq) =~= sub1.push(par));
            lemma_weight_push(sub1, par);
            lemma_weight_nonneg(sub1.push(par));
        }
    }
}

/// The node value order as a relation between values.
pub open spec fn le_of<M: Merge>() -> spec_fn(M::Item, M::Item) -> bool {
    |a: M::Item, b: M::Item| M::spec_le(a, b)
}

/// Descending order on flat indices.
pub open spec fn desc_int_order() -> spec_fn(int, int) -> bool {
    |a: int, b: int| a >= b
}

/// The order a proof's stored indices obey: ascending by the value of the
/// node each index addresses; indices with equal values keep the larger
/// index first, the order a stable sort of the descending index list leaves.
pub open spec fn index_value_order<M: Merge>(nodes: Seq<M::Item>) -> spec_fn(int, int) -> bool {
    |i: int, j: int| M::spec_le(nodes[i], nodes[j]) && (!M::spec_le(nodes[j], nodes[i]) || i >= j)
}

/// Descending index order on (flat index, value) pairs; pairs with equal
/// indices are ordered by descending value.
pub open spec fn pair_desc_order<M: Merge>() -> spec_fn((u32, M::Item), (u32, M::Item)) -> bool {
    |p: (u32, M::Item), q: (u32, M::Item)| p.0 > q.0 || (p.0 == q.0 && M::spec_le(q.1, p.1))
}

/// A queue of stored (index, value) pairs as the root walk takes it.
pub open spec fn pairs_to_walk<M: Merge>(pairs: Seq<(u32, M::Item)>) -> Seq<(int, M::Item)> {
    pairs.map_values(|p: (u32, M::Item)| (p.0 as int, p.1))
}

/// Descending order on flat indices, as the executable walk holds them.
pub open spec fn usize_desc_order() -> spec_fn(usize, usize) -> bool {
    |a: usize, b: usize| a >= b
}

/// `index_value_order` on flat indices as the executable sort holds them.
pub open spec fn usize_value_order<M: Merge>(nodes: Seq<M::Item>) -> spec_fn(usize, usize) -> bool {
    |a: usize, b: usize| index_value_order::<M>(nodes)(a as int, b as int)
}

/// The flat index of original leaf position `p` in a tree of `leaf_count`
/// leaves: `leaf_count + p - 1`.
pub open spec fn flat_indices(leaf_count: int, positions: Seq<usize>) -> Seq<int> {
    Seq::new(positions.len(), |k: int| leaf_count - 1 + positions[k])
}

/// When a proof can be built from a tree of `nodes_len` nodes: the tree and
/// the position list are non-empty and every position is a leaf position.
pub open spec fn proof_positions_ok(nodes_len: int, positions: Seq<usize>) -> bool {
    &&& nodes_len > 0
    &&& positions.len() > 0
    &&& forall|k: int| 0 <= k < positions.len() ==> (positions[k] as int) < leaf_count(nodes_len)
}

/// The index list a built proof stores: the requested flat indices, sorted
/// by node value.
pub open spec fn built_indices<M: Merge>(nodes: Seq<M::Item>, positions: Seq<usize>) -> Seq<int> {
    flat_indices(leaf_count(nodes.len() as int), positions).sort_by(index_value_order::<M>(nodes))
}

/// The lemma list a built proof stores: the walk over the requested flat
/// indices in descending order.
pub open spec fn built_lemmas<M: Merge>(nodes: Seq<M::Item>, positions: Seq<usize>) -> Seq<
    M::Item,
> {
    proof_lemmas_walk::<M>(
        flat_indices(leaf_count(nodes.len() as int), positions).sort_by(desc_int_order()),
        nodes,
    )
}

/// When the leaves a proof addresses can be read back out of a full leaf
/// sequence: both are non-empty and every stored index lies in the leaf
/// range `[len-1, 2*len-2]` of a tree over that sequence.
pub open spec fn retrieve_ok(leaf_len: int, indices: Seq<u32>) -> bool {
    &&& leaf_len > 0
    &&& indices.len() > 0
    &&& forall|k: int|
        0 <= k < indices.len() ==> leaf_len - 1 <= (#[trigger] indices[k]) as int <= 2 * leaf_len
            - 2
}

/// The leaf values a proof's stored indices address, in stored order.
pub open spec fn retrieved_leaves<M: Merge>(leaves: Seq<M::Item>, indices: Seq<u32>) -> Seq<
    M::Item,
> {
    Seq::new(indices.len(), |k: int| leaves[indices[k] - (leaves.len() - 1)])
}

/// What verification computes from a proof's fields and a supplied leaf
/// subset: the supplied leaves sorted ascending by value, paired with the
/// stored (value-sorted) indices, the pairs queued in descending index
/// order, and the root walk run on that queue.
pub open spec fn proof_root_spec<M: Merge>(
    indices: Seq<u32>,
    lemmas: Seq<M::Item>,
    leaves: Seq<M::Item>,
) -> Option<M::Item> {
    if leaves.len() != indices.len() || leaves.len() == 0 {
        None
    } else {
        let sorted_leaves = leaves.sort_by(le_of::<M>());
        let pairs = Seq::new(indices.len(), |k: int| (indices[k], sorted_leaves[k]));
        root_walk::<M>(pairs_to_walk::<M>(pairs.sort_by(pair_desc_order::<M>())), lemmas)
    }
}

} // verus!
