//! The executable library surface: building a tree or just its root from a
//! leaf sequence, building a compressed multi-leaf proof from a tree, and
//! recomputing and checking a root from a proof and a leaf subset.

use core::marker::PhantomData;

use vstd::pervasive::VecAdditionalExecFns;
use vstd::prelude::*;
use vstd::seq_lib::lemma_sorted_unique;

use crate::merge::Merge;
use crate::model::{
    built_indices, built_lemmas, combine_at, desc_int_order, enqueue_parent, flat_indices,
    index_value_order, le_of, leaf_count, lemma_walk_step_weight, lemma_weight_drop_first,
    merkle_root, node_value, pair_desc_order, pairs_to_walk, proof_lemmas_walk,
    proof_positions_ok, proof_root_spec, retrieve_ok, retrieved_leaves, root_of, root_walk,
    tree_nodes, usize_desc_order, usize_value_order, weight,
};
use crate::sorting::{
    insertion_sort, lemma_desc_int_total, lemma_index_value_order_total, lemma_le_of_total,
    lemma_map_values_multiset, lemma_pair_desc_total, lemma_usize_desc_total,
    lemma_usize_value_order_total,
};
use crate::tree_index::{is_left_spec, parent, parent_spec, sibling, sibling_spec};

verus! {

/// A fully materialized tree: `2L - 1` node values for `L` leaves, the root
/// at flat index 0 and the leaves in order at indices `L-1 .. 2L-2`; empty
/// for no leaves. Immutable once built.
pub struct MerkleTree<T, M> {
    nodes: Vec<T>,
    merge: PhantomData<M>,
}

impl<T, M> View for MerkleTree<T, M> {
    type V = Seq<T>;

    closed spec fn view(&self) -> Seq<T> {
        self.nodes@
    }
}

impl<T, M> MerkleTree<T, M> {
    /// A tree is empty or holds `2L - 1` nodes: the node count is odd.
    #[verifier::type_invariant]
    closed spec fn structure(self) -> bool {
        self.nodes@.len() == 0 || self.nodes@.len() % 2 == 1
    }
}

impl<T, M> MerkleTree<T, M> where M: Merge<Item = T> {
    /// The root value: the node at flat index 0, or the neutral value for an
    /// empty tree.
    pub fn root(&self) -> (r: T)
        ensures
            r == root_of::<M>(self@),
    {
        if self.nodes.len() == 0 {
            M::default_value()
        } else {
            M::copy_item(&self.nodes[0])
        }
    }

    /// The full node sequence, read-only.
    pub fn nodes(&self) -> (r: &Vec<T>)
        ensures
            r@ == self@,
    {
        &self.nodes
    }

    /// Builds a compressed proof for the original leaf positions in
    /// `indices`: nothing when the tree is empty, the position list is
    /// empty, or a position is out of range. Otherwise the positions' flat
    /// indices are walked in descending order, collecting as lemmas exactly
    /// the sibling values the verifier cannot derive, and the proof stores
    /// the flat indices sorted by leaf value. Positions may repeat. Stored
    /// indices are 32-bit, so the tree may hold at most `u32::MAX` nodes.
    pub fn build_proof(&self, indices: &Vec<usize>) -> (r: Option<MerkleProof<T, M>>)
        requires
            self@.len() <= u32::MAX as int,
        ensures
            match r {
                Some(p) => proof_positions_ok(self@.len() as int, indices@) && p.spec_indices()
                    .map_values(|u: u32| u as int) == built_indices::<M>(self@, indices@)
                    && p.spec_lemmas() == built_lemmas::<M>(self@, indices@),
                None => !proof_positions_ok(self@.len() as int, indices@),
            },
    {
        proof {
            use_type_invariant(&*self);
        }
        if self.nodes.len() == 0 || indices.len() == 0 {
            return None;
        }
        let n = self.nodes.len();
        let leaves_count = n / 2 + 1;
        proof {
            assert(leaves_count as int == leaf_count(self@.len() as int));
        }
        let mut flat: Vec<usize> = Vec::new();
        let mut k: usize = 0;
        while k < indices.len()
            invariant
                n == self@.len(),
                1 <= n,
                leaves_count as int == leaf_count(n as int),
                k <= indices@.len(),
                flat@.len() == k,
                forall|t: int|
                    0 <= t < k ==> (#[trigger] flat@[t]) as int == leaves_count - 1
                        + indices@[t] as int,
                forall|t: int| 0 <= t < k ==> (#[trigger] indices@[t]) < leaves_count,
            decreases indices@.len() - k,
        {
            let pos = indices[k];
            if pos >= leaves_count {
                return None;
            }
            flat.push(leaves_count - 1 + pos);
            k += 1;
        }
        let ghost fi = flat_indices(leaf_count(self@.len() as int), indices@);
        proof {
            assert(flat@.map_values(|u: usize| u as int) =~= fi);
            lemma_usize_desc_total();
            lemma_desc_int_total();
        }
        let dleq = |a: &usize, b: &usize| -> (o: bool)
            ensures
                o == usize_desc_order()(*a, *b),
            { *a >= *b };
        let ghost in_tree = |x: usize| x < self@.len();
        let desc = insertion_sort(flat, dleq, Ghost(in_tree), Ghost(usize_desc_order()));
        proof {
            assert forall|j: int| 0 <= j < desc@.len() implies (#[trigger] desc@[j]) < n by {
                assert(in_tree(desc@[j]));
            }
        }
        let ghost dd = fi.sort_by(desc_int_order());
        proof {
            fi.lemma_sort_by_ensures(desc_int_order());
            lemma_map_values_multiset(desc@, flat@, |u: usize| u as int);
            let md = desc@.map_values(|u: usize| u as int);
            let rel = desc_int_order();
            assert forall|a: int, b: int| 0 <= a < b < md.len() implies #[trigger] rel(
                md[a],
                md[b],
            ) by {
                assert(usize_desc_order()(desc@[a], desc@[b]));
            }
            lemma_sorted_unique(md, dd, desc_int_order());
            assert(desc@.map_values(|u: usize| u as int) == dd);
        }
        let mut queue: Vec<usize> = Vec::new();
        let mut t: usize = 0;
        while t < desc.len()
            invariant
                t <= desc@.len(),
                queue@.len() == t,
                forall|j: int| 0 <= j < t ==> #[trigger] queue@[j] == desc@[j],
            decreases desc@.len() - t,
        {
            queue.push(desc[t]);
            t += 1;
        }
        proof {
            assert(queue@ =~= desc@);
            assert(queue@.map_values(|u: usize| u as int) == dd);
        }
        let mut lemmas: Vec<T> = Vec::new();
        let mut head: usize = 0;
        proof {
            assert(queue@.subrange(0, queue@.len() as int) =~= queue@);
            assert(lemmas@ + proof_lemmas_walk::<M>(dd, self@) =~= proof_lemmas_walk::<M>(
                dd,
                self@,
            ));
        }
        while head < queue.len() && queue[head] > 0
            invariant
                n == self@.len(),
                1 <= n,
                n % 2 == 1,
                n <= u32::MAX,
                head <= queue@.len(),
                forall|j: int| 0 <= j < queue@.len() ==> (#[trigger] queue@[j]) < n,
                proof_lemmas_walk::<M>(dd, self@) == lemmas@ + proof_lemmas_walk::<M>(
                    queue@.subrange(head as int, queue@.len() as int).map_values(
                        |u: usize| u as int,
                    ),
                    self@,
                ),
            decreases weight(
                queue@.subrange(head as int, queue@.len() as int).map_values(|u: usize| u as int),
            ),
        {
            let ghost q0 = queue@;
            let ghost h0 = head as int;
            let ghost cur0 = q0.subrange(h0, q0.len() as int).map_values(|u: usize| u as int);
            let idx = queue[head];
            head += 1;
            proof {
                assert(cur0[0] == idx as int);
            }
            let sib = sibling(idx);
            proof {
                if idx % 2 == 1 {
                    assert(idx as int != n - 1);
                }
                assert(sib < n);
            }
            let take_sib = head < queue.len() && queue[head] == sib;
            if take_sib {
                head += 1;
            } else {
                lemmas.push(M::copy_item(&self.nodes[sib]));
            }
            let par = parent(idx);
            if par != 0 {
                queue.push(par);
            }
            proof {
                let curn = queue@.subrange(head as int, queue@.len() as int).map_values(
                    |u: usize| u as int,
                );
                let pspec = parent_spec(idx as int);
                assert(par as int == pspec);
                lemma_walk_step_weight(cur0);
                if take_sib {
                    assert(cur0.len() >= 2 && cur0[1] == sibling_spec(idx as int));
                    assert(curn =~= enqueue_parent(cur0.subrange(2, cur0.len() as int), pspec));
                    assert(proof_lemmas_walk::<M>(cur0, self@) == proof_lemmas_walk::<M>(
                        curn,
                        self@,
                    ));
                } else {
                    assert(!(cur0.len() >= 2 && cur0[1] == sibling_spec(idx as int)));
                    assert(curn =~= enqueue_parent(cur0.subrange(1, cur0.len() as int), pspec));
                    assert(lemmas@.last() == self@[sibling_spec(idx as int)]);
                    assert(proof_lemmas_walk::<M>(cur0, self@) == seq![
                        self@[sibling_spec(idx as int)],
                    ] + proof_lemmas_walk::<M>(curn, self@));
                    assert(lemmas@ + proof_lemmas_walk::<M>(curn, self@)
                        =~= lemmas@.drop_last() + proof_lemmas_walk::<M>(cur0, self@));
                }
                crate::model::lemma_weight_nonneg(curn);
            }
        }
        proof {
            let cur = queue@.subrange(head as int, queue@.len() as int).map_values(
                |u: usize| u as int,
            );
            if head == queue@.len() {
                assert(cur.len() == 0);
            } else {
                assert(queue@[head as int] == 0);
                assert(cur[0] == 0);
            }
            assert(proof_lemmas_walk::<M>(cur, self@) =~= Seq::<T>::empty());
            assert(lemmas@ + proof_lemmas_walk::<M>(cur, self@) =~= lemmas@);
            assert(lemmas@ == built_lemmas::<M>(self@, indices@));
            lemma_usize_value_order_total::<M>(self@);
        }
        let vleq = |a: &usize, b: &usize| -> (o: bool)
            requires
                *a < self.nodes@.len(),
                *b < self.nodes@.len(),
            ensures
                o == usize_value_order::<M>(self@)(*a, *b),
            {
                let lab = M::le(&self.nodes[*a], &self.nodes[*b]);
                if lab {
                    if M::le(&self.nodes[*b], &self.nodes[*a]) {
                        *a >= *b
                    } else {
                        true
                    }
                } else {
                    false
                }
            };
        let sorted_idx = insertion_sort(
            desc,
            vleq,
            Ghost(in_tree),
            Ghost(usize_value_order::<M>(self@)),
        );
        proof {
            assert forall|j: int| 0 <= j < sorted_idx@.len() implies (#[trigger] sorted_idx@[j])
                < n by {
                assert(in_tree(sorted_idx@[j]));
            }
        }
        let ghost bi = built_indices::<M>(self@, indices@);
        proof {
            lemma_index_value_order_total::<M>(self@);
            fi.lemma_sort_by_ensures(index_value_order::<M>(self@));
            lemma_map_values_multiset(sorted_idx@, flat@, |u: usize| u as int);
            let md = sorted_idx@.map_values(|u: usize| u as int);
            let rel = index_value_order::<M>(self@);
            assert forall|a: int, b: int| 0 <= a < b < md.len() implies #[trigger] rel(
                md[a],
                md[b],
            ) by {
                assert(usize_value_order::<M>(self@)(sorted_idx@[a], sorted_idx@[b]));
            }
            lemma_sorted_unique(md, bi, index_value_order::<M>(self@));
            assert(sorted_idx@.map_values(|u: usize| u as int) == bi);
        }
        let mut iu: Vec<u32> = Vec::new();
        let mut t2: usize = 0;
        while t2 < sorted_idx.len()
            invariant
                n == self@.len(),
                n <= u32::MAX,
                t2 <= sorted_idx@.len(),
                iu@.len() == t2,
                forall|j: int| 0 <= j < sorted_idx@.len() ==> (#[trigger] sorted_idx@[j]) < n,
                forall|j: int| 0 <= j < t2 ==> (#[trigger] iu@[j]) as int == sorted_idx@[j] as int,
            decreases sorted_idx@.len() - t2,
        {
            iu.push(sorted_idx[t2] as u32);
            t2 += 1;
        }
        let p = MerkleProof { indices: iu, lemmas, merge: PhantomData };
        proof {
            assert(p.spec_indices().map_values(|u: u32| u as int) =~= sorted_idx@.map_values(
                |u: usize| u as int,
            ));
        }
        Some(p)
    }
}

/// A compressed multi-leaf inclusion proof: the requested flat indices,
/// sorted by the value of the leaf each addresses, and the sibling values
/// (lemmas) the verifier cannot derive, in discovery order. A proof stands
/// alone: the two sequences are its complete state.
pub struct MerkleProof<T, M> {
    indices: Vec<u32>,
    lemmas: Vec<T>,
    merge: PhantomData<M>,
}

impl<T, M> MerkleProof<T, M> {
    /// The stored flat indices, value-sorted.
    pub closed spec fn spec_indices(&self) -> Seq<u32> {
        self.indices@
    }

    /// The stored lemma values, in discovery order.
    pub closed spec fn spec_lemmas(&self) -> Seq<T> {
        self.lemmas@
    }
}

impl<T, M> MerkleProof<T, M> where M: Merge<Item = T> {
    /// Reassembles a proof from its two sequences, as received over any
    /// external channel.
    pub fn new(indices: Vec<u32>, lemmas: Vec<T>) -> (r: Self)
        ensures
            r.spec_indices() == indices@,
            r.spec_lemmas() == lemmas@,
    {
        MerkleProof { indices, lemmas, merge: PhantomData }
    }

    pub fn indices(&self) -> (r: &Vec<u32>)
        ensures
            r@ == self.spec_indices(),
    {
        &self.indices
    }

    pub fn lemmas(&self) -> (r: &Vec<T>)
        ensures
            r@ == self.spec_lemmas(),
    {
        &self.lemmas
    }

    /// Recomputes a root from a leaf subset: fails on a length mismatch or
    /// an empty subset, sorts the supplied leaves ascending by value, pairs
    /// them with the stored indices, and walks the pairs in descending index
    /// order, merging each value with its sibling (taken from the queue when
    /// the sibling is also pending, else from the lemma list) until the root
    /// is reached with nothing left over.
    pub fn root(&self, leaves: &Vec<T>) -> (r: Option<T>)
        ensures
            r == proof_root_spec::<M>(self.spec_indices(), self.spec_lemmas(), leaves@),
    {
        if leaves.len() != self.indices.len() || leaves.len() == 0 {
            return None;
        }
        let n = leaves.len();
        let mut lv: Vec<T> = Vec::new();
        let mut k: usize = 0;
        while k < n
            invariant
                n == leaves@.len(),
                k <= n,
                lv@.len() == k,
                forall|t: int| 0 <= t < k ==> #[trigger] lv@[t] == leaves@[t],
            decreases n - k,
        {
            lv.push(M::copy_item(&leaves[k]));
            k += 1;
        }
        proof {
            assert(lv@ =~= leaves@);
        }
        let leq = |a: &T, b: &T| -> (o: bool)
            ensures
                o == M::spec_le(*a, *b),
            { M::le(a, b) };
        proof {
            lemma_le_of_total::<M>();
        }
        let sorted_leaves = insertion_sort(
            lv,
            leq,
            Ghost(|x: T| true),
            Ghost(le_of::<M>()),
        );
        let ghost spec_sorted = leaves@.sort_by(le_of::<M>());
        proof {
            leaves@.lemma_sort_by_ensures(le_of::<M>());
            lemma_sorted_unique(sorted_leaves@, spec_sorted, le_of::<M>());
            assert(sorted_leaves@ == spec_sorted);
        }
        let mut pairs: Vec<(u32, T)> = Vec::new();
        let mut k2: usize = 0;
        while k2 < n
            invariant
                n == sorted_leaves@.len(),
                n == self.indices@.len(),
                k2 <= n,
                pairs@.len() == k2,
                forall|t: int|
                    0 <= t < k2 ==> #[trigger] pairs@[t] == (self.indices@[t], sorted_leaves@[t]),
            decreases n - k2,
        {
            pairs.push((self.indices[k2], M::copy_item(&sorted_leaves[k2])));
            k2 += 1;
        }
        let ghost spec_pairs = Seq::new(
            self.spec_indices().len(),
            |t: int| (self.spec_indices()[t], spec_sorted[t]),
        );
        proof {
            assert(pairs@ =~= spec_pairs);
            lemma_pair_desc_total::<M>();
        }
        let pleq = |a: &(u32, T), b: &(u32, T)| -> (o: bool)
            ensures
                o == pair_desc_order::<M>()(*a, *b),
            {
                if a.0 > b.0 {
                    true
                } else if a.0 == b.0 {
                    M::le(&b.1, &a.1)
                } else {
                    false
                }
            };
        let mut queue = insertion_sort(
            pairs,
            pleq,
            Ghost(|x: (u32, T)| true),
            Ghost(pair_desc_order::<M>()),
        );
        proof {
            spec_pairs.lemma_sort_by_ensures(pair_desc_order::<M>());
            lemma_sorted_unique(queue@, spec_pairs.sort_by(pair_desc_order::<M>()), pair_desc_order::<M>());
        }
        let ghost init_walk = pairs_to_walk::<M>(queue@);
        let ghost lem_all = self.spec_lemmas();
        let ghost goal = proof_root_spec::<M>(self.spec_indices(), self.spec_lemmas(), leaves@);
        proof {
            assert(goal == root_walk::<M>(init_walk, lem_all));
            assert(queue@.subrange(0, queue@.len() as int) =~= queue@);
            assert(lem_all.subrange(0, lem_all.len() as int) =~= lem_all);
        }
        let mut head: usize = 0;
        let mut lem_pos: usize = 0;
        while head < queue.len()
            invariant
                head <= queue@.len(),
                lem_pos <= lem_all.len(),
                lem_all == self.spec_lemmas(),
                lem_all.len() == self.lemmas@.len(),
                goal == proof_root_spec::<M>(self.spec_indices(), self.spec_lemmas(), leaves@),
                goal == root_walk::<M>(
                    pairs_to_walk::<M>(queue@.subrange(head as int, queue@.len() as int)),
                    lem_all.subrange(lem_pos as int, lem_all.len() as int),
                ),
            decreases weight(
                crate::model::indices_of::<T>(
                    pairs_to_walk::<M>(queue@.subrange(head as int, queue@.len() as int)),
                ),
            ),
        {
            let ghost q0 = queue@;
            let ghost h0 = head as int;
            let ghost cur0 = pairs_to_walk::<M>(q0.subrange(h0, q0.len() as int));
            let ghost rem0 = lem_all.subrange(lem_pos as int, lem_all.len() as int);
            let idx = queue[head].0;
            let val = M::copy_item(&queue[head].1);
            head += 1;
            proof {
                assert(cur0[0] == (idx as int, q0[h0].1));
                assert(val == cur0[0].1);
            }
            if idx == 0 {
                if lem_pos == self.lemmas.len() && head == queue.len() {
                    proof {
                        assert(cur0.len() == 1);
                        assert(rem0.len() == 0);
                        assert(goal == Some(val));
                    }
                    return Some(val);
                } else {
                    proof {
                        assert(goal == root_walk::<M>(cur0, rem0));
                        assert(goal is None);
                    }
                    return None;
                }
            }
            let sib: u64 = if idx % 2 == 1 {
                idx as u64 + 1
            } else {
                idx as u64 - 1
            };
            proof {
                assert(sib as int == sibling_spec(idx as int));
            }
            let take_sib = head < queue.len() && queue[head].0 as u64 == sib;
            let sib_val: T;
            if take_sib {
                sib_val = M::copy_item(&queue[head].1);
                head += 1;
            } else {
                if lem_pos == self.lemmas.len() {
                    proof {
                        assert(rem0.len() == 0);
                        assert(!(cur0.len() >= 2 && cur0[1].0 == sibling_spec(idx as int)));
                        assert(goal == root_walk::<M>(cur0, rem0));
                        assert(goal is None);
                    }
                    return None;
                }
                sib_val = M::copy_item(&self.lemmas[lem_pos]);
                lem_pos += 1;
            }
            let combined = if idx % 2 == 1 {
                M::merge(&val, &sib_val)
            } else {
                M::merge(&sib_val, &val)
            };
            let par: u32 = (idx - 1) / 2;
            queue.push((par, combined));
            proof {
                assert(is_left_spec(idx as int) == (idx % 2 == 1));
                assert(combined == combine_at::<M>(idx as int, val, sib_val));
                assert(par as int == parent_spec(idx as int));
                let curn = pairs_to_walk::<M>(queue@.subrange(head as int, queue@.len() as int));
                let ic = crate::model::indices_of::<T>(cur0);
                assert(ic[0] == idx as int);
                lemma_weight_drop_first(ic);
                if take_sib {
                    assert(cur0.len() >= 2 && cur0[1].0 == sibling_spec(idx as int));
                    assert(cur0[1].1 == q0[h0 + 1].1);
                    assert(sib_val == cur0[1].1);
                    assert(curn =~= cur0.subrange(2, cur0.len() as int).push(
                        (par as int, combine_at::<M>(idx as int, val, sib_val)),
                    ));
                    assert(root_walk::<M>(cur0, rem0) == root_walk::<M>(curn, rem0));
                    let sub1 = ic.subrange(1, ic.len() as int);
                    lemma_weight_drop_first(sub1);
                    assert(ic.subrange(2, ic.len() as int) =~= sub1.drop_first());
                    assert(sub1[0] == ic[1]);
                    crate::model::lemma_weight_push(ic.subrange(2, ic.len() as int), par as int);
                    assert(crate::model::indices_of::<T>(curn) =~= ic.subrange(
                        2,
                        ic.len() as int,
                    ).push(par as int));
                    crate::model::lemma_weight_nonneg(crate::model::indices_of::<T>(curn));
                    assert(weight(crate::model::indices_of::<T>(curn)) < weight(ic));
                } else {
                    assert(!(cur0.len() >= 2 && cur0[1].0 == sibling_spec(idx as int)));
                    assert(rem0.len() >= 1);
                    assert(rem0[0] == sib_val);
                    assert(curn =~= cur0.subrange(1, cur0.len() as int).push(
                        (par as int, combine_at::<M>(idx as int, val, sib_val)),
                    ));
                    assert(lem_all.subrange(lem_pos as int, lem_all.len() as int)
                        =~= rem0.drop_first());
                    assert(root_walk::<M>(cur0, rem0) == root_walk::<M>(
                        curn,
                        rem0.drop_first(),
                    ));
                    crate::model::lemma_weight_push(ic.subrange(1, ic.len() as int), par as int);
                    assert(crate::model::indices_of::<T>(curn) =~= ic.subrange(
                        1,
                        ic.len() as int,
                    ).push(par as int));
                    crate::model::lemma_weight_nonneg(crate::model::indices_of::<T>(curn));
                    assert(weight(crate::model::indices_of::<T>(curn)) < weight(ic));
                }
            }
        }
        proof {
            let cur = pairs_to_walk::<M>(queue@.subrange(head as int, queue@.len() as int));
            assert(cur.len() == 0);
            assert(goal is None);
        }
        None
    }

    /// True exactly when root recomputation from `leaves` succeeds and the
    /// result equals `root`.
    pub fn verify(&self, root: &T, leaves: &Vec<T>) -> (r: bool)
        ensures
            r == (proof_root_spec::<M>(self.spec_indices(), self.spec_lemmas(), leaves@) == Some(
                *root,
            )),
    {
        match self.root(leaves) {
            Some(x) => {
                let le1 = M::le(&x, root);
                let le2 = M::le(root, &x);
                proof {
                    M::le_laws(x, *root, x);
                }
                le1 && le2
            },
            None => false,
        }
    }
}

/// The zero-size entry point bundling a node value type with its merge
/// capability.
#[derive(Default)]
pub struct CBMT<T, M> {
    data_type: PhantomData<T>,
    merge: PhantomData<M>,
}

impl<T, M> CBMT<T, M> where M: Merge<Item = T> {
    /// Builds only the root of the tree over `leaves`, with one queue pass
    /// instead of the full node array: consecutive leaf pairs are merged
    /// right to left, an odd leftover leaf goes unmerged to the queue's
    /// front, and the queue is then folded two entries at a time until one
    /// value, the root, remains.
    pub fn build_merkle_root(leaves: &Vec<T>) -> (r: T)
        ensures
            r == merkle_root::<M>(leaves@),
    {
        let len = leaves.len();
        if len == 0 {
            return M::default_value();
        }
        let ghost gk: int = (len - 1) as int / 2;
        let ghost off: int = if len % 2 == 1 {
            1int
        } else {
            0int
        };
        let mut queue: Vec<T> = Vec::new();
        if len % 2 == 1 {
            queue.push(M::copy_item(&leaves[0]));
        }
        let pairs = len / 2;
        let mut j: usize = 0;
        while j < pairs
            invariant
                pairs == len / 2,
                len == leaves@.len(),
                1 <= len,
                off == if len % 2 == 1 {
                    1int
                } else {
                    0int
                },
                j <= pairs,
                queue@.len() == off + j,
                off == 1 ==> queue@[0] == leaves@[0],
                forall|t: int|
                    off <= t < off + j ==> #[trigger] queue@[t] == M::spec_merge(
                        leaves@[len - 2 - 2 * (t - off)],
                        leaves@[len - 1 - 2 * (t - off)],
                    ),
            decreases pairs - j,
        {
            let a = len - 2 - 2 * j;
            queue.push(M::merge(&leaves[a], &leaves[a + 1]));
            j += 1;
        }
        proof {
            assert(queue@.len() == gk + 1);
            assert forall|t: int| 0 <= t <= gk implies #[trigger] queue@[t] == node_value::<M>(
                leaves@,
                2 * gk - t,
            ) by {
                if t < off {
                    assert(len % 2 == 1);
                    assert(2 * gk == len - 1);
                    assert(queue@[t] == leaves@[0]);
                } else {
                    let idx = 2 * gk - t;
                    assert(idx < len - 1);
                    assert(0 <= idx);
                    let lpos = len - 2 - 2 * (t - off);
                    assert(queue@[t] == M::spec_merge(leaves@[lpos], leaves@[lpos + 1]));
                    assert(2 * idx + 1 == len - 1 + lpos);
                    assert(2 * idx + 1 >= len - 1);
                    assert(node_value::<M>(leaves@, 2 * idx + 1) == leaves@[lpos]);
                    assert(node_value::<M>(leaves@, 2 * idx + 2) == leaves@[lpos + 1]);
                }
            }
        }
        let mut head: usize = 0;
        let ghost mut k: int = gk;
        while queue.len() - head > 1
            invariant
                len == leaves@.len(),
                1 <= len,
                0 <= k <= gk,
                gk == (len - 1) as int / 2,
                head + k + 1 == queue@.len(),
                forall|t: int|
                    0 <= t <= k ==> #[trigger] queue@[head + t] == node_value::<M>(
                        leaves@,
                        2 * k - t,
                    ),
            decreases k,
        {
            let ghost q0 = queue@;
            let ghost h0 = head as int;
            let right = M::copy_item(&queue[head]);
            let left = M::copy_item(&queue[head + 1]);
            head += 2;
            queue.push(M::merge(&left, &right));
            proof {
                assert(right == q0[h0 + 0]);
                assert(left == q0[h0 + 1]);
                assert(right == node_value::<M>(leaves@, 2 * k));
                assert(left == node_value::<M>(leaves@, 2 * k - 1));
                assert(0 <= k - 1 < len - 1);
                assert(queue@.last() == M::spec_merge(
                    node_value::<M>(leaves@, 2 * (k - 1) + 1),
                    node_value::<M>(leaves@, 2 * (k - 1) + 2),
                ));
                assert(queue@.last() == node_value::<M>(leaves@, k - 1));
                k = k - 1;
                assert forall|t: int| 0 <= t <= k implies #[trigger] queue@[head + t]
                    == node_value::<M>(leaves@, 2 * k - t) by {
                    if t < k {
                        let t2 = t + 2;
                        assert(q0[h0 + t2] == node_value::<M>(leaves@, 2 * (k + 1) - t2));
                        assert(queue@[head + t] == q0[h0 + t2]);
                    } else {
                        assert(head + t == queue@.len() - 1);
                    }
                }
            }
        }
        M::copy_item(&queue[head])
    }

    /// Builds the full tree over `leaves`: internal positions start at the
    /// neutral value, the leaves fill the tail in order, and each internal
    /// node is then computed as the merge of its two children, in strictly
    /// decreasing index order.
    pub fn build_merkle_tree(leaves: Vec<T>) -> (t: MerkleTree<T, M>)
        ensures
            t@ == tree_nodes::<M>(leaves@),
    {
        let len = leaves.len();
        if len == 0 {
            let t = MerkleTree { nodes: Vec::new(), merge: PhantomData };
            proof {
                assert(t@ =~= tree_nodes::<M>(leaves@));
            }
            return t;
        }
        let mut nodes: Vec<T> = Vec::new();
        let mut k: usize = 0;
        while k < len - 1
            invariant
                k <= len - 1,
                nodes@.len() == k,
            decreases len - 1 - k,
        {
            nodes.push(M::default_value());
            k += 1;
        }
        let mut p: usize = 0;
        while p < len
            invariant
                len == leaves@.len(),
                1 <= len,
                p <= len,
                nodes@.len() == len - 1 + p,
                forall|j: int|
                    len - 1 <= j < len - 1 + p ==> #[trigger] nodes@[j] == leaves@[j - (len - 1)],
            decreases len - p,
        {
            nodes.push(M::copy_item(&leaves[p]));
            p += 1;
        }
        let total = nodes.len();
        let mut i: usize = len - 1;
        proof {
            assert forall|j: int| i <= j < 2 * len - 1 implies #[trigger] nodes@[j]
                == node_value::<M>(leaves@, j) by {
                assert(nodes@[j] == leaves@[j - (len - 1)]);
            }
        }
        while i > 0
            invariant
                len == leaves@.len(),
                1 <= len,
                i <= len - 1,
                nodes@.len() == 2 * len - 1,
                total == nodes@.len(),
                forall|j: int|
                    i <= j < 2 * len - 1 ==> #[trigger] nodes@[j] == node_value::<M>(leaves@, j),
            decreases i,
        {
            i -= 1;
            let v = M::merge(&nodes[2 * i + 1], &nodes[2 * i + 2]);
            nodes.set(i, v);
            proof {
                assert(nodes@[i as int] == M::spec_merge(
                    node_value::<M>(leaves@, 2 * (i as int) + 1),
                    node_value::<M>(leaves@, 2 * (i as int) + 2),
                ));
                assert(nodes@[i as int] == node_value::<M>(leaves@, i as int));
            }
        }
        let t = MerkleTree { nodes, merge: PhantomData };
        proof {
            assert(t@ =~= tree_nodes::<M>(leaves@));
        }
        t
    }

    /// The convenience form of proof building: builds the tree over `leaves`
    /// and a proof for `indices` from it, in one call.
    pub fn build_merkle_proof(leaves: &Vec<T>, indices: &Vec<usize>) -> (r: Option<
        MerkleProof<T, M>,
    >)
        requires
            leaves@.len() <= 0x8000_0000,
        ensures
            match r {
                Some(p) => proof_positions_ok(tree_nodes::<M>(leaves@).len() as int, indices@)
                    && p.spec_indices().map_values(|u: u32| u as int) == built_indices::<M>(
                    tree_nodes::<M>(leaves@),
                    indices@,
                ) && p.spec_lemmas() == built_lemmas::<M>(tree_nodes::<M>(leaves@), indices@),
                None => !proof_positions_ok(tree_nodes::<M>(leaves@).len() as int, indices@),
            },
    {
        let mut lv: Vec<T> = Vec::new();
        let mut k: usize = 0;
        while k < leaves.len()
            invariant
                k <= leaves@.len(),
                lv@.len() == k,
                forall|t: int| 0 <= t < k ==> #[trigger] lv@[t] == leaves@[t],
            decreases leaves@.len() - k,
        {
            lv.push(M::copy_item(&leaves[k]));
            k += 1;
        }
        proof {
            assert(lv@ =~= leaves@);
        }
        let tree = Self::build_merkle_tree(lv);
        tree.build_proof(indices)
    }

    /// Reads back out of the full leaf sequence the leaf values a proof
    /// addresses, in the proof's stored (value-sorted) index order: nothing
    /// when either list is empty or a stored index is outside the leaf range
    /// for this leaf count.
    pub fn retrieve_leaves(leaves: &Vec<T>, proof: &MerkleProof<T, M>) -> (r: Option<Vec<T>>)
        ensures
            match r {
                Some(v) => retrieve_ok(leaves@.len() as int, proof.spec_indices()) && v@
                    == retrieved_leaves::<M>(leaves@, proof.spec_indices()),
                None => !retrieve_ok(leaves@.len() as int, proof.spec_indices()),
            },
    {
        let idxs = proof.indices();
        if leaves.len() == 0 || idxs.len() == 0 {
            return None;
        }
        let lo = leaves.len() - 1;
        let mut out: Vec<T> = Vec::new();
        let mut k: usize = 0;
        while k < idxs.len()
            invariant
                idxs@ == proof.spec_indices(),
                1 <= leaves@.len(),
                lo == leaves@.len() - 1,
                k <= idxs@.len(),
                out@.len() == k,
                forall|t: int|
                    0 <= t < k ==> lo <= (#[trigger] idxs@[t]) as int <= 2 * (lo + 1) - 2,
                forall|t: int| 0 <= t < k ==> #[trigger] out@[t] == leaves@[idxs@[t] - lo],
            decreases idxs@.len() - k,
        {
            let idx = idxs[k] as usize;
            if idx < lo {
                return None;
            }
            let pos = idx - lo;
            if pos >= leaves.len() {
                return None;
            }
            out.push(M::copy_item(&leaves[pos]));
            k += 1;
        }
        proof {
            assert(out@ =~= retrieved_leaves::<M>(leaves@, proof.spec_indices()));
        }
        Some(out)
    }
}

} // verus!
