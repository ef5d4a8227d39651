//! The laws of the library, stated over the same spec functions the
//! executable contracts use and proved for every input: the two root paths
//! agree, a proof built from a tree verifies back to that tree's root, a
//! single-leaf proof is empty and returns the leaf, and verification pins
//! the root down.

use vstd::arithmetic::div_mod::lemma_div_is_ordered;
use vstd::prelude::*;
use vstd::relations::sorted_by;
use vstd::seq_lib::lemma_sorted_unique;

use crate::merge::Merge;
use crate::model::{
    built_indices, built_lemmas, combine_at, desc_int_order, enqueue_parent, flat_indices,
    index_value_order, le_of, lemma_tree_nodes_wf, lemma_walk_step_weight, merkle_root,
    pair_desc_order, pairs_to_walk, proof_lemmas_walk, proof_root_spec, retrieve_ok,
    retrieved_leaves, root_of, root_walk, tree_nodes, weight, wf_nodes,
};
use crate::sorting::{
    lemma_desc_int_total, lemma_index_value_order_total, lemma_le_of_total,
    lemma_map_values_multiset, lemma_pair_desc_total,
};
use crate::tree_index::{is_left_spec, parent_spec, sibling_spec};

verus! {

/// The two root computations agree on every leaf sequence: the streaming
/// queue fold and the node at flat index 0 of the materialized tree give the
/// same value, and an empty leaf sequence gives the neutral value and a tree
/// with no nodes.
pub proof fn lemma_root_paths_agree<M: Merge>(leaves: Seq<M::Item>)
    ensures
        merkle_root::<M>(leaves) == root_of::<M>(tree_nodes::<M>(leaves)),
        leaves.len() == 0 ==> merkle_root::<M>(leaves) == M::spec_default() && tree_nodes::<M>(
            leaves,
        ).len() == 0,
{
}

/// Verification pins the root: a proof that reconstructs one root value
/// rejects every other claimed root.
pub proof fn lemma_verify_pins_root<M: Merge>(
    indices: Seq<u32>,
    lemmas: Seq<M::Item>,
    leaves: Seq<M::Item>,
    r1: M::Item,
    r2: M::Item,
)
    requires
        proof_root_spec::<M>(indices, lemmas, leaves) == Some(r1),
        r2 != r1,
    ensures
        proof_root_spec::<M>(indices, lemmas, leaves) != Some(r2),
{
}

/// A descending queue of flat indices paired with the node value each
/// addresses: what a verifier holds when it was handed genuine leaves.
pub open spec fn pairs_of<M: Merge>(q: Seq<int>, nodes: Seq<M::Item>) -> Seq<(int, M::Item)> {
    q.map_values(|i: int| (i, nodes[i]))
}

/// The verify walk undoes the build walk: on a well-formed tree, a strictly
/// descending queue of node positions, fed the node values those positions
/// hold and exactly the lemma values the build walk recorded, reaches the
/// root; any extra trailing lemma material makes it fail instead.
pub proof fn lemma_walks_agree<M: Merge>(q: Seq<int>, nodes: Seq<M::Item>, rest: Seq<M::Item>)
    requires
        wf_nodes::<M>(nodes),
        nodes.len() >= 1,
        q.len() >= 1,
        forall|a: int, b: int| 0 <= a < b < q.len() ==> q[b] < q[a],
        (q == seq![0int]) || (forall|k: int| 0 <= k < q.len() ==> 1 <= #[trigger] q[k]
            < nodes.len()),
        q.len() >= 2 ==> parent_spec(q[0]) < q[q.len() - 1],
    ensures
        root_walk::<M>(pairs_of::<M>(q, nodes), proof_lemmas_walk::<M>(q, nodes) + rest) == (
        if rest.len() == 0 {
            Some(nodes[0])
        } else {
            None
        }),
    decreases weight(q),
{
    let n = nodes.len() as int;
    let lw = proof_lemmas_walk::<M>(q, nodes);
    let pq = pairs_of::<M>(q, nodes);
    assert(pq.len() == q.len());
    assert(pq[0] == (q[0], nodes[q[0]]));
    if q == seq![0int] {
        assert(lw =~= Seq::<M::Item>::empty());
        assert(lw + rest =~= rest);
        assert(pq =~= seq![(0int, nodes[0])]);
    } else {
        assert(1 <= q[0] < n);
        let idx = q[0];
        let sib = sibling_spec(idx);
        let par = parent_spec(idx);
        assert(idx % 2 == 1 ==> idx == 2 * par + 1);
        assert(idx % 2 == 0 ==> idx == 2 * par + 2);
        assert(n % 2 == 1);
        lemma_walk_step_weight(q);
        if q.len() >= 2 && q[1] == sib {
            assert(q[1] < idx);
            assert(idx % 2 == 0 && sib == idx - 1);
            assert(par < n / 2);
            assert(nodes[par] == M::spec_merge(nodes[2 * par + 1], nodes[2 * par + 2]));
            let cmb = combine_at::<M>(idx, nodes[idx], nodes[sib]);
            assert(pq[1] == (q[1], nodes[q[1]]));
            assert(cmb == nodes[par]);
            if par == 0 {
                assert(idx == 2 && q[1] == 1);
                assert(q.len() == 2) by {
                    if q.len() >= 3 {
                        assert(q[2] < q[1]);
                    }
                }
                assert(q.subrange(2, 2) =~= Seq::<int>::empty());
                assert(enqueue_parent(q.subrange(2, 2), 0) =~= Seq::<int>::empty());
                assert(proof_lemmas_walk::<M>(Seq::<int>::empty(), nodes) == Seq::<
                    M::Item,
                >::empty());
                assert(lw =~= Seq::<M::Item>::empty());
                assert(lw + rest =~= rest);
                let pq2 = pq.subrange(2, pq.len() as int).push((0int, cmb));
                assert(pq2 =~= seq![(0int, nodes[0])]);
                assert(root_walk::<M>(pq, lw + rest) == root_walk::<M>(pq2, rest));
            } else {
                let qn = q.subrange(2, q.len() as int).push(par);
                assert(enqueue_parent(q.subrange(2, q.len() as int), par) == qn);
                assert(lw == proof_lemmas_walk::<M>(qn, nodes));
                assert(q[q.len() - 1] <= q[1]) by {
                    if q.len() >= 3 {
                        assert(q[q.len() - 1] < q[1]);
                    }
                }
                assert forall|a: int, b: int| 0 <= a < b < qn.len() implies qn[b] < qn[a] by {
                    if b < qn.len() - 1 {
                        assert(q[a + 2] > q[b + 2]);
                    } else {
                        assert(qn[b] == par);
                        if q.len() >= 3 {
                            assert(qn[a] == q[a + 2]);
                            assert(q[a + 2] >= q[q.len() - 1]);
                            assert(par < q[q.len() - 1]);
                        }
                    }
                }
                assert forall|k: int| 0 <= k < qn.len() implies 1 <= #[trigger] qn[k] < n by {
                    if k < qn.len() - 1 {
                        assert(qn[k] == q[k + 2]);
                    }
                }
                if qn.len() >= 2 {
                    assert(qn[0] == q[2]);
                    assert(q[2] < q[1]);
                    assert(q[2] <= 2 * par);
                    lemma_div_is_ordered(q[2] - 1, 2 * par - 1, 2);
                    assert(parent_spec(q[2]) <= (2 * par - 1) / 2);
                    assert((2 * par - 1) / 2 == par - 1);
                    assert(parent_spec(qn[0]) < qn[qn.len() - 1]);
                }
                crate::model::lemma_weight_nonneg(qn);
                lemma_walks_agree::<M>(qn, nodes, rest);
                let pqn = pairs_of::<M>(qn, nodes);
                assert(pqn =~= pq.subrange(2, pq.len() as int).push((par, cmb)));
                assert(root_walk::<M>(pq, lw + rest) == root_walk::<M>(pqn, lw + rest));
            }
        } else {
            assert(lw == seq![nodes[sib]] + proof_lemmas_walk::<M>(
                enqueue_parent(q.subrange(1, q.len() as int), par),
                nodes,
            ));
            assert(0 <= sib < n) by {
                if idx % 2 == 1 {
                    assert(idx != n - 1);
                }
            }
            assert(q.len() >= 2 ==> pq[1].0 != sib) by {
                if q.len() >= 2 {
                    assert(pq[1].0 == q[1]);
                }
            }
            assert((lw + rest)[0] == nodes[sib]);
            assert((lw + rest).len() >= 1);
            let cmb = combine_at::<M>(idx, nodes[idx], nodes[sib]);
            assert(par < n / 2) by {
                if idx % 2 == 1 {
                    assert(idx != n - 1);
                    assert(idx <= n - 2);
                }
            }
            assert(nodes[par] == M::spec_merge(nodes[2 * par + 1], nodes[2 * par + 2]));
            assert(cmb == nodes[par]) by {
                if idx % 2 == 1 {
                    assert(is_left_spec(idx));
                    assert(2 * par + 1 == idx && 2 * par + 2 == sib);
                } else {
                    assert(!is_left_spec(idx));
                    assert(2 * par + 1 == sib && 2 * par + 2 == idx);
                }
            }
            assert((lw + rest).drop_first() =~= proof_lemmas_walk::<M>(
                enqueue_parent(q.subrange(1, q.len() as int), par),
                nodes,
            ) + rest);
            if par == 0 {
                assert(idx == 1 || idx == 2);
                assert(q.len() == 1) by {
                    if q.len() >= 2 {
                        assert(q[1] < idx);
                        assert(1 <= q[1]);
                        assert(idx == 2 && q[1] == 1);
                        assert(q[1] == sib);
                    }
                }
                assert(q.subrange(1, 1) =~= Seq::<int>::empty());
                assert(enqueue_parent(q.subrange(1, 1), 0) =~= Seq::<int>::empty());
                assert(proof_lemmas_walk::<M>(Seq::<int>::empty(), nodes) == Seq::<
                    M::Item,
                >::empty());
                assert(lw =~= seq![nodes[sib]]);
                assert((lw + rest).drop_first() =~= rest);
                let pq2 = pq.subrange(1, pq.len() as int).push((0int, cmb));
                assert(pq2 =~= seq![(0int, nodes[0])]);
                assert(root_walk::<M>(pq, lw + rest) == root_walk::<M>(pq2, rest));
            } else {
                let qn = q.subrange(1, q.len() as int).push(par);
                assert(enqueue_parent(q.subrange(1, q.len() as int), par) == qn);
                if q.len() >= 3 {
                    assert(q[q.len() - 1] < q[1]);
                }
                assert forall|a: int, b: int| 0 <= a < b < qn.len() implies qn[b] < qn[a] by {
                    if b < qn.len() - 1 {
                        assert(q[a + 1] > q[b + 1]);
                    } else {
                        assert(qn[b] == par);
                        if q.len() >= 2 {
                            assert(qn[a] == q[a + 1]);
                            assert(q[a + 1] >= q[q.len() - 1]);
                            assert(par < q[q.len() - 1]);
                        }
                    }
                }
                assert forall|k: int| 0 <= k < qn.len() implies 1 <= #[trigger] qn[k] < n by {
                    if k < qn.len() - 1 {
                        assert(qn[k] == q[k + 1]);
                    }
                }
                if qn.len() >= 2 {
                    assert(qn[0] == q[1]);
                    assert(q[1] <= 2 * par) by {
                        if idx % 2 == 1 {
                            assert(q[1] < idx);
                        } else {
                            assert(q[1] != sib);
                            assert(q[1] < idx);
                        }
                    }
                    lemma_div_is_ordered(q[1] - 1, 2 * par - 1, 2);
                    assert(parent_spec(q[1]) <= (2 * par - 1) / 2);
                    assert((2 * par - 1) / 2 == par - 1);
                    assert(parent_spec(qn[0]) < qn[qn.len() - 1]);
                }
                crate::model::lemma_weight_nonneg(qn);
                lemma_walks_agree::<M>(qn, nodes, rest);
                let pqn = pairs_of::<M>(qn, nodes);
                assert(pqn =~= pq.subrange(1, pq.len() as int).push((par, cmb)));
                assert(root_walk::<M>(pq, lw + rest) == root_walk::<M>(
                    pqn,
                    (lw + rest).drop_first(),
                ));
            }
        }
    }
}

/// A single-leaf tree: its root is the leaf itself, the proof for its one
/// position carries no lemmas, and verification hands the leaf back
/// unchanged as the root.
pub proof fn lemma_single_leaf<M: Merge>(leaf: M::Item)
    ensures
        merkle_root::<M>(seq![leaf]) == leaf,
        built_lemmas::<M>(tree_nodes::<M>(seq![leaf]), seq![0usize]).len() == 0,
        proof_root_spec::<M>(seq![0u32], Seq::<M::Item>::empty(), seq![leaf]) == Some(leaf),
{
    let lv = seq![leaf];
    let nodes = tree_nodes::<M>(lv);
    lemma_tree_nodes_wf::<M>(lv);
    assert(nodes =~= seq![leaf]);
    let fi = flat_indices(1, seq![0usize]);
    assert(fi =~= seq![0int]);
    lemma_desc_int_total();
    fi.lemma_sort_by_ensures(desc_int_order());
    lemma_sorted_unique(fi.sort_by(desc_int_order()), fi, desc_int_order());
    assert(fi.sort_by(desc_int_order()) == fi);
    assert(proof_lemmas_walk::<M>(fi, nodes) == Seq::<M::Item>::empty());
    lemma_le_of_total::<M>();
    lv.lemma_sort_by_ensures(le_of::<M>());
    lemma_sorted_unique(lv.sort_by(le_of::<M>()), lv, le_of::<M>());
    assert(lv.sort_by(le_of::<M>()) == lv);
    let si = seq![0u32];
    let pairs = Seq::new(si.len(), |k: int| (si[k], lv.sort_by(le_of::<M>())[k]));
    assert(pairs =~= seq![(0u32, leaf)]);
    lemma_pair_desc_total::<M>();
    pairs.lemma_sort_by_ensures(pair_desc_order::<M>());
    lemma_sorted_unique(pairs.sort_by(pair_desc_order::<M>()), pairs, pair_desc_order::<M>());
    assert(pairs.sort_by(pair_desc_order::<M>()) == pairs);
    assert(pairs_to_walk::<M>(pairs) =~= seq![(0int, leaf)]);
    assert(root_walk::<M>(seq![(0int, leaf)], Seq::<M::Item>::empty()) == Some(leaf));
}

/// Round trip: a proof built from the tree over `leaves` for a non-empty
/// set of distinct, in-range leaf positions, handed any arrangement of the
/// leaf values it addresses, reconstructs exactly the tree's root.
/// `pindices` is the proof's stored index list and `supplied` the leaf
/// subset given to verification.
pub proof fn lemma_proof_round_trip<M: Merge>(
    leaves: Seq<M::Item>,
    positions: Seq<usize>,
    pindices: Seq<u32>,
    supplied: Seq<M::Item>,
)
    requires
        1 <= leaves.len() <= 0x8000_0000,
        positions.len() >= 1,
        forall|k: int| 0 <= k < positions.len() ==> (#[trigger] positions[k]) < leaves.len(),
        forall|a: int, b: int| 0 <= a < b < positions.len() ==> positions[a] != positions[b],
        pindices.map_values(|u: u32| u as int) == built_indices::<M>(
            tree_nodes::<M>(leaves),
            positions,
        ),
        supplied.to_multiset() == pindices.map_values(
            |u: u32| tree_nodes::<M>(leaves)[u as int],
        ).to_multiset(),
    ensures
        proof_root_spec::<M>(
            pindices,
            built_lemmas::<M>(tree_nodes::<M>(leaves), positions),
            supplied,
        ) == Some(merkle_root::<M>(leaves)),
{
    broadcast use vstd::seq_lib::group_to_multiset_ensures;
    broadcast use vstd::multiset::group_multiset_axioms;

    let nodes = tree_nodes::<M>(leaves);
    let big_l = leaves.len() as int;
    let n = nodes.len() as int;
    lemma_tree_nodes_wf::<M>(leaves);
    assert(n == 2 * big_l - 1);
    let fi = flat_indices(big_l, positions);
    assert(built_indices::<M>(nodes, positions) == fi.sort_by(index_value_order::<M>(nodes)));
    assert forall|k: int| 0 <= k < fi.len() implies big_l - 1 <= #[trigger] fi[k] <= 2 * big_l
        - 2 by {
        assert(positions[k] < big_l);
    }
    assert(fi.no_duplicates()) by {
        assert forall|a: int, b: int|
            0 <= a < b < fi.len() implies #[trigger] fi[a] != #[trigger] fi[b] by {
            assert(positions[a] != positions[b]);
        }
    }
    lemma_desc_int_total();
    fi.lemma_sort_by_ensures(desc_int_order());
    let dd = fi.sort_by(desc_int_order());
    fi.lemma_multiset_has_no_duplicates();
    dd.lemma_multiset_has_no_duplicates_conv();
    assert forall|k: int| 0 <= k < dd.len() implies big_l - 1 <= #[trigger] dd[k] <= 2 * big_l
        - 2 by {
        assert(dd.to_multiset().count(dd[k]) > 0);
        assert(fi.to_multiset().count(dd[k]) > 0);
        assert(fi.contains(dd[k]));
        let j = choose|j: int| 0 <= j < fi.len() && fi[j] == dd[k];
        assert(big_l - 1 <= fi[j] <= 2 * big_l - 2);
    }
    assert forall|a: int, b: int| 0 <= a < b < dd.len() implies dd[b] < dd[a] by {
        assert(desc_int_order()(dd[a], dd[b]));
        assert(dd[a] != dd[b]);
    }
    assert(dd.to_multiset() == fi.to_multiset());
    assert(dd.len() == dd.to_multiset().len());
    assert(fi.len() == fi.to_multiset().len());
    assert(dd.len() == positions.len());
    if big_l == 1 {
        assert(dd.len() == 1) by {
            if dd.len() >= 2 {
                assert(dd[1] < dd[0]);
                assert(dd[0] <= 0 && dd[1] >= 0);
            }
        }
        assert(dd =~= seq![0int]);
    } else {
        assert(forall|k: int| 0 <= k < dd.len() ==> 1 <= #[trigger] dd[k] < n);
    }
    if dd.len() >= 2 {
        assert(dd[0] <= 2 * big_l - 2);
        lemma_div_is_ordered(dd[0] - 1, 2 * big_l - 3, 2);
        assert((2 * big_l - 3) / 2 == big_l - 2);
        assert(parent_spec(dd[0]) < dd[dd.len() - 1]);
    }
    lemma_walks_agree::<M>(dd, nodes, Seq::empty());
    let lw = proof_lemmas_walk::<M>(dd, nodes);
    assert(lw + Seq::<M::Item>::empty() =~= lw);
    assert(root_walk::<M>(pairs_of::<M>(dd, nodes), lw) == Some(nodes[0]));
    let bl = built_lemmas::<M>(nodes, positions);
    assert(bl == lw);
    let bi = built_indices::<M>(nodes, positions);
    lemma_index_value_order_total::<M>(nodes);
    fi.lemma_sort_by_ensures(index_value_order::<M>(nodes));
    assert(pindices.len() == bi.len());
    assert(bi.to_multiset() == fi.to_multiset());
    assert(bi.len() == bi.to_multiset().len());
    assert(bi.len() == positions.len());
    assert(supplied.len() == supplied.to_multiset().len());
    let vm = pindices.map_values(|u: u32| tree_nodes::<M>(leaves)[u as int]);
    assert(vm.len() == pindices.len());
    assert(vm.len() == vm.to_multiset().len());
    assert(supplied.len() == pindices.len());
    assert(supplied.len() >= 1);
    let v = pindices.map_values(|u: u32| nodes[u as int]);
    lemma_le_of_total::<M>();
    assert forall|k: int| 0 <= k < bi.len() implies 0 <= #[trigger] bi[k] < n by {
        assert(bi.to_multiset().count(bi[k]) > 0);
        assert(fi.to_multiset().count(bi[k]) > 0);
        assert(fi.contains(bi[k]));
        let j = choose|j: int| 0 <= j < fi.len() && fi[j] == bi[k];
        assert(big_l - 1 <= fi[j] <= 2 * big_l - 2);
    }
    assert forall|a: int, b: int| 0 <= a < b < v.len() implies #[trigger] le_of::<M>()(
        v[a],
        v[b],
    ) by {
        assert(index_value_order::<M>(nodes)(bi[a], bi[b]));
        assert(pindices[a] as int == bi[a] && pindices[b] as int == bi[b]);
        assert(v[a] == nodes[bi[a]] && v[b] == nodes[bi[b]]);
    }
    assert(sorted_by(v, le_of::<M>()));
    supplied.lemma_sort_by_ensures(le_of::<M>());
    assert(supplied.to_multiset() == v.to_multiset()) by {
        assert(v =~= pindices.map_values(|u: u32| tree_nodes::<M>(leaves)[u as int]));
    }
    lemma_sorted_unique(supplied.sort_by(le_of::<M>()), v, le_of::<M>());
    assert(supplied.sort_by(le_of::<M>()) == v);
    let sorted_leaves = supplied.sort_by(le_of::<M>());
    let pairs = Seq::new(pindices.len(), |k: int| (pindices[k], sorted_leaves[k]));
    let cast32 = |i: int| i as u32;
    let fpair = |u: u32| (u, nodes[u as int]);
    let ddu = dd.map_values(cast32);
    let dpairs = ddu.map_values(fpair);
    assert(pindices =~= bi.map_values(cast32)) by {
        assert forall|k: int| 0 <= k < pindices.len() implies pindices[k] == cast32(bi[k]) by {
            assert(pindices[k] as int == bi[k]);
        }
    }
    assert(bi.to_multiset() == dd.to_multiset());
    lemma_map_values_multiset(bi, dd, cast32);
    assert(pindices.to_multiset() == ddu.to_multiset());
    lemma_map_values_multiset(pindices, ddu, fpair);
    assert(pairs =~= pindices.map_values(fpair)) by {
        assert forall|k: int| 0 <= k < pairs.len() implies pairs[k] == fpair(pindices[k]) by {
            assert(v[k] == nodes[pindices[k] as int]);
        }
    }
    assert(pairs.to_multiset() == dpairs.to_multiset());
    lemma_pair_desc_total::<M>();
    assert forall|a: int, b: int| 0 <= a < b < dpairs.len() implies #[trigger] pair_desc_order::<
        M,
    >()(dpairs[a], dpairs[b]) by {
        assert(dpairs[a].0 == dd[a] as u32 && dpairs[b].0 == dd[b] as u32);
        assert(dd[b] < dd[a]);
        assert(0 <= dd[b] && dd[a] < n <= u32::MAX as int);
    }
    assert(sorted_by(dpairs, pair_desc_order::<M>()));
    pairs.lemma_sort_by_ensures(pair_desc_order::<M>());
    lemma_sorted_unique(pairs.sort_by(pair_desc_order::<M>()), dpairs, pair_desc_order::<M>());
    assert(pairs.sort_by(pair_desc_order::<M>()) == dpairs);
    assert(pairs_to_walk::<M>(dpairs) =~= pairs_of::<M>(dd, nodes)) by {
        assert forall|k: int| 0 <= k < dpairs.len() implies pairs_to_walk::<M>(dpairs)[k]
            == pairs_of::<M>(dd, nodes)[k] by {
            assert(dpairs[k] == fpair(ddu[k]));
            assert(ddu[k] == cast32(dd[k]));
            assert(0 <= dd[k] < n <= u32::MAX as int);
        }
    }
    assert(proof_root_spec::<M>(pindices, bl, supplied) == root_walk::<M>(
        pairs_to_walk::<M>(dpairs),
        bl,
    ));
    assert(merkle_root::<M>(leaves) == nodes[0]);
}

/// Retrieval inverts the index mapping: the stored indices of a proof built
/// from in-range positions all lie in the leaf range, reading them back out
/// of the full leaf sequence gives exactly the node values they address, and
/// that leaf subset reconstructs the tree's root.
pub proof fn lemma_retrieved_leaves_verify<M: Merge>(
    leaves: Seq<M::Item>,
    positions: Seq<usize>,
    pindices: Seq<u32>,
)
    requires
        1 <= leaves.len() <= 0x8000_0000,
        positions.len() >= 1,
        forall|k: int| 0 <= k < positions.len() ==> (#[trigger] positions[k]) < leaves.len(),
        forall|a: int, b: int| 0 <= a < b < positions.len() ==> positions[a] != positions[b],
        pindices.map_values(|u: u32| u as int) == built_indices::<M>(
            tree_nodes::<M>(leaves),
            positions,
        ),
    ensures
        retrieve_ok(leaves.len() as int, pindices),
        retrieved_leaves::<M>(leaves, pindices) == pindices.map_values(
            |u: u32| tree_nodes::<M>(leaves)[u as int],
        ),
        proof_root_spec::<M>(
            pindices,
            built_lemmas::<M>(tree_nodes::<M>(leaves), positions),
            retrieved_leaves::<M>(leaves, pindices),
        ) == Some(merkle_root::<M>(leaves)),
{
    broadcast use vstd::seq_lib::group_to_multiset_ensures;
    broadcast use vstd::multiset::group_multiset_axioms;

    let nodes = tree_nodes::<M>(leaves);
    let big_l = leaves.len() as int;
    lemma_tree_nodes_wf::<M>(leaves);
    let fi = flat_indices(big_l, positions);
    assert forall|k: int| 0 <= k < fi.len() implies big_l - 1 <= #[trigger] fi[k] <= 2 * big_l
        - 2 by {
        assert(positions[k] < big_l);
    }
    lemma_index_value_order_total::<M>(nodes);
    fi.lemma_sort_by_ensures(index_value_order::<M>(nodes));
    let bi = built_indices::<M>(nodes, positions);
    assert(bi.to_multiset() == fi.to_multiset());
    assert(bi.len() == bi.to_multiset().len());
    assert(fi.len() == fi.to_multiset().len());
    assert forall|k: int| 0 <= k < pindices.len() implies big_l - 1 <= (
    #[trigger] pindices[k]) as int <= 2 * big_l - 2 by {
        assert(pindices[k] as int == bi[k]);
        assert(bi.to_multiset().count(bi[k]) > 0);
        assert(fi.to_multiset().count(bi[k]) > 0);
        assert(fi.contains(bi[k]));
        let j = choose|j: int| 0 <= j < fi.len() && fi[j] == bi[k];
        assert(big_l - 1 <= fi[j] <= 2 * big_l - 2);
    }
    assert(retrieve_ok(leaves.len() as int, pindices));
    let rv = retrieved_leaves::<M>(leaves, pindices);
    let vm = pindices.map_values(|u: u32| tree_nodes::<M>(leaves)[u as int]);
    assert(rv =~= vm) by {
        assert forall|k: int| 0 <= k < rv.len() implies rv[k] == vm[k] by {
            let f = pindices[k] as int;
            assert(big_l - 1 <= f <= 2 * big_l - 2);
            assert(nodes[f] == leaves[f - (big_l - 1)]);
        }
    }
    lemma_proof_round_trip::<M>(leaves, positions, pindices, rv);
}

} // verus!
