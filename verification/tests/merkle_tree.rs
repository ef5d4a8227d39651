use merkle_cbmt::tree_index::{is_left, parent, sibling};
use merkle_cbmt::{MergeI32, MerkleProof, CBMT};

type CBMTI32 = CBMT<i32, MergeI32>;

#[test]
fn index_arithmetic() {
    assert_eq!(0, sibling(0));
    assert_eq!(2, sibling(1));
    assert_eq!(1, sibling(2));
    assert_eq!(4, sibling(3));
    assert_eq!(3, sibling(4));
    assert_eq!(0, parent(0));
    assert_eq!(0, parent(1));
    assert_eq!(0, parent(2));
    assert_eq!(1, parent(3));
    assert_eq!(1, parent(4));
    assert_eq!(2, parent(5));
    assert!(is_left(1));
    assert!(!is_left(0));
    assert!(!is_left(2));
    assert!(is_left(5));
}

#[test]
fn build_empty() {
    let leaves = vec![];
    let tree = CBMTI32::build_merkle_tree(leaves);
    assert!(tree.nodes().is_empty());
    assert_eq!(tree.root(), i32::default());
}

#[test]
fn build_one() {
    let leaves = vec![1i32];
    let tree = CBMTI32::build_merkle_tree(leaves);
    assert_eq!(&vec![1], tree.nodes());
}

#[test]
fn build_two() {
    let leaves = vec![1i32, 2];
    let tree = CBMTI32::build_merkle_tree(leaves);
    assert_eq!(&vec![1, 1, 2], tree.nodes());
}

#[test]
fn build_five() {
    let leaves = vec![2i32, 3, 5, 7, 11];
    let tree = CBMTI32::build_merkle_tree(leaves);
    assert_eq!(&vec![4, -2, 2, 4, 2, 3, 5, 7, 11], tree.nodes());
}

#[test]
fn build_root_directly() {
    let leaves = vec![2i32, 3, 5, 7, 11];
    assert_eq!(4, CBMTI32::build_merkle_root(&leaves));
}

#[test]
fn build_proof() {
    let leaves = vec![2i32, 3, 5, 7, 11, 13];
    let indices = vec![0, 5];
    let proof_leaves = indices.iter().map(|i| leaves[*i]).collect::<Vec<_>>();
    let proof = CBMTI32::build_merkle_proof(&leaves, &indices).unwrap();

    assert_eq!(&vec![11, 3, 2], proof.lemmas());
    assert_eq!(Some(1), proof.root(&proof_leaves));
}

#[test]
fn root_paths_agree_on_many_lengths() {
    // Both root computations must give the same value for every leaf count.
    for len in 0..40usize {
        let leaves: Vec<i32> = (0..len).map(|i| (i as i32) * 7 - 13).collect();
        let direct = CBMTI32::build_merkle_root(&leaves);
        let tree = CBMTI32::build_merkle_tree(leaves);
        assert_eq!(direct, tree.root());
    }
}

#[test]
fn empty_tree_has_neutral_root_and_no_nodes() {
    let leaves: Vec<i32> = vec![];
    assert_eq!(0, CBMTI32::build_merkle_root(&leaves));
    let tree = CBMTI32::build_merkle_tree(leaves);
    assert_eq!(0, tree.nodes().len());
    assert_eq!(0, tree.root());
}

#[test]
fn round_trip_all_single_positions() {
    let leaves = vec![2i32, 3, 5, 7, 11, 13, 17];
    let root = CBMTI32::build_merkle_root(&leaves);
    for pos in 0..leaves.len() {
        let proof = CBMTI32::build_merkle_proof(&leaves, &vec![pos]).unwrap();
        let subset = vec![leaves[pos]];
        assert_eq!(Some(root), proof.root(&subset));
        assert!(proof.verify(&root, &subset));
    }
}

#[test]
fn round_trip_multi_position_subsets() {
    let leaves = vec![9i32, -4, 0, 25, 11, 3];
    let root = CBMTI32::build_merkle_root(&leaves);
    let subsets: Vec<Vec<usize>> = vec![
        vec![0, 1],
        vec![0, 5],
        vec![1, 2, 3],
        vec![0, 1, 2, 3, 4, 5],
        vec![4, 2],
    ];
    for positions in subsets {
        let proof = CBMTI32::build_merkle_proof(&leaves, &positions).unwrap();
        let subset = CBMTI32::retrieve_leaves(&leaves, &proof).unwrap();
        assert_eq!(Some(root), proof.root(&subset));
        assert!(proof.verify(&root, &subset));
    }
}

#[test]
fn tamper_is_detected() {
    let leaves = vec![2i32, 3, 5, 7, 11, 13];
    let root = CBMTI32::build_merkle_root(&leaves);
    let proof = CBMTI32::build_merkle_proof(&leaves, &vec![0, 5]).unwrap();
    let subset = vec![2i32, 13];
    assert!(proof.verify(&root, &subset));

    // A mutated supplied leaf no longer reaches the root.
    let bad_leaf = vec![3i32, 13];
    assert!(!proof.verify(&root, &bad_leaf));

    // A mutated claimed root is rejected.
    assert!(!proof.verify(&(root + 1), &subset));

    // A mutated lemma no longer reaches the root.
    let mut lemmas = proof.lemmas().clone();
    lemmas[2] = lemmas[2].wrapping_add(1);
    let forged: MerkleProof<i32, MergeI32> = MerkleProof::new(proof.indices().clone(), lemmas);
    assert!(!forged.verify(&root, &subset));
}

#[test]
fn retrieve_leaves_follows_value_sorted_indices() {
    let leaves = vec![2i32, 3, 5, 7, 11, 13];
    let proof = CBMTI32::build_merkle_proof(&leaves, &vec![0, 3]).unwrap();
    let retrieved = CBMTI32::retrieve_leaves(&leaves, &proof).unwrap();
    assert_eq!(vec![2, 7], retrieved);
    let root = CBMTI32::build_merkle_root(&leaves);
    assert_eq!(Some(root), proof.root(&retrieved));
}

#[test]
fn single_leaf_proof_has_no_lemmas() {
    let leaves = vec![42i32];
    let tree = CBMTI32::build_merkle_tree(leaves.clone());
    let proof = tree.build_proof(&vec![0]).unwrap();
    assert!(proof.lemmas().is_empty());
    assert_eq!(Some(42), proof.root(&vec![42]));
    assert!(proof.verify(&42, &vec![42]));
}

#[test]
fn build_proof_rejects_bad_positions() {
    let leaves = vec![1i32, 2, 3];
    // A position past the leaf count gives nothing.
    assert!(CBMTI32::build_merkle_proof(&leaves, &vec![3]).is_none());
    assert!(CBMTI32::build_merkle_proof(&leaves, &vec![0, 7]).is_none());
    // An empty position list gives nothing.
    assert!(CBMTI32::build_merkle_proof(&leaves, &vec![]).is_none());
    // An empty tree gives nothing.
    let empty_tree = CBMTI32::build_merkle_tree(vec![]);
    assert!(empty_tree.build_proof(&vec![0]).is_none());
}

#[test]
fn retrieve_leaves_rejects_bad_indices() {
    let leaves = vec![1i32, 2, 3];
    // An empty index list gives nothing.
    let empty: MerkleProof<i32, MergeI32> = MerkleProof::new(vec![], vec![]);
    assert!(CBMTI32::retrieve_leaves(&leaves, &empty).is_none());
    // An index below the leaf range gives nothing.
    let low: MerkleProof<i32, MergeI32> = MerkleProof::new(vec![1], vec![]);
    assert!(CBMTI32::retrieve_leaves(&leaves, &low).is_none());
    // An index past the leaf range gives nothing.
    let high: MerkleProof<i32, MergeI32> = MerkleProof::new(vec![5], vec![]);
    assert!(CBMTI32::retrieve_leaves(&leaves, &high).is_none());
}

#[test]
fn root_mismatch_fails_verification() {
    let leaves = vec![10i32, 20, 30, 40];
    let root = CBMTI32::build_merkle_root(&leaves);
    let proof = CBMTI32::build_merkle_proof(&leaves, &vec![1, 2]).unwrap();
    let subset = CBMTI32::retrieve_leaves(&leaves, &proof).unwrap();
    assert!(proof.verify(&root, &subset));
    // A wrong subset length gives no root at all.
    assert_eq!(None, proof.root(&vec![20]));
    assert_eq!(None, proof.root(&vec![]));
}

#[test]
fn proof_round_trips_through_raw_parts() {
    let leaves = vec![4i32, 8, 15, 16, 23, 42];
    let root = CBMTI32::build_merkle_root(&leaves);
    let proof = CBMTI32::build_merkle_proof(&leaves, &vec![2, 4]).unwrap();
    let rebuilt: MerkleProof<i32, MergeI32> =
        MerkleProof::new(proof.indices().clone(), proof.lemmas().clone());
    let subset = CBMTI32::retrieve_leaves(&leaves, &rebuilt).unwrap();
    assert_eq!(Some(root), rebuilt.root(&subset));
    assert!(rebuilt.verify(&root, &subset));
}
