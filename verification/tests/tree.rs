use miniscript_taproot::tree::{
    branch_hash, build_tree, copy_path, leaf_hash, proof_paths, LeafEntry,
};
use sapio_miniscript::bitcoin::hashes;
use sapio_miniscript::bitcoin::util::taproot::{LeafVersion, TapBranchHash, TapLeafHash};
use sapio_miniscript::bitcoin::Script;

fn reference_leaf_hash(script: &[u8]) -> Vec<u8> {
    let hash = TapLeafHash::from_script(&Script::from(script.to_vec()), LeafVersion::TapScript);
    hashes::Hash::into_inner(hash).to_vec()
}

fn reference_branch_hash(a: &[u8], b: &[u8]) -> Vec<u8> {
    let left: hashes::sha256::Hash = hashes::Hash::from_slice(a).unwrap();
    let right: hashes::sha256::Hash = hashes::Hash::from_slice(b).unwrap();
    hashes::Hash::into_inner(TapBranchHash::from_node_hashes(left, right)).to_vec()
}

fn leaf(weight: u32, script: &[u8]) -> LeafEntry {
    LeafEntry { weight, script: script.to_vec() }
}

fn fold(start: &[u8], path: &[Vec<u8>]) -> Vec<u8> {
    let mut hash = start.to_vec();
    for sibling in path {
        hash = branch_hash(&hash, sibling);
    }
    hash
}

#[test]
fn leaf_hash_agrees_with_the_reference() {
    for script in [&b""[..], &[0x51][..], &[0xac; 300][..], &[7u8; 70000][..]] {
        assert_eq!(leaf_hash(script), reference_leaf_hash(script));
    }
    assert_ne!(leaf_hash(&[0x51]), vec![0x51]);
}

#[test]
fn branch_hash_agrees_with_the_reference() {
    let a = leaf_hash(&[0x51]);
    let b = leaf_hash(&[0x52]);
    assert_eq!(branch_hash(&a, &b), reference_branch_hash(&a, &b));
    assert_eq!(branch_hash(&a, &a), reference_branch_hash(&a, &a));
}

#[test]
fn branch_hash_ignores_the_side() {
    let a = leaf_hash(&[0x51]);
    let b = leaf_hash(&[0x52]);
    assert_eq!(branch_hash(&a, &b), branch_hash(&b, &a));
    assert_ne!(branch_hash(&a, &b), a);
    assert_ne!(branch_hash(&a, &b), b);
}

#[test]
fn tree_without_leaves_has_no_root() {
    assert!(build_tree(&vec![]).is_none());
}

#[test]
fn tree_of_one_leaf_is_the_leaf() {
    let root = build_tree(&vec![leaf(1, &[0x51])]).unwrap();
    assert_eq!(root.hash, leaf_hash(&[0x51]));
    assert_eq!(root.weight, 1);
    assert_eq!(root.members.len(), 1);
    assert_eq!(root.members[0].leaf, 0);
    assert!(root.members[0].path.is_empty());
}

#[test]
fn tree_of_two_leaves_is_their_branch() {
    let a = leaf_hash(&[0x51]);
    let b = leaf_hash(&[0x52]);
    let root = build_tree(&vec![leaf(1, &[0x51]), leaf(1, &[0x52])]).unwrap();
    assert_eq!(root.hash, reference_branch_hash(&a, &b));
    assert_eq!(root.weight, 2);
    assert_eq!(root.members.len(), 2);
    assert_eq!(root.members[0].leaf, 0);
    assert_eq!(root.members[0].path, vec![b.clone()]);
    assert_eq!(root.members[1].leaf, 1);
    assert_eq!(root.members[1].path, vec![a.clone()]);
}

#[test]
fn two_leaves_in_either_order_give_one_root() {
    let one = build_tree(&vec![leaf(1, &[0x51]), leaf(1, &[0x52])]).unwrap();
    let other = build_tree(&vec![leaf(1, &[0x52]), leaf(1, &[0x51])]).unwrap();
    assert_eq!(one.hash, other.hash);
    let light = build_tree(&vec![leaf(9, &[0x51]), leaf(2, &[0x52])]).unwrap();
    assert_eq!(light.hash, one.hash);
    assert_eq!(light.weight, 11);
}

#[test]
fn equal_weights_merge_in_insertion_order() {
    let a = leaf_hash(&[0x51]);
    let b = leaf_hash(&[0x52]);
    let c = leaf_hash(&[0x53]);
    let root = build_tree(&vec![leaf(1, &[0x51]), leaf(1, &[0x52]), leaf(1, &[0x53])]).unwrap();
    let ab = reference_branch_hash(&a, &b);
    assert_eq!(root.hash, reference_branch_hash(&c, &ab));
    assert_eq!(root.weight, 3);
    let order: Vec<usize> = root.members.iter().map(|member| member.leaf).collect();
    assert_eq!(order, vec![2, 0, 1]);
    assert_eq!(root.members[0].path, vec![ab.clone()]);
    assert_eq!(root.members[1].path, vec![b.clone(), c.clone()]);
    assert_eq!(root.members[2].path, vec![a.clone(), c.clone()]);
}

#[test]
fn lighter_leaves_lie_deeper() {
    let s1 = leaf_hash(&[0x51]);
    let s2 = leaf_hash(&[0x52]);
    let s3 = leaf_hash(&[0x53]);
    let root = build_tree(&vec![leaf(3, &[0x51]), leaf(2, &[0x52]), leaf(5, &[0x53])]).unwrap();
    let low = reference_branch_hash(&s2, &s1);
    assert_eq!(root.hash, reference_branch_hash(&s3, &low));
    assert_eq!(root.weight, 10);
    let paths = proof_paths(&root, 3);
    assert_eq!(paths[0], vec![s2.clone(), s3.clone()]);
    assert_eq!(paths[1], vec![s1.clone(), s3.clone()]);
    assert_eq!(paths[2], vec![low.clone()]);
}

#[test]
fn four_equal_leaves_make_a_balanced_tree() {
    let hashes: Vec<Vec<u8>> = (0u8..4).map(|n| leaf_hash(&[0x51 + n])).collect();
    let leaves: Vec<LeafEntry> = (0u8..4).map(|n| leaf(1, &[0x51 + n])).collect();
    let root = build_tree(&leaves).unwrap();
    let left = reference_branch_hash(&hashes[0], &hashes[1]);
    let right = reference_branch_hash(&hashes[2], &hashes[3]);
    assert_eq!(root.hash, reference_branch_hash(&left, &right));
    for member in root.members.iter() {
        assert_eq!(member.path.len(), 2);
    }
}

#[test]
fn every_leaf_lies_in_the_tree_once_and_proves_the_root() {
    let weights = [5u32, 1, 1, 9, 3, 3, 2, 0, 4_000_000_000, 7, 1];
    let leaves: Vec<LeafEntry> =
        weights.iter().enumerate().map(|(at, w)| leaf(*w, &[at as u8, 0xac])).collect();
    let root = build_tree(&leaves).unwrap();
    assert_eq!(root.members.len(), leaves.len());
    let total: u128 = weights.iter().map(|w| *w as u128).sum();
    assert_eq!(root.weight, total);
    let mut seen = vec![0usize; leaves.len()];
    for member in root.members.iter() {
        seen[member.leaf] += 1;
        assert_eq!(fold(&leaf_hash(&leaves[member.leaf].script), &member.path), root.hash);
    }
    assert_eq!(seen, vec![1usize; leaves.len()]);
    let paths = proof_paths(&root, leaves.len());
    assert_eq!(paths.len(), leaves.len());
    for (at, path) in paths.iter().enumerate() {
        assert_eq!(fold(&leaf_hash(&leaves[at].script), path), root.hash);
    }
}

#[test]
fn heavy_leaves_do_not_overflow() {
    let leaves: Vec<LeafEntry> = (0u8..5).map(|n| leaf(u32::MAX, &[n])).collect();
    let root = build_tree(&leaves).unwrap();
    assert_eq!(root.weight, 5 * (u32::MAX as u128));
}

#[test]
fn copy_of_a_path_is_equal() {
    let path = vec![vec![1u8, 2], vec![], vec![3u8]];
    assert_eq!(copy_path(&path), path);
}

#[test]
fn many_equal_leaves_pair_up_in_insertion_order() {
    let count = 37usize;
    let leaves: Vec<LeafEntry> = (0..count).map(|n| leaf(1, &[n as u8, 0x51])).collect();
    let root = build_tree(&leaves).unwrap();
    assert_eq!(root.weight, count as u128);
    let paths = proof_paths(&root, count);
    for pair in 0..count / 2 {
        let left = leaf_hash(&leaves[2 * pair].script);
        let right = leaf_hash(&leaves[2 * pair + 1].script);
        assert_eq!(paths[2 * pair][0], right);
        assert_eq!(paths[2 * pair + 1][0], left);
    }
    for (at, path) in paths.iter().enumerate() {
        assert_eq!(fold(&leaf_hash(&leaves[at].script), path), root.hash);
        assert!(path.len() == 5 || path.len() == 6);
    }
}
