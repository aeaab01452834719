//! The weighted script tree: leaf and branch hashes, merkle proof paths and
//! the greedy merge that always joins the two lightest nodes.

use crate::bytes::{bytes_lt, compact_size, copy_bytes, lemma_lex_asymmetric, lemma_lex_total, lex_lt, spec_compact_size};
use crate::hash::{spec_tagged_hash, tagged_hash, HASH_LEN};
use crate::heap::{spec_key_le, HeapKey, MinHeap};
use vstd::prelude::*;
use vstd::seq_lib::{to_multiset_build, to_multiset_contains, to_multiset_remove};
use vstd::string::StringSliceAdditionalSpecFns;

verus! {

/// Leaf version of a Tapscript leaf.
pub const TAPSCRIPT_LEAF_VERSION: u8 = 0xc0;

/// Hash of a Tapscript leaf: the tagged hash, under "TapLeaf", of the leaf
/// version, the compact-size length of the script and the script itself.
pub open spec fn spec_leaf_hash(script: Seq<u8>) -> Seq<u8> {
    spec_tagged_hash(
        "TapLeaf".spec_bytes(),
        seq![TAPSCRIPT_LEAF_VERSION] + spec_compact_size(script.len()) + script,
    )
}

/// Hash of a branch: the tagged hash, under "TapBranch", of the two child
/// hashes with the lexicographically smaller one first.
pub open spec fn spec_branch_hash(a: Seq<u8>, b: Seq<u8>) -> Seq<u8> {
    if lex_lt(a, b) {
        spec_tagged_hash("TapBranch".spec_bytes(), a + b)
    } else {
        spec_tagged_hash("TapBranch".spec_bytes(), b + a)
    }
}

/// The hash reached from `start` by hashing it with each sibling of `path`
/// in turn, nearest sibling first.
pub open spec fn spec_fold_path(start: Seq<u8>, path: Seq<Seq<u8>>) -> Seq<u8>
    decreases path.len(),
{
    if path.len() == 0 {
        start
    } else {
        spec_branch_hash(spec_fold_path(start, path.drop_last()), path.last())
    }
}

/// A branch hash does not depend on the side a child is attached to.
pub proof fn lemma_branch_hash_symmetric(a: Seq<u8>, b: Seq<u8>)
    ensures
        spec_branch_hash(a, b) == spec_branch_hash(b, a),
{
    lemma_lex_asymmetric(a, b);
    lemma_lex_total(a, b);
}

/// Computes the hash of a Tapscript leaf.
pub fn leaf_hash(script: &[u8]) -> (digest: Vec<u8>)
    ensures
        digest@ == spec_leaf_hash(script@),
        digest@.len() == HASH_LEN,
{
    let mut buffer: Vec<u8> = Vec::new();
    buffer.push(TAPSCRIPT_LEAF_VERSION);
    let prefix = compact_size(script.len() as u64);
    buffer.extend_from_slice(prefix.as_slice());
    buffer.extend_from_slice(script);
    assert(buffer@ =~= seq![TAPSCRIPT_LEAF_VERSION] + spec_compact_size(script@.len()) + script@);
    tagged_hash("TapLeaf", buffer.as_slice())
}

/// Computes the hash of the branch above two nodes.
pub fn branch_hash(a: &[u8], b: &[u8]) -> (digest: Vec<u8>)
    ensures
        digest@ == spec_branch_hash(a@, b@),
        digest@.len() == HASH_LEN,
{
    let mut buffer: Vec<u8> = Vec::new();
    if bytes_lt(a, b) {
        buffer.extend_from_slice(a);
        buffer.extend_from_slice(b);
        assert(buffer@ =~= a@ + b@);
    } else {
        buffer.extend_from_slice(b);
        buffer.extend_from_slice(a);
        assert(buffer@ =~= b@ + a@);
    }
    tagged_hash("TapBranch", buffer.as_slice())
}

/// A script with the weight that biases its place in the tree.
#[derive(Debug)]
pub struct LeafEntry {
    pub weight: u32,
    pub script: Vec<u8>,
}

/// What a leaf entry stands for.
pub struct LeafView {
    pub weight: u32,
    pub script: Seq<u8>,
}

impl View for LeafEntry {
    type V = LeafView;

    open spec fn view(&self) -> LeafView {
        LeafView { weight: self.weight, script: self.script@ }
    }
}

/// The leaves a vector of entries stands for.
pub open spec fn spec_leaves(leaves: Seq<LeafEntry>) -> Seq<LeafView> {
    leaves.map_values(|leaf: LeafEntry| leaf@)
}

/// One leaf below a node: its position in the input and its proof path up to
/// that node, nearest sibling first.
#[derive(Debug)]
pub struct Member {
    pub leaf: usize,
    pub path: Vec<Vec<u8>>,
}

/// What a member stands for.
pub struct MemberView {
    pub leaf: int,
    pub path: Seq<Seq<u8>>,
}

/// The hashes a vector of hashes stands for.
pub open spec fn spec_path(path: Seq<Vec<u8>>) -> Seq<Seq<u8>> {
    path.map_values(|hash: Vec<u8>| hash@)
}

impl View for Member {
    type V = MemberView;

    open spec fn view(&self) -> MemberView {
        MemberView { leaf: self.leaf as int, path: spec_path(self.path@) }
    }
}

/// The members a vector of members stands for.
pub open spec fn spec_members(members: Seq<Member>) -> Seq<MemberView> {
    members.map_values(|member: Member| member@)
}

/// A subtree: its weight, its hash and the leaves below it.
#[derive(Debug)]
pub struct Node {
    pub weight: u128,
    pub hash: Vec<u8>,
    pub members: Vec<Member>,
}

/// What a node stands for.
pub struct NodeView {
    pub weight: int,
    pub hash: Seq<u8>,
    pub members: Seq<MemberView>,
}

impl View for Node {
    type V = NodeView;

    open spec fn view(&self) -> NodeView {
        NodeView {
            weight: self.weight as int,
            hash: self.hash@,
            members: spec_members(self.members@),
        }
    }
}

/// The one-leaf tree of the leaf at position `index`.
pub open spec fn spec_leaf_node(index: int, leaf: LeafView) -> NodeView {
    NodeView {
        weight: leaf.weight as int,
        hash: spec_leaf_hash(leaf.script),
        members: seq![MemberView { leaf: index, path: Seq::empty() }],
    }
}

/// The forest the merge starts from: one tree per leaf, in input order.
pub open spec fn spec_initial_forest(leaves: Seq<LeafView>) -> Seq<NodeView> {
    Seq::new(leaves.len(), |index: int| spec_leaf_node(index, leaves[index]))
}

/// Position of the lightest node; of several equally light ones, the first.
pub open spec fn spec_first_min(forest: Seq<NodeView>) -> int
    decreases forest.len(),
{
    if forest.len() <= 1 {
        0
    } else {
        let before = spec_first_min(forest.drop_last());
        if forest.last().weight < forest[before].weight {
            forest.len() - 1
        } else {
            before
        }
    }
}

/// The members of a node once `sibling` has become its hashing partner.
pub open spec fn spec_extend(members: Seq<MemberView>, sibling: Seq<u8>) -> Seq<MemberView> {
    members.map_values(|member: MemberView| MemberView { leaf: member.leaf, path: member.path.push(sibling) })
}

/// The parent of two nodes.
pub open spec fn spec_combine(a: NodeView, b: NodeView) -> NodeView {
    NodeView {
        weight: a.weight + b.weight,
        hash: spec_branch_hash(a.hash, b.hash),
        members: spec_extend(a.members, b.hash) + spec_extend(b.members, a.hash),
    }
}

/// One merge: the lightest node and the lightest of the rest leave the
/// forest, and their parent joins it at the end.
pub open spec fn spec_merge_step(forest: Seq<NodeView>) -> Seq<NodeView>
    recommends
        forest.len() >= 2,
{
    let first = spec_first_min(forest);
    let rest = forest.remove(first);
    let second = spec_first_min(rest);
    rest.remove(second).push(spec_combine(forest[first], rest[second]))
}

/// The forest after merging until at most one node is left.
pub open spec fn spec_merge_all(forest: Seq<NodeView>) -> Seq<NodeView>
    decreases forest.len(),
{
    if forest.len() < 2 {
        forest
    } else {
        proof {
            lemma_merge_step_len(forest);
        }
        spec_merge_all(spec_merge_step(forest))
    }
}

/// The root of the tree over `leaves`: none without leaves, else the one
/// node that the merge leaves.
pub open spec fn spec_huffman_root(leaves: Seq<LeafView>) -> Option<NodeView> {
    if leaves.len() == 0 {
        None
    } else {
        Some(spec_merge_all(spec_initial_forest(leaves))[0])
    }
}

/// The position of the lightest node lies in the forest, no node is lighter
/// than the one there, and every node before it is heavier.
pub proof fn lemma_first_min(forest: Seq<NodeView>)
    requires
        forest.len() > 0,
    ensures
        0 <= spec_first_min(forest) < forest.len(),
        forall|k: int|
            0 <= k < forest.len() ==> forest[spec_first_min(forest)].weight <= (#[trigger] forest[k]).weight,
        forall|k: int|
            0 <= k < spec_first_min(forest) ==> forest[spec_first_min(forest)].weight < (#[trigger] forest[k]).weight,
    decreases forest.len(),
{
    if forest.len() > 1 {
        let front = forest.drop_last();
        lemma_first_min(front);
        assert(forall|k: int| 0 <= k < front.len() ==> front[k] == forest[k]);
    }
}

/// A merge shortens a forest of two or more nodes by one.
pub proof fn lemma_merge_step_len(forest: Seq<NodeView>)
    requires
        forest.len() >= 2,
    ensures
        spec_merge_step(forest).len() == forest.len() - 1,
{
    lemma_first_min(forest);
    lemma_first_min(forest.remove(spec_first_min(forest)));
}

/// Sum of `measure` over the nodes of a forest.
pub open spec fn spec_sum(forest: Seq<NodeView>, measure: spec_fn(NodeView) -> int) -> int
    decreases forest.len(),
{
    if forest.len() == 0 {
        0
    } else {
        spec_sum(forest.drop_last(), measure) + measure(forest.last())
    }
}

/// How often the leaf at position `leaf` occurs among `members`.
pub open spec fn spec_occurrences(members: Seq<MemberView>, leaf: int) -> int
    decreases members.len(),
{
    if members.len() == 0 {
        0
    } else {
        spec_occurrences(members.drop_last(), leaf) + if members.last().leaf == leaf {
            1int
        } else {
            0int
        }
    }
}

/// Measures a node by the number of leaves below it.
pub open spec fn size_measure() -> spec_fn(NodeView) -> int {
    |node: NodeView| node.members.len() as int
}

/// Measures a node by how often the leaf at position `leaf` lies below it.
pub open spec fn occurrence_measure(leaf: int) -> spec_fn(NodeView) -> int {
    |node: NodeView| spec_occurrences(node.members, leaf)
}

/// A member names a leaf of the input, and its path leads from that leaf's
/// hash to `hash`.
pub open spec fn spec_member_ok(leaves: Seq<LeafView>, hash: Seq<u8>, member: MemberView) -> bool {
    &&& 0 <= member.leaf < leaves.len()
    &&& spec_fold_path(spec_leaf_hash(leaves[member.leaf].script), member.path) == hash
}

/// A node is no heavier than its leaves allow, and the path of each of its
/// members leads to its hash.
pub open spec fn spec_node_ok(leaves: Seq<LeafView>, node: NodeView) -> bool {
    &&& 0 <= node.weight <= node.members.len() * 0xffff_ffff
    &&& forall|k: int|
        0 <= k < node.members.len() ==> spec_member_ok(leaves, node.hash, #[trigger] node.members[k])
}

/// Every node of the forest is sound, and every leaf of the input lies below
/// exactly one node, exactly once.
pub open spec fn spec_forest_ok(leaves: Seq<LeafView>, forest: Seq<NodeView>) -> bool {
    &&& forall|k: int| 0 <= k < forest.len() ==> spec_node_ok(leaves, #[trigger] forest[k])
    &&& spec_sum(forest, size_measure()) == leaves.len()
    &&& forall|leaf: int|
        0 <= leaf < leaves.len() ==> #[trigger] spec_sum(forest, occurrence_measure(leaf)) == 1
}

proof fn lemma_sum_push(forest: Seq<NodeView>, node: NodeView, measure: spec_fn(NodeView) -> int)
    ensures
        spec_sum(forest.push(node), measure) == spec_sum(forest, measure) + measure(node),
{
    assert(forest.push(node).drop_last() =~= forest);
}

proof fn lemma_sum_remove(forest: Seq<NodeView>, at: int, measure: spec_fn(NodeView) -> int)
    requires
        0 <= at < forest.len(),
    ensures
        spec_sum(forest.remove(at), measure) == spec_sum(forest, measure) - measure(forest[at]),
    decreases forest.len(),
{
    if at == forest.len() - 1 {
        assert(forest.remove(at) =~= forest.drop_last());
    } else {
        lemma_sum_remove(forest.drop_last(), at, measure);
        assert(forest.remove(at).drop_last() =~= forest.drop_last().remove(at));
        assert(forest.remove(at).last() == forest.last());
    }
}

proof fn lemma_sum_sizes_nonnegative(forest: Seq<NodeView>)
    ensures
        spec_sum(forest, size_measure()) >= 0,
    decreases forest.len(),
{
    if forest.len() > 0 {
        lemma_sum_sizes_nonnegative(forest.drop_last());
    }
}

proof fn lemma_occurrences_add(a: Seq<MemberView>, b: Seq<MemberView>, leaf: int)
    ensures
        spec_occurrences(a + b, leaf) == spec_occurrences(a, leaf) + spec_occurrences(b, leaf),
    decreases b.len(),
{
    if b.len() == 0 {
        assert(a + b =~= a);
    } else {
        lemma_occurrences_add(a, b.drop_last(), leaf);
        assert((a + b).drop_last() =~= a + b.drop_last());
    }
}

proof fn lemma_occurrences_extend(members: Seq<MemberView>, sibling: Seq<u8>, leaf: int)
    ensures
        spec_occurrences(spec_extend(members, sibling), leaf) == spec_occurrences(members, leaf),
    decreases members.len(),
{
    if members.len() > 0 {
        lemma_occurrences_extend(members.drop_last(), sibling, leaf);
        assert(spec_extend(members, sibling).drop_last() =~= spec_extend(
            members.drop_last(),
            sibling,
        ));
    }
}

proof fn lemma_fold_push(start: Seq<u8>, path: Seq<Seq<u8>>, sibling: Seq<u8>)
    ensures
        spec_fold_path(start, path.push(sibling)) == spec_branch_hash(
            spec_fold_path(start, path),
            sibling,
        ),
{
    assert(path.push(sibling).drop_last() =~= path);
}

proof fn lemma_combine_ok(leaves: Seq<LeafView>, a: NodeView, b: NodeView)
    requires
        spec_node_ok(leaves, a),
        spec_node_ok(leaves, b),
    ensures
        spec_node_ok(leaves, spec_combine(a, b)),
{
    let parent = spec_combine(a, b);
    lemma_branch_hash_symmetric(a.hash, b.hash);
    assert forall|k: int| 0 <= k < parent.members.len() implies spec_member_ok(
        leaves,
        parent.hash,
        #[trigger] parent.members[k],
    ) by {
        if k < a.members.len() {
            let member = a.members[k];
            assert(spec_member_ok(leaves, a.hash, member));
            lemma_fold_push(spec_leaf_hash(leaves[member.leaf].script), member.path, b.hash);
        } else {
            let member = b.members[k - a.members.len()];
            assert(spec_member_ok(leaves, b.hash, member));
            lemma_fold_push(spec_leaf_hash(leaves[member.leaf].script), member.path, a.hash);
        }
    }
}

proof fn lemma_initial_prefix(leaves: Seq<LeafView>, count: int, leaf: int)
    requires
        0 <= count <= leaves.len(),
    ensures
        spec_sum(spec_initial_forest(leaves).take(count), size_measure()) == count,
        spec_sum(spec_initial_forest(leaves).take(count), occurrence_measure(leaf)) == if 0 <= leaf
            < count {
            1int
        } else {
            0int
        },
    decreases count,
{
    if count > 0 {
        lemma_initial_prefix(leaves, count - 1, leaf);
        let forest = spec_initial_forest(leaves);
        assert(forest.take(count).drop_last() =~= forest.take(count - 1));
        let members = forest.take(count).last().members;
        assert(members.drop_last() =~= Seq::<MemberView>::empty());
        assert(spec_occurrences(members.drop_last(), leaf) == 0);
    }
}

/// The forest of single leaves is sound.
pub proof fn lemma_initial_forest_ok(leaves: Seq<LeafView>)
    ensures
        spec_forest_ok(leaves, spec_initial_forest(leaves)),
{
    let forest = spec_initial_forest(leaves);
    assert(forest.take(forest.len() as int) =~= forest);
    lemma_initial_prefix(leaves, leaves.len() as int, 0);
    assert forall|leaf: int| 0 <= leaf < leaves.len() implies #[trigger] spec_sum(
        forest,
        occurrence_measure(leaf),
    ) == 1 by {
        lemma_initial_prefix(leaves, leaves.len() as int, leaf);
    }
    assert forall|k: int| 0 <= k < forest.len() implies spec_node_ok(leaves, #[trigger] forest[k]) by {
        assert(spec_member_ok(leaves, forest[k].hash, forest[k].members[0]));
    }
}

/// A merge keeps a sound forest sound.
pub proof fn lemma_merge_step_ok(leaves: Seq<LeafView>, forest: Seq<NodeView>)
    requires
        forest.len() >= 2,
        spec_forest_ok(leaves, forest),
    ensures
        spec_forest_ok(leaves, spec_merge_step(forest)),
        spec_merge_step(forest).len() == forest.len() - 1,
{
    let first = spec_first_min(forest);
    lemma_first_min(forest);
    let rest = forest.remove(first);
    let second = spec_first_min(rest);
    lemma_first_min(rest);
    let a = forest[first];
    let b = rest[second];
    let kept = rest.remove(second);
    let parent = spec_combine(a, b);
    let merged = kept.push(parent);
    assert(forall|k: int| 0 <= k < rest.len() ==> rest[k] == forest[if k < first { k } else { k + 1 }]);
    assert(forall|k: int| 0 <= k < kept.len() ==> kept[k] == rest[if k < second { k } else { k + 1 }]);
    lemma_combine_ok(leaves, a, b);
    lemma_sum_remove(forest, first, size_measure());
    lemma_sum_remove(rest, second, size_measure());
    lemma_sum_push(kept, parent, size_measure());
    assert forall|leaf: int| 0 <= leaf < leaves.len() implies #[trigger] spec_sum(
        merged,
        occurrence_measure(leaf),
    ) == 1 by {
        lemma_sum_remove(forest, first, occurrence_measure(leaf));
        lemma_sum_remove(rest, second, occurrence_measure(leaf));
        lemma_sum_push(kept, parent, occurrence_measure(leaf));
        lemma_occurrences_add(spec_extend(a.members, b.hash), spec_extend(b.members, a.hash), leaf);
        lemma_occurrences_extend(a.members, b.hash, leaf);
        lemma_occurrences_extend(b.members, a.hash, leaf);
    }
}

/// Merging a sound forest to the end leaves one sound node.
pub proof fn lemma_merge_all_ok(leaves: Seq<LeafView>, forest: Seq<NodeView>)
    requires
        forest.len() >= 1,
        spec_forest_ok(leaves, forest),
    ensures
        spec_merge_all(forest).len() == 1,
        spec_forest_ok(leaves, spec_merge_all(forest)),
    decreases forest.len(),
{
    if forest.len() >= 2 {
        lemma_merge_step_ok(leaves, forest);
        lemma_merge_all_ok(leaves, spec_merge_step(forest));
    }
}

/// In the tree over a non-empty input every leaf lies exactly once, and the
/// proof path of each leaf leads from the hash of its script to the root.
pub proof fn lemma_root_holds_every_leaf_once(leaves: Seq<LeafView>)
    requires
        leaves.len() > 0,
    ensures
        spec_huffman_root(leaves) is Some,
        spec_huffman_root(leaves)->0.members.len() == leaves.len(),
        forall|leaf: int|
            0 <= leaf < leaves.len() ==> #[trigger] spec_occurrences(
                spec_huffman_root(leaves)->0.members,
                leaf,
            ) == 1,
        forall|k: int|
            0 <= k < leaves.len() ==> spec_member_ok(
                leaves,
                spec_huffman_root(leaves)->0.hash,
                #[trigger] spec_huffman_root(leaves)->0.members[k],
            ),
{
    let forest = spec_initial_forest(leaves);
    lemma_initial_forest_ok(leaves);
    lemma_merge_all_ok(leaves, forest);
    let last = spec_merge_all(forest);
    let root = last[0];
    assert(last.drop_last() =~= Seq::<NodeView>::empty());
    assert(spec_sum(last.drop_last(), size_measure()) == 0);
    assert(spec_sum(last, size_measure()) == root.members.len());
    assert forall|leaf: int| 0 <= leaf < leaves.len() implies #[trigger] spec_occurrences(
        root.members,
        leaf,
    ) == 1 by {
        assert(spec_sum(last.drop_last(), occurrence_measure(leaf)) == 0);
        assert(spec_sum(last, occurrence_measure(leaf)) == 1);
    }
    assert(spec_node_ok(leaves, root));
}

/// The root over a single leaf is that leaf's hash, with an empty proof path.
pub proof fn lemma_single_leaf_root(leaf: LeafView)
    ensures
        spec_huffman_root(seq![leaf]) == Some(spec_leaf_node(0, leaf)),
        spec_huffman_root(seq![leaf])->0.hash == spec_leaf_hash(leaf.script),
{
}

/// The root over two leaves is the branch hash of their two hashes.
pub proof fn lemma_two_leaf_root(a: LeafView, b: LeafView)
    ensures
        spec_huffman_root(seq![a, b]) is Some,
        spec_huffman_root(seq![a, b])->0.hash == spec_branch_hash(
            spec_leaf_hash(a.script),
            spec_leaf_hash(b.script),
        ),
{
    let forest = spec_initial_forest(seq![a, b]);
    lemma_first_min(forest);
    let first = spec_first_min(forest);
    let rest = forest.remove(first);
    lemma_first_min(rest);
    lemma_merge_step_len(forest);
    lemma_branch_hash_symmetric(spec_leaf_hash(a.script), spec_leaf_hash(b.script));
    assert(spec_merge_all(forest) == spec_merge_all(spec_merge_step(forest)));
}

/// Swapping the two leaves of a two-leaf input leaves the root hash as it is.
pub proof fn lemma_two_leaf_swap(a: LeafView, b: LeafView)
    ensures
        spec_huffman_root(seq![a, b])->0.hash == spec_huffman_root(seq![b, a])->0.hash,
{
    lemma_two_leaf_root(a, b);
    lemma_two_leaf_root(b, a);
    lemma_branch_hash_symmetric(spec_leaf_hash(a.script), spec_leaf_hash(b.script));
}

proof fn lemma_path_push(path: Seq<Vec<u8>>, hash: Vec<u8>)
    ensures
        spec_path(path.push(hash)) == spec_path(path).push(hash@),
{
    assert(spec_path(path.push(hash)) =~= spec_path(path).push(hash@));
}

proof fn lemma_members_push(members: Seq<Member>, member: Member)
    ensures
        spec_members(members.push(member)) == spec_members(members).push(member@),
{
    assert(spec_members(members.push(member)) =~= spec_members(members).push(member@));
}

/// Copies a proof path and appends `sibling` to it.
fn extended_path(path: &Vec<Vec<u8>>, sibling: &Vec<u8>) -> (longer: Vec<Vec<u8>>)
    ensures
        spec_path(longer@) == spec_path(path@).push(sibling@),
{
    let mut longer: Vec<Vec<u8>> = Vec::new();
    let mut next: usize = 0;
    while next < path.len()
        invariant
            next <= path.len(),
            spec_path(longer@) == spec_path(path@).take(next as int),
        decreases path.len() - next,
    {
        let hash = copy_bytes(path[next].as_slice());
        proof {
            lemma_path_push(longer@, hash);
        }
        longer.push(hash);
        assert(spec_path(longer@) =~= spec_path(path@).take(next as int + 1));
        next += 1;
    }
    let last = copy_bytes(sibling.as_slice());
    proof {
        lemma_path_push(longer@, last);
        assert(spec_path(path@).take(next as int) =~= spec_path(path@));
    }
    longer.push(last);
    longer
}

/// Appends to `out` the members of a node whose hashing partner is `sibling`.
fn extend_members(out: &mut Vec<Member>, members: &Vec<Member>, sibling: &Vec<u8>)
    ensures
        spec_members(final(out)@) == spec_members(old(out)@) + spec_extend(
            spec_members(members@),
            sibling@,
        ),
{
    let mut next: usize = 0;
    assert(spec_members(out@) =~= spec_members(old(out)@) + spec_extend(
        spec_members(members@),
        sibling@,
    ).take(0));
    while next < members.len()
        invariant
            next <= members.len(),
            spec_members(out@) == spec_members(old(out)@) + spec_extend(
                spec_members(members@),
                sibling@,
            ).take(next as int),
        decreases members.len() - next,
    {
        let member = &members[next];
        let longer = Member { leaf: member.leaf, path: extended_path(&member.path, sibling) };
        proof {
            lemma_members_push(out@, longer);
        }
        out.push(longer);
        assert(spec_members(out@) =~= spec_members(old(out)@) + spec_extend(
            spec_members(members@),
            sibling@,
        ).take(next as int + 1));
        next += 1;
    }
    assert(spec_extend(spec_members(members@), sibling@).take(next as int) =~= spec_extend(
        spec_members(members@),
        sibling@,
    ));
}

/// Builds the parent of two nodes.
fn combine(a: &Node, b: &Node) -> (parent: Node)
    requires
        a.weight + b.weight <= u128::MAX,
    ensures
        parent@ == spec_combine(a@, b@),
{
    let mut members: Vec<Member> = Vec::new();
    extend_members(&mut members, &a.members, &b.hash);
    extend_members(&mut members, &b.members, &a.hash);
    assert(spec_members(members@) =~= spec_extend(a@.members, b@.hash) + spec_extend(
        b@.members,
        a@.hash,
    ));
    Node {
        weight: a.weight + b.weight,
        hash: branch_hash(a.hash.as_slice(), b.hash.as_slice()),
        members,
    }
}

/// Builds the one-leaf tree of the leaf at position `index`.
fn leaf_node(index: usize, leaf: &LeafEntry) -> (node: Node)
    ensures
        node@ == spec_leaf_node(index as int, leaf@),
{
    let mut members: Vec<Member> = Vec::new();
    let member = Member { leaf: index, path: Vec::new() };
    proof {
        assert(spec_path(member.path@) =~= Seq::<Seq<u8>>::empty());
        lemma_members_push(members@, member);
    }
    members.push(member);
    let node = Node { weight: leaf.weight as u128, hash: leaf_hash(leaf.script.as_slice()), members };
    assert(node@.members =~= spec_leaf_node(index as int, leaf@).members);
    node
}

/// The nodes at the positions `alive` of an arena of nodes.
pub open spec fn spec_alive_forest(arena: Seq<Node>, alive: Seq<int>) -> Seq<NodeView> {
    alive.map_values(|at: int| arena[at]@)
}

/// The heap keys of the nodes at the positions `alive` of an arena: the
/// weight of the node, and its position as its age.
pub open spec fn spec_alive_keys(arena: Seq<Node>, alive: Seq<int>) -> Seq<HeapKey> {
    alive.map_values(|at: int| HeapKey { weight: arena[at].weight, age: at as usize })
}

/// The positions lie in the arena and increase.
pub open spec fn spec_alive_ok(arena_len: int, alive: Seq<int>) -> bool {
    &&& arena_len <= usize::MAX
    &&& forall|k: int| 0 <= k < alive.len() ==> 0 <= #[trigger] alive[k] < arena_len
    &&& forall|j: int, k: int| 0 <= j < k < alive.len() ==> #[trigger] alive[j] < #[trigger] alive[k]
}

/// The least key of the heap is the key of the lightest node of the forest,
/// and of several equally light ones the first.
proof fn lemma_least_key_is_first_min(arena: Seq<Node>, alive: Seq<int>, least: HeapKey)
    requires
        spec_alive_ok(arena.len() as int, alive),
        spec_alive_keys(arena, alive).to_multiset().count(least) > 0,
        forall|key: HeapKey|
            spec_alive_keys(arena, alive).to_multiset().count(key) > 0 ==> spec_key_le(least, key),
    ensures
        0 <= spec_first_min(spec_alive_forest(arena, alive)) < alive.len(),
        alive[spec_first_min(spec_alive_forest(arena, alive))] == least.age,
        spec_alive_keys(arena, alive.remove(spec_first_min(spec_alive_forest(arena, alive)))).to_multiset()
            == spec_alive_keys(arena, alive).to_multiset().remove(least),
{
    let keys = spec_alive_keys(arena, alive);
    let forest = spec_alive_forest(arena, alive);
    to_multiset_contains(keys, least);
    let at = choose|at: int| 0 <= at < keys.len() && keys[at] == least;
    assert forall|k: int| 0 <= k < forest.len() implies spec_key_le(least, keys[k]) by {
        to_multiset_contains(keys, keys[k]);
    }
    assert forall|k: int| 0 <= k < forest.len() implies forest[at].weight <= (
    #[trigger] forest[k]).weight by {
        assert(spec_key_le(least, keys[k]));
    }
    assert forall|k: int| 0 <= k < at implies forest[at].weight < (#[trigger] forest[k]).weight by {
        assert(spec_key_le(least, keys[k]));
        assert(alive[k] < alive[at]);
    }
    lemma_first_min_unique(forest, at);
    assert(spec_alive_keys(arena, alive.remove(at)) =~= keys.remove(at));
    to_multiset_remove(keys, at);
}

proof fn lemma_alive_remove(arena: Seq<Node>, alive: Seq<int>, at: int)
    requires
        spec_alive_ok(arena.len() as int, alive),
        0 <= at < alive.len(),
    ensures
        spec_alive_ok(arena.len() as int, alive.remove(at)),
        spec_alive_forest(arena, alive.remove(at)) == spec_alive_forest(arena, alive).remove(at),
{
    let fewer = alive.remove(at);
    assert(forall|k: int| 0 <= k < fewer.len() ==> fewer[k] == alive[if k < at { k } else { k + 1 }]);
    assert(spec_alive_forest(arena, fewer) =~= spec_alive_forest(arena, alive).remove(at));
}

proof fn lemma_alive_push(arena: Seq<Node>, alive: Seq<int>, node: Node)
    requires
        spec_alive_ok(arena.len() as int, alive),
        arena.len() < usize::MAX,
    ensures
        spec_alive_ok(arena.len() as int + 1, alive.push(arena.len() as int)),
        spec_alive_forest(arena.push(node), alive.push(arena.len() as int)) == spec_alive_forest(
            arena,
            alive,
        ).push(node@),
        spec_alive_keys(arena.push(node), alive.push(arena.len() as int)).to_multiset()
            == spec_alive_keys(arena, alive).to_multiset().insert(
            HeapKey { weight: node.weight, age: arena.len() as usize },
        ),
{
    let position = arena.len() as int;
    let key = HeapKey { weight: node.weight, age: position as usize };
    assert(spec_alive_forest(arena.push(node), alive.push(position)) =~= spec_alive_forest(
        arena,
        alive,
    ).push(node@));
    assert(spec_alive_keys(arena.push(node), alive.push(position)) =~= spec_alive_keys(
        arena,
        alive,
    ).push(key));
    to_multiset_build(spec_alive_keys(arena, alive), key);
}

/// The two nodes that a merge joins have, together, no more leaves below
/// them than the input has, and no more weight than those leaves allow.
proof fn lemma_merge_weight(leaves: Seq<LeafView>, forest: Seq<NodeView>)
    requires
        forest.len() >= 2,
        spec_forest_ok(leaves, forest),
    ensures
        0 <= forest[spec_first_min(forest)].weight + forest.remove(spec_first_min(forest))[spec_first_min(
            forest.remove(spec_first_min(forest)),
        )].weight <= leaves.len() * 0xffff_ffff,
{
    let first = spec_first_min(forest);
    lemma_first_min(forest);
    let rest = forest.remove(first);
    lemma_first_min(rest);
    let second = spec_first_min(rest);
    let kept = rest.remove(second);
    lemma_sum_remove(forest, first, size_measure());
    lemma_sum_remove(rest, second, size_measure());
    lemma_sum_sizes_nonnegative(kept);
    assert(spec_node_ok(leaves, forest[first]));
    assert(rest[second] == forest[if second < first { second } else { second + 1 }]);
    assert(spec_node_ok(leaves, rest[second]));
}

/// Builds the tree over `leaves`: each leaf starts as a tree of its own, and
/// while more than one tree is left the two lightest are joined under a new
/// branch, which counts as the youngest tree. Of equally light trees the
/// oldest goes first. The trees wait in a min-heap that orders them by
/// weight and then by age.
pub fn build_tree(leaves: &Vec<LeafEntry>) -> (root: Option<Node>)
    ensures
        root is Some <==> leaves.len() > 0,
        root matches Some(node) ==> spec_huffman_root(spec_leaves(leaves@)) == Some(node@),
        root is None ==> spec_huffman_root(spec_leaves(leaves@)) is None,
{
    let ghost input = spec_leaves(leaves@);
    let mut arena: Vec<Node> = Vec::new();
    let mut heap = MinHeap::new();
    let ghost mut alive: Seq<int> = Seq::empty();
    let mut next: usize = 0;
    assert(spec_alive_keys(arena@, alive) =~= heap.keys());
    assert(spec_alive_forest(arena@, alive) =~= spec_initial_forest(input).take(0));
    while next < leaves.len()
        invariant
            input == spec_leaves(leaves@),
            next <= leaves.len(),
            arena.len() == next,
            alive.len() == next,
            spec_alive_ok(arena.len() as int, alive),
            spec_alive_forest(arena@, alive) == spec_initial_forest(input).take(next as int),
            alive.len() > 0 ==> alive.last() == arena.len() - 1,
            heap.wf(),
            heap.keys().len() == next,
            heap.content() == spec_alive_keys(arena@, alive).to_multiset(),
        decreases leaves.len() - next,
    {
        let node = leaf_node(next, &leaves[next]);
        let key = HeapKey { weight: node.weight, age: next };
        proof {
            lemma_alive_push(arena@, alive, node);
            assert(spec_initial_forest(input).take(next as int).push(node@) =~= spec_initial_forest(
                input,
            ).take(next as int + 1));
            alive = alive.push(next as int);
        }
        arena.push(node);
        heap.push(key);
        next += 1;
    }
    proof {
        assert(spec_initial_forest(input).take(next as int) =~= spec_initial_forest(input));
        lemma_initial_forest_ok(input);
    }
    while heap.len() > 1
        invariant
            input.len() == leaves.len(),
            heap.wf(),
            heap.keys().len() == alive.len(),
            spec_alive_ok(arena.len() as int, alive),
            heap.content() == spec_alive_keys(arena@, alive).to_multiset(),
            spec_forest_ok(input, spec_alive_forest(arena@, alive)),
            spec_merge_all(spec_alive_forest(arena@, alive)) == spec_merge_all(
                spec_initial_forest(input),
            ),
            alive.len() > 0 ==> alive.last() == arena.len() - 1,
            alive.len() == 0 <==> input.len() == 0,
        decreases heap.keys().len(),
    {
        let ghost before = spec_alive_forest(arena@, alive);
        let ghost at_first = spec_first_min(before);
        let ghost rest = before.remove(at_first);
        let ghost at_second = spec_first_min(rest);
        proof {
            lemma_merge_weight(input, before);
            lemma_merge_step_ok(input, before);
        }
        let first = match heap.pop() {
            Some(key) => key,
            None => {
                return None;
            },
        };
        proof {
            lemma_least_key_is_first_min(arena@, alive, first);
            lemma_alive_remove(arena@, alive, at_first);
            alive = alive.remove(at_first);
        }
        let second = match heap.pop() {
            Some(key) => key,
            None => {
                return None;
            },
        };
        proof {
            lemma_least_key_is_first_min(arena@, alive, second);
            lemma_alive_remove(arena@, alive, at_second);
            alive = alive.remove(at_second);
        }
        let a = &arena[first.age];
        let b = &arena[second.age];
        let parent = combine(a, b);
        let weight = parent.weight;
        let ghost grown = arena@.push(parent);
        let ghost shorter = arena@;
        arena.push(parent);
        let age: usize = arena.len() - 1;
        proof {
            lemma_alive_push(shorter, alive, grown[age as int]);
            alive = alive.push(age as int);
        }
        heap.push(HeapKey { weight, age });
    }
    if leaves.len() == 0 {
        return None;
    }
    let ghost last = spec_alive_forest(arena@, alive);
    assert(spec_merge_all(last) == last);
    assert(last[0] == arena@[arena.len() - 1]@);
    arena.pop()
}

/// Two forests agree, node by node, in weight and hash.
pub open spec fn spec_same_shape(f: Seq<NodeView>, g: Seq<NodeView>) -> bool {
    &&& f.len() == g.len()
    &&& forall|k: int|
        0 <= k < f.len() ==> (#[trigger] f[k]).weight == g[k].weight && f[k].hash == g[k].hash
}

/// A sequence with the items at two positions exchanged.
pub open spec fn spec_swap<T>(items: Seq<T>, one: int, other: int) -> Seq<T> {
    items.update(one, items[other]).update(other, items[one])
}

/// Two forests that differ by an exchange of the hashes at `at` and
/// `at + 1`, where `at` is even, the nodes up to `at + 1` all have one
/// weight, and no node is lighter.
pub open spec fn spec_sibling_swap(f: Seq<NodeView>, g: Seq<NodeView>, at: int) -> bool {
    &&& f.len() == g.len()
    &&& 0 <= at
    &&& at % 2 == 0
    &&& at + 1 < f.len()
    &&& 0 <= f[at].weight
    &&& forall|k: int|
        0 <= k < f.len() ==> (#[trigger] f[k]).weight == g[k].weight && f[k].weight >= f[at].weight
    &&& forall|k: int| 0 <= k <= at + 1 ==> (#[trigger] f[k]).weight == f[at].weight
    &&& forall|k: int|
        0 <= k < f.len() && k != at && k != at + 1 ==> (#[trigger] f[k]).hash == g[k].hash
    &&& f[at].hash == g[at + 1].hash
    &&& f[at + 1].hash == g[at].hash
}

/// A position whose node is no heavier than any other and lighter than all
/// before it is the position of the lightest node.
pub proof fn lemma_first_min_unique(forest: Seq<NodeView>, at: int)
    requires
        0 <= at < forest.len(),
        forall|k: int| 0 <= k < forest.len() ==> forest[at].weight <= (#[trigger] forest[k]).weight,
        forall|k: int| 0 <= k < at ==> forest[at].weight < (#[trigger] forest[k]).weight,
    ensures
        spec_first_min(forest) == at,
{
    lemma_first_min(forest);
    let found = spec_first_min(forest);
    if found < at {
        assert(forest[at].weight < forest[found].weight);
        assert(forest[found].weight <= forest[at].weight);
    } else if at < found {
        assert(forest[found].weight < forest[at].weight);
        assert(forest[at].weight <= forest[found].weight);
    }
}

proof fn lemma_same_weights_first_min(f: Seq<NodeView>, g: Seq<NodeView>)
    requires
        f.len() == g.len(),
        f.len() > 0,
        forall|k: int| 0 <= k < f.len() ==> (#[trigger] f[k]).weight == g[k].weight,
    ensures
        spec_first_min(f) == spec_first_min(g),
{
    lemma_first_min(f);
    let at = spec_first_min(f);
    assert forall|k: int| 0 <= k < g.len() implies g[at].weight <= (#[trigger] g[k]).weight by {
        assert(f[at].weight <= f[k].weight);
    }
    assert forall|k: int| 0 <= k < at implies g[at].weight < (#[trigger] g[k]).weight by {
        assert(f[at].weight < f[k].weight);
    }
    lemma_first_min_unique(g, at);
}

proof fn lemma_same_shape_step(f: Seq<NodeView>, g: Seq<NodeView>)
    requires
        spec_same_shape(f, g),
        f.len() >= 2,
    ensures
        spec_same_shape(spec_merge_step(f), spec_merge_step(g)),
{
    lemma_same_weights_first_min(f, g);
    lemma_first_min(f);
    let first = spec_first_min(f);
    let rest_f = f.remove(first);
    let rest_g = g.remove(first);
    assert forall|k: int| 0 <= k < rest_f.len() implies (#[trigger] rest_f[k]).weight
        == rest_g[k].weight && rest_f[k].hash == rest_g[k].hash by {
        let from = if k < first { k } else { k + 1 };
        assert(rest_f[k] == f[from]);
        assert(rest_g[k] == g[from]);
    }
    lemma_same_weights_first_min(rest_f, rest_g);
    lemma_first_min(rest_f);
    let second = spec_first_min(rest_f);
    let kept_f = rest_f.remove(second);
    let kept_g = rest_g.remove(second);
    let merged_f = spec_merge_step(f);
    let merged_g = spec_merge_step(g);
    assert(f[first].hash == g[first].hash);
    assert(rest_f[second].hash == rest_g[second].hash);
    assert forall|k: int| 0 <= k < merged_f.len() implies (#[trigger] merged_f[k]).weight
        == merged_g[k].weight && merged_f[k].hash == merged_g[k].hash by {
        if k < kept_f.len() {
            let from = if k < second { k } else { k + 1 };
            assert(kept_f[k] == rest_f[from]);
            assert(kept_g[k] == rest_g[from]);
        }
    }
}

/// Forests of one shape merge to forests of one shape.
pub proof fn lemma_same_shape_all(f: Seq<NodeView>, g: Seq<NodeView>)
    requires
        spec_same_shape(f, g),
    ensures
        spec_same_shape(spec_merge_all(f), spec_merge_all(g)),
    decreases f.len(),
{
    if f.len() >= 2 {
        lemma_same_shape_step(f, g);
        lemma_merge_step_len(f);
        lemma_same_shape_all(spec_merge_step(f), spec_merge_step(g));
    }
}

proof fn lemma_front_pair_merges(f: Seq<NodeView>)
    requires
        f.len() >= 2,
        f[0].weight == f[1].weight,
        forall|k: int| 0 <= k < f.len() ==> (#[trigger] f[k]).weight >= f[0].weight,
    ensures
        spec_merge_step(f) == f.skip(2).push(spec_combine(f[0], f[1])),
{
    lemma_first_min_unique(f, 0);
    let rest = f.remove(0);
    assert forall|k: int| 0 <= k < rest.len() implies rest[0].weight <= (#[trigger] rest[k]).weight by {
        assert(rest[k] == f[k + 1]);
    }
    lemma_first_min_unique(rest, 0);
    assert(rest.remove(0) =~= f.skip(2));
}

proof fn lemma_sibling_swap_step(f: Seq<NodeView>, g: Seq<NodeView>, at: int)
    requires
        spec_sibling_swap(f, g, at),
    ensures
        at == 0 ==> spec_same_shape(spec_merge_step(f), spec_merge_step(g)),
        at > 0 ==> spec_sibling_swap(spec_merge_step(f), spec_merge_step(g), at - 2),
        spec_merge_step(f).len() == f.len() - 1,
{
    assert(f[0].weight == f[at].weight && f[1].weight == f[at].weight);
    assert forall|k: int| 0 <= k < g.len() implies (#[trigger] g[k]).weight >= g[0].weight by {
        assert(f[k].weight == g[k].weight);
    }
    assert(g[1].weight == f[1].weight);
    lemma_front_pair_merges(f);
    lemma_front_pair_merges(g);
    let merged_f = spec_merge_step(f);
    let merged_g = spec_merge_step(g);
    let last = f.len() - 2;
    assert(forall|k: int| 0 <= k < last ==> merged_f[k] == f[k + 2] && merged_g[k] == g[k + 2]);
    if at == 0 {
        lemma_branch_hash_symmetric(f[0].hash, f[1].hash);
        assert forall|k: int| 0 <= k < merged_f.len() implies (#[trigger] merged_f[k]).weight
            == merged_g[k].weight && merged_f[k].hash == merged_g[k].hash by {
            if k < last {
                assert(f[k + 2].hash == g[k + 2].hash);
            }
        }
    } else {
        assert(f[0].hash == g[0].hash && f[1].hash == g[1].hash);
        let next = at - 2;
        assert(merged_f[next] == f[at]);
        assert forall|k: int| 0 <= k < merged_f.len() implies (#[trigger] merged_f[k]).weight
            == merged_g[k].weight && merged_f[k].weight >= merged_f[next].weight by {
            if k < last {
                assert(f[k + 2].weight == g[k + 2].weight);
            }
        }
        assert forall|k: int| 0 <= k <= next + 1 implies (#[trigger] merged_f[k]).weight
            == merged_f[next].weight by {
            assert(merged_f[k] == f[k + 2]);
        }
        assert forall|k: int|
            0 <= k < merged_f.len() && k != next && k != next + 1 implies (#[trigger] merged_f[k]).hash
            == merged_g[k].hash by {
            if k < last {
                assert(f[k + 2].hash == g[k + 2].hash);
            }
        }
        assert(merged_f[next + 1] == f[at + 1]);
        assert(merged_g[next] == g[at]);
        assert(merged_g[next + 1] == g[at + 1]);
    }
}

proof fn lemma_sibling_swap_all(f: Seq<NodeView>, g: Seq<NodeView>, at: int)
    requires
        spec_sibling_swap(f, g, at),
    ensures
        spec_same_shape(spec_merge_all(f), spec_merge_all(g)),
    decreases f.len(),
{
    lemma_sibling_swap_step(f, g, at);
    if at == 0 {
        lemma_same_shape_all(spec_merge_step(f), spec_merge_step(g));
    } else {
        lemma_sibling_swap_all(spec_merge_step(f), spec_merge_step(g), at - 2);
    }
}

/// Where the leaves up to position `at + 1` all have one weight, no leaf is
/// lighter and `at` is even, the leaves at `at` and `at + 1` become siblings:
/// exchanging them leaves the root hash as it is.
pub proof fn lemma_sibling_leaves_swap(leaves: Seq<LeafView>, at: int)
    requires
        0 <= at,
        at % 2 == 0,
        at + 1 < leaves.len(),
        forall|k: int| 0 <= k < leaves.len() ==> (#[trigger] leaves[k]).weight >= leaves[at].weight,
        forall|k: int| 0 <= k <= at + 1 ==> (#[trigger] leaves[k]).weight == leaves[at].weight,
    ensures
        spec_huffman_root(leaves) is Some,
        spec_huffman_root(spec_swap(leaves, at, at + 1)) is Some,
        spec_huffman_root(leaves)->0.hash == spec_huffman_root(spec_swap(leaves, at, at + 1))->0.hash,
{
    let other = spec_swap(leaves, at, at + 1);
    let f = spec_initial_forest(leaves);
    let g = spec_initial_forest(other);
    assert forall|k: int| 0 <= k < f.len() implies (#[trigger] f[k]).weight == g[k].weight
        && f[k].weight >= f[at].weight by {
        assert(leaves[k].weight >= leaves[at].weight);
        assert(leaves[at + 1].weight == leaves[at].weight);
    }
    assert forall|k: int| 0 <= k <= at + 1 implies (#[trigger] f[k]).weight == f[at].weight by {
        assert(leaves[k].weight == leaves[at].weight);
    }
    assert(spec_sibling_swap(f, g, at));
    lemma_sibling_swap_all(f, g, at);
    lemma_initial_forest_ok(leaves);
    lemma_merge_all_ok(leaves, f);
    lemma_initial_forest_ok(other);
    lemma_merge_all_ok(other, g);
    assert(spec_merge_all(f)[0].hash == spec_merge_all(g)[0].hash);
}

/// The proof path recorded for the leaf at position `leaf`; empty where no
/// member names that leaf.
pub open spec fn spec_find_path(members: Seq<MemberView>, leaf: int) -> Seq<Seq<u8>>
    decreases members.len(),
{
    if members.len() == 0 {
        Seq::empty()
    } else if members.last().leaf == leaf {
        members.last().path
    } else {
        spec_find_path(members.drop_last(), leaf)
    }
}

proof fn lemma_find_path_is_a_member(members: Seq<MemberView>, leaf: int)
    requires
        spec_occurrences(members, leaf) > 0,
    ensures
        exists|k: int|
            0 <= k < members.len() && (#[trigger] members[k]).leaf == leaf && members[k].path
                == spec_find_path(members, leaf),
    decreases members.len(),
{
    if members.len() > 0 {
        if members.last().leaf == leaf {
            assert(members[members.len() - 1].leaf == leaf);
        } else {
            let front = members.drop_last();
            lemma_find_path_is_a_member(front, leaf);
            let k = choose|k: int|
                0 <= k < front.len() && (#[trigger] front[k]).leaf == leaf && front[k].path
                    == spec_find_path(front, leaf);
            assert(members[k].leaf == leaf);
        }
    }
}

/// In the tree over a non-empty input, the proof path recorded for a leaf
/// leads from the hash of that leaf's script to the root.
pub proof fn lemma_proof_leads_to_root(leaves: Seq<LeafView>, leaf: int)
    requires
        0 <= leaf < leaves.len(),
    ensures
        spec_huffman_root(leaves) matches Some(root) && spec_fold_path(
            spec_leaf_hash(leaves[leaf].script),
            spec_find_path(root.members, leaf),
        ) == root.hash,
{
    lemma_root_holds_every_leaf_once(leaves);
    let root = spec_huffman_root(leaves)->0;
    assert(spec_occurrences(root.members, leaf) == 1);
    lemma_find_path_is_a_member(root.members, leaf);
    let k = choose|k: int|
        0 <= k < root.members.len() && (#[trigger] root.members[k]).leaf == leaf
            && root.members[k].path == spec_find_path(root.members, leaf);
    assert(spec_member_ok(leaves, root.hash, root.members[k]));
}

/// Copies a proof path.
pub fn copy_path(path: &Vec<Vec<u8>>) -> (copy: Vec<Vec<u8>>)
    ensures
        spec_path(copy@) == spec_path(path@),
{
    let mut copy: Vec<Vec<u8>> = Vec::new();
    let mut next: usize = 0;
    assert(spec_path(copy@) =~= spec_path(path@).take(0));
    while next < path.len()
        invariant
            next <= path.len(),
            spec_path(copy@) == spec_path(path@).take(next as int),
        decreases path.len() - next,
    {
        let hash = copy_bytes(path[next].as_slice());
        proof {
            lemma_path_push(copy@, hash);
        }
        copy.push(hash);
        assert(spec_path(copy@) =~= spec_path(path@).take(next as int + 1));
        next += 1;
    }
    assert(spec_path(path@).take(next as int) =~= spec_path(path@));
    copy
}

/// Lists, for each leaf of the input in input order, the proof path that the
/// tree records for it.
pub fn proof_paths(root: &Node, count: usize) -> (paths: Vec<Vec<Vec<u8>>>)
    requires
        forall|k: int| 0 <= k < root@.members.len() ==> 0 <= (#[trigger] root@.members[k]).leaf < count,
    ensures
        paths.len() == count,
        forall|leaf: int|
            0 <= leaf < count ==> spec_path((#[trigger] paths[leaf])@) == spec_find_path(
                root@.members,
                leaf,
            ),
{
    let ghost members = root@.members;
    let mut paths: Vec<Vec<Vec<u8>>> = Vec::new();
    let mut slot: usize = 0;
    while slot < count
        invariant
            slot <= count,
            paths.len() == slot,
            forall|leaf: int| 0 <= leaf < slot ==> (#[trigger] paths[leaf])@.len() == 0,
        decreases count - slot,
    {
        paths.push(Vec::new());
        slot += 1;
    }
    let mut next: usize = 0;
    assert(members.take(0) =~= Seq::<MemberView>::empty());
    assert forall|leaf: int| 0 <= leaf < count implies spec_path((#[trigger] paths[leaf])@)
        == spec_find_path(members.take(0), leaf) by {
        assert(spec_path(paths[leaf]@) =~= Seq::<Seq<u8>>::empty());
    }
    while next < root.members.len()
        invariant
            next <= root.members.len(),
            members == root@.members,
            paths.len() == count,
            forall|k: int| 0 <= k < members.len() ==> 0 <= (#[trigger] members[k]).leaf < count,
            forall|leaf: int|
                0 <= leaf < count ==> spec_path((#[trigger] paths[leaf])@) == spec_find_path(
                    members.take(next as int),
                    leaf,
                ),
        decreases root.members.len() - next,
    {
        let member = &root.members[next];
        assert(members[next as int] == member@);
        assert(members.take(next as int + 1).drop_last() =~= members.take(next as int));
        let ghost before = paths@;
        let path = copy_path(&member.path);
        paths.set(member.leaf, path);
        assert forall|leaf: int| 0 <= leaf < count implies spec_path((#[trigger] paths[leaf])@)
            == spec_find_path(members.take(next as int + 1), leaf) by {
            if leaf != member.leaf {
                assert(paths[leaf] == before[leaf]);
            }
        }
        next += 1;
    }
    assert(members.take(next as int) =~= members);
    paths
}

} // verus!
