//! The Taproot output: merkle root, tweak, output key, proof paths and the
//! addresses on the four networks.

use crate::bytes::copy_bytes;
use crate::error::{BuildError, BuildErrorView};
use crate::fragments::Fragments;
use crate::hash::{spec_tagged_hash, tagged_hash};
use crate::key::{nums_point, spec_nums_point, xonly_point, xonly_tweak_add, PublicKey};
use crate::bytes::spec_compact_size;
use crate::keytab::{
    lemma_first_invalid_by_map, spec_distinct_names, spec_entries_map, spec_first_invalid,
    spec_resolved, EntryView, KeyTab, KeyTable,
};
use crate::script::{
    fragment_key_refs, fragment_script, spec_encode, spec_first_key_error, Fragment, KeyRefView,
};
use crate::tree::{
    build_tree, copy_path, lemma_branch_hash_symmetric, lemma_root_holds_every_leaf_once,
    lemma_sibling_leaves_swap, lemma_single_leaf_root, lemma_two_leaf_root, spec_swap, proof_paths, spec_branch_hash, spec_find_path,
    spec_huffman_root, spec_leaf_hash, spec_leaves, spec_path, LeafEntry, LeafView, NodeView,
    TAPSCRIPT_LEAF_VERSION,
};
use sapio_miniscript::bitcoin;
use sapio_miniscript::bitcoin::secp256k1::XOnlyPublicKey;
use sapio_miniscript::bitcoin::util::schnorr::TweakedPublicKey;
use vstd::prelude::*;
use vstd::string::StringSliceAdditionalSpecFns;

verus! {

/// The four networks an address can be written for.
#[derive(Clone, Copy, Debug, PartialEq, Eq, Structural)]
pub enum Network {
    Bitcoin,
    Testnet,
    Regtest,
    Signet,
}

/// The text of the pay-to-taproot address of an output key on a network.
pub uninterp spec fn p2tr_address_text(output_key: Seq<u8>, network: Network) -> Seq<char>;

/// Calls `bitcoin::Address::p2tr_tweaked` on the key that
/// `XOnlyPublicKey::from_slice` makes of the bytes, taken as already tweaked,
/// and writes the address out with `to_string`. Trusted: the text is
/// `p2tr_address_text` of the key and the network.
#[verifier::external_body]
fn p2tr_address(output_key: &[u8], network: Network) -> (text: String)
    requires
        xonly_point(output_key@),
    ensures
        text@ == p2tr_address_text(output_key@, network),
{
    let key = XOnlyPublicKey::from_slice(output_key).expect("a curve point");
    let network = match network {
        Network::Bitcoin => bitcoin::Network::Bitcoin,
        Network::Testnet => bitcoin::Network::Testnet,
        Network::Regtest => bitcoin::Network::Regtest,
        Network::Signet => bitcoin::Network::Signet,
    };
    bitcoin::Address::p2tr_tweaked(TweakedPublicKey::dangerous_assume_tweaked(key), network).to_string()
}

/// One leaf of the output: its script, its leaf version and the proof path
/// from the leaf to the merkle root, nearest sibling first.
#[derive(Debug)]
pub struct LeafProof {
    pub script: Vec<u8>,
    pub leaf_version: u8,
    pub merkle_branch: Vec<Vec<u8>>,
}

/// What a leaf of the output stands for.
pub struct LeafProofView {
    pub script: Seq<u8>,
    pub leaf_version: u8,
    pub merkle_branch: Seq<Seq<u8>>,
}

impl View for LeafProof {
    type V = LeafProofView;

    open spec fn view(&self) -> LeafProofView {
        LeafProofView {
            script: self.script@,
            leaf_version: self.leaf_version,
            merkle_branch: spec_path(self.merkle_branch@),
        }
    }
}

/// The leaves a vector of leaves stands for.
pub open spec fn spec_proofs(proofs: Seq<LeafProof>) -> Seq<LeafProofView> {
    proofs.map_values(|proof_of_leaf: LeafProof| proof_of_leaf@)
}

/// The address of one output on each network.
#[derive(Debug)]
pub struct Addresses {
    pub main: String,
    pub test: String,
    pub regtest: String,
    pub signet: String,
}

/// What a set of addresses stands for.
pub struct AddressesView {
    pub main: Seq<char>,
    pub test: Seq<char>,
    pub regtest: Seq<char>,
    pub signet: Seq<char>,
}

impl View for Addresses {
    type V = AddressesView;

    open spec fn view(&self) -> AddressesView {
        AddressesView {
            main: self.main@,
            test: self.test@,
            regtest: self.regtest@,
            signet: self.signet@,
        }
    }
}

/// A Taproot output.
#[derive(Debug)]
pub struct TaprootOutput {
    pub tweak: Vec<u8>,
    pub internal_key: Vec<u8>,
    pub merkle_root: Option<Vec<u8>>,
    pub output_key: Vec<u8>,
    pub scripts: Vec<LeafProof>,
    pub address: Addresses,
}

/// What a Taproot output stands for.
pub struct TaprootOutputView {
    pub tweak: Seq<u8>,
    pub internal_key: Seq<u8>,
    pub merkle_root: Option<Seq<u8>>,
    pub output_key: Seq<u8>,
    pub scripts: Seq<LeafProofView>,
    pub address: AddressesView,
}

/// What an optional hash stands for.
pub open spec fn spec_optional_hash(hash: Option<Vec<u8>>) -> Option<Seq<u8>> {
    match hash {
        Some(bytes) => Some(bytes@),
        None => None,
    }
}

impl View for TaprootOutput {
    type V = TaprootOutputView;

    open spec fn view(&self) -> TaprootOutputView {
        TaprootOutputView {
            tweak: self.tweak@,
            internal_key: self.internal_key@,
            merkle_root: spec_optional_hash(self.merkle_root),
            output_key: self.output_key@,
            scripts: spec_proofs(self.scripts@),
            address: self.address@,
        }
    }
}

/// The merkle root of a tree: the hash of its root node, where it has one.
pub open spec fn spec_merkle_root(root: Option<NodeView>) -> Option<Seq<u8>> {
    match root {
        Some(node) => Some(node.hash),
        None => None,
    }
}

/// The tweak of an output: the tagged hash, under "TapTweak", of the
/// internal key followed by the merkle root, where there is one.
pub open spec fn spec_tweak(internal_key: Seq<u8>, merkle_root: Option<Seq<u8>>) -> Seq<u8> {
    spec_tagged_hash(
        "TapTweak".spec_bytes(),
        match merkle_root {
            Some(root) => internal_key + root,
            None => internal_key,
        },
    )
}

/// The leaves of an output, in input order, each with the proof path that
/// the tree records for it.
pub open spec fn spec_scripts(leaves: Seq<LeafView>, root: Option<NodeView>) -> Seq<LeafProofView> {
    Seq::new(
        leaves.len(),
        |at: int|
            LeafProofView {
                script: leaves[at].script,
                leaf_version: TAPSCRIPT_LEAF_VERSION,
                merkle_branch: spec_find_path(root->0.members, at),
            },
    )
}

/// The addresses of an output key.
pub open spec fn spec_addresses(output_key: Seq<u8>) -> AddressesView {
    AddressesView {
        main: p2tr_address_text(output_key, Network::Bitcoin),
        test: p2tr_address_text(output_key, Network::Testnet),
        regtest: p2tr_address_text(output_key, Network::Regtest),
        signet: p2tr_address_text(output_key, Network::Signet),
    }
}

/// The output over `leaves` under `internal_key`; the one error is a tweak
/// that cannot be added to the key.
pub open spec fn spec_build(leaves: Seq<LeafView>, internal_key: Seq<u8>) -> Result<
    TaprootOutputView,
    BuildErrorView,
> {
    let root = spec_huffman_root(leaves);
    let merkle_root = spec_merkle_root(root);
    let tweak = spec_tweak(internal_key, merkle_root);
    match xonly_tweak_add(internal_key, tweak) {
        None => Err(BuildErrorView::InvalidTweak),
        Some(output_key) => Ok(
            TaprootOutputView {
                tweak,
                internal_key,
                merkle_root,
                output_key,
                scripts: spec_scripts(leaves, root),
                address: spec_addresses(output_key),
            },
        ),
    }
}

proof fn lemma_proofs_push(proofs: Seq<LeafProof>, last: LeafProof)
    ensures
        spec_proofs(proofs.push(last)) == spec_proofs(proofs).push(last@),
{
    assert(spec_proofs(proofs.push(last)) =~= spec_proofs(proofs).push(last@));
}

/// Builds the Taproot output over `leaves` under `internal_key`: the tree
/// and its merkle root, the tweak, the output key `internal_key + tweak * G`,
/// the proof path of every leaf, and the four addresses.
pub fn build(leaves: &Vec<LeafEntry>, internal_key: &PublicKey) -> (output: Result<
    TaprootOutput,
    BuildError,
>)
    ensures
        output matches Ok(bundle) ==> spec_build(spec_leaves(leaves@), internal_key@) == Ok::<
            _,
            BuildErrorView,
        >(bundle@),
        output matches Err(error) ==> spec_build(spec_leaves(leaves@), internal_key@) == Err::<
            TaprootOutputView,
            _,
        >(error@),
{
    let ghost input = spec_leaves(leaves@);
    let root = build_tree(leaves);
    let ghost root_view = spec_huffman_root(input);
    let key_bytes = internal_key.as_bytes();
    let mut buffer: Vec<u8> = copy_bytes(key_bytes);
    let mut merkle_root: Option<Vec<u8>> = None;
    let mut paths: Vec<Vec<Vec<u8>>> = Vec::new();
    match &root {
        Some(node) => {
            buffer.extend_from_slice(node.hash.as_slice());
            merkle_root = Some(copy_bytes(node.hash.as_slice()));
            proof {
                lemma_root_holds_every_leaf_once(input);
                assert forall|k: int| 0 <= k < node@.members.len() implies 0 <= (
                #[trigger] node@.members[k]).leaf < leaves.len() by {
                    assert(crate::tree::spec_member_ok(input, node@.hash, node@.members[k]));
                }
            }
            paths = proof_paths(node, leaves.len());
        },
        None => {},
    }
    assert(spec_optional_hash(merkle_root) == spec_merkle_root(root_view));
    assert(buffer@ =~= match spec_merkle_root(root_view) {
        Some(hash) => internal_key@ + hash,
        None => internal_key@,
    });
    let tweak = tagged_hash("TapTweak", buffer.as_slice());
    let output_key = match internal_key.tweak_add(tweak.as_slice()) {
        Some(key) => key,
        None => {
            return Err(BuildError::InvalidTweak);
        },
    };
    let mut scripts: Vec<LeafProof> = Vec::new();
    let mut at: usize = 0;
    assert(spec_proofs(scripts@) =~= spec_scripts(input, root_view).take(0));
    while at < leaves.len()
        invariant
            at <= leaves.len(),
            input == spec_leaves(leaves@),
            leaves.len() > 0 ==> paths.len() == leaves.len(),
            leaves.len() > 0 ==> forall|leaf: int|
                0 <= leaf < leaves.len() ==> spec_path((#[trigger] paths[leaf])@) == spec_find_path(
                    root_view->0.members,
                    leaf,
                ),
            spec_proofs(scripts@) == spec_scripts(input, root_view).take(at as int),
        decreases leaves.len() - at,
    {
        let entry = LeafProof {
            script: copy_bytes(leaves[at].script.as_slice()),
            leaf_version: TAPSCRIPT_LEAF_VERSION,
            merkle_branch: copy_path(&paths[at]),
        };
        proof {
            lemma_proofs_push(scripts@, entry);
        }
        scripts.push(entry);
        assert(spec_proofs(scripts@) =~= spec_scripts(input, root_view).take(at as int + 1));
        at += 1;
    }
    assert(spec_scripts(input, root_view).take(at as int) =~= spec_scripts(input, root_view));
    let out_bytes = output_key.as_bytes();
    let address = Addresses {
        main: p2tr_address(out_bytes, Network::Bitcoin),
        test: p2tr_address(out_bytes, Network::Testnet),
        regtest: p2tr_address(out_bytes, Network::Regtest),
        signet: p2tr_address(out_bytes, Network::Signet),
    };
    Ok(
        TaprootOutput {
            tweak,
            internal_key: copy_bytes(key_bytes),
            merkle_root,
            output_key: copy_bytes(out_bytes),
            scripts,
            address,
        },
    )
}

/// The message for the first text that is no valid fragment; none where
/// every text parses.
pub open spec fn spec_first_parse_error(texts: Seq<Seq<char>>) -> Option<Seq<char>>
    decreases texts.len(),
{
    if texts.len() == 0 {
        None
    } else {
        match fragment_key_refs(texts[0]) {
            Err(message) => Some(message),
            Ok(_) => spec_first_parse_error(texts.drop_first()),
        }
    }
}

/// The scripts of a list of fragments under a key table, in order, or the
/// error of the first fragment that cannot be encoded.
pub open spec fn spec_encode_all(texts: Seq<Seq<char>>, keys: Map<Seq<char>, Seq<u8>>) -> Result<
    Seq<Seq<u8>>,
    BuildErrorView,
>
    decreases texts.len(),
{
    if texts.len() == 0 {
        Ok(Seq::empty())
    } else {
        match spec_encode_all(texts.drop_last(), keys) {
            Err(error) => Err(error),
            Ok(front) => match spec_encode(texts.last(), keys) {
                Err(error) => Err(error),
                Ok(script) => Ok(front.push(script)),
            },
        }
    }
}

/// The leaves of a list of scripts: every script with weight 1.
pub open spec fn spec_unit_leaves(scripts: Seq<Seq<u8>>) -> Seq<LeafView> {
    scripts.map_values(|script: Seq<u8>| LeafView { weight: 1, script })
}

/// The leaves for a key table and a list of fragments: every fragment's
/// script with weight 1. In this order: every key text must parse, every
/// fragment must parse, and every fragment must encode under the keys.
pub open spec fn spec_fragment_leaves(entries: Seq<EntryView>, texts: Seq<Seq<char>>) -> Result<
    Seq<LeafView>,
    BuildErrorView,
> {
    match spec_first_invalid(entries) {
        Some(message) => Err(BuildErrorView::InvalidKey(message)),
        None => match spec_first_parse_error(texts) {
            Some(message) => Err(BuildErrorView::ScriptParse(message)),
            None => match spec_encode_all(texts, spec_resolved(spec_entries_map(entries))) {
                Err(error) => Err(error),
                Ok(scripts) => Ok(spec_unit_leaves(scripts)),
            },
        },
    }
}

/// The Taproot output for a key table and a list of fragments under a given
/// internal key.
pub open spec fn spec_taproot_under(
    entries: Seq<EntryView>,
    texts: Seq<Seq<char>>,
    internal_key: Seq<u8>,
) -> Result<TaprootOutputView, BuildErrorView> {
    match spec_fragment_leaves(entries, texts) {
        Err(error) => Err(error),
        Ok(leaves) => spec_build(leaves, internal_key),
    }
}

/// The Taproot output for a key table and a list of fragments under the
/// unspendable internal key. The fragments are turned into leaves first;
/// then the unspendable key must exist, and the tweak must be addable to it.
pub open spec fn spec_taproot(entries: Seq<EntryView>, texts: Seq<Seq<char>>) -> Result<
    TaprootOutputView,
    BuildErrorView,
> {
    match spec_fragment_leaves(entries, texts) {
        Err(error) => Err(error),
        Ok(leaves) => match spec_nums_point() {
            None => Err(BuildErrorView::NoInternalKey),
            Some(internal_key) => spec_build(leaves, internal_key),
        },
    }
}

proof fn lemma_leaves_push(leaves: Seq<LeafEntry>, leaf: LeafEntry)
    ensures
        spec_leaves(leaves.push(leaf)) == spec_leaves(leaves).push(leaf@),
{
    assert(spec_leaves(leaves.push(leaf)) =~= spec_leaves(leaves).push(leaf@));
}

/// Parses every fragment of a list, in order; the first that does not parse
/// fails the list.
pub fn parse_fragments(frags: &Fragments) -> (parsed: Result<Vec<Fragment>, BuildError>)
    ensures
        spec_first_parse_error(frags@) matches Some(message) ==> (parsed matches Err(error)
            && error@ == BuildErrorView::ScriptParse(message)),
        spec_first_parse_error(frags@) is None ==> (parsed matches Ok(list) && list.len()
            == frags@.len() && forall|k: int|
            0 <= k < list.len() ==> (#[trigger] list[k]).text() == frags@[k]),
{
    let mut list: Vec<Fragment> = Vec::new();
    let mut at: usize = 0;
    assert(frags@.skip(0) =~= frags@);
    while at < frags.len()
        invariant
            at <= frags@.len(),
            list.len() == at,
            forall|k: int| 0 <= k < at ==> (#[trigger] list[k]).text() == frags@[k],
            spec_first_parse_error(frags@) == spec_first_parse_error(frags@.skip(at as int)),
        decreases frags@.len() - at,
    {
        assert(frags@.skip(at as int)[0] == frags@[at as int]);
        assert(frags@.skip(at as int).drop_first() =~= frags@.skip(at as int + 1));
        match Fragment::parse(frags.get(at).as_str()) {
            Err(error) => {
                return Err(error);
            },
            Ok(fragment) => {
                list.push(fragment);
            },
        }
        at += 1;
    }
    Ok(list)
}

/// Encodes every fragment of a list under a key table, in order, each as a
/// leaf of weight 1; the first that cannot be encoded fails the list.
fn encode_fragments(
    list: &Vec<Fragment>,
    keys: &KeyTable,
    Ghost(texts): Ghost<Seq<Seq<char>>>,
) -> (leaves: Result<Vec<LeafEntry>, BuildError>)
    requires
        list.len() == texts.len(),
        forall|k: int| 0 <= k < list.len() ==> (#[trigger] list[k]).text() == texts[k],
    ensures
        spec_encode_all(texts, keys@) matches Err(error) ==> (leaves matches Err(found) && found@
            == error),
        spec_encode_all(texts, keys@) matches Ok(scripts) ==> (leaves matches Ok(entries)
            && spec_leaves(entries@) == spec_unit_leaves(scripts)),
{
    let mut entries: Vec<LeafEntry> = Vec::new();
    let mut at: usize = 0;
    assert(texts.take(0) =~= Seq::<Seq<char>>::empty());
    assert(spec_leaves(entries@) =~= spec_unit_leaves(Seq::<Seq<u8>>::empty()));
    while at < list.len()
        invariant
            at <= list.len(),
            list.len() == texts.len(),
            forall|k: int| 0 <= k < list.len() ==> (#[trigger] list[k]).text() == texts[k],
            spec_encode_all(texts.take(at as int), keys@) matches Ok(scripts) && spec_leaves(entries@)
                == spec_unit_leaves(scripts),
        decreases list.len() - at,
    {
        let ghost front = spec_encode_all(texts.take(at as int), keys@)->Ok_0;
        assert(texts.take(at as int + 1).drop_last() =~= texts.take(at as int));
        assert(texts.take(at as int + 1).last() == list[at as int].text());
        match list[at].encode(keys) {
            Err(error) => {
                proof {
                    lemma_encode_all_prefix_error(texts, keys@, at as int + 1);
                }
                return Err(error);
            },
            Ok(script) => {
                let leaf = LeafEntry { weight: 1, script };
                proof {
                    lemma_leaves_push(entries@, leaf);
                    assert(spec_unit_leaves(front.push(script@)) =~= spec_unit_leaves(front).push(
                        leaf@,
                    ));
                }
                entries.push(leaf);
            },
        }
        at += 1;
    }
    assert(texts.take(at as int) =~= texts);
    Ok(entries)
}

/// An error among the first `count` fragments is the error of the whole list.
proof fn lemma_encode_all_prefix_error(texts: Seq<Seq<char>>, keys: Map<Seq<char>, Seq<u8>>, count: int)
    requires
        0 <= count <= texts.len(),
        spec_encode_all(texts.take(count), keys) is Err,
    ensures
        spec_encode_all(texts, keys) == spec_encode_all(texts.take(count), keys),
    decreases texts.len(),
{
    if count == texts.len() {
        assert(texts.take(count) =~= texts);
    } else {
        assert(texts.drop_last().take(count) =~= texts.take(count));
        lemma_encode_all_prefix_error(texts.drop_last(), keys, count);
    }
}

/// Turns a list of fragments into leaves under a key table: every fragment
/// its script, with weight 1. Nothing is returned unless every key text
/// parses and every fragment parses and encodes.
pub fn fragment_leaves(frags: &Fragments, keytab: &KeyTab) -> (leaves: Result<
    Vec<LeafEntry>,
    BuildError,
>)
    ensures
        spec_fragment_leaves(keytab.entries(), frags@) matches Err(error) ==> (leaves matches Err(
            found,
        ) && found@ == error),
        spec_fragment_leaves(keytab.entries(), frags@) matches Ok(list) ==> (leaves matches Ok(
            entries,
        ) && spec_leaves(entries@) == list),
{
    let keys = match keytab.parse() {
        Err(error) => {
            return Err(error);
        },
        Ok(keys) => keys,
    };
    let list = match parse_fragments(frags) {
        Err(error) => {
            return Err(error);
        },
        Ok(list) => list,
    };
    encode_fragments(&list, &keys, Ghost(frags@))
}

/// Builds the Taproot output for a list of fragments under a key table and
/// a given internal key. Every fragment becomes a leaf of weight 1. Nothing
/// is returned unless every step succeeds.
pub fn taproot_under(frags: Fragments, keytab: &KeyTab, internal_key: &PublicKey) -> (output: Result<
    TaprootOutput,
    BuildError,
>)
    ensures
        output matches Ok(bundle) ==> spec_taproot_under(keytab.entries(), frags@, internal_key@)
            == Ok::<_, BuildErrorView>(bundle@),
        output matches Err(error) ==> spec_taproot_under(keytab.entries(), frags@, internal_key@)
            == Err::<TaprootOutputView, _>(error@),
{
    match fragment_leaves(&frags, keytab) {
        Err(error) => Err(error),
        Ok(leaves) => build(&leaves, internal_key),
    }
}

/// Builds the Taproot output for a list of fragments under a key table.
/// Every fragment becomes a leaf of weight 1, and the internal key is the
/// unspendable key. Nothing is returned unless every step succeeds.
pub fn taproot(frags: Fragments, keytab: &KeyTab) -> (output: Result<TaprootOutput, BuildError>)
    ensures
        output matches Ok(bundle) ==> spec_taproot(keytab.entries(), frags@) == Ok::<
            _,
            BuildErrorView,
        >(bundle@),
        output matches Err(error) ==> spec_taproot(keytab.entries(), frags@) == Err::<
            TaprootOutputView,
            _,
        >(error@),
{
    let leaves = match fragment_leaves(&frags, keytab) {
        Err(error) => {
            return Err(error);
        },
        Ok(leaves) => leaves,
    };
    let internal_key = match nums_point() {
        None => {
            return Err(BuildError::NoInternalKey);
        },
        Some(key) => key,
    };
    build(&leaves, &internal_key)
}

/// Without leaves an output has no merkle root and no scripts; its tweak is
/// the tagged hash of the internal key alone, and its output key is the
/// internal key with that tweak added.
pub proof fn lemma_no_leaves(internal_key: Seq<u8>)
    ensures
        spec_build(Seq::empty(), internal_key) matches Ok(output) ==> output.merkle_root is None
            && output.scripts.len() == 0 && output.tweak == spec_tagged_hash(
            "TapTweak".spec_bytes(),
            internal_key,
        ) && xonly_tweak_add(internal_key, output.tweak) == Some(output.output_key),
        spec_build(Seq::empty(), internal_key) is Err <==> xonly_tweak_add(
            internal_key,
            spec_tagged_hash("TapTweak".spec_bytes(), internal_key),
        ) is None,
{
}

/// With no fragments the output has no merkle root, and its output key is
/// the unspendable internal key tweaked by the tagged hash of that key alone.
pub proof fn lemma_no_fragments(entries: Seq<EntryView>)
    ensures
        spec_taproot(entries, Seq::empty()) matches Ok(output) ==> output.merkle_root is None
            && spec_nums_point() == Some(output.internal_key) && xonly_tweak_add(
            output.internal_key,
            spec_tagged_hash("TapTweak".spec_bytes(), output.internal_key),
        ) == Some(output.output_key),
{
    assert(spec_unit_leaves(Seq::<Seq<u8>>::empty()) =~= Seq::<LeafView>::empty());
    if spec_nums_point() is Some {
        lemma_no_leaves(spec_nums_point()->0);
    }
}

/// Over a single leaf the merkle root is the hash of that leaf, not the hash
/// of a branch, and the proof path of the leaf is empty.
pub proof fn lemma_single_leaf(leaf: LeafView, internal_key: Seq<u8>)
    ensures
        spec_build(seq![leaf], internal_key) matches Ok(output) ==> output.merkle_root == Some(
            spec_leaf_hash(leaf.script),
        ) && output.scripts.len() == 1 && output.scripts[0].script == leaf.script
            && output.scripts[0].merkle_branch.len() == 0,
{
    lemma_single_leaf_root(leaf);
    let members = spec_huffman_root(seq![leaf])->0.members;
    assert(members.last().leaf == 0);
}

/// With a single fragment the merkle root is the leaf hash of the script
/// that the fragment encodes to.
pub proof fn lemma_single_fragment(entries: Seq<EntryView>, text: Seq<char>)
    ensures
        spec_taproot(entries, seq![text]) matches Ok(output) ==> output.merkle_root == Some(
            spec_leaf_hash(fragment_script(text, spec_resolved(spec_entries_map(entries)))),
        ),
{
    let keys = spec_resolved(spec_entries_map(entries));
    let texts = seq![text];
    if spec_taproot(entries, texts) is Ok {
        assert(texts.drop_last() =~= Seq::<Seq<char>>::empty());
        let script = fragment_script(text, keys);
        assert(spec_encode_all(texts.drop_last(), keys) == Ok::<_, BuildErrorView>(
            Seq::<Seq<u8>>::empty(),
        ));
        assert(spec_encode_all(texts, keys) == Ok::<_, BuildErrorView>(
            Seq::<Seq<u8>>::empty().push(script),
        ));
        let leaf = LeafView { weight: 1, script };
        assert(spec_unit_leaves(Seq::<Seq<u8>>::empty().push(script)) =~= seq![leaf]);
        lemma_single_leaf(leaf, spec_nums_point()->0);
    }
}

/// Swapping the two leaves of a two-leaf input changes neither the merkle
/// root nor the tweak, the output key or the addresses.
pub proof fn lemma_two_leaves_swap(a: LeafView, b: LeafView, internal_key: Seq<u8>)
    ensures
        spec_build(seq![a, b], internal_key) is Ok <==> spec_build(seq![b, a], internal_key) is Ok,
        spec_build(seq![a, b], internal_key) matches Ok(one) ==> (spec_build(
            seq![b, a],
            internal_key,
        ) matches Ok(other) && one.merkle_root == other.merkle_root && one.merkle_root == Some(
            spec_branch_hash(spec_leaf_hash(a.script), spec_leaf_hash(b.script)),
        ) && one.tweak == other.tweak && one.output_key == other.output_key && one.address
            == other.address),
{
    lemma_two_leaf_root(a, b);
    lemma_two_leaf_root(b, a);
    lemma_branch_hash_symmetric(spec_leaf_hash(a.script), spec_leaf_hash(b.script));
}

/// With two fragments, giving them in the other order changes neither the
/// merkle root nor the tweak, the output key or the addresses.
pub proof fn lemma_two_fragments_swap(entries: Seq<EntryView>, first: Seq<char>, second: Seq<char>)
    ensures
        spec_taproot(entries, seq![first, second]) matches Ok(one) ==> (spec_taproot(
            entries,
            seq![second, first],
        ) matches Ok(other) && one.merkle_root == other.merkle_root && one.tweak == other.tweak
            && one.output_key == other.output_key && one.address == other.address),
{
    assert(spec_swap(seq![first, second], 0, 1) =~= seq![second, first]);
    lemma_sibling_fragments_swap(entries, seq![first, second], 0);
}

/// Two outputs for the same key table and the same fragments, in the same
/// order, are the same.
pub proof fn lemma_same_input_same_output(
    entries: Seq<EntryView>,
    texts: Seq<Seq<char>>,
    one: Result<TaprootOutputView, BuildErrorView>,
    other: Result<TaprootOutputView, BuildErrorView>,
)
    requires
        one == spec_taproot(entries, texts),
        other == spec_taproot(entries, texts),
    ensures
        one == other,
{
}

/// Where the leaves up to position `at + 1` all have one weight, no leaf is
/// lighter and `at` is even, exchanging the leaves at `at` and `at + 1`
/// changes neither the merkle root nor the tweak, the output key or the
/// addresses.
pub proof fn lemma_sibling_swap_output(leaves: Seq<LeafView>, at: int, internal_key: Seq<u8>)
    requires
        0 <= at,
        at % 2 == 0,
        at + 1 < leaves.len(),
        forall|k: int| 0 <= k < leaves.len() ==> (#[trigger] leaves[k]).weight >= leaves[at].weight,
        forall|k: int| 0 <= k <= at + 1 ==> (#[trigger] leaves[k]).weight == leaves[at].weight,
    ensures
        spec_build(leaves, internal_key) is Ok <==> spec_build(
            spec_swap(leaves, at, at + 1),
            internal_key,
        ) is Ok,
        spec_build(leaves, internal_key) matches Ok(one) ==> (spec_build(
            spec_swap(leaves, at, at + 1),
            internal_key,
        ) matches Ok(other) && one.merkle_root == other.merkle_root && one.tweak == other.tweak
            && one.output_key == other.output_key && one.address == other.address),
{
    lemma_sibling_leaves_swap(leaves, at);
}

proof fn lemma_parse_each(texts: Seq<Seq<char>>)
    ensures
        spec_first_parse_error(texts) is None <==> forall|k: int|
            0 <= k < texts.len() ==> (#[trigger] fragment_key_refs(texts[k])) is Ok,
    decreases texts.len(),
{
    if texts.len() > 0 {
        let rest = texts.drop_first();
        lemma_parse_each(rest);
        assert(forall|k: int| 0 <= k < rest.len() ==> rest[k] == texts[k + 1]);
        if forall|k: int| 0 <= k < texts.len() ==> (#[trigger] fragment_key_refs(texts[k])) is Ok {
            assert(fragment_key_refs(texts[0]) is Ok);
            assert forall|k: int| 0 <= k < rest.len() implies (#[trigger] fragment_key_refs(
                rest[k],
            )) is Ok by {
                assert(fragment_key_refs(texts[k + 1]) is Ok);
            }
        }
        if spec_first_parse_error(texts) is None {
            assert forall|k: int| 0 <= k < texts.len() implies (#[trigger] fragment_key_refs(
                texts[k],
            )) is Ok by {
                if k > 0 {
                    assert(fragment_key_refs(rest[k - 1]) is Ok);
                }
            }
        }
    }
}

proof fn lemma_encode_each(texts: Seq<Seq<char>>, keys: Map<Seq<char>, Seq<u8>>)
    ensures
        spec_encode_all(texts, keys) matches Ok(scripts) ==> scripts.len() == texts.len()
            && forall|k: int|
            0 <= k < texts.len() ==> (#[trigger] spec_encode(texts[k], keys)) == Ok::<
                _,
                BuildErrorView,
            >(scripts[k]),
        (forall|k: int| 0 <= k < texts.len() ==> (#[trigger] spec_encode(texts[k], keys)) is Ok)
            ==> spec_encode_all(texts, keys) is Ok,
    decreases texts.len(),
{
    if texts.len() > 0 {
        let front = texts.drop_last();
        lemma_encode_each(front, keys);
        assert(forall|k: int| 0 <= k < front.len() ==> front[k] == texts[k]);
        if forall|k: int| 0 <= k < texts.len() ==> (#[trigger] spec_encode(texts[k], keys)) is Ok {
            assert(spec_encode(texts[texts.len() - 1], keys) is Ok);
            assert forall|k: int| 0 <= k < front.len() implies (#[trigger] spec_encode(
                front[k],
                keys,
            )) is Ok by {
                assert(spec_encode(texts[k], keys) is Ok);
            }
        }
        if spec_encode_all(texts, keys) is Ok {
            let scripts = spec_encode_all(texts, keys)->Ok_0;
            let before = spec_encode_all(front, keys)->Ok_0;
            assert forall|k: int| 0 <= k < texts.len() implies (#[trigger] spec_encode(
                texts[k],
                keys,
            )) == Ok::<_, BuildErrorView>(scripts[k]) by {
                if k < front.len() {
                    assert(spec_encode(front[k], keys) == Ok::<_, BuildErrorView>(before[k]));
                }
            }
        }
    }
}

/// Every fragment is a leaf of weight 1, so the fragments at an even
/// position and at the position after it become siblings: giving the two in
/// the other order changes neither the merkle root nor the tweak, the
/// output key or the addresses.
pub proof fn lemma_sibling_fragments_swap(entries: Seq<EntryView>, texts: Seq<Seq<char>>, at: int)
    requires
        0 <= at,
        at % 2 == 0,
        at + 1 < texts.len(),
    ensures
        spec_taproot(entries, texts) matches Ok(one) ==> (spec_taproot(
            entries,
            spec_swap(texts, at, at + 1),
        ) matches Ok(other) && one.merkle_root == other.merkle_root && one.tweak == other.tweak
            && one.output_key == other.output_key && one.address == other.address),
{
    let keys = spec_resolved(spec_entries_map(entries));
    let swapped = spec_swap(texts, at, at + 1);
    if spec_taproot(entries, texts) is Ok {
        lemma_parse_each(texts);
        lemma_parse_each(swapped);
        lemma_encode_each(texts, keys);
        lemma_encode_each(swapped, keys);
        let scripts = spec_encode_all(texts, keys)->Ok_0;
        assert forall|k: int| 0 <= k < swapped.len() implies (#[trigger] fragment_key_refs(
            swapped[k],
        )) is Ok && (#[trigger] spec_encode(swapped[k], keys)) is Ok by {
            let from = if k == at {
                at + 1
            } else if k == at + 1 {
                at
            } else {
                k
            };
            assert(swapped[k] == texts[from]);
            assert(fragment_key_refs(texts[from]) is Ok);
            assert(spec_encode(texts[from], keys) is Ok);
        }
        let others = spec_encode_all(swapped, keys)->Ok_0;
        assert(others =~= spec_swap(scripts, at, at + 1)) by {
            assert forall|k: int| 0 <= k < others.len() implies others[k] == spec_swap(
                scripts,
                at,
                at + 1,
            )[k] by {
                let from = if k == at {
                    at + 1
                } else if k == at + 1 {
                    at
                } else {
                    k
                };
                assert(swapped[k] == texts[from]);
                assert(spec_encode(swapped[k], keys) == Ok::<_, BuildErrorView>(others[k]));
                assert(spec_encode(texts[from], keys) == Ok::<_, BuildErrorView>(scripts[from]));
            }
        }
        let leaves = spec_unit_leaves(scripts);
        assert(spec_unit_leaves(others) =~= spec_swap(leaves, at, at + 1));
        lemma_sibling_swap_output(leaves, at, spec_nums_point()->0);
    }
}

/// Whether an error reports a name that a key table lacks.
pub open spec fn spec_reports_missing(error: BuildErrorView, keys: Map<Seq<char>, Seq<u8>>) -> bool {
    error matches BuildErrorView::MissingKey(name) && !keys.contains_key(name)
}

/// Whether every reference of a list is to a plain key.
pub open spec fn spec_all_plain(refs: Seq<KeyRefView>) -> bool {
    forall|k: int| 0 <= k < refs.len() ==> (#[trigger] refs[k]) is Plain
}

proof fn lemma_missing_reference(refs: Seq<KeyRefView>, keys: Map<Seq<char>, Seq<u8>>, at: int)
    requires
        0 <= at < refs.len(),
        refs[at] matches KeyRefView::Plain(name) && !keys.contains_key(name),
    ensures
        spec_first_key_error(refs, keys) is Some,
    decreases refs.len(),
{
    if at > 0 {
        assert(refs.drop_first()[at - 1] == refs[at]);
        lemma_missing_reference(refs.drop_first(), keys, at - 1);
    }
}

proof fn lemma_plain_references(refs: Seq<KeyRefView>, keys: Map<Seq<char>, Seq<u8>>)
    requires
        spec_all_plain(refs),
    ensures
        spec_first_key_error(refs, keys) matches Some(error) ==> spec_reports_missing(error, keys),
    decreases refs.len(),
{
    if refs.len() > 0 {
        assert(refs[0] is Plain);
        assert(forall|k: int| 0 <= k < refs.len() - 1 ==> refs.drop_first()[k] == refs[k + 1]);
        lemma_plain_references(refs.drop_first(), keys);
    }
}

proof fn lemma_all_parse(texts: Seq<Seq<char>>, at: int)
    requires
        spec_first_parse_error(texts) is None,
        0 <= at < texts.len(),
    ensures
        fragment_key_refs(texts[at]) is Ok,
    decreases texts.len(),
{
    if at > 0 {
        assert(texts.drop_first()[at - 1] == texts[at]);
        lemma_all_parse(texts.drop_first(), at - 1);
    }
}

proof fn lemma_encode_all_fails(texts: Seq<Seq<char>>, keys: Map<Seq<char>, Seq<u8>>, at: int)
    requires
        0 <= at < texts.len(),
        spec_encode(texts[at], keys) is Err,
    ensures
        spec_encode_all(texts, keys) is Err,
    decreases texts.len(),
{
    if at < texts.len() - 1 {
        assert(texts.drop_last()[at] == texts[at]);
        lemma_encode_all_fails(texts.drop_last(), keys, at);
    }
}

proof fn lemma_encode_all_plain(texts: Seq<Seq<char>>, keys: Map<Seq<char>, Seq<u8>>)
    requires
        forall|k: int|
            0 <= k < texts.len() ==> ((#[trigger] fragment_key_refs(texts[k])) matches Ok(refs)
                && spec_all_plain(refs)),
    ensures
        spec_encode_all(texts, keys) matches Err(error) ==> spec_reports_missing(error, keys),
    decreases texts.len(),
{
    if texts.len() > 0 {
        let front = texts.drop_last();
        assert(forall|k: int| 0 <= k < front.len() ==> front[k] == texts[k]);
        lemma_encode_all_plain(front, keys);
        let last = texts[texts.len() - 1];
        assert(fragment_key_refs(last) is Ok);
        lemma_plain_references(fragment_key_refs(last)->Ok_0, keys);
    }
}

/// A list with a fragment that refers to a name that the key table lacks
/// yields an error, never an output.
pub proof fn lemma_missing_key_fails(
    entries: Seq<EntryView>,
    texts: Seq<Seq<char>>,
    at: int,
    name: Seq<char>,
)
    requires
        0 <= at < texts.len(),
        fragment_key_refs(texts[at]) matches Ok(refs) && refs.contains(KeyRefView::Plain(name)),
        !spec_entries_map(entries).contains_key(name),
    ensures
        spec_taproot(entries, texts) is Err,
{
    let keys = spec_resolved(spec_entries_map(entries));
    let refs = fragment_key_refs(texts[at])->Ok_0;
    let k = choose|k: int| 0 <= k < refs.len() && refs[k] == KeyRefView::Plain(name);
    lemma_missing_reference(refs, keys, k);
    lemma_encode_all_fails(texts, keys, at);
}

/// Where every key text is valid and every fragment parses and refers to
/// plain keys only, a fragment that refers to a name that the key table
/// lacks yields the error that reports a missing key, with a name that the
/// table lacks.
pub proof fn lemma_missing_key_is_reported(
    entries: Seq<EntryView>,
    texts: Seq<Seq<char>>,
    at: int,
    name: Seq<char>,
)
    requires
        spec_first_invalid(entries) is None,
        spec_first_parse_error(texts) is None,
        forall|k: int|
            0 <= k < texts.len() ==> ((#[trigger] fragment_key_refs(texts[k])) matches Ok(refs)
                ==> spec_all_plain(refs)),
        0 <= at < texts.len(),
        fragment_key_refs(texts[at]) matches Ok(refs) && refs.contains(KeyRefView::Plain(name)),
        !spec_entries_map(entries).contains_key(name),
    ensures
        spec_taproot(entries, texts) matches Err(error) && spec_reports_missing(
            error,
            spec_resolved(spec_entries_map(entries)),
        ),
{
    let keys = spec_resolved(spec_entries_map(entries));
    lemma_missing_key_fails(entries, texts, at, name);
    let refs = fragment_key_refs(texts[at])->Ok_0;
    let k = choose|k: int| 0 <= k < refs.len() && refs[k] == KeyRefView::Plain(name);
    lemma_missing_reference(refs, keys, k);
    lemma_encode_all_fails(texts, keys, at);
    assert forall|k: int| 0 <= k < texts.len() implies (#[trigger] fragment_key_refs(
        texts[k],
    )) matches Ok(refs) && spec_all_plain(refs) by {
        lemma_all_parse(texts, k);
    }
    lemma_encode_all_plain(texts, keys);
}

/// Two key tables that bind the same names to the same texts, filled in
/// whatever order, give the same result for the same fragments: both an
/// output or both an error, the same output, and the same error unless the
/// error is an invalid key text, whose message is that of the first invalid
/// binding.
pub proof fn lemma_binding_order_is_irrelevant(
    one: Seq<EntryView>,
    other: Seq<EntryView>,
    texts: Seq<Seq<char>>,
)
    requires
        spec_distinct_names(one),
        spec_distinct_names(other),
        spec_entries_map(one) == spec_entries_map(other),
    ensures
        spec_taproot(one, texts) is Ok <==> spec_taproot(other, texts) is Ok,
        spec_taproot(one, texts) is Ok ==> spec_taproot(one, texts) == spec_taproot(other, texts),
        spec_taproot(one, texts) matches Err(error) ==> (error is InvalidKey <==> spec_taproot(
            other,
            texts,
        )->Err_0 is InvalidKey),
        spec_taproot(one, texts) matches Err(error) ==> (!(error is InvalidKey) ==> spec_taproot(
            one,
            texts,
        ) == spec_taproot(other, texts)),
{
    lemma_first_invalid_by_map(one);
    lemma_first_invalid_by_map(other);
}

/// Whether every fragment of a list parses and every key that it refers to
/// resolves under a key table.
pub open spec fn spec_fragments_resolve(texts: Seq<Seq<char>>, keys: Map<Seq<char>, Seq<u8>>) -> bool {
    forall|k: int|
        0 <= k < texts.len() ==> ((#[trigger] fragment_key_refs(texts[k])) matches Ok(refs)
            && spec_first_key_error(refs, keys) is None)
}

/// The leaves of a list of fragments that resolve: the script of each, with
/// weight 1.
pub open spec fn spec_resolved_leaves(texts: Seq<Seq<char>>, keys: Map<Seq<char>, Seq<u8>>) -> Seq<
    LeafView,
> {
    Seq::new(texts.len(), |k: int| LeafView { weight: 1, script: fragment_script(texts[k], keys) })
}

/// Whether the unspendable internal key exists and the tweak for a list of
/// leaves can be added to it.
pub open spec fn spec_can_tweak(leaves: Seq<LeafView>) -> bool {
    spec_nums_point() matches Some(internal_key) && xonly_tweak_add(
        internal_key,
        spec_tweak(internal_key, spec_merkle_root(spec_huffman_root(leaves))),
    ) is Some
}

/// A reference to a plain key that a table binds resolves.
pub proof fn lemma_bound_references_resolve(refs: Seq<KeyRefView>, keys: Map<Seq<char>, Seq<u8>>)
    requires
        forall|k: int|
            0 <= k < refs.len() ==> ((#[trigger] refs[k]) matches KeyRefView::Plain(name)
                && keys.contains_key(name)),
    ensures
        spec_first_key_error(refs, keys) is None,
    decreases refs.len(),
{
    if refs.len() > 0 {
        assert(refs[0] is Plain);
        assert(forall|k: int| 0 <= k < refs.len() - 1 ==> refs.drop_first()[k] == refs[k + 1]);
        lemma_bound_references_resolve(refs.drop_first(), keys);
    }
}

/// Where every key text is valid and every fragment resolves, the fragments
/// become leaves; the build then succeeds exactly if the unspendable key
/// exists and the tweak can be added to it.
pub proof fn lemma_taproot_succeeds(entries: Seq<EntryView>, texts: Seq<Seq<char>>)
    requires
        spec_first_invalid(entries) is None,
        spec_fragments_resolve(texts, spec_resolved(spec_entries_map(entries))),
    ensures
        spec_fragment_leaves(entries, texts) == Ok::<_, BuildErrorView>(
            spec_resolved_leaves(texts, spec_resolved(spec_entries_map(entries))),
        ),
        spec_taproot(entries, texts) is Ok <==> spec_can_tweak(
            spec_resolved_leaves(texts, spec_resolved(spec_entries_map(entries))),
        ),
        spec_taproot(entries, texts) is Ok ==> spec_taproot(entries, texts) == spec_build(
            spec_resolved_leaves(texts, spec_resolved(spec_entries_map(entries))),
            spec_nums_point()->0,
        ),
{
    let keys = spec_resolved(spec_entries_map(entries));
    lemma_parse_each(texts);
    assert forall|k: int| 0 <= k < texts.len() implies (#[trigger] spec_encode(texts[k], keys)) is Ok by {
        assert(fragment_key_refs(texts[k]) is Ok);
    }
    lemma_encode_each(texts, keys);
    let scripts = spec_encode_all(texts, keys)->Ok_0;
    assert(spec_unit_leaves(scripts) =~= spec_resolved_leaves(texts, keys)) by {
        assert forall|k: int| 0 <= k < texts.len() implies scripts[k] == fragment_script(
            texts[k],
            keys,
        ) by {
            assert(spec_encode(texts[k], keys) == Ok::<_, BuildErrorView>(scripts[k]));
            assert(fragment_key_refs(texts[k]) is Ok);
        }
    }
}

/// With valid key texts and no fragments, where the unspendable key exists
/// and the tweak can be added, the result is an output without merkle root
/// and without scripts; its tweak is the tagged hash of the internal key
/// alone, its output key is the internal key with that tweak added, and its
/// addresses are those of the output key.
pub proof fn lemma_no_fragments_output(entries: Seq<EntryView>)
    requires
        spec_first_invalid(entries) is None,
        spec_can_tweak(Seq::empty()),
    ensures
        spec_taproot(entries, Seq::empty()) matches Ok(output) && output.merkle_root is None
            && output.scripts.len() == 0 && spec_nums_point() == Some(output.internal_key)
            && output.tweak == spec_tagged_hash("TapTweak".spec_bytes(), output.internal_key)
            && xonly_tweak_add(output.internal_key, output.tweak) == Some(output.output_key)
            && output.address == spec_addresses(output.output_key),
{
    let texts = Seq::<Seq<char>>::empty();
    let keys = spec_resolved(spec_entries_map(entries));
    lemma_taproot_succeeds(entries, texts);
    assert(spec_resolved_leaves(texts, keys) =~= Seq::<LeafView>::empty());
}

/// With valid key texts and one fragment that resolves, where the
/// unspendable key exists and the tweak can be added, the result is an
/// output whose merkle root is the leaf hash of the fragment's script, with
/// no branch hash applied; the one script has an empty proof path; the tweak
/// is the tagged hash of internal key and merkle root; the output key is the
/// internal key with the tweak added, and the addresses are those of the
/// output key.
pub proof fn lemma_single_fragment_output(entries: Seq<EntryView>, text: Seq<char>)
    requires
        spec_first_invalid(entries) is None,
        spec_fragments_resolve(seq![text], spec_resolved(spec_entries_map(entries))),
        spec_can_tweak(spec_resolved_leaves(seq![text], spec_resolved(spec_entries_map(entries)))),
    ensures
        spec_taproot(entries, seq![text]) matches Ok(output) && output.merkle_root == Some(
            spec_leaf_hash(fragment_script(text, spec_resolved(spec_entries_map(entries)))),
        ) && output.scripts.len() == 1 && output.scripts[0].script == fragment_script(
            text,
            spec_resolved(spec_entries_map(entries)),
        ) && output.scripts[0].leaf_version == TAPSCRIPT_LEAF_VERSION
            && output.scripts[0].merkle_branch.len() == 0 && output.tweak
            == spec_tagged_hash(
            "TapTweak".spec_bytes(),
            output.internal_key + output.merkle_root->0,
        ) && xonly_tweak_add(output.internal_key, output.tweak) == Some(output.output_key)
            && output.address == spec_addresses(output.output_key),
{
    let keys = spec_resolved(spec_entries_map(entries));
    let texts = seq![text];
    lemma_taproot_succeeds(entries, texts);
    let leaf = LeafView { weight: 1, script: fragment_script(text, keys) };
    assert(spec_resolved_leaves(texts, keys) =~= seq![leaf]);
    lemma_single_leaf(leaf, spec_nums_point()->0);
    lemma_single_leaf_root(leaf);
}

/// With valid key texts and two fragments that resolve, where the
/// unspendable key exists and the tweak can be added, both orders of the
/// fragments give an output, with one merkle root: the branch hash of the
/// two leaf hashes, the lexicographically smaller first. Tweak, output key
/// and addresses are the same too.
pub proof fn lemma_two_fragments_output(entries: Seq<EntryView>, first: Seq<char>, second: Seq<char>)
    requires
        spec_first_invalid(entries) is None,
        spec_fragments_resolve(seq![first, second], spec_resolved(spec_entries_map(entries))),
        spec_can_tweak(
            spec_resolved_leaves(seq![first, second], spec_resolved(spec_entries_map(entries))),
        ),
    ensures
        spec_taproot(entries, seq![first, second]) matches Ok(one) && spec_taproot(
            entries,
            seq![second, first],
        ) matches Ok(other) && one.merkle_root == Some(
            spec_branch_hash(
                spec_leaf_hash(fragment_script(first, spec_resolved(spec_entries_map(entries)))),
                spec_leaf_hash(fragment_script(second, spec_resolved(spec_entries_map(entries)))),
            ),
        ) && one.merkle_root == other.merkle_root && one.tweak == other.tweak && one.tweak
            == spec_tagged_hash("TapTweak".spec_bytes(), one.internal_key + one.merkle_root->0)
            && one.output_key == other.output_key && one.address == other.address && one.address
            == spec_addresses(one.output_key),
{
    let keys = spec_resolved(spec_entries_map(entries));
    let texts = seq![first, second];
    lemma_taproot_succeeds(entries, texts);
    let a = LeafView { weight: 1, script: fragment_script(first, keys) };
    let b = LeafView { weight: 1, script: fragment_script(second, keys) };
    assert(spec_resolved_leaves(texts, keys) =~= seq![a, b]);
    lemma_two_leaves_swap(a, b, spec_nums_point()->0);
    lemma_two_fragments_swap(entries, first, second);
}

/// The leaf hash of a script shorter than 253 bytes: the tagged hash, under
/// "TapLeaf", of the leaf version 0xc0, the length in one byte and the
/// script. For the 34 bytes of a key check the length byte is 0x22.
pub proof fn lemma_leaf_hash_of_short_script(script: Seq<u8>)
    requires
        script.len() < 0xfd,
    ensures
        spec_leaf_hash(script) == spec_tagged_hash(
            "TapLeaf".spec_bytes(),
            seq![0xc0u8, script.len() as u8] + script,
        ),
{
    assert(seq![TAPSCRIPT_LEAF_VERSION] + spec_compact_size(script.len()) + script =~= seq![
        0xc0u8,
        script.len() as u8,
    ] + script);
}

/// The leaf hash of the script that checks a signature against one key,
/// which is a push of the key's 32 bytes followed by the check: the tagged
/// hash, under "TapLeaf", of the leaf version 0xc0, the length byte 0x22,
/// the push byte 0x20, the key and the check byte 0xac.
pub proof fn lemma_leaf_hash_of_key_check(key: Seq<u8>)
    requires
        key.len() == 32,
    ensures
        spec_leaf_hash(seq![0x20u8] + key + seq![0xacu8]) == spec_tagged_hash(
            "TapLeaf".spec_bytes(),
            seq![0xc0u8, 0x22u8, 0x20u8] + key + seq![0xacu8],
        ),
{
    let script = seq![0x20u8] + key + seq![0xacu8];
    lemma_leaf_hash_of_short_script(script);
    assert(seq![0xc0u8, script.len() as u8] + script =~= seq![0xc0u8, 0x22u8, 0x20u8] + key + seq![
        0xacu8,
    ]);
}

} // verus!
