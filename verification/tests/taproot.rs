use core::str::FromStr;
use miniscript_taproot::error::BuildError;
use miniscript_taproot::fragments::Fragments;
use miniscript_taproot::key::{nums_point, PublicKey};
use miniscript_taproot::keytab::KeyTab;
use miniscript_taproot::script::{encode, Fragment, KeyRef};
use miniscript_taproot::taproot::{
    build, fragment_leaves, parse_fragments, taproot, taproot_under, TaprootOutput,
};
use miniscript_taproot::text::to_hex;
use miniscript_taproot::tree::{branch_hash, leaf_hash, LeafEntry};
use miniscript_taproot::hash::tagged_hash;
use sapio_miniscript::bitcoin::hashes;
use sapio_miniscript::bitcoin::secp256k1::{Secp256k1, XOnlyPublicKey};
use sapio_miniscript::bitcoin::util::taproot::TaprootSpendInfo;
use sapio_miniscript::bitcoin::{Address, Script};

const KEY_ONE: &str = "79be667ef9dcbbac55a06295ce870b07029bfcdb2dce28d959f2815b16f81798";
const KEY_TWO: &str = "c6047f9441ed7d6d3045406e95c07cd85c778e4b8cef3ca7abac09b95c709ee5";
const KEY_THREE: &str = "f9308a019258c31049344f85f89d5229b531c845836f99b08601f113bce036f9";

fn keys() -> KeyTab {
    let mut tab = KeyTab::new();
    tab.add("A".to_string(), KEY_ONE.to_string());
    tab.add("B".to_string(), KEY_TWO.to_string());
    tab.add("C".to_string(), KEY_THREE.to_string());
    tab
}

fn fragments(texts: &[&str]) -> Fragments {
    let mut list = Fragments::new();
    for text in texts {
        list.add(text.to_string());
    }
    list
}

fn run(texts: &[&str]) -> Result<TaprootOutput, BuildError> {
    taproot(fragments(texts), &keys())
}

fn pk_script(key_hex: &str) -> Vec<u8> {
    let key = PublicKey::from_hex(key_hex).ok().unwrap();
    let mut script = vec![0x20];
    script.extend_from_slice(key.as_bytes());
    script.push(0xac);
    script
}

fn reference(scripts: &[Vec<u8>]) -> TaprootSpendInfo {
    let secp = Secp256k1::verification_only();
    let nums = XOnlyPublicKey::from_slice(nums_point().unwrap().as_bytes()).unwrap();
    if scripts.is_empty() {
        TaprootSpendInfo::new_key_spend(&secp, nums, None)
    } else {
        let weighted: Vec<(u32, Script)> =
            scripts.iter().map(|script| (1, Script::from(script.clone()))).collect();
        TaprootSpendInfo::with_huffman_tree(&secp, nums, weighted).unwrap()
    }
}

fn assert_agrees(output: &TaprootOutput, info: &TaprootSpendInfo) {
    assert_eq!(output.tweak, hashes::Hash::into_inner(info.tap_tweak()).to_vec());
    assert_eq!(output.internal_key, info.internal_key().serialize().to_vec());
    assert_eq!(
        output.merkle_root,
        info.merkle_root().map(|root| hashes::Hash::into_inner(root).to_vec())
    );
    assert_eq!(output.output_key, info.output_key().as_inner().serialize().to_vec());
}

#[test]
fn fragment_lists_its_key_references() {
    let fragment = Fragment::parse("and_v(v:pk(A),pk(B))").ok().unwrap();
    let names: Vec<String> = fragment
        .references()
        .iter()
        .map(|key| match key {
            KeyRef::Plain(name) => format!("plain {}", name),
            KeyRef::Hashed(name) => format!("hashed {}", name),
        })
        .collect();
    assert_eq!(names, vec!["plain A".to_string(), "plain B".to_string()]);
    let hashed = Fragment::parse("and_v(v:pk(A),pkh(B))").ok().unwrap();
    assert!(matches!(hashed.references()[1], KeyRef::Hashed(_)));
}

#[test]
fn fragment_that_is_no_miniscript_is_refused() {
    assert!(matches!(Fragment::parse("pk(A").err(), Some(BuildError::ScriptParse(_))));
    assert!(matches!(Fragment::parse("").err(), Some(BuildError::ScriptParse(_))));
    assert!(matches!(Fragment::parse("and_v(pk(A),pk(B))").err(), Some(BuildError::ScriptParse(_))));
    assert!(matches!(Fragment::parse("and_v(v:pk(A),pk(A))").err(), Some(BuildError::ScriptParse(_))));
}

#[test]
fn fragment_encodes_with_resolved_keys() {
    let table = keys().parse().ok().unwrap();
    assert_eq!(encode("pk(A)", &table).ok().unwrap(), pk_script(KEY_ONE));
    assert_eq!(encode("pk(B)", &table).ok().unwrap(), pk_script(KEY_TWO));
    let both = encode("and_v(v:pk(A),pk(B))", &table).ok().unwrap();
    let mut expected = vec![0x20];
    expected.extend_from_slice(&pk_script(KEY_ONE)[1..33]);
    expected.push(0xad);
    expected.extend_from_slice(&pk_script(KEY_TWO));
    assert_eq!(both, expected);
}

#[test]
fn fragment_with_a_missing_key_does_not_encode() {
    let table = keys().parse().ok().unwrap();
    let fragment = Fragment::parse("and_v(v:pk(A),pk(Z))").ok().unwrap();
    match fragment.check_keys(&table) {
        Err(BuildError::MissingKey(name)) => assert_eq!(name, "Z"),
        _ => panic!("a name that is not bound must be reported"),
    }
    match fragment.encode(&table) {
        Err(BuildError::MissingKey(name)) => assert_eq!(name, "Z"),
        _ => panic!("a name that is not bound must be reported"),
    }
    assert!(Fragment::parse("pk(A)").ok().unwrap().check_keys(&table).is_ok());
}

#[test]
fn fragment_with_a_key_hash_does_not_encode() {
    let table = keys().parse().ok().unwrap();
    match encode("pkh(A)", &table) {
        Err(error) => {
            assert!(matches!(error, BuildError::UnsupportedKeyContext(_)));
            assert_eq!(error.message(), "No PKH Support for A");
        }
        Ok(_) => panic!("a key hash must not be translated"),
    }
    match encode("and_v(v:pkh(Z),pk(Y))", &table) {
        Err(error) => assert_eq!(error.message(), "No PKH Support for Z"),
        Ok(_) => panic!("a key hash must not be translated"),
    }
    match encode("and_v(v:pk(Y),pkh(Z))", &table) {
        Err(error) => assert_eq!(error.message(), "Missing Key: Y"),
        Ok(_) => panic!("a name that is not bound must be reported"),
    }
}

#[test]
fn fragments_parse_in_order() {
    let parsed = parse_fragments(&fragments(&["pk(A)", "pk(B)"]));
    assert_eq!(parsed.ok().unwrap().len(), 2);
    let failed = parse_fragments(&fragments(&["pk(A)", "pk(", "nonsense("]));
    let alone = Fragment::parse("pk(").err().unwrap();
    assert_eq!(failed.err().unwrap().message(), alone.message());
}

#[test]
fn single_fragment_root_is_the_leaf_hash() {
    let mut tab = KeyTab::new();
    tab.add("A".to_string(), KEY_ONE.to_string());
    let output = taproot(fragments(&["pk(A)"]), &tab).ok().unwrap();
    let script = pk_script(KEY_ONE);
    assert_eq!(script.len(), 34);
    let mut data = vec![0xc0, 0x22];
    data.extend_from_slice(&script);
    assert_eq!(output.merkle_root, Some(tagged_hash("TapLeaf", &data)));
    assert_eq!(output.merkle_root, Some(leaf_hash(&script)));
    assert_eq!(output.scripts.len(), 1);
    assert_eq!(output.scripts[0].script, script);
    assert_eq!(output.scripts[0].leaf_version, 0xc0);
    assert!(output.scripts[0].merkle_branch.is_empty());
    assert_agrees(&output, &reference(&[script]));
}

#[test]
fn single_fragment_has_four_addresses() {
    let output = run(&["pk(A)"]).ok().unwrap();
    assert!(output.address.main.starts_with("bc1p"));
    assert!(output.address.test.starts_with("tb1p"));
    assert!(output.address.regtest.starts_with("bcrt1p"));
    assert!(output.address.signet.starts_with("tb1p"));
    let mut program = vec![0x51, 0x20];
    program.extend_from_slice(&output.output_key);
    for text in [
        &output.address.main,
        &output.address.test,
        &output.address.regtest,
        &output.address.signet,
    ] {
        let address = Address::from_str(text).unwrap();
        assert_eq!(address.script_pubkey().into_bytes(), program);
    }
    assert_eq!(output.address.test, output.address.signet);
    assert_ne!(output.address.main, output.address.test);
    assert_ne!(output.address.main, to_hex(&output.output_key));
}

#[test]
fn no_fragments_give_a_key_only_output() {
    let output = run(&[]).ok().unwrap();
    assert_eq!(output.merkle_root, None);
    assert!(output.scripts.is_empty());
    let nums = nums_point().unwrap();
    assert_eq!(output.internal_key, nums.as_bytes().to_vec());
    assert_eq!(output.tweak, tagged_hash("TapTweak", nums.as_bytes()));
    let expected = nums.tweak_add(&output.tweak).unwrap();
    assert_eq!(output.output_key, expected.as_bytes().to_vec());
    assert_ne!(output.output_key, output.internal_key);
    assert_agrees(&output, &reference(&[]));
}

#[test]
fn two_fragments_in_either_order_give_one_root() {
    let one = run(&["pk(A)", "pk(B)"]).ok().unwrap();
    let other = run(&["pk(B)", "pk(A)"]).ok().unwrap();
    assert_eq!(one.merkle_root, other.merkle_root);
    assert_eq!(one.tweak, other.tweak);
    assert_eq!(one.output_key, other.output_key);
    assert_eq!(one.address.main, other.address.main);
    let a = leaf_hash(&pk_script(KEY_ONE));
    let b = leaf_hash(&pk_script(KEY_TWO));
    assert_eq!(one.merkle_root, Some(branch_hash(&a, &b)));
    assert_eq!(one.scripts[0].script, pk_script(KEY_ONE));
    assert_eq!(one.scripts[0].merkle_branch, vec![b.clone()]);
    assert_eq!(one.scripts[1].merkle_branch, vec![a.clone()]);
    assert_eq!(other.scripts[0].script, pk_script(KEY_TWO));
    assert_agrees(&one, &reference(&[pk_script(KEY_ONE), pk_script(KEY_TWO)]));
}

#[test]
fn three_fragments_merge_in_insertion_order() {
    let output = run(&["pk(A)", "pk(B)", "pk(C)"]).ok().unwrap();
    let a = leaf_hash(&pk_script(KEY_ONE));
    let b = leaf_hash(&pk_script(KEY_TWO));
    let c = leaf_hash(&pk_script(KEY_THREE));
    let ab = branch_hash(&a, &b);
    let root = branch_hash(&c, &ab);
    assert_eq!(output.merkle_root, Some(root.clone()));
    assert_eq!(output.scripts.len(), 3);
    assert_eq!(output.scripts[0].merkle_branch, vec![b.clone(), c.clone()]);
    assert_eq!(output.scripts[1].merkle_branch, vec![a.clone(), c.clone()]);
    assert_eq!(output.scripts[2].merkle_branch, vec![ab.clone()]);
    let mut data = output.internal_key.clone();
    data.extend_from_slice(&root);
    assert_eq!(output.tweak, tagged_hash("TapTweak", &data));
}

#[test]
fn same_input_gives_the_same_output() {
    let one = run(&["pk(A)", "and_v(v:pk(B),pk(C))"]).ok().unwrap();
    let other = run(&["pk(A)", "and_v(v:pk(B),pk(C))"]).ok().unwrap();
    assert_eq!(one.tweak, other.tweak);
    assert_eq!(one.internal_key, other.internal_key);
    assert_eq!(one.merkle_root, other.merkle_root);
    assert_eq!(one.output_key, other.output_key);
    assert_eq!(one.address.main, other.address.main);
    assert_eq!(one.address.test, other.address.test);
    assert_eq!(one.address.regtest, other.address.regtest);
    assert_eq!(one.address.signet, other.address.signet);
}

#[test]
fn missing_key_fails_the_whole_request() {
    match run(&["pk(A)", "pk(Z)"]) {
        Err(error) => {
            assert!(matches!(error, BuildError::MissingKey(_)));
            assert_eq!(error.message(), "Missing Key: Z");
        }
        Ok(_) => panic!("a missing key must not give an output"),
    }
}

#[test]
fn key_hash_fails_the_whole_request() {
    match run(&["pk(A)", "pkh(B)"]) {
        Err(error) => assert_eq!(error.message(), "No PKH Support for B"),
        Ok(_) => panic!("a key hash must not give an output"),
    }
}

#[test]
fn bad_fragment_fails_before_any_translation() {
    assert!(matches!(run(&["pk(Z)", "pk("]), Err(BuildError::ScriptParse(_))));
}

#[test]
fn bad_key_text_fails_before_any_fragment() {
    let mut tab = keys();
    tab.add("D".to_string(), "00".to_string());
    match taproot(fragments(&["pk("]), &tab) {
        Err(error) => {
            assert!(matches!(error, BuildError::InvalidKey(_)));
            assert_eq!(error.message(), "malformed public key");
        }
        Ok(_) => panic!("a bad key text must not give an output"),
    }
}

#[test]
fn build_takes_weights_and_an_internal_key() {
    let key = PublicKey::from_hex(KEY_ONE).ok().unwrap();
    let leaves = vec![
        LeafEntry { weight: 3, script: vec![0x51] },
        LeafEntry { weight: 2, script: vec![0x52] },
        LeafEntry { weight: 5, script: vec![0x53] },
    ];
    let output = build(&leaves, &key).ok().unwrap();
    let low = branch_hash(&leaf_hash(&[0x52]), &leaf_hash(&[0x51]));
    let root = branch_hash(&leaf_hash(&[0x53]), &low);
    assert_eq!(output.merkle_root, Some(root.clone()));
    assert_eq!(to_hex(&output.internal_key), KEY_ONE);
    let mut data = output.internal_key.clone();
    data.extend_from_slice(&root);
    assert_eq!(output.tweak, tagged_hash("TapTweak", &data));
    assert_eq!(output.output_key, key.tweak_add(&output.tweak).unwrap().as_bytes().to_vec());
    assert_eq!(output.scripts[2].merkle_branch, vec![low]);
}

#[test]
fn sibling_fragments_swap_without_changing_the_root() {
    let base = run(&["pk(A)", "pk(B)", "pk(C)", "and_v(v:pk(A),pk(B))"]).ok().unwrap();
    let front = run(&["pk(B)", "pk(A)", "pk(C)", "and_v(v:pk(A),pk(B))"]).ok().unwrap();
    let back = run(&["pk(A)", "pk(B)", "and_v(v:pk(A),pk(B))", "pk(C)"]).ok().unwrap();
    assert_eq!(base.merkle_root, front.merkle_root);
    assert_eq!(base.merkle_root, back.merkle_root);
    assert_eq!(base.output_key, front.output_key);
    assert_eq!(base.address.main, back.address.main);
    let middle = run(&["pk(A)", "pk(C)", "pk(B)", "and_v(v:pk(A),pk(B))"]).ok().unwrap();
    assert_ne!(base.merkle_root, middle.merkle_root);
}

#[test]
fn outer_fragments_swap_changes_the_root() {
    let base = run(&["pk(A)", "pk(B)", "pk(C)"]).ok().unwrap();
    let turned = run(&["pk(C)", "pk(B)", "pk(A)"]).ok().unwrap();
    assert_ne!(base.merkle_root, turned.merkle_root);
    let front = run(&["pk(B)", "pk(A)", "pk(C)"]).ok().unwrap();
    assert_eq!(base.merkle_root, front.merkle_root);
}

#[test]
fn key_references_translate_one_by_one() {
    let table = keys().parse().ok().unwrap();
    let plain = Fragment::translate_key(&KeyRef::Plain("B".to_string()), &table);
    assert_eq!(to_hex(plain.ok().unwrap().as_bytes()), KEY_TWO);
    let missing = Fragment::translate_key(&KeyRef::Plain("Q".to_string()), &table);
    assert_eq!(missing.err().unwrap().message(), "Missing Key: Q");
    let hashed = Fragment::translate_key(&KeyRef::Hashed("A".to_string()), &table);
    assert_eq!(hashed.err().unwrap().message(), "No PKH Support for A");
}

#[test]
fn fragments_become_leaves_of_weight_one() {
    let leaves = fragment_leaves(&fragments(&["pk(A)", "pk(B)"]), &keys()).ok().unwrap();
    assert_eq!(leaves.len(), 2);
    assert_eq!(leaves[0].weight, 1);
    assert_eq!(leaves[0].script, pk_script(KEY_ONE));
    assert_eq!(leaves[1].weight, 1);
    assert_eq!(leaves[1].script, pk_script(KEY_TWO));
    assert!(fragment_leaves(&fragments(&[]), &keys()).ok().unwrap().is_empty());
    assert!(matches!(
        fragment_leaves(&fragments(&["pk(A)", "pk(Q)"]), &keys()),
        Err(BuildError::MissingKey(_))
    ));
}

#[test]
fn output_under_the_unspendable_key_is_the_default() {
    let nums = nums_point().unwrap();
    let under = taproot_under(fragments(&["pk(A)", "pk(B)"]), &keys(), &nums).ok().unwrap();
    let default = run(&["pk(A)", "pk(B)"]).ok().unwrap();
    assert_eq!(under.internal_key, default.internal_key);
    assert_eq!(under.output_key, default.output_key);
    assert_eq!(under.tweak, default.tweak);
    let own = PublicKey::from_hex(KEY_THREE).ok().unwrap();
    let other = taproot_under(fragments(&["pk(A)", "pk(B)"]), &keys(), &own).ok().unwrap();
    assert_eq!(to_hex(&other.internal_key), KEY_THREE);
    assert_eq!(other.merkle_root, default.merkle_root);
    assert_ne!(other.output_key, default.output_key);
}

#[test]
fn order_of_the_key_table_does_not_matter() {
    let mut one = KeyTab::new();
    one.add("A".to_string(), KEY_ONE.to_string());
    one.add("B".to_string(), KEY_TWO.to_string());
    one.add("C".to_string(), "zz".to_string());
    one.add("C".to_string(), KEY_THREE.to_string());
    let mut other = KeyTab::new();
    other.add("C".to_string(), KEY_THREE.to_string());
    other.add("B".to_string(), "00".to_string());
    other.add("A".to_string(), KEY_ONE.to_string());
    other.add("B".to_string(), KEY_TWO.to_string());
    let texts = ["pk(B)", "and_v(v:pk(A),pk(C))", "pk(A)"];
    let first = taproot(fragments(&texts), &one).ok().unwrap();
    let second = taproot(fragments(&texts), &other).ok().unwrap();
    assert_eq!(first.tweak, second.tweak);
    assert_eq!(first.internal_key, second.internal_key);
    assert_eq!(first.merkle_root, second.merkle_root);
    assert_eq!(first.output_key, second.output_key);
    assert_eq!(first.address.main, second.address.main);
    assert_eq!(first.address.test, second.address.test);
    assert_eq!(first.address.regtest, second.address.regtest);
    assert_eq!(first.address.signet, second.address.signet);
    assert_eq!(first.scripts.len(), second.scripts.len());
    for (left, right) in first.scripts.iter().zip(second.scripts.iter()) {
        assert_eq!(left.script, right.script);
        assert_eq!(left.merkle_branch, right.merkle_branch);
    }
    one.add("D".to_string(), "bad".to_string());
    other.add("D".to_string(), "worse".to_string());
    assert!(taproot(fragments(&texts), &one).is_err());
    assert!(taproot(fragments(&texts), &other).is_err());
}

#[test]
fn outside_tree_builder_refuses_what_the_library_accepts() {
    let secp = Secp256k1::verification_only();
    let nums = XOnlyPublicKey::from_slice(nums_point().unwrap().as_bytes()).unwrap();
    let none: Vec<(u32, Script)> = Vec::new();
    assert!(TaprootSpendInfo::with_huffman_tree(&secp, nums, none).is_err());
    assert!(run(&[]).is_ok());
}
