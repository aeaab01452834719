use miniscript_taproot::descriptor::{
    classify_descriptor, get_descriptor_types, get_script_type, get_threshold_count, threshold_of,
    type_tag, DescriptorKind,
};
use miniscript_taproot::error::ThresholdError;

const K1: &str = "0279be667ef9dcbbac55a06295ce870b07029bfcdb2dce28d959f2815b16f81798";
const K2: &str = "02c6047f9441ed7d6d3045406e95c07cd85c778e4b8cef3ca7abac09b95c709ee5";
const K3: &str = "02f9308a019258c31049344f85f89d5229b531c845836f99b08601f113bce036f9";
const X1: &str = "79be667ef9dcbbac55a06295ce870b07029bfcdb2dce28d959f2815b16f81798";

fn tag(text: &str) -> String {
    get_script_type(text).unwrap()
}

#[test]
fn descriptor_types_are_named_after_their_kinds() {
    let types = get_descriptor_types();
    assert_eq!(types.Bare, "Bare");
    assert_eq!(types.Sh, "Sh");
    assert_eq!(types.Pkh, "Pkh");
    assert_eq!(types.Wpkh, "Wpkh");
    assert_eq!(types.Wsh, "Wsh");
    assert_eq!(types.ShWsh, "ShWsh");
    assert_eq!(types.ShWpkh, "ShWpkh");
    assert_eq!(types.ShSortedMulti, "ShSortedMulti");
    assert_eq!(types.WshSortedMulti, "WshSortedMulti");
    assert_eq!(types.ShWshSortedMulti, "ShWshSortedMulti");
}

#[test]
fn kinds_have_tags() {
    assert_eq!(type_tag(DescriptorKind::Bare), "Bare");
    assert_eq!(type_tag(DescriptorKind::Sh), "Sh");
    assert_eq!(type_tag(DescriptorKind::ShWshSortedMulti), "ShWshSortedMulti");
    assert_eq!(type_tag(DescriptorKind::ShWpkh), "");
    assert_eq!(type_tag(DescriptorKind::Tr), "");
}

#[test]
fn script_type_of_each_kind() {
    assert_eq!(tag(&format!("pk({})", K1)), "Bare");
    assert_eq!(tag(&format!("pkh({})", K1)), "Pkh");
    assert_eq!(tag(&format!("wpkh({})", K1)), "Wpkh");
    assert_eq!(tag(&format!("wsh(pk({}))", K1)), "Wsh");
    assert_eq!(tag(&format!("sh(pk({}))", K1)), "Sh");
    assert_eq!(tag(&format!("sh(wsh(pk({})))", K1)), "ShWsh");
    assert_eq!(tag(&format!("sh(wpkh({}))", K1)), "");
    assert_eq!(tag(&format!("tr({})", X1)), "");
    assert_eq!(tag(&format!("sh(sortedmulti(2,{},{}))", K1, K2)), "ShSortedMulti");
    assert_eq!(tag(&format!("wsh(sortedmulti(2,{},{}))", K1, K2)), "WshSortedMulti");
}

#[test]
fn nested_sorted_multisig_is_classified() {
    let sorted = format!("sh(wsh(sortedmulti(2,{},{})))", K1, K2);
    assert_eq!(get_script_type(&sorted), Ok("ShWshSortedMulti".to_string()));
    assert_eq!(classify_descriptor(&sorted).ok(), Some(DescriptorKind::ShWshSortedMulti));
    let unsorted = format!("sh(wsh(multi(2,{},{})))", K1, K2);
    assert_eq!(get_script_type(&unsorted), Ok("ShWsh".to_string()));
    assert!(get_script_type("sh(wsh(multi(2,A,B)))").is_err());
}

#[test]
fn text_that_is_no_descriptor_is_refused() {
    assert!(get_script_type("").is_err());
    assert!(get_script_type("wsh(").is_err());
    assert!(classify_descriptor("nonsense").is_err());
    assert_ne!(get_script_type("nonsense").err(), Some("nonsense".to_string()));
}

#[test]
fn threshold_of_sorted_multisig() {
    assert_eq!(threshold_of(&format!("sh(sortedmulti(2,{},{}))", K1, K2)).ok(), Some(2));
    assert_eq!(threshold_of(&format!("wsh(sortedmulti(1,{},{},{}))", K1, K2, K3)).ok(), Some(1));
    assert_eq!(threshold_of(&format!("sh(wsh(sortedmulti(3,{},{},{})))", K1, K2, K3)).ok(), Some(3));
    assert_eq!(
        get_threshold_count(&format!("sh(wsh(sortedmulti(3,{},{},{})))", K1, K2, K3)),
        Ok("3".to_string())
    );
}

#[test]
fn threshold_errors_say_why() {
    let nested = threshold_of(&format!("sh(wsh(multi(2,{},{})))", K1, K2)).err().unwrap();
    assert!(matches!(nested, ThresholdError::NoNestedMultisig));
    assert_eq!(nested.message(), "no multisig found in nested wsh");
    let plain = threshold_of(&format!("wsh(multi(2,{},{}))", K1, K2)).err().unwrap();
    assert!(matches!(plain, ThresholdError::NoThreshold));
    assert_eq!(plain.message(), "No threshold");
    let hashed = threshold_of(&format!("sh(wpkh({}))", K1)).err().unwrap();
    assert!(matches!(hashed, ThresholdError::NoThreshold));
    let script_hash = threshold_of(&format!("sh(multi(1,{}))", K1)).err().unwrap();
    assert!(matches!(script_hash, ThresholdError::NoThreshold));
    let key = threshold_of(&format!("wpkh({})", K1)).err().unwrap();
    assert!(matches!(key, ThresholdError::NotThresholdType));
    assert_eq!(key.message(), "Descriptor type does not have threshold");
    assert_eq!(
        get_threshold_count(&format!("pkh({})", K1)),
        Err("Descriptor type does not have threshold".to_string())
    );
    let broken = threshold_of("sh(").err().unwrap();
    assert!(matches!(broken, ThresholdError::Parse(_)));
    assert_eq!(get_threshold_count("sh(").err(), Some(broken.message()));
}
