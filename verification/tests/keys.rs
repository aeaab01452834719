use miniscript_taproot::hash::tagged_hash;
use miniscript_taproot::key::{nums_point, PublicKey};
use miniscript_taproot::keytab::{KeyTab, KeyTable};
use miniscript_taproot::error::BuildError;
use miniscript_taproot::text::to_hex;
use sapio_miniscript::bitcoin::hashes;
use sapio_miniscript::bitcoin::secp256k1::{Secp256k1, XOnlyPublicKey};
use sapio_miniscript::bitcoin::util::schnorr::TapTweak;

const KEY_ONE: &str = "79be667ef9dcbbac55a06295ce870b07029bfcdb2dce28d959f2815b16f81798";
const KEY_TWO: &str = "c6047f9441ed7d6d3045406e95c07cd85c778e4b8cef3ca7abac09b95c709ee5";

fn sha256(data: &[u8]) -> Vec<u8> {
    let digest: hashes::sha256::Hash = hashes::Hash::hash(data);
    hashes::Hash::into_inner(digest).to_vec()
}

#[test]
fn key_parses_from_hex() {
    let key = PublicKey::from_hex(KEY_ONE);
    assert!(key.is_ok());
    let key = key.ok().unwrap();
    assert_eq!(to_hex(key.as_bytes()), KEY_ONE);
    assert_eq!(key.as_bytes().len(), 32);
    assert_eq!(key.duplicate().as_bytes(), key.as_bytes());
}

#[test]
fn key_from_bad_hex_is_refused() {
    assert_eq!(PublicKey::from_hex("zz").err(), Some("malformed public key".to_string()));
    assert_eq!(PublicKey::from_hex("").err(), Some("malformed public key".to_string()));
    assert_eq!(PublicKey::from_hex(&KEY_ONE[2..]).err(), Some("malformed public key".to_string()));
    let off_curve = "fffffffffffffffffffffffffffffffffffffffffffffffffffffffefffffc2f";
    assert!(PublicKey::from_hex(off_curve).is_err());
}

#[test]
fn key_from_slice_checks_the_point() {
    let good = PublicKey::from_hex(KEY_TWO).ok().unwrap();
    let again = PublicKey::from_slice(good.as_bytes());
    assert!(again.is_some());
    assert_eq!(again.unwrap().as_bytes(), good.as_bytes());
    assert!(PublicKey::from_slice(&[0xff; 32]).is_none());
    assert!(PublicKey::from_slice(&good.as_bytes()[..31]).is_none());
    assert!(PublicKey::from_slice(&[]).is_none());
}

#[test]
fn nums_point_is_the_first_valid_digest() {
    let mut candidate = sha256(b"Hello");
    while XOnlyPublicKey::from_slice(&candidate).is_err() {
        candidate = sha256(&candidate);
    }
    let nums = nums_point();
    assert!(nums.is_some());
    assert_eq!(nums.unwrap().as_bytes(), &candidate[..]);
}

#[test]
fn nums_point_is_reproducible() {
    let first = nums_point().unwrap();
    let second = nums_point().unwrap();
    assert_eq!(first.as_bytes(), second.as_bytes());
    assert_ne!(first.as_bytes(), &sha256(b"")[..]);
}

#[test]
fn tweak_add_agrees_with_tap_tweak() {
    let key = PublicKey::from_hex(KEY_ONE).ok().unwrap();
    let tweak = tagged_hash("TapTweak", key.as_bytes());
    let sum = key.tweak_add(&tweak);
    assert!(sum.is_some());
    let secp = Secp256k1::verification_only();
    let point = XOnlyPublicKey::from_slice(key.as_bytes()).unwrap();
    let (expected, _) = point.tap_tweak(&secp, None);
    assert_eq!(sum.unwrap().as_bytes(), &expected.as_inner().serialize()[..]);
}

#[test]
fn tweak_add_refuses_a_bad_tweak() {
    let key = PublicKey::from_hex(KEY_ONE).ok().unwrap();
    assert!(key.tweak_add(&[0xff; 32]).is_none());
    assert!(key.tweak_add(&[1, 2, 3]).is_none());
}

#[test]
fn key_tab_binds_and_replaces() {
    let mut tab = KeyTab::new();
    tab.add("A".to_string(), "zz".to_string());
    tab.add("B".to_string(), KEY_TWO.to_string());
    tab.add("A".to_string(), KEY_ONE.to_string());
    let table = tab.parse();
    assert!(table.is_ok());
    let table = table.ok().unwrap();
    assert_eq!(to_hex(table.get(&"A".to_string()).unwrap().as_bytes()), KEY_ONE);
    assert_eq!(to_hex(table.get(&"B".to_string()).unwrap().as_bytes()), KEY_TWO);
    assert!(table.get(&"C".to_string()).is_none());
}

#[test]
fn key_tab_with_a_bad_key_fails() {
    let mut tab = KeyTab::new();
    tab.add("A".to_string(), KEY_ONE.to_string());
    tab.add("B".to_string(), "nothex".to_string());
    match tab.parse() {
        Err(BuildError::InvalidKey(message)) => assert_eq!(message, "malformed public key"),
        _ => panic!("a bad key text must fail the table"),
    }
}

#[test]
fn empty_key_tab_parses_to_an_empty_table() {
    let table = KeyTab::new().parse().ok().unwrap();
    assert!(table.get(&"A".to_string()).is_none());
}

#[test]
fn key_table_resolves_names() {
    let mut table = KeyTable::new();
    table.insert("A".to_string(), PublicKey::from_hex(KEY_ONE).ok().unwrap());
    table.insert("A".to_string(), PublicKey::from_hex(KEY_TWO).ok().unwrap());
    let found = table.resolve(&"A".to_string());
    assert_eq!(to_hex(found.ok().unwrap().as_bytes()), KEY_TWO);
    match table.resolve(&"B".to_string()) {
        Err(error) => {
            assert!(matches!(error, BuildError::MissingKey(_)));
            assert_eq!(error.message(), "Missing Key: B");
        }
        Ok(_) => panic!("a name that is not bound must not resolve"),
    }
}

#[test]
fn build_errors_have_messages() {
    assert_eq!(BuildError::InvalidKey("bad".to_string()).message(), "bad");
    assert_eq!(BuildError::ScriptParse("worse".to_string()).message(), "worse");
    assert_eq!(BuildError::MissingKey("K".to_string()).message(), "Missing Key: K");
    assert_eq!(
        BuildError::UnsupportedKeyContext("K".to_string()).message(),
        "No PKH Support for K"
    );
    assert_eq!(BuildError::NoInternalKey.message(), "No unspendable internal key found");
    assert_eq!(BuildError::InvalidTweak.message(), "Tap tweak failed");
}
