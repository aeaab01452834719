use miniscript_taproot::fragments::Fragments;

#[test]
fn fragments_keep_their_order() {
    let mut list = Fragments::new();
    assert_eq!(list.len(), 0);
    list.add("pk(A)".to_string());
    list.add("pk(B)".to_string());
    assert_eq!(list.len(), 2);
    assert_eq!(list.get(0), "pk(A)");
    assert_eq!(list.get(1), "pk(B)");
}

#[test]
fn add_all_takes_every_text() {
    let mut list = Fragments::new();
    list.add("first".to_string());
    let complete = list.add_all(vec![Some("second".to_string()), Some("third".to_string())]);
    assert!(complete);
    assert_eq!(list.len(), 3);
    assert_eq!(list.get(2), "third");
    assert!(list.add_all(vec![]));
    assert_eq!(list.len(), 3);
}

#[test]
fn add_all_stops_at_the_first_gap() {
    let mut list = Fragments::new();
    let complete = list.add_all(vec![Some("kept".to_string()), None, Some("lost".to_string())]);
    assert!(!complete);
    assert_eq!(list.len(), 1);
    assert_eq!(list.get(0), "kept");
    assert!(!list.add_all(vec![None]));
    assert_eq!(list.len(), 1);
}

#[test]
fn entry_points_are_at_the_root() {
    let mut tab = miniscript_taproot::KeyTab::new();
    tab.add(
        "A".to_string(),
        "79be667ef9dcbbac55a06295ce870b07029bfcdb2dce28d959f2815b16f81798".to_string(),
    );
    let mut list = miniscript_taproot::Fragments::new();
    list.add("pk(A)".to_string());
    let output = miniscript_taproot::taproot(list, &tab).ok().unwrap();
    assert_eq!(output.scripts.len(), 1);
    assert_eq!(miniscript_taproot::compile("pk(A)").ok(), Some("pk(A)".to_string()));
    assert_eq!(miniscript_taproot::get_descriptor_types().Wsh, "Wsh");
    assert!(miniscript_taproot::get_script_type("x").is_err());
    assert!(miniscript_taproot::get_threshold_count("x").is_err());
}
