use core::str::FromStr;
use miniscript_taproot::error::PolicyError;
use miniscript_taproot::policy::{compile, in_range};
use sapio_miniscript::policy::{Liftable, Semantic};
use sapio_miniscript::{Miniscript, Tap};

const OUT_OF_RANGE: &str = "Policy odds or unsatisfiable branches are out of range";

#[test]
fn single_key_policy_compiles_to_a_key_check() {
    assert_eq!(compile("pk(A)").ok(), Some("pk(A)".to_string()));
}

fn holds(name: &str) -> Semantic<String> {
    Semantic::KeyHash(name.to_string())
}

#[test]
fn threshold_policy_needs_two_of_three_keys() {
    let compiled = compile("thresh(2,pk(A),pk(B),pk(C))").ok().unwrap();
    assert_ne!(compiled, "thresh(2,pk(A),pk(B),pk(C))");
    let script = Miniscript::<String, Tap>::from_str(&compiled).unwrap();
    let meaning = script.lift().unwrap();
    assert_eq!(meaning.n_keys(), 3);
    assert_eq!(meaning.minimum_n_keys(), Some(2));
    for (one, other) in [("A", "B"), ("A", "C"), ("B", "C")] {
        let pair = Semantic::Threshold(2, vec![holds(one), holds(other)]);
        assert_eq!(pair.entails(meaning.clone()).ok(), Some(true));
    }
    for name in ["A", "B", "C"] {
        assert_eq!(holds(name).entails(meaning.clone()).ok(), Some(false));
    }
}

#[test]
fn compilation_is_the_same_on_every_call() {
    let text = "or(and(pk(A),older(100)),thresh(2,pk(B),pk(C),pk(D)))";
    let first = compile(text).ok().unwrap();
    let second = compile(text).ok().unwrap();
    assert_eq!(first, second);
    assert!(Miniscript::<String, Tap>::from_str(&first).is_ok());
}

#[test]
fn text_that_is_no_policy_is_a_parse_error() {
    match compile("pk(A") {
        Err(error) => {
            assert!(matches!(error, PolicyError::Parse(_)));
            assert!(!error.message().is_empty());
        }
        Ok(_) => panic!("an unbalanced policy must not compile"),
    }
    assert!(matches!(compile("frob(A)"), Err(PolicyError::Parse(_))));
}

#[test]
fn policy_without_a_signature_is_a_compile_error() {
    match compile("older(10)") {
        Err(error) => {
            assert!(matches!(error, PolicyError::Compile(_)));
            assert!(!error.message().is_empty());
        }
        Ok(_) => panic!("a policy that anyone can satisfy must not compile"),
    }
}

#[test]
fn disjunction_with_no_odds_at_all_is_refused() {
    for text in [
        "or(0@pk(A),0@pk(B))",
        "and(pk(Z),or(0@pk(A),0@pk(B)))",
        "or(0@TRIVIAL,0@pk(B))",
        "or(0@older(5),0@pk(B))",
        "or(1@or(0@pk(A),0@pk(B)),1@pk(C))",
    ] {
        match compile(text) {
            Err(error) => {
                assert!(matches!(error, PolicyError::Compile(_)));
                assert_eq!(error.message(), OUT_OF_RANGE);
            }
            Ok(_) => panic!("odds that sum to zero must be refused"),
        }
    }
}

#[test]
fn disjunction_with_one_branch_at_zero_odds_compiles() {
    assert_eq!(compile("or(0@pk(A),1@pk(B))").ok(), Some("t:or_c(pk(B),v:pkh(A))".to_string()));
    assert_eq!(
        compile("or(0@or(0@pk(A),1@pk(B)),1@pk(C))").ok(),
        Some("t:or_c(pk(C),or_c(pkh(A),v:pkh(B)))".to_string())
    );
    assert_eq!(compile("or(0@UNSATISFIABLE,1@pk(A))").ok(), Some("or_b(0,s:pk(A))".to_string()));
    assert_eq!(
        compile("or(4294967295@pk(A),4294967295@pk(B))").ok(),
        Some("or_b(pk(A),s:pk(B))".to_string())
    );
}

#[test]
fn unsatisfiable_leaves_below_a_branch_of_no_odds_are_refused() {
    for text in [
        "or(0@and(UNSATISFIABLE,UNSATISFIABLE),1@pk(A))",
        "or(0@thresh(2,UNSATISFIABLE,UNSATISFIABLE,pk(B)),1@pk(A))",
        "or(1@pk(A),0@and(and(UNSATISFIABLE,pk(B)),and(UNSATISFIABLE,pk(C))))",
        "and(pk(A),or(0@and(UNSATISFIABLE,UNSATISFIABLE),1@pk(B)))",
        "or(1@pk(A),0@and(and(UNSATISFIABLE,UNSATISFIABLE),pk(B)))",
    ] {
        assert_eq!(compile(text).err().map(|error| error.message()), Some(OUT_OF_RANGE.to_string()));
    }
}

#[test]
fn unsatisfiable_leaves_elsewhere_compile() {
    for (text, script) in [
        ("and(UNSATISFIABLE,UNSATISFIABLE)", "and_v(v:0,tv:0)"),
        ("or(pk(A),and(UNSATISFIABLE,UNSATISFIABLE))", "andor(0,tvdv:0,tv:pk(A))"),
        ("or(and(UNSATISFIABLE,UNSATISFIABLE),pk(A))", "andor(0,tvdv:0,tv:pk(A))"),
        ("thresh(2,UNSATISFIABLE,UNSATISFIABLE,pk(A))", "tv:thresh(2,pk(A),a:0,a:0)"),
        ("or(0@and(pk(B),UNSATISFIABLE),1@pk(A))", "c:andor(0,pk_h(B),pk_k(A))"),
        ("and(or(0@UNSATISFIABLE,1@pk(A)),UNSATISFIABLE)", "and_v(or_c(pk(A),v:0),tv:0)"),
        (
            "or(0@and(UNSATISFIABLE,pk(B)),1@and(UNSATISFIABLE,pk(C)))",
            "andor(0,tv:pk(B),and_v(v:0,tv:pk(C)))",
        ),
        (
            "and(and(UNSATISFIABLE,UNSATISFIABLE),or(0@pk(A),1@pk(B)))",
            "and_b(tvdv:and_v(v:0,tv:0),at:or_c(pk(B),v:pkh(A)))",
        ),
        (
            "or(0@pk(Z),1@or(1@pk(Y),1@and(UNSATISFIABLE,UNSATISFIABLE)))",
            "tv:or_b(n:pk(Z),al:andor(0,tv:0,tv:pk(Y)))",
        ),
    ] {
        assert_eq!(compile(text).ok(), Some(script.to_string()));
    }
}

#[test]
fn range_is_read_off_the_text() {
    assert!(in_range("pk(A)"));
    assert!(in_range("or(pk(A),pk(B))"));
    assert!(in_range("or(0@pk(A),1@pk(B))"));
    assert!(in_range("or(3@pk(A),0@pk(B))"));
    assert!(in_range("thresh(2,pk(A),pk(B),pk(C))"));
    assert!(in_range("and(pk(or),pk(for))"));
    assert!(in_range("or(pk(0@x),pk(0@y))"));
    assert!(in_range("and(0@pk(A),0@pk(B))"));
    assert!(in_range("UNSATISFIABLE"));
    assert!(in_range("or(UNSATISFIABLE,UNSATISFIABLE)"));
    assert!(in_range("or(2@UNSATISFIABLE,and(pk(A),UNSATISFIABLE))"));
    assert!(in_range("or(0@UNSATISFIABLE,1@and(UNSATISFIABLE,UNSATISFIABLE))"));
    assert!(in_range("or(0@and(pk(UNSATISFIABLE),UNSATISFIABLE),1@pk(A))"));
    assert!(in_range("or(0@and(UNSATISFIABLEX,XUNSATISFIABLE),1@pk(A))"));
    assert!(in_range(""));
    assert!(!in_range("or(0@pk(A),0@pk(B))"));
    assert!(!in_range("or(0@and(pk(A),pk(C)),0@pk(B))"));
    assert!(!in_range("and(pk(C),or(1@pk(D),7@or(0@pk(A),0@pk(B))))"));
    assert!(!in_range("or(0@and(UNSATISFIABLE,UNSATISFIABLE),1@pk(A))"));
    assert!(!in_range("or(0@and(pk(A),or(5@UNSATISFIABLE,2@UNSATISFIABLE)),1@pk(A))"));
    assert!(!in_range("or(1@pk(A),0@thresh(1,pk(B),and(UNSATISFIABLE,pk(C)),UNSATISFIABLE))"));
    assert!(!in_range("pk(\u{e9})"));
}

#[test]
fn deep_weighing_puts_unsatisfiable_leaves_out_of_range() {
    let mut shallow = "and(UNSATISFIABLE,UNSATISFIABLE)".to_string();
    for level in 0..30 {
        shallow = format!("or(1@{},3@pk(K{}))", shallow, level);
    }
    assert!(in_range(&shallow));
    let deep = format!("or(1@{},3@pk(L))", shallow);
    assert!(!in_range(&deep));
    let mut plain = "and(pk(X),pk(Y))".to_string();
    for level in 0..60 {
        plain = format!("or(1@{},3@pk(K{}))", plain, level);
    }
    assert!(in_range(&plain));
    let mut shares = "and(UNSATISFIABLE,UNSATISFIABLE)".to_string();
    for level in 0..15 {
        shares = format!("thresh(1,{},pk(K{}))", shares, level);
    }
    assert!(in_range(&shares));
    assert!(!in_range(&format!("thresh(1,{},pk(L))", shares)));
}
