use up_rs::env::{get_env, EnvEntry, EnvError};

fn e(k: &str, v: &str) -> EnvEntry {
    EnvEntry { key: k.to_string(), value: v.to_string() }
}

fn value_of<'a>(out: &'a [EnvEntry], key: &str) -> &'a str {
    &out.iter().find(|p| p.key == key).expect("key missing").value
}

fn resolve(
    inherited: Vec<EnvEntry>,
    config: Vec<EnvEntry>,
    home: Option<String>,
) -> Result<Vec<EnvEntry>, EnvError> {
    get_env(&inherited, &config, &home)
}

#[test]
fn acyclic_chain_resolves_in_any_order() {
    // {A: "1", B: "$A", C: "$B"} resolves to all-"1" in every insertion order.
    let perms: [[(&str, &str); 3]; 6] = [
        [("A", "1"), ("B", "$A"), ("C", "$B")],
        [("A", "1"), ("C", "$B"), ("B", "$A")],
        [("B", "$A"), ("A", "1"), ("C", "$B")],
        [("B", "$A"), ("C", "$B"), ("A", "1")],
        [("C", "$B"), ("A", "1"), ("B", "$A")],
        [("C", "$B"), ("B", "$A"), ("A", "1")],
    ];
    for perm in perms.iter() {
        let config: Vec<EnvEntry> = perm.iter().map(|(k, v)| e(k, v)).collect();
        let out = resolve(vec![], config, None).expect("resolution should succeed");
        assert_eq!(value_of(&out, "A"), "1");
        assert_eq!(value_of(&out, "B"), "1");
        assert_eq!(value_of(&out, "C"), "1");
        assert_eq!(out.len(), 3);
    }
}

#[test]
fn two_cycle_is_detected() {
    let config = vec![e("A", "$B"), e("B", "$A")];
    match resolve(vec![], config, None) {
        Err(EnvError::UnresolvedCycle { keys }) => {
            assert_eq!(keys.len(), 2);
            assert!(keys.contains(&"A".to_string()));
            assert!(keys.contains(&"B".to_string()));
        }
        other => panic!("expected a cycle error, got {:?}", other),
    }
}

#[test]
fn self_cycle_is_detected() {
    let config = vec![e("A", "$A")];
    match resolve(vec![], config, None) {
        Err(EnvError::UnresolvedCycle { keys }) => {
            assert_eq!(keys, vec!["A".to_string()]);
        }
        other => panic!("expected a cycle error, got {:?}", other),
    }
}

#[test]
fn missing_variable_fails_lookup() {
    let config = vec![e("A", "$NOPE")];
    match resolve(vec![], config, None) {
        Err(EnvError::EnvLookup { var }) => assert_eq!(var, "NOPE"),
        other => panic!("expected a lookup error, got {:?}", other),
    }
}

#[test]
fn inherited_values_are_used() {
    let inherited = vec![e("USER", "sam")];
    let config = vec![e("GREETING", "hi $USER"), e("BOTH", "${GREETING}!")];
    let out = resolve(inherited, config, None).expect("should resolve");
    assert_eq!(value_of(&out, "USER"), "sam");
    assert_eq!(value_of(&out, "GREETING"), "hi sam");
    assert_eq!(value_of(&out, "BOTH"), "hi sam!");
}

#[test]
fn tilde_expands_to_home() {
    let config = vec![e("DOTS", "~/dotfiles"), e("JUST", "~")];
    let out = resolve(vec![], config, Some("/home/sam".to_string())).expect("should resolve");
    assert_eq!(value_of(&out, "DOTS"), "/home/sam/dotfiles");
    assert_eq!(value_of(&out, "JUST"), "/home/sam");
}

#[test]
fn tilde_without_home_stays_literal() {
    let config = vec![e("DOTS", "~/dotfiles")];
    let out = resolve(vec![], config, None).expect("should resolve");
    assert_eq!(value_of(&out, "DOTS"), "~/dotfiles");
}

#[test]
fn lone_dollar_is_literal() {
    let config = vec![e("PRICE", "5$ and $$X"), e("X", "9")];
    let out = resolve(vec![], config, None).expect("should resolve");
    // The second `$` of `$$X` begins a reference; the first stands for itself.
    assert_eq!(value_of(&out, "PRICE"), "5$ and $9");
}

#[test]
fn mixed_deferred_and_resolved_references() {
    let config = vec![e("A", "$B$C"), e("B", "x"), e("C", "$B")];
    let out = resolve(vec![], config, None).expect("should resolve");
    assert_eq!(value_of(&out, "A"), "xx");
    assert_eq!(value_of(&out, "C"), "x");
}

#[test]
fn braced_reference_resolves() {
    let config = vec![e("A", "${B}s"), e("B", "cat")];
    let out = resolve(vec![], config, None).expect("should resolve");
    assert_eq!(value_of(&out, "A"), "cats");
}

#[test]
fn config_value_overrides_inherited() {
    let inherited = vec![e("A", "old")];
    let config = vec![e("A", "new"), e("B", "$A")];
    let out = resolve(inherited, config, None).expect("should resolve");
    assert_eq!(value_of(&out, "A"), "new");
    // The reference was resolved from the inherited base during the first
    // pass, before the configuration value replaced it.
    assert_eq!(value_of(&out, "B"), "old");
    assert_eq!(out.len(), 2);
}
