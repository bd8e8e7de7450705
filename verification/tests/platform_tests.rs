use cargo_index::platform::combine_guards;
use cargo_index::platform::parse;
use cargo_index::platform::PlatformPredicate;

#[test]
fn parse_cfg_form() {
    let p = parse("cfg(windows)").unwrap();
    match p {
        PlatformPredicate::Cfg(inner) => assert_eq!(inner, "windows"),
        PlatformPredicate::Any(_) => panic!("single condition must parse to Cfg"),
    }
}

#[test]
fn parse_rejects_bare_triple() {
    assert!(parse("x86_64-unknown-linux-gnu").is_err());
}

#[test]
fn parse_rejects_empty_inner() {
    assert!(parse("cfg()").is_err());
}

#[test]
fn parse_rejects_missing_close() {
    assert!(parse("cfg(unix").is_err());
}

#[test]
fn combine_single_condition() {
    let r = combine_guards(false, vec!["windows".to_string()]);
    assert_eq!(r.unwrap().0, "cfg(windows)");
}

#[test]
fn combine_two_conditions_disjoin() {
    let r = combine_guards(false, vec!["windows".to_string(), "unix".to_string()]);
    assert_eq!(r.unwrap().0, "cfg(any(windows, unix))");
}

#[test]
fn combine_three_conditions_disjoin() {
    let r = combine_guards(
        false,
        vec!["a".to_string(), "b".to_string(), "c".to_string()],
    );
    assert_eq!(r.unwrap().0, "cfg(any(a, b, c))");
}

#[test]
fn combine_unconditional_absorbs() {
    let r = combine_guards(true, vec!["windows".to_string()]);
    assert!(r.is_none());
}

#[test]
fn combine_empty_is_unconditional() {
    let r = combine_guards(false, Vec::new());
    assert!(r.is_none());
}
