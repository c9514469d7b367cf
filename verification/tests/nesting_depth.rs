use hocon::loader::load_str;
use hocon::tree::{Config, Hocon};
use hocon::value::HoconError;

fn load(s: &str) -> Result<Hocon, HoconError> {
    load_str(s, Config { strict: false, system: true }, &Vec::new())
}

fn nested_object(depth: usize) -> String {
    format!("x = {}1{}", "{y:".repeat(depth), "}".repeat(depth))
}

#[test]
fn an_object_nested_past_the_limit_is_an_error() {
    assert!(load(&nested_object(129)).is_err());
}

#[test]
fn a_substitution_nested_past_the_limit_is_an_error() {
    let text = format!("a = {}b{}", "${".repeat(129), "}".repeat(129));
    assert!(load(&text).is_err());
}

#[test]
fn an_array_nested_past_the_limit_is_an_error() {
    let text = format!("a = {}1{}", "[".repeat(129), "]".repeat(129));
    assert!(load(&text).is_err());
}

#[test]
fn an_object_nested_to_the_limit_still_parses() {
    assert!(load(&nested_object(128)).is_ok());
}

#[test]
fn an_array_nested_to_the_limit_still_parses() {
    let text = format!("a = {}1{}", "[".repeat(128), "]".repeat(128));
    assert!(load(&text).is_ok());
}

#[test]
fn many_siblings_do_not_add_up_to_the_limit() {
    let text: String = (0..500).map(|i| format!("k{i} = [[[{i}]]]\n")).collect();
    let doc = load(&text).expect("during test");
    let inner = doc
        .get("k499")
        .and_then(|h| h.at(0))
        .and_then(|h| h.at(0))
        .and_then(|h| h.at(0));
    assert_eq!(inner, Some(&Hocon::Integer(499)));
}

#[test]
fn a_long_run_of_includes_parses_instead_of_aborting() {
    let text = format!("{}a = 1\n", "include \"nope\"\n".repeat(20_000));
    assert_eq!(load(&text).expect("during test").get("a"), Some(&Hocon::Integer(1)));
}

#[test]
fn a_short_run_of_includes_still_parses() {
    let text = format!("{}a = 1\n", "include \"nope\"\n".repeat(3));
    assert_eq!(load(&text).expect("during test").get("a"), Some(&Hocon::Integer(1)));
}

#[test]
fn a_pathological_depth_returns_an_error_instead_of_aborting() {
    let text = format!("a = {}1{}", "[".repeat(100_000), "]".repeat(100_000));
    assert!(load(&text).is_err());
}
