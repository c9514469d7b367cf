use hocon::loader::load_str;
use hocon::tree::{Config, Hocon};
use hocon::value::HoconError;

fn try_load(s: &str) -> Result<Hocon, HoconError> {
    load_str(s, Config { strict: false, system: true }, &Vec::new())
}

fn load(s: &str) -> Hocon {
    try_load(s).expect("during test")
}

fn field(doc: &Hocon, key: &str) -> Hocon {
    match doc.get(key) {
        Some(h) => clone_hocon(h),
        None => panic!("no field {key}"),
    }
}

fn clone_hocon(h: &Hocon) -> Hocon {
    match h {
        Hocon::Real(t) => Hocon::Real(t.clone()),
        Hocon::Integer(i) => Hocon::Integer(*i),
        Hocon::String(t) => Hocon::String(t.clone()),
        Hocon::Boolean(b) => Hocon::Boolean(*b),
        Hocon::Array(vs) => Hocon::Array(vs.iter().map(clone_hocon).collect()),
        Hocon::Hash(fs) => Hocon::Hash(fs.iter().map(|(k, v)| (k.clone(), clone_hocon(v))).collect()),
        Hocon::Null => Hocon::Null,
        Hocon::BadValue(e) => Hocon::BadValue(*e),
    }
}

#[test]
fn fallback_to_a_substitution_keeps_the_previous_value() {
    assert_eq!(
        field(&load("a = ${?x}\na = ${?missing}\n"), "a"),
        field(&load("a = ${?x}\n"), "a")
    );
}

#[test]
fn fallback_to_a_concatenation_keeps_the_previous_value() {
    assert_eq!(
        field(&load("a = x ${?gone} y\na = ${?missing}\n"), "a"),
        Hocon::String(String::from("x  y"))
    );
}

#[test]
fn an_unclosed_substitution_after_text_is_an_error() {
    assert!(try_load("a = x${?foo").is_err());
}

#[test]
fn an_unclosed_optional_substitution_is_an_error() {
    assert!(try_load("a = ${?foo").is_err());
}

#[test]
fn an_unclosed_required_substitution_is_an_error() {
    assert!(try_load("a = ${foo").is_err());
}

#[test]
fn an_unclosed_substitution_with_a_space_in_the_path_is_an_error() {
    assert!(try_load("a = ${foo bar").is_err());
}

#[test]
fn a_closed_substitution_still_resolves() {
    assert_eq!(field(&load("a = 1\nb = ${a}\n"), "b"), Hocon::Integer(1));
}

#[test]
fn a_closed_optional_substitution_after_text_still_resolves() {
    assert_eq!(field(&load("a = x${?gone}y"), "a"), Hocon::String(String::from("xy")));
}

#[test]
fn an_unclosed_brace_in_a_quoted_string_is_text() {
    assert_eq!(field(&load("a = \"${foo\""), "a"), Hocon::String(String::from("${foo")));
}

#[test]
fn many_unclosed_optional_substitutions_do_not_hang() {
    let text = format!("a = {}", "e${? ".repeat(64));
    assert!(try_load(&text).is_err());
}

#[test]
fn many_unclosed_substitutions_do_not_hang() {
    let text = format!("a = {}", "e${ ".repeat(64));
    assert!(try_load(&text).is_err());
}

#[test]
fn an_unclosed_substitution_around_closed_ones_does_not_hang() {
    let text = format!("a = ${{ {}", "${b} ".repeat(64));
    assert!(try_load(&text).is_err());
}
