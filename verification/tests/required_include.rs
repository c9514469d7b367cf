use hocon::internal::{HoconInternal, Item};
use hocon::loader::{load_items, resolve_includes};
use hocon::parser::parse;
use hocon::tree::{Config, Hocon};
use hocon::value::HoconError;

const INCLUDED: &str = "a = 5\n";

/// Parses `text`, loads `files` (name, text) for its includes, and finishes
/// the document, the way a loader that reads files does.
fn load_with(text: &str, files: &[(&str, &str)]) -> Result<Hocon, HoconError> {
    let (_, doc) = parse(text).map_err(|_| HoconError::Parse)?;
    let loaded: Vec<Option<HoconInternal>> = doc
        .internal
        .iter()
        .map(|item| match item {
            Item::Include(_, inc) => files
                .iter()
                .find(|(name, _)| *name == inc.target.as_str())
                .map(|(_, body)| parse(body).expect("included file parses").1),
            Item::Entry(_, _) => None,
        })
        .collect();
    let resolved = resolve_includes(&doc, &loaded)?;
    load_items(&resolved, Config { strict: false, system: true }, &Vec::new())
}

#[test]
fn required_include_of_existing_file_is_merged() {
    let doc = load_with(
        "include required(\"included.conf\")\nadditional = value\n",
        &[("included.conf", INCLUDED)],
    )
    .expect("should parse HOCON");
    assert_eq!(doc.get("a").and_then(|h| h.as_i64()), Some(5));
    assert_eq!(doc.get("additional").and_then(|h| h.as_string()).as_deref(), Some("value"));
}

#[test]
fn required_include_of_missing_file_fails() {
    let result = load_with("include required(\"missing.conf\")\na = 5\n", &[]);
    assert!(result.is_err(), "a required include of a missing file must fail, got {result:?}");
}

#[test]
fn plain_include_of_missing_file_still_succeeds() {
    let doc = load_with("include \"missing.conf\"\na = 5\n", &[])
        .expect("a plain include of a missing file must not fail");
    assert_eq!(doc.get("a").and_then(|h| h.as_i64()), Some(5));
}

#[test]
fn required_include_inside_braces_is_merged() {
    let doc = load_with(
        "modules {\n  first {\n    include required(\"included.conf\")\n  }\n}\nother = kept\n",
        &[("included.conf", INCLUDED)],
    )
    .expect("should parse HOCON");
    let a = doc
        .get("modules")
        .and_then(|h| h.get("first"))
        .and_then(|h| h.get("a"))
        .and_then(|h| h.as_i64());
    assert_eq!(a, Some(5));
    assert_eq!(doc.get("other").and_then(|h| h.as_string()).as_deref(), Some("kept"));
}

#[test]
fn required_include_after_a_comment_is_merged() {
    let doc = load_with(
        "# settings\ninclude required(\"included.conf\")\nadditional_key = test_value\n",
        &[("included.conf", INCLUDED)],
    )
    .expect("should parse HOCON");
    assert_eq!(doc.get("a").and_then(|h| h.as_i64()), Some(5));
    assert_eq!(
        doc.get("additional_key").and_then(|h| h.as_string()).as_deref(),
        Some("test_value")
    );
}
