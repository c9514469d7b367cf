use hocon::loader::load_str;
use hocon::tree::{Config, Hocon};

fn load(input: &str) -> Hocon {
    load_str(input, Config { strict: false, system: true }, &Vec::new())
        .expect("the document should parse")
}

#[test]
fn document_starting_with_blank_lines_is_parsed() {
    assert_eq!(load("\n\n  \n{ \"a\": 5 }").get("a").and_then(|h| h.as_i64()), Some(5));
}

#[test]
fn top_level_array_is_parsed() {
    let doc = load("[1, 2, 3]");
    assert_eq!(doc.at(0).and_then(|h| h.as_i64()), Some(1));
    assert_eq!(doc.at(2).and_then(|h| h.as_i64()), Some(3));
}

#[test]
fn top_level_array_after_blank_lines_is_parsed() {
    assert_eq!(load("\n\n  \n[1, 2, 3]").at(0).and_then(|h| h.as_i64()), Some(1));
}

#[test]
fn empty_document_is_an_empty_object() {
    for input in ["", "\n", "\n  \n", "# just a comment\n"] {
        match load(input) {
            Hocon::Hash(hash) => assert!(hash.is_empty(), "{input:?} => {hash:?}"),
            other => panic!("{input:?} should be an empty object, got {other:?}"),
        }
    }
}
