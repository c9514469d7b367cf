use hocon::internal::Item;
use hocon::loader::load_str;
use hocon::parser::parse;
use hocon::tree::{Config, Hocon};
use hocon::value::{HoconError, HoconValue};

const LENIENT: Config = Config { strict: false, system: true };
const STRICT: Config = Config { strict: true, system: false };

fn load(s: &str) -> Hocon {
    load_str(s, LENIENT, &Vec::new()).expect("during test")
}

fn ints(values: &[i64]) -> Hocon {
    Hocon::Array(values.iter().map(|i| Hocon::Integer(*i)).collect())
}

fn text(t: &str) -> Hocon {
    Hocon::String(String::from(t))
}

fn hash(fields: Vec<(&str, Hocon)>) -> Hocon {
    Hocon::Hash(fields.into_iter().map(|(k, v)| (String::from(k), v)).collect())
}

#[test]
fn plus_equals_appends_to_an_array() {
    assert_eq!(load("a = [1]\na += 2\n").get("a"), Some(&ints(&[1, 2])));
}

#[test]
fn plus_equals_creates_an_array() {
    assert_eq!(load("a += 1\na += 2\n").get("a"), Some(&ints(&[1, 2])));
}

#[test]
fn the_fields_of_one_plus_equals_share_an_element() {
    let doc = load("a += {x: 1, y: 2}\n");
    assert_eq!(
        doc.get("a"),
        Some(&Hocon::Array(vec![hash(vec![("x", Hocon::Integer(1)), ("y", Hocon::Integer(2))])]))
    );
}

#[test]
fn two_plus_equals_make_two_elements() {
    let doc = load("a += {x: 1}\na += {y: 2}\n");
    assert_eq!(
        doc.get("a"),
        Some(&Hocon::Array(vec![
            hash(vec![("x", Hocon::Integer(1))]),
            hash(vec![("y", Hocon::Integer(2))]),
        ]))
    );
}

#[test]
fn a_substitution_in_front_of_an_array_splices_it() {
    assert_eq!(load("x = [1, 2]\na = ${x} [3, 4]\n").get("a"), Some(&ints(&[1, 2, 3, 4])));
}

#[test]
fn assigning_an_array_again_replaces_it() {
    assert_eq!(load("a = [1, 2]\na = [3]\n").get("a"), Some(&ints(&[3])));
}

#[test]
fn objects_under_one_key_merge() {
    let doc = load("a {x: 1}\na {y: 2}\n");
    assert_eq!(
        doc.get("a"),
        Some(&hash(vec![("x", Hocon::Integer(1)), ("y", Hocon::Integer(2))]))
    );
}

#[test]
fn a_substitution_in_front_of_an_object_merges_it() {
    let doc = load("x {p: 1}\na = ${x} {q: 2}\n");
    assert_eq!(
        doc.get("a"),
        Some(&hash(vec![("p", Hocon::Integer(1)), ("q", Hocon::Integer(2))]))
    );
}

#[test]
fn dotted_keys_make_nested_objects() {
    let doc = load("a.b.c = 3\n");
    let c = doc.get("a").and_then(|h| h.get("b")).and_then(|h| h.get("c"));
    assert_eq!(c, Some(&Hocon::Integer(3)));
}

#[test]
fn a_substitution_that_comes_back_to_itself_is_null() {
    let doc = load("a = ${b}\nb = ${a}\n");
    assert_eq!(doc.get("a"), Some(&Hocon::Null));
    assert_eq!(doc.get("b"), Some(&Hocon::Null));
}

#[test]
fn a_longer_cycle_of_substitutions_is_too_deep_when_strict() {
    assert_eq!(
        load_str("a = ${b}\nb = ${c}\nc = ${a}\n", STRICT, &Vec::new()),
        Err(HoconError::TooDeep)
    );
}

#[test]
fn an_unresolved_substitution_is_key_not_found_when_strict() {
    assert_eq!(
        load_str("a = ${nowhere}\n", STRICT, &Vec::new()),
        Err(HoconError::KeyNotFound)
    );
}

#[test]
fn an_unresolved_substitution_is_a_bad_value_when_lenient() {
    let doc = load_str("a = ${nowhere}\n", LENIENT, &Vec::new()).expect("during test");
    assert_eq!(doc.get("a"), Some(&Hocon::BadValue(HoconError::KeyNotFound)));
}

#[test]
fn an_unresolved_substitution_is_an_error_without_system() {
    assert_eq!(
        load_str("a = ${nowhere}\n", Config { strict: false, system: false }, &Vec::new()),
        Err(HoconError::KeyNotFound)
    );
}

#[test]
fn a_substitution_falls_back_to_the_environment() {
    let env = vec![(String::from("HOME_DIR"), String::from("/home/me"))];
    let doc = load_str("a = ${HOME_DIR}\n", LENIENT, &env).expect("during test");
    assert_eq!(doc.get("a"), Some(&text("/home/me")));
}

#[test]
fn the_environment_is_not_read_without_system() {
    let env = vec![(String::from("HOME_DIR"), String::from("/home/me"))];
    assert_eq!(
        load_str("a = ${HOME_DIR}\n", Config { strict: false, system: false }, &env),
        Err(HoconError::KeyNotFound)
    );
}

#[test]
fn a_substitution_of_a_key_without_text_is_unsupported() {
    assert_eq!(load_str("a = ${true}\n", LENIENT, &Vec::new()), Err(HoconError::Unsupported));
}

#[test]
fn a_fallback_that_is_never_reached_is_not_checked() {
    let doc = load("x = 1\na = ${true}\na = ${?x}\n");
    assert_eq!(doc.get("a"), Some(&Hocon::Integer(1)));
}

#[test]
fn a_fallback_without_text_is_unsupported_when_reached() {
    assert_eq!(
        load_str("a = ${true}\na = ${?missing}\n", LENIENT, &Vec::new()),
        Err(HoconError::Unsupported)
    );
}

#[test]
fn text_left_over_is_a_parse_error_when_strict() {
    assert_eq!(load_str("a = 1\n}\n", STRICT, &Vec::new()), Err(HoconError::Parse));
    assert!(load_str("a = 1\n}\n", LENIENT, &Vec::new()).is_ok());
}

#[test]
fn a_required_include_that_is_not_loaded_is_an_error() {
    assert_eq!(
        load_str("include required(\"other.conf\")\na = 1\n", LENIENT, &Vec::new()),
        Err(HoconError::Include)
    );
}

#[test]
fn unquoted_null_is_null() {
    assert_eq!(load("a = null\n").get("a"), Some(&Hocon::Null));
}

#[test]
fn unquoted_words_concatenate() {
    assert_eq!(load("a = foo bar\n").get("a"), Some(&text("foo bar")));
}

#[test]
fn a_real_number_keeps_its_text() {
    assert_eq!(load("a = 1.5\n").get("a"), Some(&Hocon::Real(String::from("1.5"))));
    assert_eq!(
        load("a = 99999999999999999999\n").get("a"),
        Some(&Hocon::Real(String::from("99999999999999999999")))
    );
}

#[test]
fn negative_integers_and_booleans() {
    let doc = load("a = -42\nb = true\nc = false\n");
    assert_eq!(doc.get("a"), Some(&Hocon::Integer(-42)));
    assert_eq!(doc.get("b"), Some(&Hocon::Boolean(true)));
    assert_eq!(doc.get("c"), Some(&Hocon::Boolean(false)));
}

#[test]
fn escapes_in_quoted_strings() {
    assert_eq!(load("a = \"\\u0041\\tb\\n\"\n").get("a"), Some(&text("A\tb\n")));
}

#[test]
fn multiline_strings_keep_their_text() {
    assert_eq!(load("a = \"\"\"x\ny\"\"\"\n").get("a"), Some(&text("x\ny")));
}

#[test]
fn comments_are_skipped() {
    let doc = load("// first\na = 1 # trailing\n# last\nb = 2\n");
    assert_eq!(doc.get("a"), Some(&Hocon::Integer(1)));
    assert_eq!(doc.get("b"), Some(&Hocon::Integer(2)));
}

#[test]
fn as_string_reads_values_as_text() {
    let doc = load("a = 12\nb = true\nc = x\n");
    assert_eq!(doc.get("a").and_then(|h| h.as_string()).as_deref(), Some("12"));
    assert_eq!(doc.get("b").and_then(|h| h.as_string()).as_deref(), Some("true"));
    assert_eq!(doc.get("c").and_then(|h| h.as_string()).as_deref(), Some("x"));
    assert_eq!(doc.get("a").and_then(|h| h.as_i64()), Some(12));
    assert_eq!(doc.get("c").and_then(|h| h.as_i64()), None);
    assert_eq!(doc.get("missing"), None);
    assert_eq!(doc.at(0), None);
}

#[test]
fn the_items_of_one_plus_equals_share_a_uuid() {
    let (_, doc) = parse("a += {x: 1, y: 2}\n").expect("during test");
    let ids: Vec<String> = doc
        .internal
        .iter()
        .filter_map(|item| match item {
            Item::Entry(_, HoconValue::ToConcatToArray { item_id, .. }) => Some(item_id.clone()),
            _ => None,
        })
        .collect();
    assert_eq!(ids.len(), 2);
    assert_eq!(ids[0], ids[1]);
    let id: Vec<char> = ids[0].chars().collect();
    assert_eq!(id.len(), 36);
    for (k, c) in id.iter().enumerate() {
        if k == 8 || k == 13 || k == 18 || k == 23 {
            assert_eq!(*c, '-');
        } else {
            assert!(c.is_ascii_hexdigit() && !c.is_ascii_uppercase());
        }
    }
    assert_eq!(id[14], '4');
    assert!("89ab".contains(id[19]));
}

#[test]
fn keys_are_equal_only_as_keys() {
    let a = HoconValue::String(String::from("k"));
    let b = HoconValue::String(String::from("k"));
    assert!(a == b && b == a);
    assert!(HoconValue::Integer(3) == HoconValue::Integer(3));
    assert!(HoconValue::UnquotedString(String::from("k")) != HoconValue::UnquotedString(String::from("k")));
    assert!(HoconValue::String(String::from("3")) != HoconValue::Integer(3));
}

#[test]
fn null_in_a_concatenation_is_text() {
    assert_eq!(load("x = 1\na = null${x}\n").get("a"), Some(&text("null1")));
}

#[test]
fn the_last_value_of_a_key_wins() {
    let doc = load("a = 1\nb = 5\na = 2\n");
    assert_eq!(doc.get("a"), Some(&Hocon::Integer(2)));
    assert_eq!(doc.get("b"), Some(&Hocon::Integer(5)));
}

#[test]
fn a_long_chain_of_substitutions_resolves() {
    let mut text = String::new();
    for i in 0..300 {
        text.push_str(&format!("a{} = ${{a{}}}\n", i, i + 1));
    }
    text.push_str("a300 = 7\n");
    let doc = load(&text);
    assert_eq!(doc.get("a0"), Some(&Hocon::Integer(7)));
    assert_eq!(doc.get("a299"), Some(&Hocon::Integer(7)));
}

#[test]
fn a_key_without_text_is_a_lookup_error_without_system() {
    assert_eq!(
        load_str("a = ${true}\n", Config { strict: false, system: false }, &Vec::new()),
        Err(HoconError::KeyNotFound)
    );
}

#[test]
fn two_objects_in_a_row_join() {
    let doc = load("a = {x: 1} {y: 2}\n");
    assert_eq!(
        doc.get("a"),
        Some(&hash(vec![("x", Hocon::Integer(1)), ("y", Hocon::Integer(2))]))
    );
}

#[test]
fn an_unclosed_multiline_string_runs_into_the_next_object() {
    let doc = load("a = {x = \"\"\"p\"} {y = \"\"\"}\n");
    assert_eq!(doc.get("a"), Some(&hash(vec![("x", text("p\"} {y = "))])));
}

#[test]
fn two_arrays_in_a_row_join() {
    assert_eq!(load("a = [1] [2, 3]\n").get("a"), Some(&ints(&[1, 2, 3])));
}

#[test]
fn each_plus_equals_draws_its_own_uuid() {
    let (_, doc) = parse("a += 1\na += 2\n").expect("during test");
    let ids: Vec<String> = doc
        .internal
        .iter()
        .filter_map(|item| match item {
            Item::Entry(_, HoconValue::ToConcatToArray { item_id, .. }) => Some(item_id.clone()),
            _ => None,
        })
        .collect();
    assert_eq!(ids.len(), 2);
    assert_ne!(ids[0], ids[1]);
}
