//! The HOCON grammar as mathematical functions: for a text `s`, a position
//! `i` and a nesting depth `d`, each function says where the construct that
//! starts at `i` ends and what it stands for, or how it fails.
//!
//! A failure is either `Backtrack` (this construct is not here, another
//! alternative may be tried) or `Fatal` (the text is wrong here, and no other
//! reading is tried). Objects, arrays and substitutions nest at most
//! `MAX_DEPTH` deep.
use vstd::prelude::*;
use crate::internal::{
    array_items, concat_to_array_items, object_items, prefix_items, value_items, IncludeKind,
    IncludeModel, ItemModel,
};
use crate::lexer::{
    multispace_end, newlines_end, possible_comment_end, space_end, spec_boolean, spec_integer,
    spec_multiline_comment, spec_multiline_string, spec_number_end, spec_string,
    spec_unquoted_string, starts_with,
};
use crate::value::{maybe_concat_spec, Value};

verus! {

/// How deep objects, arrays and substitutions may nest.
pub const MAX_DEPTH: usize = 128;

/// Why a parse stopped for good.
#[derive(Clone, Copy, Debug, PartialEq, Eq, Structural)]
pub enum Failure {
    /// A `${` or `${?` whose value is not followed by `}`.
    UnclosedSubstitution,
    /// Objects, arrays or substitutions nested deeper than `MAX_DEPTH`.
    TooDeep,
}

/// How a parser failed.
#[derive(Clone, Copy, Debug, PartialEq, Eq, Structural)]
pub enum ParseError {
    /// The construct is not at this position; an alternative may be tried.
    Backtrack,
    /// The text is malformed; parsing stops.
    Fatal(Failure),
}

/// The value of a substitution `${?path}` at `i`.
#[verifier::opaque]
pub open spec fn spec_optional_path_substitution(s: Seq<char>, i: int, d: int) -> Result<
    (int, Value),
    ParseError,
>
    decreases MAX_DEPTH - d, s.len() - i, 1int,
{
    if !starts_with(s, i, seq!['$', '{', '?']) {
        Err(ParseError::Backtrack)
    } else if d >= MAX_DEPTH {
        Err(ParseError::Fatal(Failure::TooDeep))
    } else {
        substitution_body(spec_hocon_value(s, i + 3, d + 1), s)
    }
}

/// The value of a substitution `${path}` (or `${?path}`) at `i`.
#[verifier::opaque]
pub open spec fn spec_path_substitution(s: Seq<char>, i: int, d: int) -> Result<
    (int, Value),
    ParseError,
>
    decreases MAX_DEPTH - d, s.len() - i, 1int,
{
    let j = if starts_with(s, i, seq!['$', '{', '?']) {
        i + 3
    } else if starts_with(s, i, seq!['$', '{']) {
        i + 2
    } else {
        -1
    };
    if j < 0 {
        Err(ParseError::Backtrack)
    } else if d >= MAX_DEPTH {
        Err(ParseError::Fatal(Failure::TooDeep))
    } else {
        substitution_body(spec_hocon_value(s, j, d + 1), s)
    }
}

/// After the value of a substitution: a `}` must follow.
pub open spec fn substitution_body(r: Result<(int, Value), ParseError>, s: Seq<char>) -> Result<
    (int, Value),
    ParseError,
> {
    match r {
        Err(e) => Err(e),
        Ok((k, v)) => if 0 <= k < s.len() && s[k] == '}' {
            Ok((k + 1, v))
        } else {
            Err(ParseError::Fatal(Failure::UnclosedSubstitution))
        },
    }
}

/// A substitution value with the given target.
pub open spec fn substitution_value(target: Value, optional: bool) -> Value {
    Value::PathSubstitution { target: Box::new(target), optional, original: None }
}

/// One value: the first that applies of a multi-line string, a quoted
/// string, an integer, another number, a boolean, an optional substitution,
/// a substitution and an unquoted string.
#[verifier::opaque]
pub open spec fn spec_single_value(s: Seq<char>, i: int, d: int) -> Result<(int, Value), ParseError>
    decreases MAX_DEPTH - d, s.len() - i, 2int,
{
    match spec_multiline_string(s, i) {
        Some((e, t)) => Ok((e, Value::String(t))),
        None => match spec_string(s, i) {
            Some((e, t)) => Ok((e, Value::String(t))),
            None => match spec_integer(s, i) {
                Some((e, v)) => Ok((e, Value::Integer(v as i64))),
                None => match spec_number_end(s, i) {
                    Some(e) => Ok((e, Value::Real(s.subrange(i, e)))),
                    None => match spec_boolean(s, i) {
                        Some((e, b)) => Ok((e, Value::Boolean(b))),
                        None => match spec_optional_path_substitution(s, i, d) {
                            Ok((e, t)) => Ok((e, substitution_value(t, true))),
                            Err(ParseError::Fatal(f)) => Err(ParseError::Fatal(f)),
                            Err(ParseError::Backtrack) => match spec_path_substitution(s, i, d) {
                                Ok((e, t)) => Ok((e, substitution_value(t, false))),
                                Err(ParseError::Fatal(f)) => Err(ParseError::Fatal(f)),
                                Err(ParseError::Backtrack) => match spec_unquoted_string(s, i) {
                                    Some((e, t)) => Ok((e, Value::UnquotedString(t))),
                                    None => Err(ParseError::Backtrack),
                                },
                            },
                        },
                    },
                },
            },
        },
    }
}

/// The values that follow one another from `k`, until one is not there.
#[verifier::opaque]
pub open spec fn spec_values_rest(s: Seq<char>, k: int, d: int) -> Result<
    (int, Seq<Value>),
    ParseError,
>
    decreases MAX_DEPTH - d, s.len() - k, 3int,
{
    match spec_single_value(s, k, d) {
        Err(ParseError::Backtrack) => Ok((k, seq![])),
        Err(ParseError::Fatal(f)) => Err(ParseError::Fatal(f)),
        Ok((k2, v)) => if k < k2 <= s.len() {
            match spec_values_rest(s, k2, d) {
                Ok((e, vs)) => Ok((e, seq![v] + vs)),
                Err(x) => Err(x),
            }
        } else {
            Ok((k, seq![]))
        },
    }
}

/// A value: comments, then one or more values next to each other, joined
/// as `maybe_concat_spec` says when there is more than one.
#[verifier::opaque]
pub open spec fn spec_hocon_value(s: Seq<char>, i: int, d: int) -> Result<(int, Value), ParseError>
    decreases MAX_DEPTH - d, s.len() - i, 4int,
{
    let p = possible_comment_end(s, i);
    if !(i <= p <= s.len()) {
        Err(ParseError::Backtrack)
    } else {
        match spec_single_value(s, p, d) {
            Err(e) => Err(e),
            Ok((k, first)) => if p < k <= s.len() {
                match spec_values_rest(s, k, d) {
                    Err(e) => Err(e),
                    Ok((e, rest)) => if rest.len() == 0 {
                        Ok((e, first))
                    } else {
                        Ok((e, maybe_concat_spec(seq![first] + rest)))
                    },
                }
            } else {
                Err(ParseError::Backtrack)
            },
        }
    }
}


// ---------------------------------------------------------------------------
// Separators
// ---------------------------------------------------------------------------

/// What separates two fields or two elements: spaces and a block of
/// comments, or spaces and newlines, or a comma; each followed by comments
/// and whitespace as the grammar allows.
pub open spec fn spec_separators(s: Seq<char>, i: int) -> Option<int> {
    let a = space_end(s, i);
    match spec_multiline_comment(s, a) {
        Some(b) => Some(multispace_end(s, possible_comment_end(s, space_end(s, b)))),
        None => if 0 <= a < s.len() && s[a] == '\n' {
            Some(multispace_end(s, possible_comment_end(s, space_end(s, newlines_end(s, a)))))
        } else {
            let c = multispace_end(s, i);
            if 0 <= c < s.len() && s[c] == ',' {
                Some(possible_comment_end(s, multispace_end(s, c + 1)))
            } else {
                None
            }
        },
    }
}

/// The end of an object or array: an optional separator, whitespace, then
/// the closing character.
pub open spec fn spec_closing(s: Seq<char>, i: int, close: char) -> Option<int> {
    let a = match spec_separators(s, i) {
        Some(x) => x,
        None => i,
    };
    let b = multispace_end(s, a);
    if 0 <= b < s.len() && s[b] == close {
        Some(b + 1)
    } else {
        None
    }
}

/// A `:` or `=` between whitespace.
pub open spec fn spec_colon_or_equals(s: Seq<char>, i: int) -> Option<int> {
    let a = multispace_end(s, i);
    if 0 <= a < s.len() && (s[a] == ':' || s[a] == '=') {
        Some(multispace_end(s, a + 1))
    } else {
        None
    }
}

// ---------------------------------------------------------------------------
// Includes
// ---------------------------------------------------------------------------

/// `file("...")`, `url("...")` or a bare quoted string (a file).
pub open spec fn spec_include_target(s: Seq<char>, i: int) -> Option<(int, IncludeKind, Seq<char>)> {
    if starts_with(s, i, seq!['f', 'i', 'l', 'e', '(']) {
        match spec_string(s, i + 5) {
            Some((e, t)) => if starts_with(s, e, seq![')']) {
                Some((e + 1, IncludeKind::File, t))
            } else {
                None
            },
            None => None,
        }
    } else if starts_with(s, i, seq!['u', 'r', 'l', '(']) {
        match spec_string(s, i + 4) {
            Some((e, t)) => if starts_with(s, e, seq![')']) {
                Some((e + 1, IncludeKind::Url, t))
            } else {
                None
            },
            None => None,
        }
    } else {
        match spec_string(s, i) {
            Some((e, t)) => Some((e, IncludeKind::File, t)),
            None => None,
        }
    }
}

/// `include ` then, after whitespace, a target that may be wrapped in
/// `required(...)`, then spaces.
pub open spec fn spec_include_parser(s: Seq<char>, i: int) -> Option<(int, IncludeModel)> {
    if !starts_with(s, i, seq!['i', 'n', 'c', 'l', 'u', 'd', 'e', ' ']) {
        None
    } else {
        let b = space_end(s, multispace_end(s, i + 8));
        let req = if starts_with(s, b, seq!['r', 'e', 'q', 'u', 'i', 'r', 'e', 'd', '(']) {
            match spec_include_target(s, b + 9) {
                Some((e, k, t)) => if starts_with(s, e, seq![')']) {
                    Some((e + 1, IncludeModel { kind: k, target: t, required: true }))
                } else {
                    None
                },
                None => None,
            }
        } else {
            None
        };
        match req {
            Some((e, inc)) => Some((space_end(s, e), inc)),
            None => match spec_include_target(s, b) {
                Some((e, k, t)) => Some(
                    (space_end(s, e), IncludeModel { kind: k, target: t, required: false }),
                ),
                None => None,
            },
        }
    }
}

// ---------------------------------------------------------------------------
// Objects, arrays and fields
// ---------------------------------------------------------------------------

pub open spec fn prepend_items(acc: Seq<ItemModel>, r: Result<(int, Seq<ItemModel>), ParseError>) -> Result<
    (int, Seq<ItemModel>),
    ParseError,
> {
    match r {
        Ok((e, items)) => Ok((e, acc + items)),
        Err(x) => Err(x),
    }
}

pub open spec fn prepend_elems(
    acc: Seq<Seq<ItemModel>>,
    r: Result<(int, Seq<Seq<ItemModel>>), ParseError>,
) -> Result<(int, Seq<Seq<ItemModel>>), ParseError> {
    match r {
        Ok((e, elems)) => Ok((e, acc + elems)),
        Err(x) => Err(x),
    }
}

/// The item that a substitution in front of an object stands for.
pub open spec fn object_substitution(t: Option<Value>) -> Seq<ItemModel> {
    match t {
        Some(v) => value_items(substitution_value(v, false)),
        None => seq![],
    }
}

/// The element that a substitution in front of an array stands for.
pub open spec fn array_substitution(t: Option<Value>) -> Seq<Seq<ItemModel>> {
    match t {
        Some(v) => seq![value_items(Value::PathSubstitutionInParent(Box::new(v)))],
        None => seq![],
    }
}

/// A value in field or element position: objects, arrays, an include or a
/// plain value, whichever applies first after comments.
#[verifier::opaque]
pub open spec fn spec_wrapper(s: Seq<char>, i: int, d: int) -> Result<(int, Seq<ItemModel>), ParseError>
    decreases MAX_DEPTH - d, s.len() - i, 5int,
{
    let p = possible_comment_end(s, i);
    if !(i <= p <= s.len()) {
        Err(ParseError::Backtrack)
    } else {
        match spec_hashes(s, p, d) {
            Ok((e, h)) => Ok((e, object_items(h))),
            Err(ParseError::Fatal(f)) => Err(ParseError::Fatal(f)),
            Err(ParseError::Backtrack) => match spec_arrays(s, p, d) {
                Ok((e, elems)) => Ok((e, array_items(elems))),
                Err(ParseError::Fatal(f)) => Err(ParseError::Fatal(f)),
                Err(ParseError::Backtrack) => match spec_include_parser(s, p) {
                    Some((e, inc)) => Ok((e, seq![ItemModel::Include(seq![], inc)])),
                    None => match spec_hocon_value(s, p, d) {
                        Ok((e, v)) => Ok((e, value_items(v))),
                        Err(x) => Err(x),
                    },
                },
            },
        }
    }
}

/// Objects next to each other, optionally after a substitution: their
/// fields, one after the other.
#[verifier::opaque]
pub open spec fn spec_hashes(s: Seq<char>, i: int, d: int) -> Result<(int, Seq<ItemModel>), ParseError>
    decreases MAX_DEPTH - d, s.len() - i, 4int,
{
    match spec_path_substitution(s, i, d) {
        Err(ParseError::Fatal(f)) => Err(ParseError::Fatal(f)),
        Err(ParseError::Backtrack) => spec_hashes_after(s, i, d, None),
        Ok((j, t)) => if i < j <= s.len() {
            spec_hashes_after(s, j, d, Some(t))
        } else {
            Err(ParseError::Backtrack)
        },
    }
}

#[verifier::opaque]
pub open spec fn spec_hashes_after(s: Seq<char>, j: int, d: int, t: Option<Value>) -> Result<
    (int, Seq<ItemModel>),
    ParseError,
>
    decreases MAX_DEPTH - d, s.len() - j, 3int,
{
    match spec_hash(s, j, d) {
        Err(x) => Err(x),
        Ok((k, first)) => if j < k <= s.len() {
            prepend_items(object_substitution(t) + first, spec_hashes_rest(s, k, d))
        } else {
            Err(ParseError::Backtrack)
        },
    }
}

/// Further objects from `k`, until one is not there.
#[verifier::opaque]
pub open spec fn spec_hashes_rest(s: Seq<char>, k: int, d: int) -> Result<
    (int, Seq<ItemModel>),
    ParseError,
>
    decreases MAX_DEPTH - d, s.len() - k, 3int,
{
    match spec_hash(s, k, d) {
        Err(ParseError::Backtrack) => Ok((k, seq![])),
        Err(ParseError::Fatal(f)) => Err(ParseError::Fatal(f)),
        Ok((k2, h)) => if k < k2 <= s.len() {
            prepend_items(h, spec_hashes_rest(s, k2, d))
        } else {
            Ok((k, seq![]))
        },
    }
}

/// An object in braces: its fields.
#[verifier::opaque]
pub open spec fn spec_hash(s: Seq<char>, i: int, d: int) -> Result<(int, Seq<ItemModel>), ParseError>
    decreases MAX_DEPTH - d, s.len() - i, 2int,
{
    let a = space_end(s, i);
    if !(0 <= a < s.len() && s[a] == '{') {
        Err(ParseError::Backtrack)
    } else if d >= MAX_DEPTH {
        Err(ParseError::Fatal(Failure::TooDeep))
    } else {
        match spec_hashlist(s, a + 1, d + 1) {
            Err(x) => Err(x),
            Ok((k, items)) => match spec_closing(s, k, '}') {
                Some(c) => Ok((space_end(s, c), items)),
                None => Err(ParseError::Backtrack),
            },
        }
    }
}

/// Fields separated by separators: all their items, one after the other.
#[verifier::opaque]
pub open spec fn spec_hashlist(s: Seq<char>, i: int, d: int) -> Result<(int, Seq<ItemModel>), ParseError>
    decreases MAX_DEPTH - d, s.len() - i, 8int,
{
    match spec_key_value(s, i, d) {
        Err(ParseError::Backtrack) => Ok((i, seq![])),
        Err(ParseError::Fatal(f)) => Err(ParseError::Fatal(f)),
        Ok((k, items)) => if i < k <= s.len() {
            prepend_items(items, spec_hashlist_rest(s, k, d))
        } else {
            Ok((i, seq![]))
        },
    }
}

/// After a field that ends at `k`: a separator and a further field, again
/// and again.
#[verifier::opaque]
pub open spec fn spec_hashlist_rest(s: Seq<char>, k: int, d: int) -> Result<
    (int, Seq<ItemModel>),
    ParseError,
>
    decreases MAX_DEPTH - d, s.len() - k, 8int,
{
    match spec_separators(s, k) {
        None => Ok((k, seq![])),
        Some(q) => if k < q <= s.len() {
            match spec_key_value(s, q, d) {
                Err(ParseError::Backtrack) => Ok((k, seq![])),
                Err(ParseError::Fatal(f)) => Err(ParseError::Fatal(f)),
                Ok((r, items)) => if q < r <= s.len() {
                    prepend_items(items, spec_hashlist_rest(s, r, d))
                } else {
                    Ok((k, seq![]))
                },
            }
        } else {
            Ok((k, seq![]))
        },
    }
}

/// A field: after comments, an include, or a quoted or unquoted key
/// followed by `+=`, `:` or `=` and a value, or by objects.
#[verifier::opaque]
pub open spec fn spec_key_value(s: Seq<char>, i: int, d: int) -> Result<(int, Seq<ItemModel>), ParseError>
    decreases MAX_DEPTH - d, s.len() - i, 7int,
{
    let a = multispace_end(s, possible_comment_end(s, multispace_end(s, i)));
    match spec_include_parser(s, space_end(s, a)) {
        Some((c, inc)) => Ok((space_end(s, c), seq![ItemModel::Include(seq![], inc)])),
        None => {
            let q = multispace_end(s, a);
            match spec_string(s, q) {
                Some((e, key)) => spec_key_rest(s, i, multispace_end(s, e), d, Value::String(key)),
                None => match spec_unquoted_string(s, q) {
                    Some((e, key)) => spec_key_rest(
                        s,
                        i,
                        multispace_end(s, e),
                        d,
                        Value::UnquotedString(key),
                    ),
                    None => Err(ParseError::Backtrack),
                },
            }
        },
    }
}

/// Whether the field at `i` is a `+=`: after comments, no include, then a
/// quoted or unquoted key followed by `+=`.
pub open spec fn key_append_at(s: Seq<char>, i: int) -> bool {
    let a = multispace_end(s, possible_comment_end(s, multispace_end(s, i)));
    let q = multispace_end(s, a);
    let e = match spec_string(s, q) {
        Some((e, _)) => e,
        None => match spec_unquoted_string(s, q) {
            Some((e, _)) => e,
            None => -1,
        },
    };
    &&& spec_include_parser(s, space_end(s, a)) is None
    &&& e >= 0
    &&& starts_with(s, multispace_end(s, multispace_end(s, e)), seq!['+', '='])
}

/// What follows a key that ends at `r` (the field started at `i`).
#[verifier::opaque]
pub open spec fn spec_key_rest(s: Seq<char>, i: int, r: int, d: int, key: Value) -> Result<
    (int, Seq<ItemModel>),
    ParseError,
>
    decreases MAX_DEPTH - d, s.len() - i, 6int,
{
    let t = multispace_end(s, r);
    if !(i < r <= s.len()) {
        Err(ParseError::Backtrack)
    } else if starts_with(s, t, seq!['+', '=']) {
        let u = multispace_end(s, t + 2);
        if !(i < u <= s.len()) {
            Err(ParseError::Backtrack)
        } else {
            match spec_wrapper(s, u, d) {
                Err(x) => Err(x),
                Ok((e, items)) => Ok(
                    (e, prefix_items(concat_to_array_items(object_items(items)), seq![key])),
                ),
            }
        }
    } else {
        match spec_colon_or_equals(s, r) {
            Some(u) => if !(i < u <= s.len()) {
                Err(ParseError::Backtrack)
            } else {
                match spec_wrapper(s, u, d) {
                    Err(x) => Err(x),
                    Ok((e, items)) => Ok((e, prefix_items(object_items(items), seq![key]))),
                }
            },
            None => match spec_hashes(s, r, d) {
                Ok((e, h)) => Ok((e, prefix_items(object_items(h), seq![key]))),
                Err(x) => Err(x),
            },
        }
    }
}

/// Arrays next to each other, optionally after a substitution: their
/// elements, one after the other.
#[verifier::opaque]
pub open spec fn spec_arrays(s: Seq<char>, i: int, d: int) -> Result<
    (int, Seq<Seq<ItemModel>>),
    ParseError,
>
    decreases MAX_DEPTH - d, s.len() - i, 4int,
{
    match spec_path_substitution(s, i, d) {
        Err(ParseError::Fatal(f)) => Err(ParseError::Fatal(f)),
        Err(ParseError::Backtrack) => spec_arrays_after(s, i, d, None),
        Ok((j, t)) => if i < j <= s.len() {
            spec_arrays_after(s, j, d, Some(t))
        } else {
            Err(ParseError::Backtrack)
        },
    }
}

#[verifier::opaque]
pub open spec fn spec_arrays_after(s: Seq<char>, j: int, d: int, t: Option<Value>) -> Result<
    (int, Seq<Seq<ItemModel>>),
    ParseError,
>
    decreases MAX_DEPTH - d, s.len() - j, 3int,
{
    match spec_array(s, j, d) {
        Err(x) => Err(x),
        Ok((k, first)) => if j < k <= s.len() {
            prepend_elems(array_substitution(t) + first, spec_arrays_rest(s, k, d))
        } else {
            Err(ParseError::Backtrack)
        },
    }
}

#[verifier::opaque]
pub open spec fn spec_arrays_rest(s: Seq<char>, k: int, d: int) -> Result<
    (int, Seq<Seq<ItemModel>>),
    ParseError,
>
    decreases MAX_DEPTH - d, s.len() - k, 3int,
{
    match spec_array(s, k, d) {
        Err(ParseError::Backtrack) => Ok((k, seq![])),
        Err(ParseError::Fatal(f)) => Err(ParseError::Fatal(f)),
        Ok((k2, a)) => if k < k2 <= s.len() {
            prepend_elems(a, spec_arrays_rest(s, k2, d))
        } else {
            Ok((k, seq![]))
        },
    }
}

/// An array in brackets: its elements.
#[verifier::opaque]
pub open spec fn spec_array(s: Seq<char>, i: int, d: int) -> Result<
    (int, Seq<Seq<ItemModel>>),
    ParseError,
>
    decreases MAX_DEPTH - d, s.len() - i, 2int,
{
    let a = space_end(s, i);
    if !(0 <= a < s.len() && s[a] == '[') {
        Err(ParseError::Backtrack)
    } else if d >= MAX_DEPTH {
        Err(ParseError::Fatal(Failure::TooDeep))
    } else {
        let c = multispace_end(s, space_end(s, a + 1));
        match spec_wrapper_list(s, c, d + 1) {
            Err(x) => Err(x),
            Ok((k, elems)) => match spec_closing(s, k, ']') {
                Some(e) => Ok((e, elems)),
                None => Err(ParseError::Backtrack),
            },
        }
    }
}

/// Values separated by separators.
#[verifier::opaque]
pub open spec fn spec_wrapper_list(s: Seq<char>, i: int, d: int) -> Result<
    (int, Seq<Seq<ItemModel>>),
    ParseError,
>
    decreases MAX_DEPTH - d, s.len() - i, 8int,
{
    match spec_wrapper(s, i, d) {
        Err(ParseError::Backtrack) => Ok((i, seq![])),
        Err(ParseError::Fatal(f)) => Err(ParseError::Fatal(f)),
        Ok((k, items)) => if i < k <= s.len() {
            prepend_elems(seq![items], spec_wrapper_list_rest(s, k, d))
        } else {
            Ok((i, seq![]))
        },
    }
}

#[verifier::opaque]
pub open spec fn spec_wrapper_list_rest(s: Seq<char>, k: int, d: int) -> Result<
    (int, Seq<Seq<ItemModel>>),
    ParseError,
>
    decreases MAX_DEPTH - d, s.len() - k, 8int,
{
    match spec_separators(s, k) {
        None => Ok((k, seq![])),
        Some(q) => if k < q <= s.len() {
            match spec_wrapper(s, q, d) {
                Err(ParseError::Backtrack) => Ok((k, seq![])),
                Err(ParseError::Fatal(f)) => Err(ParseError::Fatal(f)),
                Ok((r, items)) => if q < r <= s.len() {
                    prepend_elems(seq![items], spec_wrapper_list_rest(s, r, d))
                } else {
                    Ok((k, seq![]))
                },
            }
        } else {
            Ok((k, seq![]))
        },
    }
}



// ---------------------------------------------------------------------------
// Laws of the grammar
// ---------------------------------------------------------------------------

/// An object, an array or a substitution that opens at a depth of
/// `MAX_DEPTH` or more is a fatal error: nothing nests deeper.
pub proof fn lemma_too_deep_is_fatal(s: Seq<char>, i: int, d: int)
    requires
        d >= MAX_DEPTH,
    ensures
        (0 <= space_end(s, i) < s.len() && s[space_end(s, i)] == '{') ==> spec_hash(s, i, d)
            == Err::<(int, Seq<ItemModel>), ParseError>(ParseError::Fatal(Failure::TooDeep)),
        (0 <= space_end(s, i) < s.len() && s[space_end(s, i)] == '[') ==> spec_array(s, i, d)
            == Err::<(int, Seq<Seq<ItemModel>>), ParseError>(ParseError::Fatal(Failure::TooDeep)),
        starts_with(s, i, seq!['$', '{']) ==> spec_path_substitution(s, i, d) == Err::<
            (int, Value),
            ParseError,
        >(ParseError::Fatal(Failure::TooDeep)),
{
    reveal_with_fuel(spec_hash, 1);
    reveal_with_fuel(spec_array, 1);
    reveal_with_fuel(spec_path_substitution, 1);
    if starts_with(s, i, seq!['$', '{']) && !starts_with(s, i, seq!['$', '{', '?']) {
        assert(spec_path_substitution(s, i, d) == Err::<(int, Value), ParseError>(
            ParseError::Fatal(Failure::TooDeep),
        ));
    }
}

/// HOCON needs a `}` after the value of `${` or `${?`: when that value is
/// read and no `}` follows it, the value is a fatal error, and the text is
/// never read a second time as a plain string.
pub proof fn lemma_unclosed_substitution_is_fatal(s: Seq<char>, i: int, d: int, k: int, v: Value)
    requires
        0 <= d < MAX_DEPTH,
        starts_with(s, i, seq!['$', '{']),
        spec_hocon_value(
            s,
            if starts_with(s, i, seq!['$', '{', '?']) {
                i + 3
            } else {
                i + 2
            },
            d + 1,
        ) == Ok::<(int, Value), ParseError>((k, v)),
        !(0 <= k < s.len() && s[k] == '}'),
    ensures
        spec_path_substitution(s, i, d) == Err::<(int, Value), ParseError>(
            ParseError::Fatal(Failure::UnclosedSubstitution),
        ),
        spec_single_value(s, i, d) == Err::<(int, Value), ParseError>(
            ParseError::Fatal(Failure::UnclosedSubstitution),
        ),
{
    let fatal = Err::<(int, Value), ParseError>(ParseError::Fatal(Failure::UnclosedSubstitution));
    assert(s[i] == '$') by {
        assert(s.subrange(i, i + 2)[0] == s[i]);
    }
    assert(spec_path_substitution(s, i, d) == fatal) by {
        reveal_with_fuel(spec_path_substitution, 1);
        reveal_with_fuel(spec_hocon_value, 1);
    }
    assert(spec_optional_path_substitution(s, i, d) == (if starts_with(s, i, seq!['$', '{', '?']) {
        fatal
    } else {
        Err::<(int, Value), ParseError>(ParseError::Backtrack)
    })) by {
        reveal_with_fuel(spec_optional_path_substitution, 1);
        reveal_with_fuel(spec_hocon_value, 1);
    }
    assert(!starts_with(s, i, seq!['"', '"', '"'])) by {
        if starts_with(s, i, seq!['"', '"', '"']) {
            assert(s.subrange(i, i + 3)[0] == s[i]);
        }
    }
    assert(!starts_with(s, i, seq!['t', 'r', 'u', 'e'])) by {
        if starts_with(s, i, seq!['t', 'r', 'u', 'e']) {
            assert(s.subrange(i, i + 4)[0] == s[i]);
        }
    }
    assert(!starts_with(s, i, seq!['f', 'a', 'l', 's', 'e'])) by {
        if starts_with(s, i, seq!['f', 'a', 'l', 's', 'e']) {
            assert(s.subrange(i, i + 5)[0] == s[i]);
        }
    }
    assert(crate::lexer::digits_end(s, i) == i);
    assert(spec_number_end(s, i) is None);
    assert(spec_integer(s, i) is None);
    assert(spec_single_value(s, i, d) == fatal) by {
        reveal_with_fuel(spec_single_value, 1);
        reveal_with_fuel(spec_optional_path_substitution, 1);
        reveal_with_fuel(spec_path_substitution, 1);
        reveal_with_fuel(spec_hocon_value, 1);
    }
}

/// At an opening bracket, no object and no substitution begins.
proof fn lemma_bracket_is_no_object(s: Seq<char>, j: int, d: int)
    requires
        0 <= j < s.len(),
        s[j] == '[',
    ensures
        spec_path_substitution(s, j, d) == Err::<(int, Value), ParseError>(ParseError::Backtrack),
        spec_hashes(s, j, d) == Err::<(int, Seq<ItemModel>), ParseError>(ParseError::Backtrack),
        possible_comment_end(s, j) == j,
        multispace_end(s, j) == j,
        space_end(s, j) == j,
{
    assert(!starts_with(s, j, seq!['/', '/'])) by {
        if starts_with(s, j, seq!['/', '/']) {
            assert(s.subrange(j, j + 2)[0] == s[j]);
        }
    }
    assert(!starts_with(s, j, seq!['$', '{', '?'])) by {
        if starts_with(s, j, seq!['$', '{', '?']) {
            assert(s.subrange(j, j + 3)[0] == s[j]);
        }
    }
    assert(!starts_with(s, j, seq!['$', '{'])) by {
        if starts_with(s, j, seq!['$', '{']) {
            assert(s.subrange(j, j + 2)[0] == s[j]);
        }
    }
    assert(spec_path_substitution(s, j, d) == Err::<(int, Value), ParseError>(ParseError::Backtrack))
        by {
        reveal_with_fuel(spec_path_substitution, 1);
    }
    assert(spec_hash(s, j, d) == Err::<(int, Seq<ItemModel>), ParseError>(ParseError::Backtrack)) by {
        reveal_with_fuel(spec_hash, 1);
    }
    assert(spec_hashes_after(s, j, d, None) == Err::<(int, Seq<ItemModel>), ParseError>(
        ParseError::Backtrack,
    )) by {
        reveal_with_fuel(spec_hashes_after, 1);
        reveal_with_fuel(spec_hash, 1);
    }
    assert(spec_hashes(s, j, d) == Err::<(int, Seq<ItemModel>), ParseError>(ParseError::Backtrack))
        by {
        reveal_with_fuel(spec_hashes, 1);
        reveal_with_fuel(spec_hashes_after, 1);
        reveal_with_fuel(spec_path_substitution, 1);
    }
}

/// A fatal error of the array at an opening bracket is the fatal error of
/// the list of values that starts there.
proof fn lemma_array_fatal_lifts(s: Seq<char>, j: int, d: int, f: Failure)
    requires
        0 <= j < s.len(),
        s[j] == '[',
        spec_array(s, j, d) == Err::<(int, Seq<Seq<ItemModel>>), ParseError>(ParseError::Fatal(f)),
    ensures
        spec_wrapper(s, j, d) == Err::<(int, Seq<ItemModel>), ParseError>(ParseError::Fatal(f)),
        spec_wrapper_list(s, j, d) == Err::<(int, Seq<Seq<ItemModel>>), ParseError>(ParseError::Fatal(f)),
{
    lemma_bracket_is_no_object(s, j, d);
    assert(spec_arrays_after(s, j, d, None) == Err::<(int, Seq<Seq<ItemModel>>), ParseError>(
        ParseError::Fatal(f),
    )) by {
        reveal_with_fuel(spec_arrays_after, 1);
        reveal_with_fuel(spec_array, 1);
    }
    assert(spec_arrays(s, j, d) == Err::<(int, Seq<Seq<ItemModel>>), ParseError>(ParseError::Fatal(f)))
        by {
        reveal_with_fuel(spec_arrays, 1);
        reveal_with_fuel(spec_arrays_after, 1);
        reveal_with_fuel(spec_path_substitution, 1);
    }
    assert(spec_wrapper(s, j, d) == Err::<(int, Seq<ItemModel>), ParseError>(ParseError::Fatal(f))) by {
        reveal_with_fuel(spec_wrapper, 1);
        reveal_with_fuel(spec_hashes, 1);
        reveal_with_fuel(spec_arrays, 1);
    }
    assert(spec_wrapper_list(s, j, d) == Err::<(int, Seq<Seq<ItemModel>>), ParseError>(
        ParseError::Fatal(f),
    )) by {
        reveal_with_fuel(spec_wrapper_list, 1);
        reveal_with_fuel(spec_wrapper, 1);
    }
}

/// A run of `n` opening brackets at depth `d`, with `d + n` past
/// `MAX_DEPTH`, is a fatal error however the text goes on: the depth of
/// nested arrays is bounded, so a parse never recurses without limit.
pub proof fn lemma_bracket_run_too_deep(s: Seq<char>, i: int, d: int, n: int)
    requires
        0 <= d,
        0 <= i,
        1 <= n,
        i + n <= s.len(),
        forall|k: int| i <= k < i + n ==> #[trigger] s[k] == '[',
        d + n > MAX_DEPTH,
    ensures
        spec_array(s, i, d) == Err::<(int, Seq<Seq<ItemModel>>), ParseError>(
            ParseError::Fatal(Failure::TooDeep),
        ),
    decreases MAX_DEPTH - d,
{
    assert(s[i] == '[');
    lemma_bracket_is_no_object(s, i, d);
    if d >= MAX_DEPTH {
        lemma_too_deep_is_fatal(s, i, d);
    } else {
        let j = i + 1;
        assert(s[j] == '[');
        assert forall|k: int| j <= k < j + (n - 1) implies #[trigger] s[k] == '[' by {}
        lemma_bracket_run_too_deep(s, j, d + 1, n - 1);
        lemma_array_fatal_lifts(s, j, d + 1, Failure::TooDeep);
        lemma_bracket_is_no_object(s, j, d + 1);
        reveal_with_fuel(spec_array, 1);
        reveal_with_fuel(spec_wrapper_list, 1);
    }
}

// ---------------------------------------------------------------------------
// Documents
// ---------------------------------------------------------------------------

/// The fields of a document that is not wrapped in braces.
pub open spec fn spec_root_hash(s: Seq<char>, i: int) -> Result<(int, Seq<ItemModel>), ParseError> {
    let a = space_end(s, i);
    if 0 <= a < s.len() && s[a] == '{' {
        Err(ParseError::Backtrack)
    } else {
        match spec_hashlist(s, a, 0) {
            Err(x) => Err(x),
            Ok((k, items)) => Ok((space_end(s, k), items)),
        }
    }
}

/// Where the comments and whitespace that follow `e` end.
pub open spec fn doc_tail_end(s: Seq<char>, e: int) -> int {
    multispace_end(s, possible_comment_end(s, e))
}

/// A document at `i`, after `inc` leading includes: comments and
/// whitespace, then the first that applies of an include followed by the
/// rest of the document (while fewer than `MAX_DEPTH` includes lead), fields
/// without braces that make up the whole text, an object in braces, an
/// array, and fields without braces that leave text over; then comments.
pub open spec fn spec_root(s: Seq<char>, i: int, inc: int) -> Result<
    (int, Seq<ItemModel>),
    ParseError,
>
    decreases MAX_DEPTH - inc, 1int,
{
    let p = multispace_end(s, possible_comment_end(s, i));
    let included = if inc < MAX_DEPTH {
        spec_root_include(s, p, inc)
    } else {
        Err(ParseError::Backtrack)
    };
    match included {
        Ok((e, items)) => Ok((possible_comment_end(s, e), items)),
        Err(ParseError::Fatal(f)) => Err(ParseError::Fatal(f)),
        Err(ParseError::Backtrack) => {
            let rh = spec_root_hash(s, p);
            match rh {
                Err(ParseError::Fatal(f)) => Err(ParseError::Fatal(f)),
                _ => if (match rh {
                    Ok((e, _)) => doc_tail_end(s, e) == s.len(),
                    Err(_) => false,
                }) {
                    match rh {
                        Ok((e, items)) => Ok((possible_comment_end(s, e), object_items(items))),
                        Err(x) => Err(x),
                    }
                } else {
                    match spec_hash(s, p, 0) {
                        Ok((e, items)) => Ok((possible_comment_end(s, e), object_items(items))),
                        Err(ParseError::Fatal(f)) => Err(ParseError::Fatal(f)),
                        Err(ParseError::Backtrack) => match spec_array(s, p, 0) {
                            Ok((e, elems)) => Ok((possible_comment_end(s, e), array_items(elems))),
                            Err(ParseError::Fatal(f)) => Err(ParseError::Fatal(f)),
                            Err(ParseError::Backtrack) => match rh {
                                Ok((e, items)) => Ok(
                                    (possible_comment_end(s, e), object_items(items)),
                                ),
                                Err(x) => Err(x),
                            },
                        },
                    }
                },
            }
        },
    }
}

/// An include at the start of a document, then the rest of the document;
/// the include comes before the rest's items.
pub open spec fn spec_root_include(s: Seq<char>, i: int, inc: int) -> Result<
    (int, Seq<ItemModel>),
    ParseError,
>
    decreases MAX_DEPTH - inc, 0int,
{
    if inc >= MAX_DEPTH {
        Err(ParseError::Backtrack)
    } else {
        match spec_include_parser(s, multispace_end(s, i)) {
            None => Err(ParseError::Backtrack),
            Some((b, incl)) => match spec_root(s, multispace_end(s, b), inc + 1) {
                Err(x) => Err(x),
                Ok((e, items)) => Ok((e, seq![ItemModel::Include(seq![], incl)] + items)),
            },
        }
    }
}

/// When the value of a document's first field, `a = `, fails for good, so
/// does the document.
proof fn lemma_first_field_fatal(s: Seq<char>, f: Failure)
    requires
        s.len() > 4,
        !crate::lexer::is_multispace_char(s[4]),
        s[0] == 'a',
        s[1] == ' ',
        s[2] == '=',
        s[3] == ' ',
        spec_wrapper(s, 4, 0) == Err::<(int, Seq<ItemModel>), ParseError>(ParseError::Fatal(f)),
    ensures
        spec_root(s, 0, 0) == Err::<(int, Seq<ItemModel>), ParseError>(ParseError::Fatal(f)),
{
    let fatal = Err::<(int, Seq<ItemModel>), ParseError>(ParseError::Fatal(f));
    assert(!starts_with(s, 0, seq!['/', '/'])) by {
        if starts_with(s, 0, seq!['/', '/']) {
            assert(s.subrange(0, 2)[0] == s[0]);
        }
    }
    assert(space_end(s, 0) == 0);
    assert(newlines_end(s, 0) == 0);
    assert(multispace_end(s, 0) == 0);
    assert(possible_comment_end(s, 0) == 0);
    assert(!starts_with(s, 0, seq!['i', 'n', 'c', 'l', 'u', 'd', 'e', ' '])) by {
        if starts_with(s, 0, seq!['i', 'n', 'c', 'l', 'u', 'd', 'e', ' ']) {
            assert(s.subrange(0, 8)[0] == s[0]);
        }
    }
    assert(spec_include_parser(s, 0) is None);
    assert(spec_root_include(s, 0, 0) == Err::<(int, Seq<ItemModel>), ParseError>(ParseError::Backtrack));
    assert(spec_string(s, 0) is None);
    assert(crate::lexer::unquoted_end(s, 2) == 2);
    assert(crate::lexer::unquoted_end(s, 1) == 2);
    assert(crate::lexer::unquoted_end(s, 0) == 2);
    assert(spec_unquoted_string(s, 0) == Some((2int, s.subrange(0, 2))));
    assert(multispace_end(s, 3) == multispace_end(s, 4));
    assert(multispace_end(s, 2) == 2);
    assert(!starts_with(s, 2, seq!['+', '='])) by {
        if starts_with(s, 2, seq!['+', '=']) {
            assert(s.subrange(2, 4)[0] == s[2]);
        }
    }
    assert(spec_colon_or_equals(s, 2) == Some(multispace_end(s, 4)));
    assert(multispace_end(s, 4) == 4);
    assert(spec_key_rest(s, 0, 2, 0, Value::UnquotedString(s.subrange(0, 2))) == fatal) by {
        reveal_with_fuel(spec_key_rest, 1);
        reveal_with_fuel(spec_wrapper, 1);
    }
    assert(spec_key_value(s, 0, 0) == fatal) by {
        reveal_with_fuel(spec_key_value, 1);
        reveal_with_fuel(spec_key_rest, 1);
    }
    assert(spec_hashlist(s, 0, 0) == fatal) by {
        reveal_with_fuel(spec_hashlist, 1);
        reveal_with_fuel(spec_key_value, 1);
    }
    assert(spec_root_hash(s, 0) == fatal);
}

/// A document whose first field, `a = `, opens more than `MAX_DEPTH`
/// arrays is a fatal error however the text goes on: the nesting limit holds
/// for a whole document, not only for a value on its own.
pub proof fn lemma_field_nested_past_the_limit_is_fatal(s: Seq<char>, n: int)
    requires
        n > MAX_DEPTH,
        s.len() >= 4 + n,
        s[0] == 'a',
        s[1] == ' ',
        s[2] == '=',
        s[3] == ' ',
        forall|k: int| 4 <= k < 4 + n ==> #[trigger] s[k] == '[',
    ensures
        spec_root(s, 0, 0) == Err::<(int, Seq<ItemModel>), ParseError>(ParseError::Fatal(Failure::TooDeep)),
{
    lemma_bracket_run_too_deep(s, 4, 0, n);
    lemma_array_fatal_lifts(s, 4, 0, Failure::TooDeep);
    lemma_first_field_fatal(s, Failure::TooDeep);
}

/// A document whose first field, `a = `, is a substitution whose value is
/// read with no `}` after it is a fatal error: the rest of the document is
/// never dropped in silence.
pub proof fn lemma_field_unclosed_substitution_is_fatal(s: Seq<char>, k: int, v: Value)
    requires
        s.len() >= 4,
        s[0] == 'a',
        s[1] == ' ',
        s[2] == '=',
        s[3] == ' ',
        starts_with(s, 4, seq!['$', '{']),
        spec_hocon_value(
            s,
            if starts_with(s, 4, seq!['$', '{', '?']) {
                7int
            } else {
                6int
            },
            1,
        ) == Ok::<(int, Value), ParseError>((k, v)),
        !(0 <= k < s.len() && s[k] == '}'),
    ensures
        spec_root(s, 0, 0) == Err::<(int, Seq<ItemModel>), ParseError>(
            ParseError::Fatal(Failure::UnclosedSubstitution),
        ),
{
    let f = Failure::UnclosedSubstitution;
    lemma_unclosed_substitution_is_fatal(s, 4, 0, k, v);
    assert(s[4] == '$') by {
        assert(s.subrange(4, 6)[0] == s[4]);
    }
    assert(s.len() > 4);
    assert(possible_comment_end(s, 4) == 4) by {
        assert(!starts_with(s, 4, seq!['/', '/'])) by {
            if starts_with(s, 4, seq!['/', '/']) {
                assert(s.subrange(4, 6)[0] == s[4]);
            }
        }
    }
    assert(spec_hashes(s, 4, 0) == Err::<(int, Seq<ItemModel>), ParseError>(ParseError::Fatal(f))) by {
        reveal_with_fuel(spec_hashes, 1);
        reveal_with_fuel(spec_path_substitution, 1);
    }
    assert(spec_wrapper(s, 4, 0) == Err::<(int, Seq<ItemModel>), ParseError>(ParseError::Fatal(f))) by {
        reveal_with_fuel(spec_wrapper, 1);
        reveal_with_fuel(spec_hashes, 1);
    }
    lemma_first_field_fatal(s, f);
}

/// Without `${` at `i`, no substitution begins there.
pub(crate) proof fn lemma_no_substitution_at(s: Seq<char>, i: int, d: int)
    requires
        !starts_with(s, i, seq!['$', '{']),
    ensures
        spec_path_substitution(s, i, d) == Err::<(int, Value), ParseError>(ParseError::Backtrack),
{
    assert(!starts_with(s, i, seq!['$', '{', '?'])) by {
        if starts_with(s, i, seq!['$', '{', '?']) {
            assert(s.subrange(i, i + 3)[0] == s[i]);
            assert(s.subrange(i, i + 3)[1] == s[i + 1]);
            assert(s.subrange(i, i + 2) =~= seq!['$', '{']);
        }
    }
    reveal_with_fuel(spec_path_substitution, 1);
}

/// Two objects in a row are one object: the fields of the first, then
/// those of the second.
pub proof fn lemma_two_objects_join(
    s: Seq<char>,
    i: int,
    d: int,
    k: int,
    m: int,
    ha: Seq<ItemModel>,
    hb: Seq<ItemModel>,
)
    requires
        !starts_with(s, i, seq!['$', '{']),
        spec_hash(s, i, d) == Ok::<(int, Seq<ItemModel>), ParseError>((k, ha)),
        i < k <= s.len(),
        spec_hash(s, k, d) == Ok::<(int, Seq<ItemModel>), ParseError>((m, hb)),
        k < m <= s.len(),
        spec_hash(s, m, d) == Err::<(int, Seq<ItemModel>), ParseError>(ParseError::Backtrack),
    ensures
        spec_hashes(s, i, d) == Ok::<(int, Seq<ItemModel>), ParseError>((m, ha + hb)),
{
    lemma_no_substitution_at(s, i, d);
    assert(spec_hashes_rest(s, m, d) == Ok::<(int, Seq<ItemModel>), ParseError>((m, seq![]))) by {
        reveal_with_fuel(spec_hashes_rest, 1);
        reveal_with_fuel(spec_hash, 1);
    }
    assert(hb + Seq::<ItemModel>::empty() =~= hb);
    assert(spec_hashes_rest(s, k, d) == Ok::<(int, Seq<ItemModel>), ParseError>((m, hb))) by {
        reveal_with_fuel(spec_hashes_rest, 1);
        reveal_with_fuel(spec_hash, 1);
    }
    assert(object_substitution(None) + ha =~= ha);
    assert(spec_hashes_after(s, i, d, None) == Ok::<(int, Seq<ItemModel>), ParseError>((m, ha + hb)))
        by {
        reveal_with_fuel(spec_hashes_after, 1);
        reveal_with_fuel(spec_hash, 1);
        reveal_with_fuel(spec_hashes_rest, 1);
    }
    reveal_with_fuel(spec_hashes, 1);
    reveal_with_fuel(spec_hashes_after, 1);
    reveal_with_fuel(spec_path_substitution, 1);
}

/// When the second of two objects in a row fails for good, so do both.
pub proof fn lemma_second_object_fatal(s: Seq<char>, i: int, d: int, k: int, ha: Seq<ItemModel>, f: Failure)
    requires
        !starts_with(s, i, seq!['$', '{']),
        spec_hash(s, i, d) == Ok::<(int, Seq<ItemModel>), ParseError>((k, ha)),
        i < k <= s.len(),
        spec_hash(s, k, d) == Err::<(int, Seq<ItemModel>), ParseError>(ParseError::Fatal(f)),
    ensures
        spec_hashes(s, i, d) == Err::<(int, Seq<ItemModel>), ParseError>(ParseError::Fatal(f)),
{
    lemma_no_substitution_at(s, i, d);
    assert(spec_hashes_rest(s, k, d) == Err::<(int, Seq<ItemModel>), ParseError>(ParseError::Fatal(f)))
        by {
        reveal_with_fuel(spec_hashes_rest, 1);
        reveal_with_fuel(spec_hash, 1);
    }
    assert(spec_hashes_after(s, i, d, None) == Err::<(int, Seq<ItemModel>), ParseError>(
        ParseError::Fatal(f),
    )) by {
        reveal_with_fuel(spec_hashes_after, 1);
        reveal_with_fuel(spec_hash, 1);
        reveal_with_fuel(spec_hashes_rest, 1);
    }
    reveal_with_fuel(spec_hashes, 1);
    reveal_with_fuel(spec_hashes_after, 1);
    reveal_with_fuel(spec_path_substitution, 1);
}

/// Two arrays in a row are one array: the elements of the first, then
/// those of the second.
pub proof fn lemma_two_arrays_join(
    s: Seq<char>,
    i: int,
    d: int,
    k: int,
    m: int,
    va: Seq<Seq<ItemModel>>,
    vb: Seq<Seq<ItemModel>>,
)
    requires
        !starts_with(s, i, seq!['$', '{']),
        spec_array(s, i, d) == Ok::<(int, Seq<Seq<ItemModel>>), ParseError>((k, va)),
        i < k <= s.len(),
        spec_array(s, k, d) == Ok::<(int, Seq<Seq<ItemModel>>), ParseError>((m, vb)),
        k < m <= s.len(),
        spec_array(s, m, d) == Err::<(int, Seq<Seq<ItemModel>>), ParseError>(ParseError::Backtrack),
    ensures
        spec_arrays(s, i, d) == Ok::<(int, Seq<Seq<ItemModel>>), ParseError>((m, va + vb)),
{
    lemma_no_substitution_at(s, i, d);
    assert(spec_arrays_rest(s, m, d) == Ok::<(int, Seq<Seq<ItemModel>>), ParseError>((m, seq![]))) by {
        reveal_with_fuel(spec_arrays_rest, 1);
        reveal_with_fuel(spec_array, 1);
    }
    assert(vb + Seq::<Seq<ItemModel>>::empty() =~= vb);
    assert(spec_arrays_rest(s, k, d) == Ok::<(int, Seq<Seq<ItemModel>>), ParseError>((m, vb))) by {
        reveal_with_fuel(spec_arrays_rest, 1);
        reveal_with_fuel(spec_array, 1);
    }
    assert(array_substitution(None) + va =~= va);
    assert(spec_arrays_after(s, i, d, None) == Ok::<(int, Seq<Seq<ItemModel>>), ParseError>(
        (m, va + vb),
    )) by {
        reveal_with_fuel(spec_arrays_after, 1);
        reveal_with_fuel(spec_array, 1);
        reveal_with_fuel(spec_arrays_rest, 1);
    }
    reveal_with_fuel(spec_arrays, 1);
    reveal_with_fuel(spec_arrays_after, 1);
    reveal_with_fuel(spec_path_substitution, 1);
}

/// When the second of two arrays in a row fails for good, so do both.
pub proof fn lemma_second_array_fatal(
    s: Seq<char>,
    i: int,
    d: int,
    k: int,
    va: Seq<Seq<ItemModel>>,
    f: Failure,
)
    requires
        !starts_with(s, i, seq!['$', '{']),
        spec_array(s, i, d) == Ok::<(int, Seq<Seq<ItemModel>>), ParseError>((k, va)),
        i < k <= s.len(),
        spec_array(s, k, d) == Err::<(int, Seq<Seq<ItemModel>>), ParseError>(ParseError::Fatal(f)),
    ensures
        spec_arrays(s, i, d) == Err::<(int, Seq<Seq<ItemModel>>), ParseError>(ParseError::Fatal(f)),
{
    lemma_no_substitution_at(s, i, d);
    assert(spec_arrays_rest(s, k, d) == Err::<(int, Seq<Seq<ItemModel>>), ParseError>(
        ParseError::Fatal(f),
    )) by {
        reveal_with_fuel(spec_arrays_rest, 1);
        reveal_with_fuel(spec_array, 1);
    }
    assert(spec_arrays_after(s, i, d, None) == Err::<(int, Seq<Seq<ItemModel>>), ParseError>(
        ParseError::Fatal(f),
    )) by {
        reveal_with_fuel(spec_arrays_after, 1);
        reveal_with_fuel(spec_array, 1);
        reveal_with_fuel(spec_arrays_rest, 1);
    }
    reveal_with_fuel(spec_arrays, 1);
    reveal_with_fuel(spec_arrays_after, 1);
    reveal_with_fuel(spec_path_substitution, 1);
}

} // verus!
