//! The parser: each function reads the construct that `grammar` describes
//! at a position of a text and returns what `grammar` says it returns.
use vstd::prelude::*;
use crate::grammar::{
    key_append_at, spec_hocon_value, spec_optional_path_substitution, spec_path_substitution, spec_single_value,
    spec_values_rest, substitution_body, Failure, ParseError, MAX_DEPTH,
};
use crate::grammar::{
    array_substitution, object_substitution, prepend_elems, prepend_items, spec_array, spec_arrays,
    spec_arrays_after, spec_arrays_rest, spec_hash, spec_hashes, spec_hashes_after,
    spec_hashes_rest, spec_hashlist, spec_hashlist_rest, spec_key_rest, spec_key_value,
    spec_wrapper, spec_wrapper_list, spec_wrapper_list_rest, spec_closing, spec_root,
    spec_root_hash, spec_root_include, spec_colon_or_equals, spec_include_parser,
    spec_include_target, spec_separators,
};
use crate::internal::{lemma_ids_all_uuid, ids_are_uuids, ids_all, lemma_ids_add, lemma_same_values_ids, 
    item_models, lemma_item_models_add, HoconInternal, Include, IncludeKind, Item, ItemModel,
};
use crate::lexer::{multispace_end, starts_with, 
    boolean, float, has_prefix, integer, multiline_comment, multiline_string, multispace0, newlines,
    opt_pos, possible_comment, space, string, unquoted_string,
};
use crate::primitives::{is_hyphenated_v4_uuid, string_from_chars};
use crate::value::{lemma_models, maybe_concat_spec, models, HoconValue, Value};

verus! {

/// The model of a parse result that yields a value.
pub open spec fn value_result(r: Result<(usize, HoconValue), ParseError>) -> Result<
    (int, Value),
    ParseError,
> {
    match r {
        Ok((p, v)) => Ok((p as int, v@)),
        Err(e) => Err(e),
    }
}

/// Prepends `acc` to the values of a result.
pub open spec fn prepend_values(acc: Seq<Value>, r: Result<(int, Seq<Value>), ParseError>) -> Result<
    (int, Seq<Value>),
    ParseError,
> {
    match r {
        Ok((e, vs)) => Ok((e, acc + vs)),
        Err(x) => Err(x),
    }
}

pub proof fn lemma_prepend_values(a: Seq<Value>, b: Seq<Value>, r: Result<(int, Seq<Value>), ParseError>)
    ensures
        prepend_values(a, prepend_values(b, r)) == prepend_values(a + b, r),
{
    match r {
        Ok((e, vs)) => {
            assert(a + (b + vs) =~= (a + b) + vs);
        },
        Err(_) => {},
    }
}

/// After `${` or `${?` at `i`, with the body starting at `j`: the value and
/// the closing `}`.
fn substitution_rest(s: &[char], j: usize, d: usize) -> (r: Result<(usize, HoconValue), ParseError>)
    requires
        j <= s@.len(),
        d < MAX_DEPTH,
    ensures
        value_result(r) == substitution_body(spec_hocon_value(s@, j as int, d + 1), s@),
        r matches Ok((e, _)) ==> j < e <= s@.len(),
    decreases MAX_DEPTH - d, 0int, 0int,
{
    let (k, v) = match hocon_value(s, j, d + 1) {
        Ok(x) => x,
        Err(e) => return Err(e),
    };
    if k < s.len() && s[k] == '}' {
        Ok((k + 1, v))
    } else {
        Err(ParseError::Fatal(Failure::UnclosedSubstitution))
    }
}

/// Reads `${?path}` at `i`; returns the path value.
pub fn optional_path_substitution(s: &[char], i: usize, d: usize) -> (r: Result<
    (usize, HoconValue),
    ParseError,
>)
    requires
        i <= s@.len(),
        d <= MAX_DEPTH,
    ensures
        value_result(r) == spec_optional_path_substitution(s@, i as int, d as int),
        r matches Ok((e, _)) ==> i < e <= s@.len(),
    decreases MAX_DEPTH - d, s@.len() - i, 1int,
{
    reveal_with_fuel(spec_optional_path_substitution, 1);
    reveal_with_fuel(spec_hocon_value, 1);
    let open: &[char] = &['$', '{', '?'];
    assert(open@ =~= seq!['$', '{', '?']);
    if !has_prefix(s, i, open) {
        return Err(ParseError::Backtrack);
    }
    if d >= MAX_DEPTH {
        return Err(ParseError::Fatal(Failure::TooDeep));
    }
    substitution_rest(s, i + 3, d)
}

/// Reads `${path}` or `${?path}` at `i`; returns the path value.
pub fn path_substitution(s: &[char], i: usize, d: usize) -> (r: Result<
    (usize, HoconValue),
    ParseError,
>)
    requires
        i <= s@.len(),
        d <= MAX_DEPTH,
    ensures
        value_result(r) == spec_path_substitution(s@, i as int, d as int),
        r matches Ok((e, _)) ==> i < e <= s@.len(),
    decreases MAX_DEPTH - d, s@.len() - i, 1int,
{
    reveal_with_fuel(spec_path_substitution, 1);
    reveal_with_fuel(spec_hocon_value, 1);
    let open3: &[char] = &['$', '{', '?'];
    let open2: &[char] = &['$', '{'];
    assert(open3@ =~= seq!['$', '{', '?']);
    assert(open2@ =~= seq!['$', '{']);
    let j: usize = if has_prefix(s, i, open3) {
        i + 3
    } else if has_prefix(s, i, open2) {
        i + 2
    } else {
        return Err(ParseError::Backtrack);
    };
    if d >= MAX_DEPTH {
        return Err(ParseError::Fatal(Failure::TooDeep));
    }
    substitution_rest(s, j, d)
}

/// Reads one value at `i`.
pub fn single_value(s: &[char], i: usize, d: usize) -> (r: Result<(usize, HoconValue), ParseError>)
    requires
        i <= s@.len(),
        d <= MAX_DEPTH,
    ensures
        value_result(r) == spec_single_value(s@, i as int, d as int),
        r matches Ok((_, v)) ==> !(v is ToConcatToArray),
        r matches Ok((e, _)) ==> i < e <= s@.len(),
    decreases MAX_DEPTH - d, s@.len() - i, 2int,
{
    reveal_with_fuel(spec_single_value, 1);
    reveal_with_fuel(spec_optional_path_substitution, 1);
    reveal_with_fuel(spec_path_substitution, 1);
    if let Some((e, t)) = multiline_string(s, i) {
        return Ok((e, HoconValue::String(string_from_chars(t.as_slice()))));
    }
    if let Some((e, t)) = string(s, i) {
        return Ok((e, HoconValue::String(string_from_chars(t.as_slice()))));
    }
    if let Some((e, v)) = integer(s, i) {
        return Ok((e, HoconValue::Integer(v)));
    }
    if let Some((e, t)) = float(s, i) {
        return Ok((e, HoconValue::Real(string_from_chars(t.as_slice()))));
    }
    if let Some((e, b)) = boolean(s, i) {
        return Ok((e, HoconValue::Boolean(b)));
    }
    match optional_path_substitution(s, i, d) {
        Ok((e, t)) => {
            return Ok(
                (
                    e,
                    HoconValue::PathSubstitution {
                        target: Box::new(t),
                        optional: true,
                        original: None,
                    },
                ),
            );
        },
        Err(ParseError::Fatal(f)) => return Err(ParseError::Fatal(f)),
        Err(ParseError::Backtrack) => {},
    }
    match path_substitution(s, i, d) {
        Ok((e, t)) => {
            return Ok(
                (
                    e,
                    HoconValue::PathSubstitution {
                        target: Box::new(t),
                        optional: false,
                        original: None,
                    },
                ),
            );
        },
        Err(ParseError::Fatal(f)) => return Err(ParseError::Fatal(f)),
        Err(ParseError::Backtrack) => {},
    }
    match unquoted_string(s, i) {
        Some((e, t)) => Ok((e, HoconValue::UnquotedString(string_from_chars(t.as_slice())))),
        None => Err(ParseError::Backtrack),
    }
}

/// Reads a value at `i`: comments, then one or more values next to each
/// other.
pub fn hocon_value(s: &[char], i: usize, d: usize) -> (r: Result<(usize, HoconValue), ParseError>)
    requires
        i <= s@.len(),
        d <= MAX_DEPTH,
    ensures
        value_result(r) == spec_hocon_value(s@, i as int, d as int),
        r matches Ok((_, v)) ==> !(v is ToConcatToArray),
        r matches Ok((e, _)) ==> i < e <= s@.len(),
    decreases MAX_DEPTH - d, s@.len() - i, 4int,
{
    reveal_with_fuel(spec_hocon_value, 1);
    reveal_with_fuel(spec_single_value, 1);
    reveal_with_fuel(spec_values_rest, 1);
    let p = possible_comment(s, i);
    let (k0, first) = match single_value(s, p, d) {
        Ok(x) => x,
        Err(e) => return Err(e),
    };
    let mut k: usize = k0;
    let mut rest: Vec<HoconValue> = Vec::new();
    loop
        invariant_except_break
            k0 <= k <= s@.len(),
            i <= p < k0,
            d <= MAX_DEPTH,
            p == crate::lexer::possible_comment_end(s@, i as int),
            spec_single_value(s@, p as int, d as int) == Ok::<(int, Value), ParseError>(
                (k0 as int, first@),
            ),
            spec_hocon_value(s@, i as int, d as int) == (match spec_values_rest(
                s@,
                k0 as int,
                d as int,
            ) {
                Err(e) => Err(e),
                Ok((e, rest)) => if rest.len() == 0 {
                    Ok((e, first@))
                } else {
                    Ok((e, maybe_concat_spec(seq![first@] + rest)))
                },
            }),
            spec_values_rest(s@, k0 as int, d as int) == prepend_values(
                models(rest@),
                spec_values_rest(s@, k as int, d as int),
            ),
        ensures
            k0 <= k <= s@.len(),
            spec_values_rest(s@, k0 as int, d as int) == Ok::<(int, Seq<Value>), ParseError>(
                (k as int, models(rest@)),
            ),
        decreases s@.len() - k,
    {
            reveal_with_fuel(spec_values_rest, 1);
        reveal_with_fuel(spec_single_value, 1);
        match single_value(s, k, d) {
            Ok((k2, v)) => {
                proof {
                    crate::value::lemma_models_push(rest@, v);
                    lemma_prepend_values(
                        models(rest@),
                        seq![v@],
                        spec_values_rest(s@, k2 as int, d as int),
                    );
                    assert(models(rest@) + seq![v@] =~= models(rest@.push(v)));
                }
                rest.push(v);
                k = k2;
            },
            Err(ParseError::Fatal(f)) => return Err(ParseError::Fatal(f)),
            Err(ParseError::Backtrack) => {
                assert(models(rest@) + Seq::<Value>::empty() =~= models(rest@));
                break;
            },
        }
    }
    proof { lemma_models(rest@); }
    if rest.len() == 0 {
        Ok((k, first))
    } else {
        let mut values: Vec<HoconValue> = Vec::new();
        let ghost rest_before = rest@;
        values.push(first);
        values.append(&mut rest);
        assert(values@ =~= seq![first] + rest_before);
        proof {
            crate::value::lemma_models_add(seq![first], rest_before);
            crate::value::lemma_models_push(Seq::empty(), first);
            assert(seq![first] =~= Seq::<HoconValue>::empty().push(first));
            assert(models(Seq::<HoconValue>::empty()) =~= Seq::<Value>::empty());
            assert(models(values@) =~= seq![first@] + models(rest_before));
        }
        Ok((k, HoconValue::maybe_concat(values)))
    }
}


// ---------------------------------------------------------------------------
// Separators
// ---------------------------------------------------------------------------

/// Reads what separates two fields or elements; returns its end.
pub fn separators(s: &[char], i: usize) -> (r: Option<usize>)
    requires
        i <= s@.len(),
    ensures
        opt_pos(r) == spec_separators(s@, i as int),
        r matches Some(q) ==> i < q <= s@.len(),
{
    let a = space(s, i);
    match multiline_comment(s, a) {
        Some(b) => {
            let c = space(s, b);
            let p = possible_comment(s, c);
            return Some(multispace0(s, p));
        },
        None => {},
    }
    if a < s.len() && s[a] == '\n' {
        let b = newlines(s, a);
        proof { crate::lexer::lemma_run_end(s@, a as int, |c: char| crate::lexer::is_newline_char(c)); }
        let c = space(s, b);
        let p = possible_comment(s, c);
        return Some(multispace0(s, p));
    }
    let c = multispace0(s, i);
    if c < s.len() && s[c] == ',' {
        let m = multispace0(s, c + 1);
        Some(possible_comment(s, m))
    } else {
        None
    }
}

/// Reads the end of an object or array closed by `close`; returns the
/// position after `close`.
pub fn closing(s: &[char], i: usize, close: char) -> (r: Option<usize>)
    requires
        i <= s@.len(),
    ensures
        opt_pos(r) == spec_closing(s@, i as int, close),
        r matches Some(q) ==> i < q <= s@.len(),
{
    let a = match separators(s, i) {
        Some(x) => x,
        None => i,
    };
    let b = multispace0(s, a);
    if b < s.len() && s[b] == close {
        Some(b + 1)
    } else {
        None
    }
}

/// Reads a `:` or `=` between whitespace.
pub fn colon_or_equals(s: &[char], i: usize) -> (r: Option<usize>)
    requires
        i <= s@.len(),
    ensures
        opt_pos(r) == spec_colon_or_equals(s@, i as int),
        r matches Some(q) ==> i < q <= s@.len(),
{
    let a = multispace0(s, i);
    if a < s.len() && (s[a] == ':' || s[a] == '=') {
        Some(multispace0(s, a + 1))
    } else {
        None
    }
}

// ---------------------------------------------------------------------------
// Includes
// ---------------------------------------------------------------------------

/// Reads `file("...")`, `url("...")` or a quoted string.
pub fn include_target(s: &[char], i: usize) -> (r: Option<(usize, IncludeKind, Vec<char>)>)
    requires
        i <= s@.len(),
    ensures
        match r {
            Some((e, k, t)) => spec_include_target(s@, i as int) == Some((e as int, k, t@)),
            None => spec_include_target(s@, i as int) is None,
        },
        r matches Some((e, k, t)) ==> i < e <= s@.len(),
{
    let file: &[char] = &['f', 'i', 'l', 'e', '('];
    let url: &[char] = &['u', 'r', 'l', '('];
    let close: &[char] = &[')'];
    assert(file@ =~= seq!['f', 'i', 'l', 'e', '(']);
    assert(url@ =~= seq!['u', 'r', 'l', '(']);
    assert(close@ =~= seq![')']);
    if has_prefix(s, i, file) {
        match string(s, i + 5) {
            Some((e, t)) => if has_prefix(s, e, close) {
                Some((e + 1, IncludeKind::File, t))
            } else {
                None
            },
            None => None,
        }
    } else if has_prefix(s, i, url) {
        match string(s, i + 4) {
            Some((e, t)) => if has_prefix(s, e, close) {
                Some((e + 1, IncludeKind::Url, t))
            } else {
                None
            },
            None => None,
        }
    } else {
        match string(s, i) {
            Some((e, t)) => Some((e, IncludeKind::File, t)),
            None => None,
        }
    }
}

/// Reads an `include` directive.
pub fn include_parser(s: &[char], i: usize) -> (r: Option<(usize, Include)>)
    requires
        i <= s@.len(),
    ensures
        match r {
            Some((e, inc)) => spec_include_parser(s@, i as int) == Some((e as int, inc@)),
            None => spec_include_parser(s@, i as int) is None,
        },
        r matches Some((e, inc)) ==> i < e <= s@.len(),
{
    let kw: &[char] = &['i', 'n', 'c', 'l', 'u', 'd', 'e', ' '];
    let req: &[char] = &['r', 'e', 'q', 'u', 'i', 'r', 'e', 'd', '('];
    let close: &[char] = &[')'];
    assert(kw@ =~= seq!['i', 'n', 'c', 'l', 'u', 'd', 'e', ' ']);
    assert(req@ =~= seq!['r', 'e', 'q', 'u', 'i', 'r', 'e', 'd', '(']);
    assert(close@ =~= seq![')']);
    if !has_prefix(s, i, kw) {
        return None;
    }
    let a = multispace0(s, i + 8);
    let b = space(s, a);
    if has_prefix(s, b, req) {
        match include_target(s, b + 9) {
            Some((e, k, t)) => {
                if has_prefix(s, e, close) {
                    let end = space(s, e + 1);
                    return Some(
                        (
                            end,
                            Include {
                                kind: k,
                                target: string_from_chars(t.as_slice()),
                                required: true,
                            },
                        ),
                    );
                }
            },
            None => {},
        }
    }
    match include_target(s, b) {
        Some((e, k, t)) => {
            let end = space(s, e);
            Some(
                (
                    end,
                    Include { kind: k, target: string_from_chars(t.as_slice()), required: false },
                ),
            )
        },
        None => None,
    }
}


// ---------------------------------------------------------------------------
// Objects, arrays and fields
// ---------------------------------------------------------------------------

pub open spec fn items_result(r: Result<(usize, Vec<Item>), ParseError>) -> Result<
    (int, Seq<ItemModel>),
    ParseError,
> {
    match r {
        Ok((p, v)) => Ok((p as int, item_models(v@))),
        Err(e) => Err(e),
    }
}

pub open spec fn doc_result(r: Result<(usize, HoconInternal), ParseError>) -> Result<
    (int, Seq<ItemModel>),
    ParseError,
> {
    match r {
        Ok((p, v)) => Ok((p as int, v@)),
        Err(e) => Err(e),
    }
}

pub open spec fn elems_model(v: Seq<HoconInternal>) -> Seq<Seq<ItemModel>> {
    v.map_values(|e: HoconInternal| e@)
}

pub open spec fn elems_result(r: Result<(usize, Vec<HoconInternal>), ParseError>) -> Result<
    (int, Seq<Seq<ItemModel>>),
    ParseError,
> {
    match r {
        Ok((p, v)) => Ok((p as int, elems_model(v@))),
        Err(e) => Err(e),
    }
}

pub open spec fn opt_value_model(t: Option<HoconValue>) -> Option<Value> {
    match t {
        Some(v) => Some(v@),
        None => None,
    }
}

pub proof fn lemma_prepend_items(
    a: Seq<ItemModel>,
    b: Seq<ItemModel>,
    r: Result<(int, Seq<ItemModel>), ParseError>,
)
    ensures
        prepend_items(a, prepend_items(b, r)) == prepend_items(a + b, r),
{
    match r {
        Ok((e, vs)) => {
            assert(a + (b + vs) =~= (a + b) + vs);
        },
        Err(_) => {},
    }
}

pub proof fn lemma_prepend_items_empty(a: Seq<ItemModel>, e: int)
    ensures
        prepend_items(a, Ok((e, seq![]))) == Ok::<(int, Seq<ItemModel>), ParseError>((e, a)),
{
    assert(a + seq![] =~= a);
}

pub proof fn lemma_prepend_elems(
    a: Seq<Seq<ItemModel>>,
    b: Seq<Seq<ItemModel>>,
    r: Result<(int, Seq<Seq<ItemModel>>), ParseError>,
)
    ensures
        prepend_elems(a, prepend_elems(b, r)) == prepend_elems(a + b, r),
{
    match r {
        Ok((e, vs)) => {
            assert(a + (b + vs) =~= (a + b) + vs);
        },
        Err(_) => {},
    }
}

pub proof fn lemma_prepend_elems_empty(a: Seq<Seq<ItemModel>>, e: int)
    ensures
        prepend_elems(a, Ok((e, seq![]))) == Ok::<(int, Seq<Seq<ItemModel>>), ParseError>((e, a)),
{
    assert(a + seq![] =~= a);
}

/// Every `+=` entry of every element carries a hyphenated version-4 UUID.
pub open spec fn all_ids_are_uuids(xs: Seq<HoconInternal>) -> bool {
    forall|i: int| 0 <= i < xs.len() ==> ids_are_uuids(#[trigger] xs[i].internal@)
}

proof fn lemma_all_ids_add(a: Seq<HoconInternal>, b: Seq<HoconInternal>)
    ensures
        all_ids_are_uuids(a) && all_ids_are_uuids(b) ==> all_ids_are_uuids(a + b),
{
    if all_ids_are_uuids(a) && all_ids_are_uuids(b) {
        assert forall|i: int| 0 <= i < (a + b).len() implies ids_are_uuids(#[trigger] (a + b)[i].internal@) by {
            if i < a.len() {
                assert((a + b)[i] == a[i]);
            } else {
                assert((a + b)[i] == b[i - a.len()]);
            }
        }
    }
}

proof fn lemma_all_ids_push(a: Seq<HoconInternal>, x: HoconInternal)
    ensures
        all_ids_are_uuids(a) && ids_are_uuids(x.internal@) ==> all_ids_are_uuids(a.push(x)),
{
    if all_ids_are_uuids(a) && ids_are_uuids(x.internal@) {
        assert forall|i: int| 0 <= i < a.push(x).len() implies ids_are_uuids(#[trigger] a.push(x)[i].internal@) by {
            if i < a.len() {
                assert(a.push(x)[i] == a[i]);
            }
        }
    }
}

/// Reads a value in field or element position.
pub fn wrapper(s: &[char], i: usize, d: usize) -> (r: Result<(usize, HoconInternal), ParseError>)
    requires
        i <= s@.len(),
        d <= MAX_DEPTH,
    ensures
        doc_result(r) == spec_wrapper(s@, i as int, d as int),
        r matches Ok((_, x)) ==> ids_are_uuids(x.internal@),
        r matches Ok((e, _)) ==> i < e <= s@.len(),
    decreases MAX_DEPTH - d, s@.len() - i, 5int,
{
    reveal_with_fuel(spec_wrapper, 1);
    reveal_with_fuel(spec_hashes, 1);
    reveal_with_fuel(spec_arrays, 1);
    let p = possible_comment(s, i);
    match hashes(s, p, d) {
        Ok((e, h)) => return Ok((e, HoconInternal::from_object(h))),
        Err(ParseError::Fatal(f)) => return Err(ParseError::Fatal(f)),
        Err(ParseError::Backtrack) => {},
    }
    match arrays(s, p, d) {
        Ok((e, elems)) => return Ok((e, HoconInternal::from_array(elems))),
        Err(ParseError::Fatal(f)) => return Err(ParseError::Fatal(f)),
        Err(ParseError::Backtrack) => {},
    }
    match include_parser(s, p) {
        Some((e, inc)) => {
            let mut items: Vec<Item> = Vec::new();
            let it = Item::Include(Vec::new(), inc);
            assert(models(Seq::<HoconValue>::empty()) =~= Seq::<Value>::empty());
            items.push(it);
            assert(item_models(items@) =~= seq![ItemModel::Include(seq![], inc@)]);
            return Ok((e, HoconInternal { internal: items }));
        },
        None => {},
    }
    match hocon_value(s, p, d) {
        Ok((e, v)) => Ok((e, HoconInternal::from_value(v))),
        Err(x) => Err(x),
    }
}

/// Reads objects next to each other, optionally after a substitution.
pub fn hashes(s: &[char], i: usize, d: usize) -> (r: Result<(usize, Vec<Item>), ParseError>)
    requires
        i <= s@.len(),
        d <= MAX_DEPTH,
    ensures
        items_result(r) == spec_hashes(s@, i as int, d as int),
        r matches Ok((_, x)) ==> ids_are_uuids(x@),
        r matches Ok((e, _)) ==> i < e <= s@.len(),
    decreases MAX_DEPTH - d, s@.len() - i, 4int,
{
    reveal_with_fuel(spec_hashes, 1);
    reveal_with_fuel(spec_hashes_after, 1);
    match path_substitution(s, i, d) {
        Err(ParseError::Fatal(f)) => Err(ParseError::Fatal(f)),
        Err(ParseError::Backtrack) => hashes_after(s, i, d, None),
        Ok((j, t)) => hashes_after(s, j, d, Some(t)),
    }
}

fn hashes_after(s: &[char], j: usize, d: usize, t: Option<HoconValue>) -> (r: Result<
    (usize, Vec<Item>),
    ParseError,
>)
    requires
        j <= s@.len(),
        d <= MAX_DEPTH,
    ensures
        items_result(r) == spec_hashes_after(s@, j as int, d as int, opt_value_model(t)),
        r matches Ok((_, x)) ==> ids_are_uuids(x@),
        r matches Ok((e, _)) ==> j < e <= s@.len(),
    decreases MAX_DEPTH - d, s@.len() - j, 3int,
{
    reveal_with_fuel(spec_hashes_after, 1);
    reveal_with_fuel(spec_hash, 1);
    reveal_with_fuel(spec_hashes_rest, 1);
    let (k0, mut first) = match hash(s, j, d) {
        Ok(x) => x,
        Err(e) => return Err(e),
    };
    let ghost tm = opt_value_model(t);
    let mut acc: Vec<Item> = Vec::new();
    match t {
        Some(v) => {
            let it = Item::Entry(
                Vec::new(),
                HoconValue::PathSubstitution { target: Box::new(v), optional: false, original: None },
            );
            assert(models(Seq::<HoconValue>::empty()) =~= Seq::<Value>::empty());
            acc.push(it);
        },
        None => {},
    }
    assert(item_models(acc@) =~= object_substitution(tm));
    assert(ids_are_uuids(acc@));
    proof {
        lemma_item_models_add(acc@, first@);
        lemma_ids_add(acc@, first@);
    }
    acc.append(&mut first);
    let ghost m0 = item_models(acc@);
    let mut fatal: Option<Failure> = None;
    let mut k: usize = k0;
    loop
        invariant_except_break
            j < k0 <= k <= s@.len(),
            d <= MAX_DEPTH,
            fatal is None,
            ids_are_uuids(acc@),
            spec_hashes_after(s@, j as int, d as int, tm) == prepend_items(
                m0,
                spec_hashes_rest(s@, k0 as int, d as int),
            ),
            prepend_items(m0, spec_hashes_rest(s@, k0 as int, d as int)) == prepend_items(
                item_models(acc@),
                spec_hashes_rest(s@, k as int, d as int),
            ),
        ensures
            j < k0 <= k <= s@.len(),
            ids_are_uuids(acc@),
            match fatal {
                Some(f) => prepend_items(m0, spec_hashes_rest(s@, k0 as int, d as int)) == Err::<
                    (int, Seq<ItemModel>),
                    ParseError,
                >(ParseError::Fatal(f)),
                None => prepend_items(m0, spec_hashes_rest(s@, k0 as int, d as int)) == Ok::<
                    (int, Seq<ItemModel>),
                    ParseError,
                >((k as int, item_models(acc@))),
            },
        decreases s@.len() - k,
    {
        reveal_with_fuel(spec_hashes_rest, 1);
        reveal_with_fuel(spec_hash, 1);
        match hash(s, k, d) {
            Ok((k2, mut h)) => {
                proof {
                    lemma_prepend_items(
                        item_models(acc@),
                        item_models(h@),
                        spec_hashes_rest(s@, k2 as int, d as int),
                    );
                    lemma_item_models_add(acc@, h@);
                    lemma_ids_add(acc@, h@);
                }
                acc.append(&mut h);
                k = k2;
            },
            Err(ParseError::Fatal(f)) => {
                fatal = Some(f);
                break;
            },
            Err(ParseError::Backtrack) => {
                proof { lemma_prepend_items_empty(item_models(acc@), k as int); }
                break;
            },
        }
    }
    match fatal {
        Some(f) => Err(ParseError::Fatal(f)),
        None => Ok((k, acc)),
    }
}

/// Reads an object in braces; returns its fields.
pub fn hash(s: &[char], i: usize, d: usize) -> (r: Result<(usize, Vec<Item>), ParseError>)
    requires
        i <= s@.len(),
        d <= MAX_DEPTH,
    ensures
        items_result(r) == spec_hash(s@, i as int, d as int),
        r matches Ok((_, x)) ==> ids_are_uuids(x@),
        r matches Ok((e, _)) ==> i < e <= s@.len(),
    decreases MAX_DEPTH - d, s@.len() - i, 2int,
{
    reveal_with_fuel(spec_hash, 1);
    reveal_with_fuel(spec_hashlist, 1);
    let a = space(s, i);
    if !(a < s.len() && s[a] == '{') {
        return Err(ParseError::Backtrack);
    }
    if d >= MAX_DEPTH {
        return Err(ParseError::Fatal(Failure::TooDeep));
    }
    let (k, items) = match hashlist(s, a + 1, d + 1) {
        Ok(x) => x,
        Err(e) => return Err(e),
    };
    match closing(s, k, '}') {
        Some(c) => Ok((space(s, c), items)),
        None => Err(ParseError::Backtrack),
    }
}

/// Reads fields separated by separators; returns all their items.
pub fn hashlist(s: &[char], i: usize, d: usize) -> (r: Result<(usize, Vec<Item>), ParseError>)
    requires
        i <= s@.len(),
        d <= MAX_DEPTH,
    ensures
        items_result(r) == spec_hashlist(s@, i as int, d as int),
        r matches Ok((_, x)) ==> ids_are_uuids(x@),
        r matches Ok((e, _)) ==> i <= e <= s@.len(),
    decreases MAX_DEPTH - d, s@.len() - i, 8int,
{
    reveal_with_fuel(spec_hashlist, 1);
    reveal_with_fuel(spec_key_value, 1);
    reveal_with_fuel(spec_hashlist_rest, 1);
    let (k0, mut acc) = match key_value(s, i, d) {
        Ok(x) => x,
        Err(ParseError::Fatal(f)) => return Err(ParseError::Fatal(f)),
        Err(ParseError::Backtrack) => {
            assert(item_models(Seq::<Item>::empty()) =~= Seq::<ItemModel>::empty());
            let empty: Vec<Item> = Vec::new();
            assert(ids_are_uuids(empty@));
            return Ok((i, empty));
        },
    };
    let ghost m0 = item_models(acc@);
    let mut k: usize = k0;
    loop
        invariant_except_break
            i < k0 <= k <= s@.len(),
            d <= MAX_DEPTH,
            ids_are_uuids(acc@),
            spec_hashlist(s@, i as int, d as int) == prepend_items(
                m0,
                spec_hashlist_rest(s@, k0 as int, d as int),
            ),
            prepend_items(m0, spec_hashlist_rest(s@, k0 as int, d as int)) == prepend_items(
                item_models(acc@),
                spec_hashlist_rest(s@, k as int, d as int),
            ),
        ensures
            i < k0 <= k <= s@.len(),
            ids_are_uuids(acc@),
            prepend_items(m0, spec_hashlist_rest(s@, k0 as int, d as int)) == Ok::<
                (int, Seq<ItemModel>),
                ParseError,
            >((k as int, item_models(acc@))),
        decreases s@.len() - k,
    {
        reveal_with_fuel(spec_hashlist_rest, 1);
        reveal_with_fuel(spec_key_value, 1);
        let q = match separators(s, k) {
            Some(q) => q,
            None => {
                proof { lemma_prepend_items_empty(item_models(acc@), k as int); }
                break;
            },
        };
        match key_value(s, q, d) {
            Ok((r2, mut items)) => {
                proof {
                    lemma_prepend_items(
                        item_models(acc@),
                        item_models(items@),
                        spec_hashlist_rest(s@, r2 as int, d as int),
                    );
                    lemma_item_models_add(acc@, items@);
                    lemma_ids_add(acc@, items@);
                }
                acc.append(&mut items);
                k = r2;
            },
            Err(ParseError::Fatal(f)) => return Err(ParseError::Fatal(f)),
            Err(ParseError::Backtrack) => {
                proof { lemma_prepend_items_empty(item_models(acc@), k as int); }
                break;
            },
        }
    }
    Ok((k, acc))
}

/// Reads a field.
pub fn key_value(s: &[char], i: usize, d: usize) -> (r: Result<(usize, Vec<Item>), ParseError>)
    requires
        i <= s@.len(),
        d <= MAX_DEPTH,
    ensures
        items_result(r) == spec_key_value(s@, i as int, d as int),
        r matches Ok((_, x)) ==> ids_are_uuids(x@),
        key_append_at(s@, i as int) ==> (r matches Ok((_, x)) ==> exists|u: Seq<char>|
            is_hyphenated_v4_uuid(u) && #[trigger] ids_all(x@, u)),
        r matches Ok((e, _)) ==> i < e <= s@.len(),
    decreases MAX_DEPTH - d, s@.len() - i, 7int,
{
    reveal_with_fuel(spec_key_value, 1);
    reveal_with_fuel(spec_key_rest, 1);
    let a0 = multispace0(s, i);
    let a1 = possible_comment(s, a0);
    let a = multispace0(s, a1);
    let b = space(s, a);
    match include_parser(s, b) {
        Some((c, inc)) => {
            let mut items: Vec<Item> = Vec::new();
            let it = Item::Include(Vec::new(), inc);
            assert(models(Seq::<HoconValue>::empty()) =~= Seq::<Value>::empty());
            items.push(it);
            assert(item_models(items@) =~= seq![ItemModel::Include(seq![], inc@)]);
            return Ok((space(s, c), items));
        },
        None => {},
    }
    let q = multispace0(s, a);
    match string(s, q) {
        Some((e, key)) => {
            let r = multispace0(s, e);
            return key_rest(s, i, r, d, HoconValue::String(string_from_chars(key.as_slice())));
        },
        None => {},
    }
    match unquoted_string(s, q) {
        Some((e, key)) => {
            let r = multispace0(s, e);
            key_rest(s, i, r, d, HoconValue::UnquotedString(string_from_chars(key.as_slice())))
        },
        None => Err(ParseError::Backtrack),
    }
}

/// What follows a key that ends at `r`, for a field that starts at `i`.
fn key_rest(s: &[char], i: usize, r: usize, d: usize, key: HoconValue) -> (res: Result<
    (usize, Vec<Item>),
    ParseError,
>)
    requires
        i < r <= s@.len(),
        d <= MAX_DEPTH,
    ensures
        items_result(res) == spec_key_rest(s@, i as int, r as int, d as int, key@),
        res matches Ok((_, x)) ==> ids_are_uuids(x@),
        starts_with(s@, multispace_end(s@, r as int), seq!['+', '=']) ==> (res matches Ok((_, x))
            ==> exists|u: Seq<char>| is_hyphenated_v4_uuid(u) && #[trigger] ids_all(x@, u)),
        res matches Ok((e, _)) ==> i < e <= s@.len(),
    decreases MAX_DEPTH - d, s@.len() - i, 6int,
{
    reveal_with_fuel(spec_key_rest, 1);
    reveal_with_fuel(spec_wrapper, 1);
    reveal_with_fuel(spec_hashes, 1);
    let mut path: Vec<HoconValue> = Vec::new();
    path.push(key);
    proof {
        crate::value::lemma_models_push(Seq::empty(), key);
        assert(models(Seq::<HoconValue>::empty()) =~= Seq::<Value>::empty());
        assert(Seq::<HoconValue>::empty().push(key) =~= path@);
        assert(Seq::<Value>::empty().push(key@) =~= seq![key@]);
    }
    let t = multispace0(s, r);
    let plus: &[char] = &['+', '='];
    assert(plus@ =~= seq!['+', '=']);
    if has_prefix(s, t, plus) {
        let u = multispace0(s, t + 2);
        let (e, items) = match wrapper(s, u, d) {
            Ok(x) => x,
            Err(x) => return Err(x),
        };
        let id = crate::primitives::new_item_id();
        let obj = HoconInternal::from_object(items.internal);
        let appended = obj.to_concat_to_array(&id);
        let ghost before = appended.internal@;
        let res = appended.add_to_path(&path);
        proof {
            lemma_same_values_ids(before, res.internal@);
            assert(ids_all(res.internal@, id@));
            lemma_ids_all_uuid(res.internal@, id@);
        }
        return Ok((e, res.internal));
    }
    match colon_or_equals(s, r) {
        Some(u) => {
            let (e, items) = match wrapper(s, u, d) {
                Ok(x) => x,
                Err(x) => return Err(x),
            };
            let obj = HoconInternal::from_object(items.internal);
            let ghost before = obj.internal@;
            let res = obj.add_to_path(&path);
            proof { lemma_same_values_ids(before, res.internal@); }
            Ok((e, res.internal))
        },
        None => match hashes(s, r, d) {
            Ok((e, h)) => {
                let obj = HoconInternal::from_object(h);
                let ghost before = obj.internal@;
                let res = obj.add_to_path(&path);
                proof { lemma_same_values_ids(before, res.internal@); }
                Ok((e, res.internal))
            },
            Err(x) => Err(x),
        },
    }
}

/// Reads arrays next to each other, optionally after a substitution;
/// returns their elements.
pub fn arrays(s: &[char], i: usize, d: usize) -> (r: Result<(usize, Vec<HoconInternal>), ParseError>)
    requires
        i <= s@.len(),
        d <= MAX_DEPTH,
    ensures
        elems_result(r) == spec_arrays(s@, i as int, d as int),
        r matches Ok((_, xs)) ==> all_ids_are_uuids(xs@),
        r matches Ok((e, _)) ==> i < e <= s@.len(),
    decreases MAX_DEPTH - d, s@.len() - i, 4int,
{
    reveal_with_fuel(spec_arrays, 1);
    reveal_with_fuel(spec_arrays_after, 1);
    match path_substitution(s, i, d) {
        Err(ParseError::Fatal(f)) => Err(ParseError::Fatal(f)),
        Err(ParseError::Backtrack) => arrays_after(s, i, d, None),
        Ok((j, t)) => arrays_after(s, j, d, Some(t)),
    }
}

pub proof fn lemma_elems_model_add(a: Seq<HoconInternal>, b: Seq<HoconInternal>)
    ensures
        elems_model(a + b) == elems_model(a) + elems_model(b),
{
    assert(elems_model(a + b) =~= elems_model(a) + elems_model(b));
}

fn arrays_after(s: &[char], j: usize, d: usize, t: Option<HoconValue>) -> (r: Result<
    (usize, Vec<HoconInternal>),
    ParseError,
>)
    requires
        j <= s@.len(),
        d <= MAX_DEPTH,
    ensures
        elems_result(r) == spec_arrays_after(s@, j as int, d as int, opt_value_model(t)),
        r matches Ok((_, xs)) ==> all_ids_are_uuids(xs@),
        r matches Ok((e, _)) ==> j < e <= s@.len(),
    decreases MAX_DEPTH - d, s@.len() - j, 3int,
{
    reveal_with_fuel(spec_arrays_after, 1);
    reveal_with_fuel(spec_array, 1);
    reveal_with_fuel(spec_arrays_rest, 1);
    let (k0, mut first) = match array(s, j, d) {
        Ok(x) => x,
        Err(e) => return Err(e),
    };
    let ghost tm = opt_value_model(t);
    let mut acc: Vec<HoconInternal> = Vec::new();
    match t {
        Some(v) => {
            let e = HoconInternal::from_value(HoconValue::PathSubstitutionInParent(Box::new(v)));
            proof { lemma_all_ids_push(acc@, e); }
            acc.push(e);
        },
        None => {},
    }
    assert(elems_model(acc@) =~= array_substitution(tm));
    assert(all_ids_are_uuids(acc@));
    proof {
        lemma_elems_model_add(acc@, first@);
        lemma_all_ids_add(acc@, first@);
    }
    acc.append(&mut first);
    let ghost m0 = elems_model(acc@);
    let mut fatal: Option<Failure> = None;
    let mut k: usize = k0;
    loop
        invariant_except_break
            j < k0 <= k <= s@.len(),
            d <= MAX_DEPTH,
            fatal is None,
            all_ids_are_uuids(acc@),
            spec_arrays_after(s@, j as int, d as int, tm) == prepend_elems(
                m0,
                spec_arrays_rest(s@, k0 as int, d as int),
            ),
            prepend_elems(m0, spec_arrays_rest(s@, k0 as int, d as int)) == prepend_elems(
                elems_model(acc@),
                spec_arrays_rest(s@, k as int, d as int),
            ),
        ensures
            j < k0 <= k <= s@.len(),
            all_ids_are_uuids(acc@),
            match fatal {
                Some(f) => prepend_elems(m0, spec_arrays_rest(s@, k0 as int, d as int)) == Err::<
                    (int, Seq<Seq<ItemModel>>),
                    ParseError,
                >(ParseError::Fatal(f)),
                None => prepend_elems(m0, spec_arrays_rest(s@, k0 as int, d as int)) == Ok::<
                    (int, Seq<Seq<ItemModel>>),
                    ParseError,
                >((k as int, elems_model(acc@))),
            },
        decreases s@.len() - k,
    {
        reveal_with_fuel(spec_arrays_rest, 1);
        reveal_with_fuel(spec_array, 1);
        match array(s, k, d) {
            Ok((k2, mut a)) => {
                proof {
                    lemma_prepend_elems(
                        elems_model(acc@),
                        elems_model(a@),
                        spec_arrays_rest(s@, k2 as int, d as int),
                    );
                    lemma_elems_model_add(acc@, a@);
                    lemma_all_ids_add(acc@, a@);
                }
                acc.append(&mut a);
                k = k2;
            },
            Err(ParseError::Fatal(f)) => {
                fatal = Some(f);
                break;
            },
            Err(ParseError::Backtrack) => {
                proof { lemma_prepend_elems_empty(elems_model(acc@), k as int); }
                break;
            },
        }
    }
    match fatal {
        Some(f) => Err(ParseError::Fatal(f)),
        None => Ok((k, acc)),
    }
}

/// Reads an array in brackets; returns its elements.
pub fn array(s: &[char], i: usize, d: usize) -> (r: Result<(usize, Vec<HoconInternal>), ParseError>)
    requires
        i <= s@.len(),
        d <= MAX_DEPTH,
    ensures
        elems_result(r) == spec_array(s@, i as int, d as int),
        r matches Ok((_, xs)) ==> all_ids_are_uuids(xs@),
        r matches Ok((e, _)) ==> i < e <= s@.len(),
    decreases MAX_DEPTH - d, s@.len() - i, 2int,
{
    reveal_with_fuel(spec_array, 1);
    reveal_with_fuel(spec_wrapper_list, 1);
    let a = space(s, i);
    if !(a < s.len() && s[a] == '[') {
        return Err(ParseError::Backtrack);
    }
    if d >= MAX_DEPTH {
        return Err(ParseError::Fatal(Failure::TooDeep));
    }
    let b = space(s, a + 1);
    let c = multispace0(s, b);
    let (k, elems) = match wrapper_list(s, c, d + 1) {
        Ok(x) => x,
        Err(e) => return Err(e),
    };
    match closing(s, k, ']') {
        Some(e) => Ok((e, elems)),
        None => Err(ParseError::Backtrack),
    }
}

/// Reads values separated by separators.
pub fn wrapper_list(s: &[char], i: usize, d: usize) -> (r: Result<
    (usize, Vec<HoconInternal>),
    ParseError,
>)
    requires
        i <= s@.len(),
        d <= MAX_DEPTH,
    ensures
        elems_result(r) == spec_wrapper_list(s@, i as int, d as int),
        r matches Ok((_, xs)) ==> all_ids_are_uuids(xs@),
        r matches Ok((e, _)) ==> i <= e <= s@.len(),
    decreases MAX_DEPTH - d, s@.len() - i, 8int,
{
    reveal_with_fuel(spec_wrapper_list, 1);
    reveal_with_fuel(spec_wrapper, 1);
    reveal_with_fuel(spec_wrapper_list_rest, 1);
    let (k0, first) = match wrapper(s, i, d) {
        Ok(x) => x,
        Err(ParseError::Fatal(f)) => return Err(ParseError::Fatal(f)),
        Err(ParseError::Backtrack) => {
            assert(elems_model(Seq::<HoconInternal>::empty()) =~= Seq::<Seq<ItemModel>>::empty());
            let empty: Vec<HoconInternal> = Vec::new();
            assert(all_ids_are_uuids(empty@));
            return Ok((i, empty));
        },
    };
    let mut acc: Vec<HoconInternal> = Vec::new();
    proof { lemma_all_ids_push(acc@, first); }
    acc.push(first);
    assert(elems_model(acc@) =~= seq![first@]);
    let ghost m0 = elems_model(acc@);
    let mut k: usize = k0;
    loop
        invariant_except_break
            i < k0 <= k <= s@.len(),
            d <= MAX_DEPTH,
            all_ids_are_uuids(acc@),
            spec_wrapper_list(s@, i as int, d as int) == prepend_elems(
                m0,
                spec_wrapper_list_rest(s@, k0 as int, d as int),
            ),
            prepend_elems(m0, spec_wrapper_list_rest(s@, k0 as int, d as int)) == prepend_elems(
                elems_model(acc@),
                spec_wrapper_list_rest(s@, k as int, d as int),
            ),
        ensures
            i < k0 <= k <= s@.len(),
            all_ids_are_uuids(acc@),
            prepend_elems(m0, spec_wrapper_list_rest(s@, k0 as int, d as int)) == Ok::<
                (int, Seq<Seq<ItemModel>>),
                ParseError,
            >((k as int, elems_model(acc@))),
        decreases s@.len() - k,
    {
        reveal_with_fuel(spec_wrapper_list_rest, 1);
        reveal_with_fuel(spec_wrapper, 1);
        let q = match separators(s, k) {
            Some(q) => q,
            None => {
                proof { lemma_prepend_elems_empty(elems_model(acc@), k as int); }
                break;
            },
        };
        match wrapper(s, q, d) {
            Ok((r2, item)) => {
                proof {
                    lemma_prepend_elems(
                        elems_model(acc@),
                        seq![item@],
                        spec_wrapper_list_rest(s@, r2 as int, d as int),
                    );
                    assert(elems_model(acc@.push(item)) =~= elems_model(acc@) + seq![item@]);
                    lemma_all_ids_push(acc@, item);
                }
                acc.push(item);
                k = r2;
            },
            Err(ParseError::Fatal(f)) => return Err(ParseError::Fatal(f)),
            Err(ParseError::Backtrack) => {
                proof { lemma_prepend_elems_empty(elems_model(acc@), k as int); }
                break;
            },
        }
    }
    Ok((k, acc))
}


// ---------------------------------------------------------------------------
// Documents
// ---------------------------------------------------------------------------

/// Reads the fields of a document that is not wrapped in braces.
pub fn root_hash(s: &[char], i: usize) -> (r: Result<(usize, Vec<Item>), ParseError>)
    requires
        i <= s@.len(),
    ensures
        items_result(r) == spec_root_hash(s@, i as int),
        r matches Ok((_, x)) ==> ids_are_uuids(x@),
        r matches Ok((e, _)) ==> i <= e <= s@.len(),
{
    let a = space(s, i);
    if a < s.len() && s[a] == '{' {
        return Err(ParseError::Backtrack);
    }
    match hashlist(s, a, 0) {
        Err(x) => Err(x),
        Ok((k, items)) => Ok((space(s, k), items)),
    }
}

/// Reads a document that starts at `i`, after `inc` leading includes.
pub fn root(s: &[char], i: usize, inc: usize) -> (r: Result<(usize, HoconInternal), ParseError>)
    requires
        i <= s@.len(),
        inc <= MAX_DEPTH,
    ensures
        doc_result(r) == spec_root(s@, i as int, inc as int),
        r matches Ok((_, x)) ==> ids_are_uuids(x.internal@),
        r matches Ok((e, _)) ==> i <= e <= s@.len(),
    decreases MAX_DEPTH - inc, 1int,
{
    let p0 = possible_comment(s, i);
    let p = multispace0(s, p0);
    if inc < MAX_DEPTH {
        match root_include(s, p, inc) {
            Ok((e, items)) => return Ok((possible_comment(s, e), items)),
            Err(ParseError::Fatal(f)) => return Err(ParseError::Fatal(f)),
            Err(ParseError::Backtrack) => {},
        }
    }
    let rh = root_hash(s, p);
    let complete = match &rh {
        Err(ParseError::Fatal(f)) => return Err(ParseError::Fatal(*f)),
        Ok((e, _)) => {
            let t = possible_comment(s, *e);
            multispace0(s, t) == s.len()
        },
        Err(ParseError::Backtrack) => false,
    };
    if complete {
        match rh {
            Ok((e, items)) => return Ok((possible_comment(s, e), HoconInternal::from_object(items))),
            Err(x) => return Err(x),
        }
    }
    match hash(s, p, 0) {
        Ok((e, items)) => return Ok((possible_comment(s, e), HoconInternal::from_object(items))),
        Err(ParseError::Fatal(f)) => return Err(ParseError::Fatal(f)),
        Err(ParseError::Backtrack) => {},
    }
    match array(s, p, 0) {
        Ok((e, elems)) => return Ok((possible_comment(s, e), HoconInternal::from_array(elems))),
        Err(ParseError::Fatal(f)) => return Err(ParseError::Fatal(f)),
        Err(ParseError::Backtrack) => {},
    }
    match rh {
        Ok((e, items)) => Ok((possible_comment(s, e), HoconInternal::from_object(items))),
        Err(x) => Err(x),
    }
}

/// Reads an include at the start of a document, then the rest of it.
pub fn root_include(s: &[char], i: usize, inc: usize) -> (r: Result<
    (usize, HoconInternal),
    ParseError,
>)
    requires
        i <= s@.len(),
        inc <= MAX_DEPTH,
    ensures
        doc_result(r) == spec_root_include(s@, i as int, inc as int),
        r matches Ok((_, x)) ==> ids_are_uuids(x.internal@),
        r matches Ok((e, _)) ==> i <= e <= s@.len(),
    decreases MAX_DEPTH - inc, 0int,
{
    if inc >= MAX_DEPTH {
        return Err(ParseError::Backtrack);
    }
    let a = multispace0(s, i);
    let (b, incl) = match include_parser(s, a) {
        Some(x) => x,
        None => return Err(ParseError::Backtrack),
    };
    let c = multispace0(s, b);
    let (e, doc) = match root(s, c, inc + 1) {
        Ok(x) => x,
        Err(x) => return Err(x),
    };
    let mut items: Vec<Item> = Vec::new();
    let it = Item::Include(Vec::new(), incl);
    assert(models(Seq::<HoconValue>::empty()) =~= Seq::<Value>::empty());
    items.push(it);
    let mut rest = doc.internal;
    proof { lemma_item_models_add(items@, rest@); }
    items.append(&mut rest);
    assert(item_models(items@) =~= seq![ItemModel::Include(seq![], incl@)] + doc@);
    Ok((e, HoconInternal { internal: items }))
}

/// Parses a HOCON document: its items and where it ends.
pub fn parse(text: &str) -> (r: Result<(usize, HoconInternal), ParseError>)
    ensures
        doc_result(r) == spec_root(text@, 0, 0),
        r matches Ok((_, x)) ==> ids_are_uuids(x.internal@),
        r matches Ok((e, _)) ==> e <= text@.len(),
{
    let s = crate::value::chars_of(text);
    root(s.as_slice(), 0, 0)
}

} // verus!
