//! Parsing reads only what follows its position: a construct that starts at
//! `i` in a text `s` reads the same at `o + i` in any text that holds `s`
//! from `o` on, with every position it gives moved by `o`. From this follow
//! the laws on two objects, or two arrays, written one after the other.
use vstd::prelude::*;
use crate::grammar::{
    spec_array, spec_arrays, spec_arrays_after, spec_arrays_rest, spec_closing,
    spec_colon_or_equals, spec_hash, spec_hashes, spec_hashes_after, spec_hashes_rest,
    spec_hashlist, spec_hashlist_rest, spec_hocon_value, spec_include_parser,
    spec_include_target, spec_key_rest, spec_key_value, spec_optional_path_substitution,
    spec_path_substitution, spec_separators, spec_single_value, spec_values_rest, spec_wrapper,
    spec_wrapper_list, spec_wrapper_list_rest, substitution_body, lemma_second_array_fatal,
    lemma_no_substitution_at, lemma_second_object_fatal, lemma_two_arrays_join,
    lemma_two_objects_join, Failure, ParseError, MAX_DEPTH,
};
use crate::internal::{
    concat_to_array_items, object_items, prefix_items, IncludeKind, ItemModel,
};
use crate::lexer::{
    comment_tail_end, digits_end, digits_value, find_char, hex4_value, is_digit_char,
    is_multispace_char, is_newline_char, is_space_char, lemma_comment, lemma_run_end, ml_close,
    multispace_end, newlines_end, possible_comment_end, quote_run_end, run_end, space_end,
    spec_boolean, spec_comment, spec_integer, spec_multiline_comment, spec_multiline_string,
    spec_number_end, spec_string, spec_unquoted_string, starts_with, string_body_end,
    string_unit_end, unescape_range, unicode_escape, unquoted_end, unquoted_stop,
};
use crate::value::Value;

verus! {

/// `t` holds `s` from position `o` on, and nothing after it.
pub open spec fn suffix_at(t: Seq<char>, o: int, s: Seq<char>) -> bool {
    &&& 0 <= o
    &&& t.len() == o + s.len()
    &&& forall|j: int| 0 <= j < s.len() ==> #[trigger] s[j] == t[o + j]
}

/// A parse result with its end moved by `o`.
pub open spec fn moved<X>(r: Result<(int, X), ParseError>, o: int) -> Result<(int, X), ParseError> {
    match r {
        Ok((k, x)) => Ok((k + o, x)),
        Err(e) => Err(e),
    }
}

/// A token with its end moved by `o`.
pub open spec fn moved_token<X>(r: Option<(int, X)>, o: int) -> Option<(int, X)> {
    match r {
        Some((k, x)) => Some((k + o, x)),
        None => None,
    }
}

/// A position moved by `o`.
pub open spec fn moved_pos(r: Option<int>, o: int) -> Option<int> {
    match r {
        Some(k) => Some(k + o),
        None => None,
    }
}

/// A text followed by another holds the second from the first's length on.
pub proof fn lemma_suffix_of_concat(a: Seq<char>, b: Seq<char>)
    ensures
        suffix_at(a + b, a.len() as int, b),
{
    assert forall|j: int| 0 <= j < b.len() implies #[trigger] b[j] == (a + b)[a.len() + j] by {}
}

// ---------------------------------------------------------------------------
// Tokens
// ---------------------------------------------------------------------------

proof fn lemma_run_end_moves(t: Seq<char>, o: int, s: Seq<char>, i: int, p: spec_fn(char) -> bool)
    requires
        suffix_at(t, o, s),
        0 <= i,
    ensures
        run_end(t, i + o, p) == run_end(s, i, p) + o,
        run_end(s, i, p) >= i,
        i <= s.len() ==> run_end(s, i, p) <= s.len(),
    decreases s.len() - i,
{
    if i < s.len() {
        assert(s[i] == t[o + i]);
        if p(s[i]) {
            lemma_run_end_moves(t, o, s, i + 1, p);
        }
    }
}

proof fn lemma_space_end_moves(t: Seq<char>, o: int, s: Seq<char>, i: int)
    requires
        suffix_at(t, o, s),
        0 <= i,
    ensures
        space_end(t, i + o) == space_end(s, i) + o,
        space_end(s, i) >= i,
        i <= s.len() ==> space_end(s, i) <= s.len(),
{
    lemma_run_end_moves(t, o, s, i, |c: char| is_space_char(c));
}

proof fn lemma_multispace_end_moves(t: Seq<char>, o: int, s: Seq<char>, i: int)
    requires
        suffix_at(t, o, s),
        0 <= i,
    ensures
        multispace_end(t, i + o) == multispace_end(s, i) + o,
        multispace_end(s, i) >= i,
        i <= s.len() ==> multispace_end(s, i) <= s.len(),
{
    lemma_run_end_moves(t, o, s, i, |c: char| is_multispace_char(c));
}

proof fn lemma_newlines_end_moves(t: Seq<char>, o: int, s: Seq<char>, i: int)
    requires
        suffix_at(t, o, s),
        0 <= i,
    ensures
        newlines_end(t, i + o) == newlines_end(s, i) + o,
        newlines_end(s, i) >= i,
        i <= s.len() ==> newlines_end(s, i) <= s.len(),
{
    lemma_run_end_moves(t, o, s, i, |c: char| is_newline_char(c));
}

proof fn lemma_digits_end_moves(t: Seq<char>, o: int, s: Seq<char>, i: int)
    requires
        suffix_at(t, o, s),
        0 <= i,
    ensures
        digits_end(t, i + o) == digits_end(s, i) + o,
        digits_end(s, i) >= i,
        i <= s.len() ==> digits_end(s, i) <= s.len(),
{
    lemma_run_end_moves(t, o, s, i, |c: char| is_digit_char(c));
}

proof fn lemma_starts_with_moves(t: Seq<char>, o: int, s: Seq<char>, i: int, w: Seq<char>)
    requires
        suffix_at(t, o, s),
        0 <= i,
    ensures
        starts_with(t, i + o, w) == starts_with(s, i, w),
{
    if i + w.len() <= s.len() {
        assert(t.subrange(i + o, i + o + w.len()) =~= s.subrange(i, i + w.len())) by {
            assert forall|k: int| 0 <= k < w.len() implies #[trigger] t.subrange(
                i + o,
                i + o + w.len(),
            )[k] == s.subrange(i, i + w.len())[k] by {
                assert(s[i + k] == t[o + (i + k)]);
            }
        }
    }
}

proof fn lemma_find_char_moves(t: Seq<char>, o: int, s: Seq<char>, i: int, c: char)
    requires
        suffix_at(t, o, s),
        0 <= i,
    ensures
        find_char(t, i + o, c) == moved_pos(find_char(s, i, c), o),
        find_char(s, i, c) matches Some(k) ==> k >= i,
    decreases s.len() - i,
{
    if i < s.len() {
        assert(s[i] == t[o + i]);
        if s[i] != c {
            lemma_find_char_moves(t, o, s, i + 1, c);
        }
    }
}

proof fn lemma_comment_moves(t: Seq<char>, o: int, s: Seq<char>, i: int)
    requires
        suffix_at(t, o, s),
        0 <= i,
    ensures
        spec_comment(t, i + o) == moved_pos(spec_comment(s, i), o),
        spec_comment(s, i) matches Some(e) ==> e > i,
{
    lemma_comment(s, i);
    lemma_starts_with_moves(t, o, s, i, seq!['/', '/']);
    lemma_find_char_moves(t, o, s, i + 2, '\n');
    lemma_find_char_moves(t, o, s, i + 1, '\n');
    if i < s.len() {
        assert(s[i] == t[o + i]);
    }
}

proof fn lemma_comment_tail_moves(t: Seq<char>, o: int, s: Seq<char>, i: int)
    requires
        suffix_at(t, o, s),
        0 <= i,
    ensures
        comment_tail_end(t, i + o) == comment_tail_end(s, i) + o,
        comment_tail_end(s, i) >= i,
    decreases s.len() - i,
{
    if i < s.len() {
        assert(s[i] == t[o + i]);
    }
    if 0 <= i < s.len() && s[i] == '\n' {
        lemma_comment_tail_moves(t, o, s, i + 1);
    } else {
        lemma_space_end_moves(t, o, s, i);
        let a = space_end(s, i);
        lemma_comment_moves(t, o, s, a);
        match spec_comment(s, a) {
            Some(e) => if i < e <= s.len() {
                lemma_comment_tail_moves(t, o, s, e);
            },
            None => {},
        }
    }
}

proof fn lemma_multiline_comment_moves(t: Seq<char>, o: int, s: Seq<char>, i: int)
    requires
        suffix_at(t, o, s),
        0 <= i,
    ensures
        spec_multiline_comment(t, i + o) == moved_pos(spec_multiline_comment(s, i), o),
        spec_multiline_comment(s, i) matches Some(e) ==> e >= i,
{
    lemma_newlines_end_moves(t, o, s, i);
    let n = newlines_end(s, i);
    lemma_space_end_moves(t, o, s, n);
    let b = space_end(s, n);
    lemma_comment_moves(t, o, s, b);
    match spec_comment(s, b) {
        Some(c) => {
            lemma_comment_tail_moves(t, o, s, c);
            lemma_multispace_end_moves(t, o, s, comment_tail_end(s, c));
        },
        None => {},
    }
}

proof fn lemma_possible_comment_end_moves(t: Seq<char>, o: int, s: Seq<char>, i: int)
    requires
        suffix_at(t, o, s),
        0 <= i,
    ensures
        possible_comment_end(t, i + o) == possible_comment_end(s, i) + o,
        possible_comment_end(s, i) >= i,
{
    lemma_multiline_comment_moves(t, o, s, i);
}

proof fn lemma_number_end_moves(t: Seq<char>, o: int, s: Seq<char>, i: int)
    requires
        suffix_at(t, o, s),
        0 <= i,
    ensures
        spec_number_end(t, i + o) == moved_pos(spec_number_end(s, i), o),
        spec_number_end(s, i) matches Some(e) ==> i < e <= s.len(),
{
    if i < s.len() {
        assert(s[i] == t[o + i]);
    }
    let a = if 0 <= i < s.len() && s[i] == '-' { i + 1 } else { i };
    lemma_digits_end_moves(t, o, s, a);
    let b = digits_end(s, a);
    if b != a {
        if b < s.len() {
            assert(s[b] == t[o + b]);
        }
        lemma_digits_end_moves(t, o, s, b + 1);
        let c = if 0 <= b < s.len() && s[b] == '.' && digits_end(s, b + 1) > b + 1 {
            digits_end(s, b + 1)
        } else {
            b
        };
        let m0 = c + 1;
        if m0 < s.len() {
            assert(s[m0] == t[o + m0]);
        }
        if c < s.len() {
            assert(s[c] == t[o + c]);
        }
        let m = if 0 <= m0 < s.len() && (s[m0] == '+' || s[m0] == '-') { m0 + 1 } else { m0 };
        lemma_digits_end_moves(t, o, s, m);
    }
}

proof fn lemma_digits_value_moves(t: Seq<char>, o: int, s: Seq<char>, a: int, b: int)
    requires
        suffix_at(t, o, s),
        0 <= a,
        b <= s.len(),
    ensures
        digits_value(t, a + o, b + o) == digits_value(s, a, b),
    decreases b - a,
{
    if b > a {
        assert(s[b - 1] == t[o + (b - 1)]);
        lemma_digits_value_moves(t, o, s, a, b - 1);
    }
}

proof fn lemma_integer_moves(t: Seq<char>, o: int, s: Seq<char>, i: int)
    requires
        suffix_at(t, o, s),
        0 <= i,
    ensures
        spec_integer(t, i + o) == moved_token(spec_integer(s, i), o),
        spec_integer(s, i) matches Some((e, _)) ==> e > i,
{
    if i < s.len() {
        assert(s[i] == t[o + i]);
    }
    let a = if 0 <= i < s.len() && s[i] == '-' { i + 1 } else { i };
    lemma_number_end_moves(t, o, s, i);
    lemma_digits_end_moves(t, o, s, a);
    match spec_number_end(s, i) {
        Some(d) => if d == digits_end(s, a) {
            if a <= s.len() {
                lemma_run_end(s, a, |c: char| is_digit_char(c));
            }
            lemma_digits_value_moves(t, o, s, a, d);
        },
        None => {},
    }
}

proof fn lemma_boolean_moves(t: Seq<char>, o: int, s: Seq<char>, i: int)
    requires
        suffix_at(t, o, s),
        0 <= i,
    ensures
        spec_boolean(t, i + o) == moved_token(spec_boolean(s, i), o),
        spec_boolean(s, i) matches Some((e, _)) ==> e > i,
{
    lemma_starts_with_moves(t, o, s, i, seq!['t', 'r', 'u', 'e']);
    lemma_starts_with_moves(t, o, s, i, seq!['f', 'a', 'l', 's', 'e']);
}

proof fn lemma_string_unit_moves(t: Seq<char>, o: int, s: Seq<char>, p: int)
    requires
        suffix_at(t, o, s),
        0 <= p,
    ensures
        string_unit_end(t, p + o) == moved_pos(string_unit_end(s, p), o),
        string_unit_end(s, p) matches Some(q) ==> q > p,
{
    if p < s.len() {
        assert(s[p] == t[o + p]);
    }
    if p + 1 < s.len() {
        assert(s[p + 1] == t[o + (p + 1)]);
    }
}

proof fn lemma_string_body_moves(t: Seq<char>, o: int, s: Seq<char>, p: int)
    requires
        suffix_at(t, o, s),
        0 <= p,
    ensures
        string_body_end(t, p + o) == string_body_end(s, p) + o,
        string_body_end(s, p) >= p,
    decreases s.len() - p,
{
    lemma_string_unit_moves(t, o, s, p);
    match string_unit_end(s, p) {
        Some(q) => if p < q <= s.len() {
            lemma_string_body_moves(t, o, s, q);
        },
        None => {},
    }
}

proof fn lemma_unicode_escape_moves(t: Seq<char>, o: int, s: Seq<char>, p: int, e: int)
    requires
        suffix_at(t, o, s),
        0 <= p,
    ensures
        unicode_escape(t, p + o, e + o) == unicode_escape(s, p, e),
{
    if p + 4 <= e && e <= s.len() {
        assert(s[p] == t[o + p]);
        assert(s[p + 1] == t[o + (p + 1)]);
        assert(s[p + 2] == t[o + (p + 2)]);
        assert(s[p + 3] == t[o + (p + 3)]);
        assert(hex4_value(t, p + o) == hex4_value(s, p));
    }
}

proof fn lemma_unescape_moves(t: Seq<char>, o: int, s: Seq<char>, k: int, e: int)
    requires
        suffix_at(t, o, s),
        0 <= k,
        e <= s.len(),
    ensures
        unescape_range(t, k + o, e + o) == unescape_range(s, k, e),
    decreases e - k,
{
    if k < e {
        assert(s[k] == t[o + k]);
        if k + 1 < e {
            assert(s[k + 1] == t[o + (k + 1)]);
        }
        lemma_unicode_escape_moves(t, o, s, k + 2, e);
        if unicode_escape(s, k + 2, e) is Some {
            lemma_unescape_moves(t, o, s, k + 6, e);
        }
        if k + 1 < e {
            lemma_unescape_moves(t, o, s, k + 2, e);
        }
        lemma_unescape_moves(t, o, s, k + 1, e);
    }
}

proof fn lemma_string_moves(t: Seq<char>, o: int, s: Seq<char>, i: int)
    requires
        suffix_at(t, o, s),
        0 <= i,
    ensures
        spec_string(t, i + o) == moved_token(spec_string(s, i), o),
        spec_string(s, i) matches Some((e, _)) ==> e > i,
{
    if i < s.len() {
        assert(s[i] == t[o + i]);
        lemma_string_body_moves(t, o, s, i + 1);
        let e = string_body_end(s, i + 1);
        if e < s.len() {
            assert(s[e] == t[o + e]);
            lemma_unescape_moves(t, o, s, i + 1, e);
        }
    }
}

proof fn lemma_ml_close_moves(t: Seq<char>, o: int, s: Seq<char>, p: int)
    requires
        suffix_at(t, o, s),
        0 <= p,
    ensures
        ml_close(t, p + o) == moved_pos(ml_close(s, p), o),
    decreases s.len() - p,
{
    if p < s.len() {
        assert(s[p] == t[o + p]);
        if s[p] != '"' {
            lemma_ml_close_moves(t, o, s, p + 1);
        } else {
            lemma_run_end_moves(t, o, s, p, |c: char| c == '"');
            let e = quote_run_end(s, p);
            if e - p < 3 && p < e <= s.len() {
                lemma_ml_close_moves(t, o, s, e);
            }
        }
    }
}

proof fn lemma_multiline_string_moves(t: Seq<char>, o: int, s: Seq<char>, i: int)
    requires
        suffix_at(t, o, s),
        0 <= i,
    ensures
        spec_multiline_string(t, i + o) == moved_token(spec_multiline_string(s, i), o),
        spec_multiline_string(s, i) matches Some((e, _)) ==> e > i,
{
    lemma_starts_with_moves(t, o, s, i, seq!['"', '"', '"']);
    lemma_ml_close_moves(t, o, s, i + 3);
    crate::lexer::lemma_ml_close(s, i + 3);
    match ml_close(s, i + 3) {
        Some(e) => {
            assert(t.subrange(i + 3 + o, e - 3 + o) =~= s.subrange(i + 3, e - 3)) by {
                assert forall|k: int| 0 <= k < e - 3 - (i + 3) implies #[trigger] t.subrange(
                    i + 3 + o,
                    e - 3 + o,
                )[k] == s.subrange(i + 3, e - 3)[k] by {
                    assert(s[i + 3 + k] == t[o + (i + 3 + k)]);
                }
            }
        },
        None => {},
    }
}

proof fn lemma_unquoted_end_moves(t: Seq<char>, o: int, s: Seq<char>, p: int)
    requires
        suffix_at(t, o, s),
        0 <= p,
    ensures
        unquoted_end(t, p + o) == unquoted_end(s, p) + o,
        unquoted_end(s, p) >= p,
    decreases s.len() - p,
{
    if p < s.len() {
        assert(s[p] == t[o + p]);
    }
    if p + 1 < s.len() {
        assert(s[p + 1] == t[o + (p + 1)]);
    }
    assert(unquoted_stop(t, p + o) == unquoted_stop(s, p));
    if !unquoted_stop(s, p) {
        lemma_unquoted_end_moves(t, o, s, p + 1);
    }
}

proof fn lemma_unquoted_string_moves(t: Seq<char>, o: int, s: Seq<char>, i: int)
    requires
        suffix_at(t, o, s),
        0 <= i,
    ensures
        spec_unquoted_string(t, i + o) == moved_token(spec_unquoted_string(s, i), o),
        spec_unquoted_string(s, i) matches Some((e, _)) ==> e > i,
{
    lemma_unquoted_end_moves(t, o, s, i);
    let e = unquoted_end(s, i);
    if i <= s.len() {
        crate::lexer::lemma_unquoted_end(s, i);
    }
    if e != i {
        assert(t.subrange(i + o, e + o) =~= s.subrange(i, e)) by {
            assert forall|k: int| 0 <= k < e - i implies #[trigger] t.subrange(i + o, e + o)[k]
                == s.subrange(i, e)[k] by {
                assert(s[i + k] == t[o + (i + k)]);
            }
        }
    }
}

proof fn lemma_subrange_moves(t: Seq<char>, o: int, s: Seq<char>, a: int, b: int)
    requires
        suffix_at(t, o, s),
        0 <= a <= b <= s.len(),
    ensures
        t.subrange(a + o, b + o) == s.subrange(a, b),
{
    assert(t.subrange(a + o, b + o) =~= s.subrange(a, b)) by {
        assert forall|k: int| 0 <= k < b - a implies #[trigger] t.subrange(a + o, b + o)[k]
            == s.subrange(a, b)[k] by {
            assert(s[a + k] == t[o + (a + k)]);
        }
    }
}

// ---------------------------------------------------------------------------
// Separators and includes
// ---------------------------------------------------------------------------

proof fn lemma_separators_moves(t: Seq<char>, o: int, s: Seq<char>, i: int)
    requires
        suffix_at(t, o, s),
        0 <= i,
    ensures
        spec_separators(t, i + o) == moved_pos(spec_separators(s, i), o),
        spec_separators(s, i) matches Some(q) ==> q >= i,
{
    lemma_space_end_moves(t, o, s, i);
    let a = space_end(s, i);
    lemma_multiline_comment_moves(t, o, s, a);
    match spec_multiline_comment(s, a) {
        Some(b) => {
            lemma_space_end_moves(t, o, s, b);
            lemma_possible_comment_end_moves(t, o, s, space_end(s, b));
            lemma_multispace_end_moves(t, o, s, possible_comment_end(s, space_end(s, b)));
        },
        None => {
            if a < s.len() {
                assert(s[a] == t[o + a]);
            }
            if 0 <= a < s.len() && s[a] == '\n' {
                lemma_newlines_end_moves(t, o, s, a);
                lemma_space_end_moves(t, o, s, newlines_end(s, a));
                lemma_possible_comment_end_moves(t, o, s, space_end(s, newlines_end(s, a)));
                lemma_multispace_end_moves(
                    t,
                    o,
                    s,
                    possible_comment_end(s, space_end(s, newlines_end(s, a))),
                );
            } else {
                lemma_multispace_end_moves(t, o, s, i);
                let c = multispace_end(s, i);
                if c < s.len() {
                    assert(s[c] == t[o + c]);
                }
                lemma_multispace_end_moves(t, o, s, c + 1);
                lemma_possible_comment_end_moves(t, o, s, multispace_end(s, c + 1));
            }
        },
    }
}

proof fn lemma_closing_moves(t: Seq<char>, o: int, s: Seq<char>, i: int, close: char)
    requires
        suffix_at(t, o, s),
        0 <= i,
    ensures
        spec_closing(t, i + o, close) == moved_pos(spec_closing(s, i, close), o),
        spec_closing(s, i, close) matches Some(c) ==> c > i,
{
    lemma_separators_moves(t, o, s, i);
    let a = match spec_separators(s, i) {
        Some(x) => x,
        None => i,
    };
    lemma_multispace_end_moves(t, o, s, a);
    let b = multispace_end(s, a);
    if b < s.len() {
        assert(s[b] == t[o + b]);
    }
}

proof fn lemma_colon_moves(t: Seq<char>, o: int, s: Seq<char>, i: int)
    requires
        suffix_at(t, o, s),
        0 <= i,
    ensures
        spec_colon_or_equals(t, i + o) == moved_pos(spec_colon_or_equals(s, i), o),
        spec_colon_or_equals(s, i) matches Some(c) ==> c > i,
{
    lemma_multispace_end_moves(t, o, s, i);
    let a = multispace_end(s, i);
    if a < s.len() {
        assert(s[a] == t[o + a]);
    }
    lemma_multispace_end_moves(t, o, s, a + 1);
}

/// An include target with its end moved by `o`.
pub open spec fn moved_target(
    r: Option<(int, IncludeKind, Seq<char>)>,
    o: int,
) -> Option<(int, IncludeKind, Seq<char>)> {
    match r {
        Some((e, k, x)) => Some((e + o, k, x)),
        None => None,
    }
}

proof fn lemma_include_target_moves(t: Seq<char>, o: int, s: Seq<char>, i: int)
    requires
        suffix_at(t, o, s),
        0 <= i,
    ensures
        spec_include_target(t, i + o) == moved_target(spec_include_target(s, i), o),
        spec_include_target(s, i) matches Some((e, _, _)) ==> e > i,
{
    lemma_starts_with_moves(t, o, s, i, seq!['f', 'i', 'l', 'e', '(']);
    lemma_starts_with_moves(t, o, s, i, seq!['u', 'r', 'l', '(']);
    lemma_string_moves(t, o, s, i + 5);
    lemma_string_moves(t, o, s, i + 4);
    lemma_string_moves(t, o, s, i);
    match spec_string(s, i + 5) {
        Some((e, _)) => lemma_starts_with_moves(t, o, s, e, seq![')']),
        None => {},
    }
    match spec_string(s, i + 4) {
        Some((e, _)) => lemma_starts_with_moves(t, o, s, e, seq![')']),
        None => {},
    }
}

proof fn lemma_include_parser_moves(t: Seq<char>, o: int, s: Seq<char>, i: int)
    requires
        suffix_at(t, o, s),
        0 <= i,
    ensures
        spec_include_parser(t, i + o) == moved_token(spec_include_parser(s, i), o),
        spec_include_parser(s, i) matches Some((e, _)) ==> e > i,
{
    lemma_starts_with_moves(t, o, s, i, seq!['i', 'n', 'c', 'l', 'u', 'd', 'e', ' ']);
    if starts_with(s, i, seq!['i', 'n', 'c', 'l', 'u', 'd', 'e', ' ']) {
        lemma_multispace_end_moves(t, o, s, i + 8);
        lemma_space_end_moves(t, o, s, multispace_end(s, i + 8));
        let b = space_end(s, multispace_end(s, i + 8));
        lemma_starts_with_moves(t, o, s, b, seq!['r', 'e', 'q', 'u', 'i', 'r', 'e', 'd', '(']);
        lemma_include_target_moves(t, o, s, b + 9);
        lemma_include_target_moves(t, o, s, b);
        match spec_include_target(s, b + 9) {
            Some((e, _, _)) => {
                lemma_starts_with_moves(t, o, s, e, seq![')']);
                lemma_space_end_moves(t, o, s, e + 1);
            },
            None => {},
        }
        match spec_include_target(s, b) {
            Some((e, _, _)) => lemma_space_end_moves(t, o, s, e),
            None => {},
        }
    }
}

proof fn lemma_substitution_body_moves(
    t: Seq<char>,
    o: int,
    s: Seq<char>,
    r: Result<(int, Value), ParseError>,
)
    requires
        suffix_at(t, o, s),
        r matches Ok((k, _)) ==> k >= 0,
    ensures
        substitution_body(moved(r, o), t) == moved(substitution_body(r, s), o),
        substitution_body(r, s) matches Ok((e, _)) ==> r matches Ok((k, _)) && e == k + 1,
{
    match r {
        Ok((k, _)) => if k < s.len() {
            assert(s[k] == t[o + k]);
        },
        Err(_) => {},
    }
}

// ---------------------------------------------------------------------------
// Values, objects and arrays
// ---------------------------------------------------------------------------

proof fn lemma_optional_substitution_moves(t: Seq<char>, o: int, s: Seq<char>, i: int, d: int)
    requires
        suffix_at(t, o, s),
        0 <= i,
    ensures
        spec_optional_path_substitution(t, i + o, d) == moved(spec_optional_path_substitution(s, i, d), o),
        spec_optional_path_substitution(s, i, d) matches Ok((k, _)) ==> k >= i,
    decreases MAX_DEPTH - d, s.len() - i, 1int,
{
    reveal_with_fuel(spec_optional_path_substitution, 1);
    reveal_with_fuel(spec_hocon_value, 1);
    lemma_starts_with_moves(t, o, s, i, seq!['$', '{', '?']);
    if starts_with(s, i, seq!['$', '{', '?']) && d < MAX_DEPTH {
        lemma_hocon_value_moves(t, o, s, i + 3, d + 1);
        lemma_substitution_body_moves(t, o, s, spec_hocon_value(s, i + 3, d + 1));
    }
}

proof fn lemma_substitution_moves(t: Seq<char>, o: int, s: Seq<char>, i: int, d: int)
    requires
        suffix_at(t, o, s),
        0 <= i,
    ensures
        spec_path_substitution(t, i + o, d) == moved(spec_path_substitution(s, i, d), o),
        spec_path_substitution(s, i, d) matches Ok((k, _)) ==> k >= i,
    decreases MAX_DEPTH - d, s.len() - i, 1int,
{
    reveal_with_fuel(spec_path_substitution, 1);
    reveal_with_fuel(spec_hocon_value, 1);
    lemma_starts_with_moves(t, o, s, i, seq!['$', '{', '?']);
    lemma_starts_with_moves(t, o, s, i, seq!['$', '{']);
    let j = if starts_with(s, i, seq!['$', '{', '?']) {
        i + 3
    } else if starts_with(s, i, seq!['$', '{']) {
        i + 2
    } else {
        -1
    };
    if j >= 0 && d < MAX_DEPTH {
        lemma_hocon_value_moves(t, o, s, j, d + 1);
        lemma_substitution_body_moves(t, o, s, spec_hocon_value(s, j, d + 1));
    }
}

proof fn lemma_single_value_moves(t: Seq<char>, o: int, s: Seq<char>, i: int, d: int)
    requires
        suffix_at(t, o, s),
        0 <= i,
    ensures
        spec_single_value(t, i + o, d) == moved(spec_single_value(s, i, d), o),
        spec_single_value(s, i, d) matches Ok((k, _)) ==> k >= i,
    decreases MAX_DEPTH - d, s.len() - i, 2int,
{
    reveal_with_fuel(spec_single_value, 1);
    reveal_with_fuel(spec_optional_path_substitution, 1);
    reveal_with_fuel(spec_path_substitution, 1);
    lemma_multiline_string_moves(t, o, s, i);
    lemma_string_moves(t, o, s, i);
    lemma_integer_moves(t, o, s, i);
    lemma_number_end_moves(t, o, s, i);
    lemma_boolean_moves(t, o, s, i);
    lemma_optional_substitution_moves(t, o, s, i, d);
    lemma_substitution_moves(t, o, s, i, d);
    lemma_unquoted_string_moves(t, o, s, i);
    match spec_number_end(s, i) {
        Some(e) => lemma_subrange_moves(t, o, s, i, e),
        None => {},
    }
}

proof fn lemma_values_rest_moves(t: Seq<char>, o: int, s: Seq<char>, k: int, d: int)
    requires
        suffix_at(t, o, s),
        0 <= k,
    ensures
        spec_values_rest(t, k + o, d) == moved(spec_values_rest(s, k, d), o),
        spec_values_rest(s, k, d) matches Ok((e, _)) ==> e >= k,
    decreases MAX_DEPTH - d, s.len() - k, 3int,
{
    reveal_with_fuel(spec_values_rest, 1);
    reveal_with_fuel(spec_single_value, 1);
    lemma_single_value_moves(t, o, s, k, d);
    match spec_single_value(s, k, d) {
        Ok((k2, _)) => if k < k2 <= s.len() {
            lemma_values_rest_moves(t, o, s, k2, d);
        },
        Err(_) => {},
    }
}

proof fn lemma_hocon_value_moves(t: Seq<char>, o: int, s: Seq<char>, i: int, d: int)
    requires
        suffix_at(t, o, s),
        0 <= i,
    ensures
        spec_hocon_value(t, i + o, d) == moved(spec_hocon_value(s, i, d), o),
        spec_hocon_value(s, i, d) matches Ok((k, _)) ==> k >= i,
    decreases MAX_DEPTH - d, s.len() - i, 4int,
{
    reveal_with_fuel(spec_hocon_value, 1);
    reveal_with_fuel(spec_single_value, 1);
    reveal_with_fuel(spec_values_rest, 1);
    lemma_possible_comment_end_moves(t, o, s, i);
    let p = possible_comment_end(s, i);
    if i <= p <= s.len() {
        lemma_single_value_moves(t, o, s, p, d);
        match spec_single_value(s, p, d) {
            Ok((k, _)) => if p < k <= s.len() {
                lemma_values_rest_moves(t, o, s, k, d);
            },
            Err(_) => {},
        }
    }
}

proof fn lemma_wrapper_moves(t: Seq<char>, o: int, s: Seq<char>, i: int, d: int)
    requires
        suffix_at(t, o, s),
        0 <= i,
    ensures
        spec_wrapper(t, i + o, d) == moved(spec_wrapper(s, i, d), o),
        spec_wrapper(s, i, d) matches Ok((k, _)) ==> k >= i,
    decreases MAX_DEPTH - d, s.len() - i, 5int,
{
    reveal_with_fuel(spec_wrapper, 1);
    reveal_with_fuel(spec_hashes, 1);
    reveal_with_fuel(spec_arrays, 1);
    reveal_with_fuel(spec_hocon_value, 1);
    lemma_possible_comment_end_moves(t, o, s, i);
    let p = possible_comment_end(s, i);
    if i <= p <= s.len() {
        lemma_hashes_moves(t, o, s, p, d);
        lemma_arrays_moves(t, o, s, p, d);
        lemma_include_parser_moves(t, o, s, p);
        lemma_hocon_value_moves(t, o, s, p, d);
    }
}

proof fn lemma_hashes_moves(t: Seq<char>, o: int, s: Seq<char>, i: int, d: int)
    requires
        suffix_at(t, o, s),
        0 <= i,
    ensures
        spec_hashes(t, i + o, d) == moved(spec_hashes(s, i, d), o),
        spec_hashes(s, i, d) matches Ok((k, _)) ==> k >= i,
    decreases MAX_DEPTH - d, s.len() - i, 4int,
{
    reveal_with_fuel(spec_hashes, 1);
    reveal_with_fuel(spec_path_substitution, 1);
    reveal_with_fuel(spec_hashes_after, 1);
    lemma_substitution_moves(t, o, s, i, d);
    match spec_path_substitution(s, i, d) {
        Err(ParseError::Backtrack) => lemma_hashes_after_moves(t, o, s, i, d, None),
        Err(_) => {},
        Ok((j, v)) => if i < j <= s.len() {
            lemma_hashes_after_moves(t, o, s, j, d, Some(v));
        },
    }
}

proof fn lemma_hashes_after_moves(
    t: Seq<char>,
    o: int,
    s: Seq<char>,
    j: int,
    d: int,
    sub: Option<Value>,
)
    requires
        suffix_at(t, o, s),
        0 <= j,
    ensures
        spec_hashes_after(t, j + o, d, sub) == moved(spec_hashes_after(s, j, d, sub), o),
        spec_hashes_after(s, j, d, sub) matches Ok((k, _)) ==> k >= j,
    decreases MAX_DEPTH - d, s.len() - j, 3int,
{
    reveal_with_fuel(spec_hashes_after, 1);
    reveal_with_fuel(spec_hash, 1);
    reveal_with_fuel(spec_hashes_rest, 1);
    lemma_hash_moves(t, o, s, j, d);
    match spec_hash(s, j, d) {
        Ok((k, _)) => if j < k <= s.len() {
            lemma_hashes_rest_moves(t, o, s, k, d);
        },
        Err(_) => {},
    }
}

proof fn lemma_hashes_rest_moves(t: Seq<char>, o: int, s: Seq<char>, k: int, d: int)
    requires
        suffix_at(t, o, s),
        0 <= k,
    ensures
        spec_hashes_rest(t, k + o, d) == moved(spec_hashes_rest(s, k, d), o),
        spec_hashes_rest(s, k, d) matches Ok((e, _)) ==> e >= k,
    decreases MAX_DEPTH - d, s.len() - k, 3int,
{
    reveal_with_fuel(spec_hashes_rest, 1);
    reveal_with_fuel(spec_hash, 1);
    lemma_hash_moves(t, o, s, k, d);
    match spec_hash(s, k, d) {
        Ok((k2, _)) => if k < k2 <= s.len() {
            lemma_hashes_rest_moves(t, o, s, k2, d);
        },
        Err(_) => {},
    }
}

/// An object at `i`, given what the fields after its opening brace are.
spec fn hash_of(
    s: Seq<char>,
    i: int,
    d: int,
    fields: Result<(int, Seq<ItemModel>), ParseError>,
) -> Result<(int, Seq<ItemModel>), ParseError> {
    let a = space_end(s, i);
    if !(0 <= a < s.len() && s[a] == '{') {
        Err(ParseError::Backtrack)
    } else if d >= MAX_DEPTH {
        Err(ParseError::Fatal(Failure::TooDeep))
    } else {
        match fields {
            Err(x) => Err(x),
            Ok((k, items)) => match spec_closing(s, k, '}') {
                Some(c) => Ok((space_end(s, c), items)),
                None => Err(ParseError::Backtrack),
            },
        }
    }
}

proof fn lemma_hash_unfold(s: Seq<char>, i: int, d: int)
    ensures
        spec_hash(s, i, d) == hash_of(s, i, d, spec_hashlist(s, space_end(s, i) + 1, d + 1)),
{
    reveal_with_fuel(spec_hash, 1);
    reveal_with_fuel(spec_hashlist, 1);
}

proof fn lemma_hash_moves(t: Seq<char>, o: int, s: Seq<char>, i: int, d: int)
    requires
        suffix_at(t, o, s),
        0 <= i,
    ensures
        spec_hash(t, i + o, d) == moved(spec_hash(s, i, d), o),
        spec_hash(s, i, d) matches Ok((k, _)) ==> k > i,
    decreases MAX_DEPTH - d, s.len() - i, 2int,
{
    lemma_hash_unfold(s, i, d);
    lemma_hash_unfold(t, i + o, d);
    lemma_space_end_moves(t, o, s, i);
    let a = space_end(s, i);
    if a < s.len() {
        assert(s[a] == t[o + a]);
    }
    if 0 <= a < s.len() && s[a] == '{' && d < MAX_DEPTH {
        lemma_hashlist_moves(t, o, s, a + 1, d + 1);
        match spec_hashlist(s, a + 1, d + 1) {
            Ok((k, _)) => {
                lemma_closing_moves(t, o, s, k, '}');
                match spec_closing(s, k, '}') {
                    Some(c) => lemma_space_end_moves(t, o, s, c),
                    None => {},
                }
            },
            Err(_) => {},
        }
    }
}

proof fn lemma_hashlist_moves(t: Seq<char>, o: int, s: Seq<char>, i: int, d: int)
    requires
        suffix_at(t, o, s),
        0 <= i,
    ensures
        spec_hashlist(t, i + o, d) == moved(spec_hashlist(s, i, d), o),
        spec_hashlist(s, i, d) matches Ok((k, _)) ==> k >= i,
    decreases MAX_DEPTH - d, s.len() - i, 8int,
{
    reveal_with_fuel(spec_hashlist, 1);
    reveal_with_fuel(spec_key_value, 1);
    reveal_with_fuel(spec_hashlist_rest, 1);
    lemma_key_value_moves(t, o, s, i, d);
    match spec_key_value(s, i, d) {
        Ok((k, _)) => if i < k <= s.len() {
            lemma_hashlist_rest_moves(t, o, s, k, d);
        },
        Err(_) => {},
    }
}

proof fn lemma_hashlist_rest_moves(t: Seq<char>, o: int, s: Seq<char>, k: int, d: int)
    requires
        suffix_at(t, o, s),
        0 <= k,
    ensures
        spec_hashlist_rest(t, k + o, d) == moved(spec_hashlist_rest(s, k, d), o),
        spec_hashlist_rest(s, k, d) matches Ok((e, _)) ==> e >= k,
    decreases MAX_DEPTH - d, s.len() - k, 8int,
{
    reveal_with_fuel(spec_hashlist_rest, 1);
    reveal_with_fuel(spec_key_value, 1);
    lemma_separators_moves(t, o, s, k);
    match spec_separators(s, k) {
        Some(q) => if k < q <= s.len() {
            lemma_key_value_moves(t, o, s, q, d);
            match spec_key_value(s, q, d) {
                Ok((r, _)) => if q < r <= s.len() {
                    lemma_hashlist_rest_moves(t, o, s, r, d);
                },
                Err(_) => {},
            }
        },
        None => {},
    }
}

proof fn lemma_key_value_moves(t: Seq<char>, o: int, s: Seq<char>, i: int, d: int)
    requires
        suffix_at(t, o, s),
        0 <= i,
    ensures
        spec_key_value(t, i + o, d) == moved(spec_key_value(s, i, d), o),
        spec_key_value(s, i, d) matches Ok((k, _)) ==> k > i,
    decreases MAX_DEPTH - d, s.len() - i, 7int,
{
    reveal_with_fuel(spec_key_value, 1);
    reveal_with_fuel(spec_key_rest, 1);
    lemma_multispace_end_moves(t, o, s, i);
    lemma_possible_comment_end_moves(t, o, s, multispace_end(s, i));
    lemma_multispace_end_moves(t, o, s, possible_comment_end(s, multispace_end(s, i)));
    let a = multispace_end(s, possible_comment_end(s, multispace_end(s, i)));
    lemma_space_end_moves(t, o, s, a);
    lemma_include_parser_moves(t, o, s, space_end(s, a));
    match spec_include_parser(s, space_end(s, a)) {
        Some((c, _)) => lemma_space_end_moves(t, o, s, c),
        None => {
            lemma_multispace_end_moves(t, o, s, a);
            let q = multispace_end(s, a);
            lemma_string_moves(t, o, s, q);
            lemma_unquoted_string_moves(t, o, s, q);
            match spec_string(s, q) {
                Some((e, key)) => {
                    lemma_multispace_end_moves(t, o, s, e);
                    lemma_key_rest_moves(t, o, s, i, multispace_end(s, e), d, Value::String(key));
                },
                None => match spec_unquoted_string(s, q) {
                    Some((e, key)) => {
                        lemma_multispace_end_moves(t, o, s, e);
                        lemma_key_rest_moves(
                            t,
                            o,
                            s,
                            i,
                            multispace_end(s, e),
                            d,
                            Value::UnquotedString(key),
                        );
                    },
                    None => {},
                },
            }
        },
    }
}

/// Where a value after `:` or `=` would start, after the key that ends at `r`.
spec fn colon_pos(s: Seq<char>, r: int) -> int {
    match spec_colon_or_equals(s, r) {
        Some(u) => u,
        None => r,
    }
}

/// What follows a key, given the values that may follow it: after `+=`,
/// after `:` or `=`, and the objects directly after it.
spec fn key_rest_of(
    s: Seq<char>,
    i: int,
    r: int,
    key: Value,
    plus: Result<(int, Seq<ItemModel>), ParseError>,
    colon: Result<(int, Seq<ItemModel>), ParseError>,
    objects: Result<(int, Seq<ItemModel>), ParseError>,
) -> Result<(int, Seq<ItemModel>), ParseError> {
    let m = multispace_end(s, r);
    if !(i < r <= s.len()) {
        Err(ParseError::Backtrack)
    } else if starts_with(s, m, seq!['+', '=']) {
        let u = multispace_end(s, m + 2);
        if !(i < u <= s.len()) {
            Err(ParseError::Backtrack)
        } else {
            match plus {
                Err(x) => Err(x),
                Ok((e, items)) => Ok(
                    (e, prefix_items(concat_to_array_items(object_items(items)), seq![key])),
                ),
            }
        }
    } else {
        match spec_colon_or_equals(s, r) {
            Some(u) => if !(i < u <= s.len()) {
                Err(ParseError::Backtrack)
            } else {
                match colon {
                    Err(x) => Err(x),
                    Ok((e, items)) => Ok((e, prefix_items(object_items(items), seq![key]))),
                }
            },
            None => match objects {
                Ok((e, h)) => Ok((e, prefix_items(object_items(h), seq![key]))),
                Err(x) => Err(x),
            },
        }
    }
}

proof fn lemma_key_rest_unfold(s: Seq<char>, i: int, r: int, d: int, key: Value)
    ensures
        spec_key_rest(s, i, r, d, key) == key_rest_of(
            s,
            i,
            r,
            key,
            spec_wrapper(s, multispace_end(s, multispace_end(s, r) + 2), d),
            spec_wrapper(s, colon_pos(s, r), d),
            spec_hashes(s, r, d),
        ),
{
    reveal_with_fuel(spec_key_rest, 1);
    reveal_with_fuel(spec_wrapper, 1);
    reveal_with_fuel(spec_hashes, 1);
}

proof fn lemma_key_rest_moves(
    t: Seq<char>,
    o: int,
    s: Seq<char>,
    i: int,
    r: int,
    d: int,
    key: Value,
)
    requires
        suffix_at(t, o, s),
        0 <= i,
    ensures
        spec_key_rest(t, i + o, r + o, d, key) == moved(spec_key_rest(s, i, r, d, key), o),
        spec_key_rest(s, i, r, d, key) matches Ok((k, _)) ==> k > i,
    decreases MAX_DEPTH - d, s.len() - i, 6int,
{
    lemma_key_rest_unfold(s, i, r, d, key);
    lemma_key_rest_unfold(t, i + o, r + o, d, key);
    if i < r <= s.len() {
        lemma_multispace_end_moves(t, o, s, r);
        let m = multispace_end(s, r);
        lemma_starts_with_moves(t, o, s, m, seq!['+', '=']);
        lemma_multispace_end_moves(t, o, s, m + 2);
        lemma_colon_moves(t, o, s, r);
        if starts_with(s, m, seq!['+', '=']) {
            let u = multispace_end(s, m + 2);
            if i < u <= s.len() {
                lemma_wrapper_moves(t, o, s, u, d);
            }
        } else {
            match spec_colon_or_equals(s, r) {
                Some(u) => if i < u <= s.len() {
                    lemma_wrapper_moves(t, o, s, u, d);
                },
                None => lemma_hashes_moves(t, o, s, r, d),
            }
        }
    }
}

proof fn lemma_arrays_moves(t: Seq<char>, o: int, s: Seq<char>, i: int, d: int)
    requires
        suffix_at(t, o, s),
        0 <= i,
    ensures
        spec_arrays(t, i + o, d) == moved(spec_arrays(s, i, d), o),
        spec_arrays(s, i, d) matches Ok((k, _)) ==> k >= i,
    decreases MAX_DEPTH - d, s.len() - i, 4int,
{
    reveal_with_fuel(spec_arrays, 1);
    reveal_with_fuel(spec_path_substitution, 1);
    reveal_with_fuel(spec_arrays_after, 1);
    lemma_substitution_moves(t, o, s, i, d);
    match spec_path_substitution(s, i, d) {
        Err(ParseError::Backtrack) => lemma_arrays_after_moves(t, o, s, i, d, None),
        Err(_) => {},
        Ok((j, v)) => if i < j <= s.len() {
            lemma_arrays_after_moves(t, o, s, j, d, Some(v));
        },
    }
}

proof fn lemma_arrays_after_moves(
    t: Seq<char>,
    o: int,
    s: Seq<char>,
    j: int,
    d: int,
    sub: Option<Value>,
)
    requires
        suffix_at(t, o, s),
        0 <= j,
    ensures
        spec_arrays_after(t, j + o, d, sub) == moved(spec_arrays_after(s, j, d, sub), o),
        spec_arrays_after(s, j, d, sub) matches Ok((k, _)) ==> k >= j,
    decreases MAX_DEPTH - d, s.len() - j, 3int,
{
    reveal_with_fuel(spec_arrays_after, 1);
    reveal_with_fuel(spec_array, 1);
    reveal_with_fuel(spec_arrays_rest, 1);
    lemma_array_moves(t, o, s, j, d);
    match spec_array(s, j, d) {
        Ok((k, _)) => if j < k <= s.len() {
            lemma_arrays_rest_moves(t, o, s, k, d);
        },
        Err(_) => {},
    }
}

proof fn lemma_arrays_rest_moves(t: Seq<char>, o: int, s: Seq<char>, k: int, d: int)
    requires
        suffix_at(t, o, s),
        0 <= k,
    ensures
        spec_arrays_rest(t, k + o, d) == moved(spec_arrays_rest(s, k, d), o),
        spec_arrays_rest(s, k, d) matches Ok((e, _)) ==> e >= k,
    decreases MAX_DEPTH - d, s.len() - k, 3int,
{
    reveal_with_fuel(spec_arrays_rest, 1);
    reveal_with_fuel(spec_array, 1);
    lemma_array_moves(t, o, s, k, d);
    match spec_array(s, k, d) {
        Ok((k2, _)) => if k < k2 <= s.len() {
            lemma_arrays_rest_moves(t, o, s, k2, d);
        },
        Err(_) => {},
    }
}

/// An array at `i`, given what the elements after its opening bracket are.
spec fn array_of(
    s: Seq<char>,
    i: int,
    d: int,
    elems: Result<(int, Seq<Seq<ItemModel>>), ParseError>,
) -> Result<(int, Seq<Seq<ItemModel>>), ParseError> {
    let a = space_end(s, i);
    if !(0 <= a < s.len() && s[a] == '[') {
        Err(ParseError::Backtrack)
    } else if d >= MAX_DEPTH {
        Err(ParseError::Fatal(Failure::TooDeep))
    } else {
        match elems {
            Err(x) => Err(x),
            Ok((k, es)) => match spec_closing(s, k, ']') {
                Some(e) => Ok((e, es)),
                None => Err(ParseError::Backtrack),
            },
        }
    }
}

/// Where the elements of an array at `i` start.
spec fn elems_start(s: Seq<char>, i: int) -> int {
    multispace_end(s, space_end(s, space_end(s, i) + 1))
}

proof fn lemma_array_unfold(s: Seq<char>, i: int, d: int)
    ensures
        spec_array(s, i, d) == array_of(s, i, d, spec_wrapper_list(s, elems_start(s, i), d + 1)),
{
    reveal_with_fuel(spec_array, 1);
    reveal_with_fuel(spec_wrapper_list, 1);
}

proof fn lemma_array_moves(t: Seq<char>, o: int, s: Seq<char>, i: int, d: int)
    requires
        suffix_at(t, o, s),
        0 <= i,
    ensures
        spec_array(t, i + o, d) == moved(spec_array(s, i, d), o),
        spec_array(s, i, d) matches Ok((k, _)) ==> k > i,
    decreases MAX_DEPTH - d, s.len() - i, 2int,
{
    lemma_array_unfold(s, i, d);
    lemma_array_unfold(t, i + o, d);
    lemma_space_end_moves(t, o, s, i);
    let a = space_end(s, i);
    if a < s.len() {
        assert(s[a] == t[o + a]);
    }
    if 0 <= a < s.len() && s[a] == '[' && d < MAX_DEPTH {
        lemma_space_end_moves(t, o, s, a + 1);
        lemma_multispace_end_moves(t, o, s, space_end(s, a + 1));
        let c = elems_start(s, i);
        assert(elems_start(t, i + o) == c + o);
        lemma_wrapper_list_moves(t, o, s, c, d + 1);
        match spec_wrapper_list(s, c, d + 1) {
            Ok((k, _)) => lemma_closing_moves(t, o, s, k, ']'),
            Err(_) => {},
        }
    }
}

proof fn lemma_wrapper_list_moves(t: Seq<char>, o: int, s: Seq<char>, i: int, d: int)
    requires
        suffix_at(t, o, s),
        0 <= i,
    ensures
        spec_wrapper_list(t, i + o, d) == moved(spec_wrapper_list(s, i, d), o),
        spec_wrapper_list(s, i, d) matches Ok((k, _)) ==> k >= i,
    decreases MAX_DEPTH - d, s.len() - i, 8int,
{
    reveal_with_fuel(spec_wrapper_list, 1);
    reveal_with_fuel(spec_wrapper, 1);
    reveal_with_fuel(spec_wrapper_list_rest, 1);
    lemma_wrapper_moves(t, o, s, i, d);
    match spec_wrapper(s, i, d) {
        Ok((k, _)) => if i < k <= s.len() {
            lemma_wrapper_list_rest_moves(t, o, s, k, d);
        },
        Err(_) => {},
    }
}

proof fn lemma_wrapper_list_rest_moves(t: Seq<char>, o: int, s: Seq<char>, k: int, d: int)
    requires
        suffix_at(t, o, s),
        0 <= k,
    ensures
        spec_wrapper_list_rest(t, k + o, d) == moved(spec_wrapper_list_rest(s, k, d), o),
        spec_wrapper_list_rest(s, k, d) matches Ok((e, _)) ==> e >= k,
    decreases MAX_DEPTH - d, s.len() - k, 8int,
{
    reveal_with_fuel(spec_wrapper_list_rest, 1);
    reveal_with_fuel(spec_wrapper, 1);
    lemma_separators_moves(t, o, s, k);
    match spec_separators(s, k) {
        Some(q) => if k < q <= s.len() {
            lemma_wrapper_moves(t, o, s, q, d);
            match spec_wrapper(s, q, d) {
                Ok((r, _)) => if q < r <= s.len() {
                    lemma_wrapper_list_rest_moves(t, o, s, r, d);
                },
                Err(_) => {},
            }
        },
        None => {},
    }
}

// ---------------------------------------------------------------------------
// Two objects, or two arrays, one after the other
// ---------------------------------------------------------------------------

proof fn lemma_space_end_again(s: Seq<char>, x: int)
    requires
        0 <= x,
    ensures
        space_end(s, space_end(s, x)) == space_end(s, x),
{
    if x <= s.len() {
        lemma_run_end(s, x, |c: char| is_space_char(c));
    }
}

/// Text that opens with spaces and then `open` does not open with `${`.
proof fn lemma_no_substitution_before(s: Seq<char>, open: char)
    requires
        0 <= space_end(s, 0) < s.len(),
        s[space_end(s, 0)] == open,
        open != '$',
    ensures
        !starts_with(s, 0, seq!['$', '{']),
{
    lemma_run_end(s, 0, |c: char| is_space_char(c));
    if starts_with(s, 0, seq!['$', '{']) {
        assert(s.subrange(0, 2)[0] == s[0]);
        if space_end(s, 0) > 0 {
            assert(is_space_char(s[0]));
        }
    }
}

/// An object followed by another, in one text, where the first reads as
/// it does alone.
proof fn lemma_object_then_object(a: Seq<char>, b: Seq<char>, d: int, ha: Seq<ItemModel>)
    requires
        spec_hash(a, 0, d) == Ok::<(int, Seq<ItemModel>), ParseError>((a.len() as int, ha)),
        spec_hash(a + b, 0, d) == Ok::<(int, Seq<ItemModel>), ParseError>(
            (space_end(a + b, a.len() as int), ha),
        ),
    ensures
        !starts_with(a + b, 0, seq!['$', '{']),
        0 < space_end(a + b, a.len() as int) <= (a + b).len(),
        spec_hash(a + b, space_end(a + b, a.len() as int), d) == moved(
            spec_hash(b, 0, d),
            a.len() as int,
        ),
{
    let s = a + b;
    let o = a.len() as int;
    lemma_suffix_of_concat(a, b);
    lemma_hash_unfold(a, 0, d);
    lemma_hash_unfold(s, 0, d);
    lemma_no_substitution_before(s, '{');
    lemma_space_end_moves(s, o, b, 0);
    lemma_run_end(s, 0, |c: char| is_space_char(c));
    let k = space_end(s, o);
    lemma_space_end_again(s, o);
    lemma_hash_unfold(s, k, d);
    lemma_hash_unfold(s, o, d);
    lemma_hash_moves(s, o, b, 0, d);
    assert(spec_hash(s, k, d) == spec_hash(s, o, d));
}

/// Two objects written one after the other read as one object: the
/// fields of the first, then those of the second, provided the first reads
/// as the same object when the second follows it. (It may not: a string
/// that a `"""` inside it opens without closing can run on into what
/// follows.)
pub proof fn lemma_objects_concatenated(
    a: Seq<char>,
    b: Seq<char>,
    d: int,
    ha: Seq<ItemModel>,
    hb: Seq<ItemModel>,
)
    requires
        spec_hash(a, 0, d) == Ok::<(int, Seq<ItemModel>), ParseError>((a.len() as int, ha)),
        spec_hash(b, 0, d) == Ok::<(int, Seq<ItemModel>), ParseError>((b.len() as int, hb)),
        spec_hash(a + b, 0, d) == Ok::<(int, Seq<ItemModel>), ParseError>(
            (space_end(a + b, a.len() as int), ha),
        ),
    ensures
        spec_hashes(a + b, 0, d) == Ok::<(int, Seq<ItemModel>), ParseError>(
            ((a + b).len() as int, ha + hb),
        ),
{
    let s = a + b;
    lemma_object_then_object(a, b, d, ha);
    let k = space_end(s, a.len() as int);
    lemma_hash_unfold(s, s.len() as int, d);
    lemma_run_end(s, s.len() as int, |c: char| is_space_char(c));
    lemma_two_objects_join(s, 0, d, k, s.len() as int, ha, hb);
}

/// When the second of two objects written one after the other fails for
/// good, so do both, provided the first reads as the same object when the
/// second follows it.
pub proof fn lemma_objects_concatenated_fatal(
    a: Seq<char>,
    b: Seq<char>,
    d: int,
    ha: Seq<ItemModel>,
    f: Failure,
)
    requires
        spec_hash(a, 0, d) == Ok::<(int, Seq<ItemModel>), ParseError>((a.len() as int, ha)),
        spec_hash(b, 0, d) == Err::<(int, Seq<ItemModel>), ParseError>(ParseError::Fatal(f)),
        spec_hash(a + b, 0, d) == Ok::<(int, Seq<ItemModel>), ParseError>(
            (space_end(a + b, a.len() as int), ha),
        ),
    ensures
        spec_hashes(a + b, 0, d) == Err::<(int, Seq<ItemModel>), ParseError>(ParseError::Fatal(f)),
{
    lemma_object_then_object(a, b, d, ha);
    lemma_second_object_fatal(a + b, 0, d, space_end(a + b, a.len() as int), ha, f);
}

/// An array followed by another, in one text, where the first reads as it
/// does alone.
proof fn lemma_array_then_array(a: Seq<char>, b: Seq<char>, d: int, va: Seq<Seq<ItemModel>>)
    requires
        spec_array(a, 0, d) == Ok::<(int, Seq<Seq<ItemModel>>), ParseError>((a.len() as int, va)),
        spec_array(a + b, 0, d) == Ok::<(int, Seq<Seq<ItemModel>>), ParseError>(
            (a.len() as int, va),
        ),
    ensures
        !starts_with(a + b, 0, seq!['$', '{']),
        0 < a.len(),
        spec_array(a + b, a.len() as int, d) == moved(spec_array(b, 0, d), a.len() as int),
{
    let s = a + b;
    lemma_suffix_of_concat(a, b);
    lemma_array_unfold(a, 0, d);
    lemma_array_unfold(s, 0, d);
    lemma_no_substitution_before(s, '[');
    lemma_array_moves(s, a.len() as int, b, 0, d);
}

/// Two arrays written one after the other read as one array: the elements
/// of the first, then those of the second, provided the first reads as the
/// same array when the second follows it. (It may not: a string that a
/// `"""` inside it opens without closing can run on into what follows.)
pub proof fn lemma_arrays_concatenated(
    a: Seq<char>,
    b: Seq<char>,
    d: int,
    va: Seq<Seq<ItemModel>>,
    vb: Seq<Seq<ItemModel>>,
)
    requires
        spec_array(a, 0, d) == Ok::<(int, Seq<Seq<ItemModel>>), ParseError>((a.len() as int, va)),
        spec_array(b, 0, d) == Ok::<(int, Seq<Seq<ItemModel>>), ParseError>((b.len() as int, vb)),
        spec_array(a + b, 0, d) == Ok::<(int, Seq<Seq<ItemModel>>), ParseError>(
            (a.len() as int, va),
        ),
    ensures
        spec_arrays(a + b, 0, d) == Ok::<(int, Seq<Seq<ItemModel>>), ParseError>(
            ((a + b).len() as int, va + vb),
        ),
{
    let s = a + b;
    lemma_array_then_array(a, b, d, va);
    lemma_array_unfold(s, s.len() as int, d);
    lemma_run_end(s, s.len() as int, |c: char| is_space_char(c));
    lemma_two_arrays_join(s, 0, d, a.len() as int, s.len() as int, va, vb);
}

/// When the second of two arrays written one after the other fails for
/// good, so do both, provided the first reads as the same array when the
/// second follows it.
pub proof fn lemma_arrays_concatenated_fatal(
    a: Seq<char>,
    b: Seq<char>,
    d: int,
    va: Seq<Seq<ItemModel>>,
    f: Failure,
)
    requires
        spec_array(a, 0, d) == Ok::<(int, Seq<Seq<ItemModel>>), ParseError>((a.len() as int, va)),
        spec_array(b, 0, d) == Err::<(int, Seq<Seq<ItemModel>>), ParseError>(ParseError::Fatal(f)),
        spec_array(a + b, 0, d) == Ok::<(int, Seq<Seq<ItemModel>>), ParseError>(
            (a.len() as int, va),
        ),
    ensures
        spec_arrays(a + b, 0, d) == Err::<(int, Seq<Seq<ItemModel>>), ParseError>(
            ParseError::Fatal(f),
        ),
{
    lemma_array_then_array(a, b, d, va);
    lemma_second_array_fatal(a + b, 0, d, a.len() as int, va, f);
}

/// When the first of two objects written one after the other fails for
/// good, reading as it does alone, so do both.
pub proof fn lemma_first_object_fatal(a: Seq<char>, b: Seq<char>, d: int, f: Failure)
    requires
        spec_hash(a, 0, d) == Err::<(int, Seq<ItemModel>), ParseError>(ParseError::Fatal(f)),
        spec_hash(a + b, 0, d) == Err::<(int, Seq<ItemModel>), ParseError>(ParseError::Fatal(f)),
    ensures
        spec_hashes(a + b, 0, d) == Err::<(int, Seq<ItemModel>), ParseError>(ParseError::Fatal(f)),
{
    let s = a + b;
    lemma_hash_unfold(s, 0, d);
    lemma_no_substitution_before(s, '{');
    lemma_no_substitution_at(s, 0, d);
    assert(spec_hashes_after(s, 0, d, None) == Err::<(int, Seq<ItemModel>), ParseError>(
        ParseError::Fatal(f),
    )) by {
        reveal_with_fuel(spec_hashes_after, 1);
        reveal_with_fuel(spec_hash, 1);
        reveal_with_fuel(spec_hashes_rest, 1);
    }
    reveal_with_fuel(spec_hashes, 1);
    reveal_with_fuel(spec_hashes_after, 1);
    reveal_with_fuel(spec_path_substitution, 1);
}

/// When the first of two arrays written one after the other fails for
/// good, reading as it does alone, so do both.
pub proof fn lemma_first_array_fatal(a: Seq<char>, b: Seq<char>, d: int, f: Failure)
    requires
        spec_array(a, 0, d) == Err::<(int, Seq<Seq<ItemModel>>), ParseError>(ParseError::Fatal(f)),
        spec_array(a + b, 0, d) == Err::<(int, Seq<Seq<ItemModel>>), ParseError>(
            ParseError::Fatal(f),
        ),
    ensures
        spec_arrays(a + b, 0, d) == Err::<(int, Seq<Seq<ItemModel>>), ParseError>(
            ParseError::Fatal(f),
        ),
{
    let s = a + b;
    lemma_array_unfold(s, 0, d);
    lemma_no_substitution_before(s, '[');
    lemma_no_substitution_at(s, 0, d);
    assert(spec_arrays_after(s, 0, d, None) == Err::<(int, Seq<Seq<ItemModel>>), ParseError>(
        ParseError::Fatal(f),
    )) by {
        reveal_with_fuel(spec_arrays_after, 1);
        reveal_with_fuel(spec_array, 1);
        reveal_with_fuel(spec_arrays_rest, 1);
    }
    reveal_with_fuel(spec_arrays, 1);
    reveal_with_fuel(spec_arrays_after, 1);
    reveal_with_fuel(spec_path_substitution, 1);
}

} // verus!
