use vstd::prelude::*;

verus! {

/// A horizontal space inside a HOCON line.
pub open spec fn is_space_char(c: char) -> bool {
    c == ' ' || c == '\t' || c == '\u{feff}' || c == '\u{a0}' || c == '\u{2007}' || c == '\u{202f}'
}

/// Whitespace as the `multispace` family understands it.
pub open spec fn is_multispace_char(c: char) -> bool {
    c == ' ' || c == '\t' || c == '\r' || c == '\n'
}

pub open spec fn is_newline_char(c: char) -> bool {
    c == '\n'
}

pub open spec fn is_digit_char(c: char) -> bool {
    '0' <= c && c <= '9'
}

/// End of the longest run of characters satisfying `p` that starts at `i`.
pub open spec fn run_end(s: Seq<char>, i: int, p: spec_fn(char) -> bool) -> int
    decreases s.len() - i,
{
    if 0 <= i < s.len() && p(s[i]) {
        run_end(s, i + 1, p)
    } else {
        i
    }
}

/// `run_end` is the end of a maximal run: every character before it
/// satisfies `p`, and the character at it (if any) does not.
pub proof fn lemma_run_end(s: Seq<char>, i: int, p: spec_fn(char) -> bool)
    requires
        0 <= i <= s.len(),
    ensures
        i <= run_end(s, i, p) <= s.len(),
        forall|k: int| i <= k < run_end(s, i, p) ==> p(#[trigger] s[k]),
        run_end(s, i, p) < s.len() ==> !p(s[run_end(s, i, p)]),
    decreases s.len() - i,
{
    if i < s.len() && p(s[i]) {
        lemma_run_end(s, i + 1, p);
    }
}

pub open spec fn space_end(s: Seq<char>, i: int) -> int {
    run_end(s, i, |c: char| is_space_char(c))
}

pub open spec fn multispace_end(s: Seq<char>, i: int) -> int {
    run_end(s, i, |c: char| is_multispace_char(c))
}

pub open spec fn newlines_end(s: Seq<char>, i: int) -> int {
    run_end(s, i, |c: char| is_newline_char(c))
}

pub open spec fn digits_end(s: Seq<char>, i: int) -> int {
    run_end(s, i, |c: char| is_digit_char(c))
}


pub fn is_space(c: char) -> (b: bool)
    ensures
        b == is_space_char(c),
{
    c == ' ' || c == '\t' || c == '\u{feff}' || c == '\u{a0}' || c == '\u{2007}' || c == '\u{202f}'
}

pub fn is_multispace(c: char) -> (b: bool)
    ensures
        b == is_multispace_char(c),
{
    c == ' ' || c == '\t' || c == '\r' || c == '\n'
}

pub fn is_digit(c: char) -> (b: bool)
    ensures
        b == is_digit_char(c),
{
    '0' <= c && c <= '9'
}

/// Skips the spaces that start at `i` (never fails).
pub fn space(s: &[char], i: usize) -> (r: usize)
    requires
        i <= s@.len(),
    ensures
        r == space_end(s@, i as int),
        i <= r <= s@.len(),
{
    let mut k: usize = i;
    while k < s.len() && is_space(s[k])
        invariant
            i <= k <= s@.len(),
            space_end(s@, i as int) == space_end(s@, k as int),
        decreases s@.len() - k,
    {
        k = k + 1;
    }
    k
}

/// Skips the spaces, tabs, carriage returns and newlines that start at `i`.
pub fn multispace0(s: &[char], i: usize) -> (r: usize)
    requires
        i <= s@.len(),
    ensures
        r == multispace_end(s@, i as int),
        i <= r <= s@.len(),
{
    let mut k: usize = i;
    while k < s.len() && is_multispace(s[k])
        invariant
            i <= k <= s@.len(),
            multispace_end(s@, i as int) == multispace_end(s@, k as int),
        decreases s@.len() - k,
    {
        k = k + 1;
    }
    k
}

/// Skips the newlines that start at `i`.
pub fn newlines(s: &[char], i: usize) -> (r: usize)
    requires
        i <= s@.len(),
    ensures
        r == newlines_end(s@, i as int),
        i <= r <= s@.len(),
{
    let mut k: usize = i;
    while k < s.len() && s[k] == '\n'
        invariant
            i <= k <= s@.len(),
            newlines_end(s@, i as int) == newlines_end(s@, k as int),
        decreases s@.len() - k,
    {
        k = k + 1;
    }
    k
}

/// Skips the decimal digits that start at `i`.
pub fn digits(s: &[char], i: usize) -> (r: usize)
    requires
        i <= s@.len(),
    ensures
        r == digits_end(s@, i as int),
        i <= r <= s@.len(),
{
    let mut k: usize = i;
    while k < s.len() && is_digit(s[k])
        invariant
            i <= k <= s@.len(),
            digits_end(s@, i as int) == digits_end(s@, k as int),
        decreases s@.len() - k,
    {
        k = k + 1;
    }
    k
}

/// `t` occurs in `s` at position `i`.
pub open spec fn starts_with(s: Seq<char>, i: int, t: Seq<char>) -> bool {
    0 <= i && i + t.len() <= s.len() && s.subrange(i, i + t.len()) == t
}

/// Whether the characters of `t` stand in `s` at position `i`.
pub fn has_prefix(s: &[char], i: usize, t: &[char]) -> (b: bool)
    requires
        i <= s@.len(),
    ensures
        b == starts_with(s@, i as int, t@),
        b ==> i + t@.len() <= s.len(),
{
    if t.len() > s.len() - i {
        return false;
    }
    let mut k: usize = 0;
    while k < t.len()
        invariant
            0 <= k <= t@.len(),
            i + t@.len() <= s@.len(),
            s@.len() <= usize::MAX,
            forall|m: int| 0 <= m < k ==> s@[i + m] == t@[m],
        decreases t@.len() - k,
    {
        if s[i + k] != t[k] {
            assert(s@.subrange(i as int, i + t@.len())[k as int] != t@[k as int]);
            return false;
        }
        k = k + 1;
    }
    assert(s@.subrange(i as int, i + t@.len()) =~= t@);
    true
}

/// An optional position, read as a mathematical integer.
pub open spec fn opt_pos(r: Option<usize>) -> Option<int> {
    match r {
        Some(k) => Some(k as int),
        None => None,
    }
}

/// First position at or after `i` that holds `c`.
pub open spec fn find_char(s: Seq<char>, i: int, c: char) -> Option<int>
    decreases s.len() - i,
{
    if i < 0 || i >= s.len() {
        None
    } else if s[i] == c {
        Some(i)
    } else {
        find_char(s, i + 1, c)
    }
}

/// Finds the first `c` at or after `i`, as `take_until` does.
pub fn find(s: &[char], i: usize, c: char) -> (r: Option<usize>)
    requires
        i <= s@.len(),
    ensures
        opt_pos(r) == find_char(s@, i as int, c),
        r matches Some(k) ==> i <= k < s@.len(),
{
    let mut k: usize = i;
    while k < s.len()
        invariant
            i <= k <= s@.len(),
            find_char(s@, i as int, c) == find_char(s@, k as int, c),
        decreases s@.len() - k,
    {
        if s[k] == c {
            return Some(k);
        }
        k = k + 1;
    }
    None
}

// ---------------------------------------------------------------------------
// Comments
// ---------------------------------------------------------------------------

/// A comment starts with `//` or `#` and runs up to (not including) the next
/// newline; one with no newline after it is not a comment.
pub open spec fn spec_comment(s: Seq<char>, i: int) -> Option<int> {
    if starts_with(s, i, seq!['/', '/']) {
        find_char(s, i + 2, '\n')
    } else if 0 <= i < s.len() && s[i] == '#' {
        find_char(s, i + 1, '\n')
    } else {
        None
    }
}

/// After a first comment: a run of newlines and of comments preceded by spaces.
pub open spec fn comment_tail_end(s: Seq<char>, i: int) -> int
    decreases s.len() - i,
{
    if 0 <= i < s.len() && s[i] == '\n' {
        comment_tail_end(s, i + 1)
    } else {
        match spec_comment(s, space_end(s, i)) {
            Some(e) => if i < e <= s.len() {
                comment_tail_end(s, e)
            } else {
                i
            },
            None => i,
        }
    }
}

/// Newlines, spaces, a comment, then any run of newlines and comments, then
/// whitespace.
pub open spec fn spec_multiline_comment(s: Seq<char>, i: int) -> Option<int> {
    let b = space_end(s, newlines_end(s, i));
    match spec_comment(s, b) {
        Some(c) => Some(multispace_end(s, comment_tail_end(s, c))),
        None => None,
    }
}

/// A block of comments if one starts at `i`, else nothing.
pub open spec fn possible_comment_end(s: Seq<char>, i: int) -> int {
    match spec_multiline_comment(s, i) {
        Some(e) => e,
        None => i,
    }
}

proof fn lemma_find_char(s: Seq<char>, i: int, c: char)
    ensures
        find_char(s, i, c) matches Some(k) ==> i <= k < s.len() && s[k] == c,
    decreases s.len() - i,
{
    if 0 <= i < s.len() && s[i] != c {
        lemma_find_char(s, i + 1, c);
    }
}

pub proof fn lemma_comment(s: Seq<char>, i: int)
    ensures
        spec_comment(s, i) matches Some(e) ==> i < e < s.len(),
{
    lemma_find_char(s, i + 2, '\n');
    lemma_find_char(s, i + 1, '\n');
}

/// Recognises a comment; returns the position of the newline that ends it.
pub fn comment(s: &[char], i: usize) -> (r: Option<usize>)
    requires
        i <= s@.len(),
    ensures
        opt_pos(r) == spec_comment(s@, i as int),
{
    proof { lemma_comment(s@, i as int); }
    let pat: &[char] = &['/', '/'];
    assert(pat@ =~= seq!['/', '/']);
    if has_prefix(s, i, pat) {
        find(s, i + 2, '\n')
    } else if i < s.len() && s[i] == '#' {
        assert(!starts_with(s@, i as int, seq!['/', '/'])) by {
            assert(seq!['/', '/'] =~= ['/', '/']@);
        }
        find(s, i + 1, '\n')
    } else {
        assert(!starts_with(s@, i as int, seq!['/', '/'])) by {
            assert(seq!['/', '/'] =~= ['/', '/']@);
        }
        None
    }
}

/// Spaces, then a comment.
pub fn space_then_comment(s: &[char], i: usize) -> (r: Option<usize>)
    requires
        i <= s@.len(),
    ensures
        opt_pos(r) == spec_comment(s@, space_end(s@, i as int)),
{
    let a = space(s, i);
    comment(s, a)
}

/// A block of comments: newlines, spaces, one comment, any further newlines
/// and comments, then the whitespace after them.
pub fn multiline_comment(s: &[char], i: usize) -> (r: Option<usize>)
    requires
        i <= s@.len(),
    ensures
        opt_pos(r) == spec_multiline_comment(s@, i as int),
        r matches Some(k) ==> i < k <= s@.len(),
{
    let a = newlines(s, i);
    let b = space(s, a);
    proof { lemma_comment(s@, b as int); }
    let c = match comment(s, b) {
        Some(c) => c,
        None => return None,
    };
    let mut k: usize = c;
    loop
        invariant
            c <= k <= s@.len(),
            comment_tail_end(s@, c as int) == comment_tail_end(s@, k as int),
        ensures
            c <= k <= s@.len(),
            comment_tail_end(s@, c as int) == k,
        decreases s@.len() - k,
    {
        if k < s.len() && s[k] == '\n' {
            k = k + 1;
        } else {
            let sp = space(s, k);
            proof { lemma_comment(s@, sp as int); }
            match comment(s, sp) {
                Some(e) => {
                    k = e;
                },
                None => break,
            }
        }
    }
    Some(multispace0(s, k))
}

/// Skips a block of comments if one starts at `i` (never fails).
pub fn possible_comment(s: &[char], i: usize) -> (r: usize)
    requires
        i <= s@.len(),
    ensures
        r == possible_comment_end(s@, i as int),
        i <= r <= s@.len(),
{
    match multiline_comment(s, i) {
        Some(e) => e,
        None => i,
    }
}


// ---------------------------------------------------------------------------
// Numbers and booleans
// ---------------------------------------------------------------------------

/// End of the number that starts at `i`: `[-]digits[.digits][(e|E)[+|-]digits]`.
/// At least one digit is needed before the point, so `.33` is no number.
pub open spec fn spec_number_end(s: Seq<char>, i: int) -> Option<int> {
    let a = if 0 <= i < s.len() && s[i] == '-' { i + 1 } else { i };
    let b = digits_end(s, a);
    if b == a {
        None
    } else {
        let c = if 0 <= b < s.len() && s[b] == '.' && digits_end(s, b + 1) > b + 1 {
            digits_end(s, b + 1)
        } else {
            b
        };
        let m0 = c + 1;
        let m = if 0 <= m0 < s.len() && (s[m0] == '+' || s[m0] == '-') { m0 + 1 } else { m0 };
        let d = if 0 <= c < s.len() && (s[c] == 'e' || s[c] == 'E') && digits_end(s, m) > m {
            digits_end(s, m)
        } else {
            c
        };
        Some(d)
    }
}

/// Recognises a number; returns the position just after it.
pub fn recognize_number(s: &[char], i: usize) -> (r: Option<usize>)
    requires
        i <= s@.len(),
    ensures
        opt_pos(r) == spec_number_end(s@, i as int),
        r matches Some(d) ==> i < d <= s@.len(),
{
    let a: usize = if i < s.len() && s[i] == '-' { i + 1 } else { i };
    let b = digits(s, a);
    if b == a {
        return None;
    }
    let mut c: usize = b;
    if b < s.len() && s[b] == '.' {
        let f = digits(s, b + 1);
        if f > b + 1 {
            c = f;
        }
    }
    let mut d: usize = c;
    if c < s.len() && (s[c] == 'e' || s[c] == 'E') {
        let m: usize = if c + 1 < s.len() && (s[c + 1] == '+' || s[c + 1] == '-') {
            c + 2
        } else {
            c + 1
        };
        let x = digits(s, m);
        if x > m {
            d = x;
        }
    }
    Some(d)
}

pub open spec fn digit_value(c: char) -> int {
    (c as int) - ('0' as int)
}

/// The value of the decimal digits `s[a..b]`.
pub open spec fn digits_value(s: Seq<char>, a: int, b: int) -> int
    decreases b - a,
{
    if b <= a {
        0
    } else {
        digits_value(s, a, b - 1) * 10 + digit_value(s[b - 1])
    }
}

proof fn lemma_digits_value_mono(s: Seq<char>, a: int, k: int, b: int)
    requires
        0 <= a <= k <= b <= s.len(),
        forall|m: int| a <= m < b ==> is_digit_char(#[trigger] s[m]),
    ensures
        0 <= digits_value(s, a, k) <= digits_value(s, a, b),
    decreases b - k,
{
    if k < b {
        lemma_digits_value_mono(s, a, k, b - 1);
    } else {
        lemma_digits_value_nonneg(s, a, b);
    }
}

proof fn lemma_digits_value_nonneg(s: Seq<char>, a: int, b: int)
    requires
        0 <= a <= b <= s.len(),
        forall|m: int| a <= m < b ==> is_digit_char(#[trigger] s[m]),
    ensures
        0 <= digits_value(s, a, b),
    decreases b - a,
{
    if a < b {
        lemma_digits_value_nonneg(s, a, b - 1);
    }
}

/// What parsing the number at `i` as an `i64` gives: its end and value, when
/// the number has no fraction or exponent and fits in an `i64`.
pub open spec fn spec_integer(s: Seq<char>, i: int) -> Option<(int, int)> {
    let a = if 0 <= i < s.len() && s[i] == '-' { i + 1 } else { i };
    match spec_number_end(s, i) {
        None => None,
        Some(d) => if d == digits_end(s, a) {
            let v = digits_value(s, a, d);
            let value = if a > i { -v } else { v };
            if i64::MIN <= value <= i64::MAX {
                Some((d, value))
            } else {
                None
            }
        } else {
            None
        },
    }
}

/// Parses an integer that fits in an `i64`.
pub fn integer(s: &[char], i: usize) -> (r: Option<(usize, i64)>)
    requires
        i <= s@.len(),
    ensures
        match r {
            Some((d, v)) => spec_integer(s@, i as int) == Some((d as int, v as int)),
            None => spec_integer(s@, i as int) is None,
        },
        r matches Some((d, v)) ==> i < d <= s@.len(),
{
    let d = match recognize_number(s, i) {
        Some(d) => d,
        None => return None,
    };
    let neg = s[i] == '-';
    let a: usize = if neg { i + 1 } else { i };
    let b = digits(s, a);
    if d != b {
        return None;
    }
    proof { lemma_run_end(s@, a as int, |c: char| is_digit_char(c)); }
    let limit: u128 = if neg { 9223372036854775808 } else { 9223372036854775807 };
    let mut v: u128 = 0;
    let mut k: usize = a;
    while k < b
        invariant
            a <= k <= b <= s@.len(),
            forall|m: int| a <= m < b ==> is_digit_char(#[trigger] s@[m]),
            v as int == digits_value(s@, a as int, k as int),
            v <= limit,
            limit == (if neg { 9223372036854775808u128 } else { 9223372036854775807u128 }),
            neg == (a > i),
            i <= a,
            a == (if 0 <= i < s@.len() && s@[i as int] == '-' { i + 1 } else { i as int }),
            spec_number_end(s@, i as int) == Some(d as int),
            d == b,
            b == digits_end(s@, a as int),
        decreases b - k,
    {
        let dv: u128 = (s[k] as u32 - '0' as u32) as u128;
        let w: u128 = v * 10 + dv;
        assert(dv as int == digit_value(s@[k as int]));
        assert(w as int == digits_value(s@, a as int, (k + 1) as int));
        if w > limit {
            proof { lemma_digits_value_mono(s@, a as int, (k + 1) as int, b as int); }
            assert(digits_value(s@, a as int, b as int) > limit);
            return None;
        }
        v = w;
        k = k + 1;
    }
    let value: i64 = if neg {
        if v == 9223372036854775808 {
            i64::MIN
        } else {
            -(v as i64)
        }
    } else {
        v as i64
    };
    Some((d, value))
}

/// Recognises a number that does not fit an `i64`; returns its end and its
/// text, which stands for the floating-point value that it spells.
pub fn float(s: &[char], i: usize) -> (r: Option<(usize, Vec<char>)>)
    requires
        i <= s@.len(),
    ensures
        match r {
            Some((d, t)) => spec_number_end(s@, i as int) == Some(d as int) && t@ == s@.subrange(
                i as int,
                d as int,
            ),
            None => spec_number_end(s@, i as int) is None,
        },
        r matches Some((d, t)) ==> i < d <= s@.len(),
{
    match recognize_number(s, i) {
        Some(d) => Some((d, slice_to_vec(s, i, d))),
        None => None,
    }
}

/// The characters `s[a..b]`.
pub fn slice_to_vec(s: &[char], a: usize, b: usize) -> (r: Vec<char>)
    requires
        a <= b <= s@.len(),
    ensures
        r@ == s@.subrange(a as int, b as int),
{
    let mut r: Vec<char> = Vec::new();
    let mut k: usize = a;
    while k < b
        invariant
            a <= k <= b <= s@.len(),
            r@ == s@.subrange(a as int, k as int),
        decreases b - k,
    {
        r.push(s[k]);
        k = k + 1;
        assert(r@ =~= s@.subrange(a as int, k as int));
    }
    r
}

/// `true` or `false`.
pub open spec fn spec_boolean(s: Seq<char>, i: int) -> Option<(int, bool)> {
    if starts_with(s, i, seq!['t', 'r', 'u', 'e']) {
        Some((i + 4, true))
    } else if starts_with(s, i, seq!['f', 'a', 'l', 's', 'e']) {
        Some((i + 5, false))
    } else {
        None
    }
}

/// Parses `true` or `false`.
pub fn boolean(s: &[char], i: usize) -> (r: Option<(usize, bool)>)
    requires
        i <= s@.len(),
    ensures
        match r {
            Some((d, b)) => spec_boolean(s@, i as int) == Some((d as int, b)),
            None => spec_boolean(s@, i as int) is None,
        },
        r matches Some((d, b)) ==> i < d <= s@.len(),
{
    let t: &[char] = &['t', 'r', 'u', 'e'];
    let f: &[char] = &['f', 'a', 'l', 's', 'e'];
    assert(t@ =~= seq!['t', 'r', 'u', 'e']);
    assert(f@ =~= seq!['f', 'a', 'l', 's', 'e']);
    if has_prefix(s, i, t) {
        Some((i + 4, true))
    } else if has_prefix(s, i, f) {
        Some((i + 5, false))
    } else {
        None
    }
}


// ---------------------------------------------------------------------------
// Quoted strings
// ---------------------------------------------------------------------------

/// The characters that may follow a backslash in a quoted string.
pub open spec fn is_escape_target(c: char) -> bool {
    c == '"' || c == '\\' || c == '/' || c == 'b' || c == 'f' || c == 'n' || c == 'r' || c == 't'
        || c == 'u'
}

/// One unit of a quoted string's body that starts at `p`: any character but
/// a backslash, a quote or a newline, or a backslash and an escape target.
pub open spec fn string_unit_end(s: Seq<char>, p: int) -> Option<int> {
    if 0 <= p < s.len() && s[p] != '\\' && s[p] != '"' && s[p] != '\n' {
        Some(p + 1)
    } else if 0 <= p && p + 1 < s.len() && s[p] == '\\' && is_escape_target(s[p + 1]) {
        Some(p + 2)
    } else {
        None
    }
}

/// End of the longest run of string units from `p`.
pub open spec fn string_body_end(s: Seq<char>, p: int) -> int
    decreases s.len() - p,
{
    match string_unit_end(s, p) {
        Some(q) => if p < q <= s.len() {
            string_body_end(s, q)
        } else {
            p
        },
        None => p,
    }
}

/// The character that a one-letter escape stands for.
pub open spec fn simple_escape(c: char) -> char {
    if c == 'b' {
        '\u{8}'
    } else if c == 'f' {
        '\u{c}'
    } else if c == 'n' {
        '\n'
    } else if c == 'r' {
        '\r'
    } else if c == 't' {
        '\t'
    } else {
        c
    }
}

pub open spec fn is_simple_escape(c: char) -> bool {
    c == '"' || c == '\\' || c == '/' || c == 'b' || c == 'f' || c == 'n' || c == 'r' || c == 't'
}

pub open spec fn is_hex_char(c: char) -> bool {
    ('0' <= c && c <= '9') || ('a' <= c && c <= 'f') || ('A' <= c && c <= 'F')
}

pub open spec fn hex_value(c: char) -> int {
    if '0' <= c && c <= '9' {
        (c as int) - ('0' as int)
    } else if 'a' <= c && c <= 'f' {
        (c as int) - ('a' as int) + 10
    } else {
        (c as int) - ('A' as int) + 10
    }
}

/// The value of the four hex digits `s[p..p+4]`.
pub open spec fn hex4_value(s: Seq<char>, p: int) -> int {
    hex_value(s[p]) * 4096 + hex_value(s[p + 1]) * 256 + hex_value(s[p + 2]) * 16 + hex_value(
        s[p + 3],
    )
}

/// The character that `\uXXXX` names, when four hex digits stand at `p`
/// (before `e`) and name a character that is no surrogate.
pub open spec fn unicode_escape(s: Seq<char>, p: int, e: int) -> Option<char> {
    if 0 <= p && p + 4 <= e && e <= s.len() && is_hex_char(s[p]) && is_hex_char(s[p + 1])
        && is_hex_char(s[p + 2]) && is_hex_char(s[p + 3]) && (hex4_value(s, p) < 0xD800
        || hex4_value(s, p) >= 0xE000) {
        Some(hex4_value(s, p) as char)
    } else {
        None
    }
}

/// The text that the raw body `s[k..e]` of a quoted string stands for.
/// `\"`, `\\`, `\/`, `\b`, `\f`, `\n`, `\r`, `\t` stand for their character,
/// `\uXXXX` for the character it names; a `\u` without such digits, and any
/// other character, stands for itself.
pub open spec fn unescape_range(s: Seq<char>, k: int, e: int) -> Seq<char>
    decreases e - k,
{
    if k >= e {
        seq![]
    } else if s[k] == '\\' && k + 1 < e && s[k + 1] == 'u' {
        match unicode_escape(s, k + 2, e) {
            Some(ch) => seq![ch] + unescape_range(s, k + 6, e),
            None => seq!['\\', 'u'] + unescape_range(s, k + 2, e),
        }
    } else if s[k] == '\\' && k + 1 < e && is_simple_escape(s[k + 1]) {
        seq![simple_escape(s[k + 1])] + unescape_range(s, k + 2, e)
    } else {
        seq![s[k]] + unescape_range(s, k + 1, e)
    }
}

/// A quoted string at `i`: its end and the text it stands for.
pub open spec fn spec_string(s: Seq<char>, i: int) -> Option<(int, Seq<char>)> {
    if 0 <= i < s.len() && s[i] == '"' {
        let e = string_body_end(s, i + 1);
        if e < s.len() && s[e] == '"' {
            Some((e + 1, unescape_range(s, i + 1, e)))
        } else {
            None
        }
    } else {
        None
    }
}

pub fn is_hex(c: char) -> (b: bool)
    ensures
        b == is_hex_char(c),
{
    ('0' <= c && c <= '9') || ('a' <= c && c <= 'f') || ('A' <= c && c <= 'F')
}

fn hex_digit_value(c: char) -> (v: u32)
    requires
        is_hex_char(c),
    ensures
        v as int == hex_value(c),
        v < 16,
{
    if '0' <= c && c <= '9' {
        c as u32 - '0' as u32
    } else if 'a' <= c && c <= 'f' {
        c as u32 - 'a' as u32 + 10
    } else {
        c as u32 - 'A' as u32 + 10
    }
}

/// Up to `max` hex digits from `i` (the `take_while_m_n` of the grammar with
/// no lower bound, so it never fails): the end of the run.
pub fn take_hex_digits(s: &[char], i: usize, max: usize) -> (r: usize)
    requires
        i <= s@.len(),
    ensures
        i <= r <= s@.len(),
        r - i <= max,
        forall|k: int| i <= k < r ==> is_hex_char(#[trigger] s@[k]),
        r - i < max ==> r == s@.len() || !is_hex_char(s@[r as int]),
{
    let mut k: usize = i;
    while k < s.len() && k - i < max && is_hex(s[k])
        invariant
            i <= k <= s@.len(),
            k - i <= max,
            forall|m: int| i <= m < k ==> is_hex_char(#[trigger] s@[m]),
        decreases s@.len() - k,
    {
        k = k + 1;
    }
    k
}

/// The `\uXXXX` escape whose digits start at `p`, as `unicode_escape` says.
fn parse_unicode_escape(s: &[char], p: usize, e: usize) -> (r: Option<char>)
    requires
        p <= e <= s@.len(),
    ensures
        r == unicode_escape(s@, p as int, e as int),
{
    if e - p < 4 {
        return None;
    }
    let h = take_hex_digits(s, p, 4);
    if h - p < 4 {
        assert(!is_hex_char(s@[h as int]));
        return None;
    }
    let v: u32 = hex_digit_value(s[p]) * 4096 + hex_digit_value(s[p + 1]) * 256 + hex_digit_value(
        s[p + 2],
    ) * 16 + hex_digit_value(s[p + 3]);
    assert(v as int == hex4_value(s@, p as int));
    match crate::primitives::char_from_u32(v) {
        Some(c) => {
            assert(c == hex4_value(s@, p as int) as char);
            Some(c)
        },
        None => None,
    }
}

proof fn lemma_string_body(s: Seq<char>, p: int)
    requires
        0 <= p <= s.len(),
    ensures
        p <= string_body_end(s, p) <= s.len(),
    decreases s.len() - p,
{
    match string_unit_end(s, p) {
        Some(q) => if p < q <= s.len() {
            lemma_string_body(s, q);
        },
        None => {},
    }
}

/// The text that the raw body `s[k..e]` stands for.
pub fn unescape(s: &[char], k: usize, e: usize) -> (r: Vec<char>)
    requires
        k <= e <= s@.len(),
    ensures
        r@ == unescape_range(s@, k as int, e as int),
{
    let mut out: Vec<char> = Vec::new();
    let mut j: usize = k;
    while j < e
        invariant
            k <= j <= e <= s@.len(),
            out@ + unescape_range(s@, j as int, e as int) == unescape_range(s@, k as int, e as int),
        decreases e - j,
    {
        let ghost old_out = out@;
        if s[j] == '\\' && j + 1 < e && s[j + 1] == 'u' {
            match parse_unicode_escape(s, j + 2, e) {
                Some(ch) => {
                    out.push(ch);
                    j = j + 6;
                },
                None => {
                    out.push('\\');
                    out.push('u');
                    j = j + 2;
                },
            }
        } else if s[j] == '\\' && j + 1 < e && (s[j + 1] == '"' || s[j + 1] == '\\' || s[j + 1]
            == '/' || s[j + 1] == 'b' || s[j + 1] == 'f' || s[j + 1] == 'n' || s[j + 1] == 'r'
            || s[j + 1] == 't') {
            let c = s[j + 1];
            let x: char = if c == 'b' {
                '\u{8}'
            } else if c == 'f' {
                '\u{c}'
            } else if c == 'n' {
                '\n'
            } else if c == 'r' {
                '\r'
            } else if c == 't' {
                '\t'
            } else {
                c
            };
            out.push(x);
            j = j + 2;
        } else {
            out.push(s[j]);
            j = j + 1;
        }
        assert(out@ + unescape_range(s@, j as int, e as int) =~= unescape_range(
            s@,
            k as int,
            e as int,
        ));
    }
    assert(out@ =~= out@ + unescape_range(s@, j as int, e as int));
    out
}

/// Parses a quoted string; returns its end and the text it stands for.
pub fn string(s: &[char], i: usize) -> (r: Option<(usize, Vec<char>)>)
    requires
        i <= s@.len(),
    ensures
        match r {
            Some((d, t)) => spec_string(s@, i as int) == Some((d as int, t@)),
            None => spec_string(s@, i as int) is None,
        },
        r matches Some((d, t)) ==> i < d <= s@.len(),
{
    if i >= s.len() || s[i] != '"' {
        return None;
    }
    let mut p: usize = i + 1;
    loop
        invariant
            i + 1 <= p <= s@.len(),
            string_body_end(s@, p as int) == string_body_end(s@, i + 1),
        ensures
            i + 1 <= p <= s@.len(),
            p == string_body_end(s@, i + 1),
        decreases s@.len() - p,
    {
        if p < s.len() && s[p] != '\\' && s[p] != '"' && s[p] != '\n' {
            p = p + 1;
        } else if p < s.len() && p + 1 < s.len() && s[p] == '\\' && (s[p + 1] == '"' || s[p + 1] == '\\' || s[p
            + 1] == '/' || s[p + 1] == 'b' || s[p + 1] == 'f' || s[p + 1] == 'n' || s[p + 1] == 'r'
            || s[p + 1] == 't' || s[p + 1] == 'u') {
            p = p + 2;
        } else {
            break;
        }
    }
    if p < s.len() && s[p] == '"' {
        Some((p + 1, unescape(s, i + 1, p)))
    } else {
        None
    }
}

// ---------------------------------------------------------------------------
// Multi-line strings
// ---------------------------------------------------------------------------

pub open spec fn quote_run_end(s: Seq<char>, p: int) -> int {
    run_end(s, p, |c: char| c == '"')
}

/// End of the first run of three or more quotes at or after `p`.
pub open spec fn ml_close(s: Seq<char>, p: int) -> Option<int>
    decreases s.len() - p,
{
    if p < 0 || p >= s.len() {
        None
    } else if s[p] != '"' {
        ml_close(s, p + 1)
    } else {
        let e = quote_run_end(s, p);
        if e - p >= 3 {
            Some(e)
        } else if p < e <= s.len() {
            ml_close(s, e)
        } else {
            None
        }
    }
}

/// A string between `"""` and the first run of three or more quotes; quotes
/// beyond the last three of that run belong to the text.
pub open spec fn spec_multiline_string(s: Seq<char>, i: int) -> Option<(int, Seq<char>)> {
    if starts_with(s, i, seq!['"', '"', '"']) {
        match ml_close(s, i + 3) {
            Some(e) => Some((e, s.subrange(i + 3, e - 3))),
            None => None,
        }
    } else {
        None
    }
}

pub proof fn lemma_ml_close(s: Seq<char>, p: int)
    ensures
        ml_close(s, p) matches Some(e) ==> p + 3 <= e <= s.len(),
    decreases s.len() - p,
{
    if 0 <= p < s.len() {
        if s[p] != '"' {
            lemma_ml_close(s, p + 1);
        } else {
            lemma_run_end(s, p, |c: char| c == '"');
            let e = quote_run_end(s, p);
            if e - p < 3 && p < e <= s.len() {
                lemma_ml_close(s, e);
            }
        }
    }
}

/// Parses a `"""`-delimited string; returns its end and its text.
pub fn multiline_string(s: &[char], i: usize) -> (r: Option<(usize, Vec<char>)>)
    requires
        i <= s@.len(),
    ensures
        match r {
            Some((d, t)) => spec_multiline_string(s@, i as int) == Some((d as int, t@)),
            None => spec_multiline_string(s@, i as int) is None,
        },
        r matches Some((d, t)) ==> i < d <= s@.len(),
{
    let open: &[char] = &['"', '"', '"'];
    assert(open@ =~= seq!['"', '"', '"']);
    if !has_prefix(s, i, open) {
        return None;
    }
    let start: usize = i + 3;
    let mut p: usize = start;
    while p < s.len()
        invariant
            start <= p <= s@.len(),
            start == i + 3,
            starts_with(s@, i as int, seq!['"', '"', '"']),
            ml_close(s@, p as int) == ml_close(s@, start as int),
        decreases s@.len() - p,
    {
        if s[p] == '"' {
            let mut q: usize = p;
            while q < s.len() && s[q] == '"'
                invariant
                    p <= q <= s@.len(),
                    quote_run_end(s@, q as int) == quote_run_end(s@, p as int),
                decreases s@.len() - q,
            {
                q = q + 1;
            }
            proof {
                lemma_run_end(s@, p as int, |c: char| c == '"');
                lemma_ml_close(s@, start as int);
            }
            assert(quote_run_end(s@, q as int) == q);
            assert(quote_run_end(s@, p as int) == q);
            if q - p >= 3 {
                assert(ml_close(s@, p as int) == Some(q as int));
                return Some((q, slice_to_vec(s, start, q - 3)));
            }
            p = q;
        } else {
            p = p + 1;
        }
    }
    None
}

// ---------------------------------------------------------------------------
// Unquoted strings
// ---------------------------------------------------------------------------

/// Characters that end an unquoted string.
pub open spec fn is_special_char(c: char) -> bool {
    c == '$' || c == '"' || c == '{' || c == '}' || c == '[' || c == ']' || c == ':' || c == '='
        || c == ',' || c == '+' || c == '#' || c == '`' || c == '^' || c == '?' || c == '!' || c
        == '@' || c == '*' || c == '&' || c == '\'' || c == '\\' || c == '\t' || c == '\n'
}

pub fn is_special(c: char) -> (b: bool)
    ensures
        b == is_special_char(c),
{
    c == '$' || c == '"' || c == '{' || c == '}' || c == '[' || c == ']' || c == ':' || c == '='
        || c == ',' || c == '+' || c == '#' || c == '`' || c == '^' || c == '?' || c == '!' || c
        == '@' || c == '*' || c == '&' || c == '\'' || c == '\\' || c == '\t' || c == '\n'
}

/// An unquoted string stops at the end, at a special character, or at `//`.
pub open spec fn unquoted_stop(s: Seq<char>, p: int) -> bool {
    p < 0 || p >= s.len() || is_special_char(s[p]) || (s[p] == '/' && p + 1 < s.len() && s[p + 1]
        == '/')
}

pub open spec fn unquoted_end(s: Seq<char>, p: int) -> int
    decreases s.len() - p,
{
    if unquoted_stop(s, p) {
        p
    } else {
        unquoted_end(s, p + 1)
    }
}

/// A non-empty unquoted string at `i`: its end and its text.
pub open spec fn spec_unquoted_string(s: Seq<char>, i: int) -> Option<(int, Seq<char>)> {
    let e = unquoted_end(s, i);
    if e == i {
        None
    } else {
        Some((e, s.subrange(i, e)))
    }
}

pub proof fn lemma_unquoted_end(s: Seq<char>, p: int)
    requires
        0 <= p <= s.len(),
    ensures
        p <= unquoted_end(s, p) <= s.len(),
    decreases s.len() - p,
{
    if !unquoted_stop(s, p) {
        lemma_unquoted_end(s, p + 1);
    }
}

/// Parses an unquoted string; returns its end and its text.
pub fn unquoted_string(s: &[char], i: usize) -> (r: Option<(usize, Vec<char>)>)
    requires
        i <= s@.len(),
    ensures
        match r {
            Some((d, t)) => spec_unquoted_string(s@, i as int) == Some((d as int, t@)),
            None => spec_unquoted_string(s@, i as int) is None,
        },
        r matches Some((d, t)) ==> i < d <= s@.len(),
{
    let mut p: usize = i;
    while p < s.len() && !is_special(s[p]) && !(s[p] == '/' && p + 1 < s.len() && s[p + 1] == '/')
        invariant
            i <= p <= s@.len(),
            unquoted_end(s@, p as int) == unquoted_end(s@, i as int),
        decreases s@.len() - p,
    {
        p = p + 1;
    }
    if p == i {
        None
    } else {
        Some((p, slice_to_vec(s, i, p)))
    }
}

// ---------------------------------------------------------------------------
// Laws of the tokens
// ---------------------------------------------------------------------------

/// Each one-letter escape stands for exactly the one character it names:
/// `\"` for `"`, `\\` for a backslash, `\/` for `/`, `\b` for backspace,
/// `\f` for form feed, `\n` for newline, `\r` for carriage return and
/// `\t` for tab; the text after it is unescaped in turn.
pub proof fn lemma_one_letter_escapes(s: Seq<char>, k: int, e: int)
    requires
        0 <= k,
        k + 1 < e <= s.len(),
        s[k] == '\\',
    ensures
        ({
            let rest = unescape_range(s, k + 2, e);
            let r = unescape_range(s, k, e);
            &&& s[k + 1] == '"' ==> r == seq!['"'] + rest
            &&& s[k + 1] == '\\' ==> r == seq!['\\'] + rest
            &&& s[k + 1] == '/' ==> r == seq!['/'] + rest
            &&& s[k + 1] == 'b' ==> r == seq!['\u{8}'] + rest
            &&& s[k + 1] == 'f' ==> r == seq!['\u{c}'] + rest
            &&& s[k + 1] == 'n' ==> r == seq!['\n'] + rest
            &&& s[k + 1] == 'r' ==> r == seq!['\r'] + rest
            &&& s[k + 1] == 't' ==> r == seq!['\t'] + rest
        }),
{
}

/// An unquoted string never holds `//` or `#`: it ends before the first
/// of them, so a comment never becomes part of a value.
pub proof fn lemma_unquoted_stops_at_comment(s: Seq<char>, i: int)
    requires
        0 <= i <= s.len(),
    ensures
        spec_unquoted_string(s, i) matches Some((e, t)) ==> {
            &&& t == s.subrange(i, e)
            &&& forall|k: int|
                i <= k < e && k + 1 < s.len() ==> !(#[trigger] s[k] == '/' && s[k + 1] == '/')
            &&& forall|k: int| i <= k < e ==> #[trigger] s[k] != '#'
        },
{
    lemma_unquoted_end(s, i);
    lemma_unquoted_no_comment(s, i);
}

proof fn lemma_unquoted_no_comment(s: Seq<char>, p: int)
    requires
        0 <= p <= s.len(),
    ensures
        forall|k: int|
            p <= k < unquoted_end(s, p) && k + 1 < s.len() ==> !(#[trigger] s[k] == '/' && s[k + 1]
                == '/'),
        forall|k: int| p <= k < unquoted_end(s, p) ==> #[trigger] s[k] != '#',
    decreases s.len() - p,
{
    if !unquoted_stop(s, p) {
        lemma_unquoted_no_comment(s, p + 1);
    }
}

/// A character that is not a backslash stands for itself.
pub proof fn lemma_plain_char_unescaped(s: Seq<char>, k: int, e: int)
    requires
        0 <= k < e <= s.len(),
        s[k] != '\\',
    ensures
        unescape_range(s, k, e) == seq![s[k]] + unescape_range(s, k + 1, e),
{
}

proof fn lemma_string_body_no_newline(s: Seq<char>, p: int)
    requires
        0 <= p <= s.len(),
    ensures
        forall|k: int| p <= k < string_body_end(s, p) ==> #[trigger] s[k] != '\n',
    decreases s.len() - p,
{
    match string_unit_end(s, p) {
        Some(q) => if p < q <= s.len() {
            lemma_string_body_no_newline(s, q);
        },
        None => {},
    }
}

/// A quoted string runs from a `"` to the next `"` that no backslash
/// escapes, on one line, and stands for its body unescaped.
pub proof fn lemma_quoted_string_shape(s: Seq<char>, i: int)
    requires
        0 <= i <= s.len(),
    ensures
        spec_string(s, i) matches Some((e, t)) ==> {
            &&& i + 2 <= e <= s.len()
            &&& s[i] == '"' && s[e - 1] == '"'
            &&& t == unescape_range(s, i + 1, e - 1)
            &&& forall|k: int| i < k < e - 1 ==> #[trigger] s[k] != '\n'
        },
{
    if i < s.len() {
        lemma_string_body(s, i + 1);
        lemma_string_body_no_newline(s, i + 1);
    }
}

proof fn lemma_ml_close_quotes(s: Seq<char>, p: int)
    requires
        0 <= p,
    ensures
        ml_close(s, p) matches Some(e) ==> p + 3 <= e <= s.len() && s[e - 3] == '"' && s[e - 2]
            == '"' && s[e - 1] == '"',
    decreases s.len() - p,
{
    lemma_ml_close(s, p);
    if p < s.len() {
        if s[p] != '"' {
            lemma_ml_close_quotes(s, p + 1);
        } else {
            lemma_run_end(s, p, |c: char| c == '"');
            let e = quote_run_end(s, p);
            if e - p >= 3 {
                assert(s[e - 3] == '"');
                assert(s[e - 2] == '"');
                assert(s[e - 1] == '"');
            } else if p < e <= s.len() {
                lemma_ml_close_quotes(s, e);
            }
        }
    }
}

/// A multi-line string opens and closes with three quotes and stands for
/// the text between them as it is written: nothing in it is unescaped.
pub proof fn lemma_multiline_string_raw(s: Seq<char>, i: int)
    requires
        0 <= i <= s.len(),
    ensures
        spec_multiline_string(s, i) matches Some((e, t)) ==> {
            &&& i + 6 <= e <= s.len()
            &&& s[i] == '"' && s[i + 1] == '"' && s[i + 2] == '"'
            &&& s[e - 3] == '"' && s[e - 2] == '"' && s[e - 1] == '"'
            &&& t == s.subrange(i + 3, e - 3)
        },
{
    lemma_ml_close_quotes(s, i + 3);
    if starts_with(s, i, seq!['"', '"', '"']) {
        assert(s.subrange(i, i + 3)[0] == s[i]);
        assert(s.subrange(i, i + 3)[1] == s[i + 1]);
        assert(s.subrange(i, i + 3)[2] == s[i + 2]);
    }
}

} // verus!
