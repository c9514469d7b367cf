//! Values of a HOCON document as the parser produces them, with their
//! mathematical model.
use vstd::prelude::*;

verus! {

/// What can go wrong when a document is loaded.
#[derive(Clone, Copy, Debug, PartialEq, Eq, Structural, Hash)]
pub enum HoconError {
    /// The text is not a HOCON document.
    Parse,
    /// A required include could not be loaded.
    Include,
    /// A substitution names a key that the document does not hold.
    KeyNotFound,
    /// Substitutions lead from one to another too many times (a cycle).
    TooDeep,
    /// The document uses a form that this library does not resolve.
    Unsupported,
}

/// A value as the parser produces it, before substitutions are resolved.
#[derive(Debug, Hash)]
pub enum HoconValue {
    /// A number that does not fit an `i64`, held by its text.
    Real(String),
    Integer(i64),
    String(String),
    UnquotedString(String),
    Boolean(bool),
    Concat(Vec<HoconValue>),
    PathSubstitution { target: Box<HoconValue>, optional: bool, original: Option<Box<HoconValue>> },
    PathSubstitutionInParent(Box<HoconValue>),
    ToConcatToArray { value: Box<HoconValue>, original_path: Vec<HoconValue>, item_id: String },
    Null(String),
    /// Placeholder for a value that is replaced before the document is returned.
    Temp,
    /// Marks an error when the document is not processed strictly.
    BadValue(HoconError),
    EmptyObject,
    EmptyArray,
    Included {
        value: Box<HoconValue>,
        include_root: Option<Vec<HoconValue>>,
        original_path: Vec<HoconValue>,
    },
}

/// The mathematical model of a `HoconValue`: texts become sequences of
/// characters. The identifier that ties the items of one `+=` together is not
/// part of the model.
pub enum Value {
    Real(Seq<char>),
    Integer(i64),
    String(Seq<char>),
    UnquotedString(Seq<char>),
    Boolean(bool),
    Concat(Seq<Value>),
    PathSubstitution { target: Box<Value>, optional: bool, original: Option<Box<Value>> },
    PathSubstitutionInParent(Box<Value>),
    ToConcatToArray { value: Box<Value>, original_path: Seq<Value> },
    Null(Seq<char>),
    Temp,
    BadValue(HoconError),
    EmptyObject,
    EmptyArray,
    Included { value: Box<Value>, include_root: Option<Seq<Value>>, original_path: Seq<Value> },
}

pub open spec fn model(v: HoconValue) -> Value
    decreases v,
{
    match v {
        HoconValue::Real(t) => Value::Real(t@),
        HoconValue::Integer(i) => Value::Integer(i),
        HoconValue::String(t) => Value::String(t@),
        HoconValue::UnquotedString(t) => Value::UnquotedString(t@),
        HoconValue::Boolean(b) => Value::Boolean(b),
        HoconValue::Concat(vs) => Value::Concat(models(vs@)),
        HoconValue::PathSubstitution { target, optional, original } => Value::PathSubstitution {
            target: Box::new(model(*target)),
            optional,
            original: match original {
                Some(o) => Some(Box::new(model(*o))),
                None => None,
            },
        },
        HoconValue::PathSubstitutionInParent(t) => Value::PathSubstitutionInParent(
            Box::new(model(*t)),
        ),
        HoconValue::ToConcatToArray { value, original_path, item_id } => Value::ToConcatToArray {
            value: Box::new(model(*value)),
            original_path: models(original_path@),
        },
        HoconValue::Null(t) => Value::Null(t@),
        HoconValue::Temp => Value::Temp,
        HoconValue::BadValue(e) => Value::BadValue(e),
        HoconValue::EmptyObject => Value::EmptyObject,
        HoconValue::EmptyArray => Value::EmptyArray,
        HoconValue::Included { value, include_root, original_path } => Value::Included {
            value: Box::new(model(*value)),
            include_root: match include_root {
                Some(r) => Some(models(r@)),
                None => None,
            },
            original_path: models(original_path@),
        },
    }
}

pub open spec fn models(s: Seq<HoconValue>) -> Seq<Value>
    decreases s,
{
    if s.len() == 0 {
        seq![]
    } else {
        models(s.drop_last()).push(model(s.last()))
    }
}

impl View for HoconValue {
    type V = Value;

    open spec fn view(&self) -> Value {
        model(*self)
    }
}


pub proof fn lemma_models_len(s: Seq<HoconValue>)
    ensures
        models(s).len() == s.len(),
    decreases s.len(),
{
    if s.len() > 0 {
        lemma_models_len(s.drop_last());
    }
}

pub proof fn lemma_models_index(s: Seq<HoconValue>, i: int)
    requires
        0 <= i < s.len(),
    ensures
        models(s)[i] == model(s[i]),
    decreases s.len(),
{
    lemma_models_len(s.drop_last());
    if i < s.len() - 1 {
        lemma_models_index(s.drop_last(), i);
    }
}

/// The model of a sequence is taken element by element.
pub proof fn lemma_models(s: Seq<HoconValue>)
    ensures
        models(s).len() == s.len(),
        forall|i: int| 0 <= i < s.len() ==> #[trigger] models(s)[i] == model(s[i]),
{
    lemma_models_len(s);
    assert forall|i: int| 0 <= i < s.len() implies #[trigger] models(s)[i] == model(s[i]) by {
        lemma_models_index(s, i);
    }
}

pub proof fn lemma_models_add(a: Seq<HoconValue>, b: Seq<HoconValue>)
    ensures
        models(a + b) == models(a) + models(b),
{
    lemma_models(a);
    lemma_models(b);
    lemma_models(a + b);
    assert(models(a + b) =~= models(a) + models(b));
}

pub proof fn lemma_models_push(a: Seq<HoconValue>, x: HoconValue)
    ensures
        models(a.push(x)) == models(a).push(model(x)),
{
    assert(a.push(x).drop_last() =~= a);
}

// ---------------------------------------------------------------------------
// Whitespace and trimming
// ---------------------------------------------------------------------------

/// `char::is_whitespace`: the characters with the Unicode `White_Space` property.
pub open spec fn is_whitespace_char(c: char) -> bool {
    ('\t' <= c && c <= '\r') || c == ' ' || c == '\u{85}' || c == '\u{a0}' || c == '\u{1680}' || (
    '\u{2000}' <= c && c <= '\u{200a}') || c == '\u{2028}' || c == '\u{2029}' || c == '\u{202f}'
        || c == '\u{205f}' || c == '\u{3000}'
}

pub fn is_whitespace(c: char) -> (b: bool)
    ensures
        b == is_whitespace_char(c),
{
    ('\t' <= c && c <= '\r') || c == ' ' || c == '\u{85}' || c == '\u{a0}' || c == '\u{1680}' || (
    '\u{2000}' <= c && c <= '\u{200a}') || c == '\u{2028}' || c == '\u{2029}' || c == '\u{202f}'
        || c == '\u{205f}' || c == '\u{3000}'
}

/// Index of the first character of `t` that is no whitespace (or its length).
pub open spec fn trim_start_index(t: Seq<char>) -> int {
    crate::lexer::run_end(t, 0, |c: char| is_whitespace_char(c))
}

/// One past the last character of `t[..e]` that is no whitespace (or 0).
pub open spec fn trim_end_index(t: Seq<char>, e: int) -> int
    decreases e,
{
    if 0 < e <= t.len() && is_whitespace_char(t[e - 1]) {
        trim_end_index(t, e - 1)
    } else {
        e
    }
}

pub open spec fn trim_start(t: Seq<char>) -> Seq<char> {
    t.subrange(trim_start_index(t), t.len() as int)
}

pub open spec fn trim_end(t: Seq<char>) -> Seq<char> {
    t.subrange(0, trim_end_index(t, t.len() as int))
}

/// `str::trim`: `t` without leading and trailing whitespace.
pub open spec fn trim(t: Seq<char>) -> Seq<char> {
    trim_end(trim_start(t))
}

/// A text that is empty once trimmed.
pub open spec fn is_blank(t: Seq<char>) -> bool {
    forall|k: int| 0 <= k < t.len() ==> is_whitespace_char(#[trigger] t[k])
}

pub proof fn lemma_trim_end_index(t: Seq<char>, e: int)
    requires
        0 <= e <= t.len(),
    ensures
        0 <= trim_end_index(t, e) <= e,
        forall|k: int| trim_end_index(t, e) <= k < e ==> is_whitespace_char(#[trigger] t[k]),
        trim_end_index(t, e) > 0 ==> !is_whitespace_char(t[trim_end_index(t, e) - 1]),
    decreases e,
{
    if 0 < e && is_whitespace_char(t[e - 1]) {
        lemma_trim_end_index(t, e - 1);
    }
}

/// The characters of a string.
pub fn chars_of(s: &str) -> (v: Vec<char>)
    ensures
        v@ == s@,
{
    let mut v: Vec<char> = Vec::new();
    for c in it: s.chars()
        invariant
            v@ == it.seq().take(it.index() as int),
    {
        v.push(c);
        assert(v@ =~= it.seq().take(it.index() as int + 1));
    }
    assert(v@ =~= s@);
    v
}


/// The characters of `t` outside its leading and trailing whitespace.
pub fn trim_chars(t: &[char]) -> (r: Vec<char>)
    ensures
        r@ == trim(t@),
{
    let mut a: usize = 0;
    while a < t.len() && is_whitespace(t[a])
        invariant
            0 <= a <= t@.len(),
            trim_start_index(t@) == crate::lexer::run_end(
                t@,
                a as int,
                |c: char| is_whitespace_char(c),
            ),
        decreases t@.len() - a,
    {
        a = a + 1;
    }
    let ghost u = t@.subrange(a as int, t@.len() as int);
    let mut b: usize = t.len();
    while b > a && is_whitespace(t[b - 1])
        invariant
            a <= b <= t@.len(),
            u == t@.subrange(a as int, t@.len() as int),
            trim_end_index(u, u.len() as int) == trim_end_index(u, b - a),
        decreases b,
    {
        b = b - 1;
    }
    let r = crate::lexer::slice_to_vec(t, a, b);
    assert(r@ =~= trim(t@));
    r
}

/// Whether a text is all whitespace.
pub fn blank(t: &str) -> (b: bool)
    ensures
        b == is_blank(t@),
{
    let v = chars_of(t);
    let mut k: usize = 0;
    while k < v.len()
        invariant
            0 <= k <= v@.len(),
            v@ == t@,
            forall|m: int| 0 <= m < k ==> is_whitespace_char(#[trigger] v@[m]),
        decreases v@.len() - k,
    {
        if !is_whitespace(v[k]) {
            return false;
        }
        k = k + 1;
    }
    true
}

// ---------------------------------------------------------------------------
// Concatenation of adjacent values
// ---------------------------------------------------------------------------

/// An unquoted string that is empty once trimmed.
pub open spec fn is_blank_unquoted(v: Value) -> bool {
    v matches Value::UnquotedString(t) && is_blank(t)
}

/// What a run of adjacent values becomes: a blank unquoted string at either
/// end is dropped; one value that is left stands for itself, else the values
/// form a concatenation.
pub open spec fn maybe_concat_spec(vs: Seq<Value>) -> Value {
    let n = vs.len() as int;
    let a = if n > 0 && is_blank_unquoted(vs[0]) { 1int } else { 0 };
    let b = if n > 1 && is_blank_unquoted(vs[n - 1]) { n - 1 } else { n };
    let kept = vs.subrange(a, b);
    if kept.len() == 1 {
        kept[0]
    } else {
        Value::Concat(kept)
    }
}

fn is_blank_unquoted_value(v: &HoconValue) -> (b: bool)
    ensures
        b == is_blank_unquoted(v@),
{
    match v {
        HoconValue::UnquotedString(t) => blank(t.as_str()),
        _ => false,
    }
}

impl HoconValue {
    /// Joins adjacent values as `maybe_concat_spec` says.
    pub fn maybe_concat(values: Vec<HoconValue>) -> (r: HoconValue)
        ensures
            r@ == maybe_concat_spec(models(values@)),
            (forall|k: int| 0 <= k < values@.len() ==> !(#[trigger] values@[k] is ToConcatToArray))
                ==> !(r is ToConcatToArray),
    {
        let mut v = values;
        let ghost vs = v@;
        proof { lemma_models(vs); }
        let n = v.len();
        let drop_first = n > 0 && is_blank_unquoted_value(&v[0]);
        let drop_last = n > 1 && is_blank_unquoted_value(&v[n - 1]);
        if drop_last {
            v.pop();
        }
        if drop_first {
            v.remove(0);
        }
        let ghost a: int = if drop_first { 1 } else { 0 };
        let ghost b: int = if drop_last { n - 1 } else { n as int };
        assert(v@ =~= vs.subrange(a, b));
        proof {
            lemma_models(v@);
            assert(models(v@) =~= models(vs).subrange(a, b));
        }
        if v.len() == 1 {
            assert(v@[0] == vs[a]);
            match v.pop() {
                Some(x) => x,
                None => HoconValue::Temp,
            }
        } else {
            HoconValue::Concat(v)
        }
    }
}


// ---------------------------------------------------------------------------
// Copies
// ---------------------------------------------------------------------------

/// A copy of a string with the same characters.
pub fn copy_string(s: &String) -> (r: String)
    ensures
        r@ == s@,
{
    s.clone()
}

/// The identifier of a `+=` entry's value (which the model leaves out).
pub open spec fn value_item_id(v: HoconValue) -> Option<Seq<char>> {
    match v {
        HoconValue::ToConcatToArray { item_id, .. } => Some(item_id@),
        _ => None,
    }
}

impl HoconValue {
    /// A deep copy with the same model.
    pub fn duplicate(&self) -> (r: HoconValue)
        ensures
            r@ == self@,
            value_item_id(r) == value_item_id(*self),
        decreases self,
    {
        match self {
            HoconValue::Real(t) => HoconValue::Real(copy_string(t)),
            HoconValue::Integer(i) => HoconValue::Integer(*i),
            HoconValue::String(t) => HoconValue::String(copy_string(t)),
            HoconValue::UnquotedString(t) => HoconValue::UnquotedString(copy_string(t)),
            HoconValue::Boolean(b) => HoconValue::Boolean(*b),
            HoconValue::Concat(vs) => HoconValue::Concat(duplicate_all(vs)),
            HoconValue::PathSubstitution { target, optional, original } => {
                let t = target.duplicate();
                let o = match original {
                    Some(o) => Some(Box::new(o.duplicate())),
                    None => None,
                };
                HoconValue::PathSubstitution { target: Box::new(t), optional: *optional, original: o }
            },
            HoconValue::PathSubstitutionInParent(t) => HoconValue::PathSubstitutionInParent(
                Box::new(t.duplicate()),
            ),
            HoconValue::ToConcatToArray { value, original_path, item_id } => {
                HoconValue::ToConcatToArray {
                    value: Box::new(value.duplicate()),
                    original_path: duplicate_all(original_path),
                    item_id: copy_string(item_id),
                }
            },
            HoconValue::Null(t) => HoconValue::Null(copy_string(t)),
            HoconValue::Temp => HoconValue::Temp,
            HoconValue::BadValue(e) => HoconValue::BadValue(*e),
            HoconValue::EmptyObject => HoconValue::EmptyObject,
            HoconValue::EmptyArray => HoconValue::EmptyArray,
            HoconValue::Included { value, include_root, original_path } => {
                let r = match include_root {
                    Some(r) => Some(duplicate_all(r)),
                    None => None,
                };
                HoconValue::Included {
                    value: Box::new(value.duplicate()),
                    include_root: r,
                    original_path: duplicate_all(original_path),
                }
            },
        }
    }
}

/// Deep copies of the values of a vector.
pub fn duplicate_all(vs: &Vec<HoconValue>) -> (r: Vec<HoconValue>)
    ensures
        models(r@) == models(vs@),
    decreases vs,
{
    let mut out: Vec<HoconValue> = Vec::new();
    let mut k: usize = 0;
    while k < vs.len()
        invariant
            0 <= k <= vs@.len(),
            models(out@) == models(vs@.take(k as int)),
        decreases vs@.len() - k,
    {
        let x = vs[k].duplicate();
        proof {
            lemma_models_push(out@, x);
            lemma_models_push(vs@.take(k as int), vs@[k as int]);
            assert(vs@.take(k as int).push(vs@[k as int]) =~= vs@.take(k + 1));
        }
        out.push(x);
        k = k + 1;
    }
    assert(vs@.take(k as int) =~= vs@);
    out
}

impl Clone for HoconValue {
    fn clone(&self) -> (r: Self)
        ensures
            r@ == self@,
    {
        self.duplicate()
    }
}


// ---------------------------------------------------------------------------
// Paths
// ---------------------------------------------------------------------------

/// The pieces of `t[start..]` between dots, as quoted-string path elements,
/// where `t[start..k]` holds no dot.
pub open spec fn split_path(t: Seq<char>, start: int, k: int) -> Seq<Value>
    decreases t.len() - k,
{
    if k >= t.len() {
        seq![Value::String(t.subrange(start, t.len() as int))]
    } else if t[k] == '.' {
        seq![Value::String(t.subrange(start, k))] + split_path(t, k + 1, k + 1)
    } else {
        split_path(t, start, k + 1)
    }
}

/// The path that a key stands for: an unquoted key is trimmed and split at
/// its dots (a lone `.` is the empty path), a quoted key is one element, a
/// concatenation is the paths of its parts one after the other, and any
/// other value is a path of itself.
pub open spec fn path_of(v: Value) -> Seq<Value>
    decreases v,
{
    match v {
        Value::UnquotedString(t) => if t == seq!['.'] {
            seq![]
        } else {
            split_path(trim(t), 0, 0)
        },
        Value::String(t) => seq![Value::String(t)],
        Value::Concat(vs) => paths_of(vs),
        _ => seq![v],
    }
}

pub open spec fn paths_of(vs: Seq<Value>) -> Seq<Value>
    decreases vs,
{
    if vs.len() == 0 {
        seq![]
    } else {
        paths_of(vs.drop_last()) + path_of(vs.last())
    }
}

/// The path of several keys one after the other is their paths one after
/// the other.
pub proof fn lemma_paths_of_add(a: Seq<Value>, b: Seq<Value>)
    ensures
        paths_of(a + b) == paths_of(a) + paths_of(b),
    decreases b.len(),
{
    if b.len() == 0 {
        assert(a + b =~= a);
        assert(paths_of(a) + paths_of(b) =~= paths_of(a));
    } else {
        lemma_paths_of_add(a, b.drop_last());
        assert((a + b).drop_last() =~= a + b.drop_last());
        assert((a + b).last() == b.last());
        assert(paths_of(a) + paths_of(b) =~= paths_of(a) + paths_of(b.drop_last()) + path_of(b.last()));
    }
}

/// The pieces of a text between its dots.
fn split_dots(t: &Vec<char>) -> (r: Vec<HoconValue>)
    ensures
        models(r@) == split_path(t@, 0, 0),
{
    let mut out: Vec<HoconValue> = Vec::new();
    let mut start: usize = 0;
    let mut k: usize = 0;
    while k < t.len()
        invariant
            0 <= start <= k <= t@.len(),
            models(out@) + split_path(t@, start as int, k as int) == split_path(t@, 0, 0),
        decreases t@.len() - k,
    {
        if t[k] == '.' {
            let piece = crate::primitives::string_from_chars(
                crate::lexer::slice_to_vec(t.as_slice(), start, k).as_slice(),
            );
            let x = HoconValue::String(piece);
            proof {
                lemma_models_push(out@, x);
                assert(models(out@.push(x)) + split_path(t@, k + 1, k + 1) =~= models(out@)
                    + split_path(t@, start as int, k as int));
            }
            out.push(x);
            start = k + 1;
        }
        k = k + 1;
    }
    let piece = crate::primitives::string_from_chars(
        crate::lexer::slice_to_vec(t.as_slice(), start, t.len()).as_slice(),
    );
    let x = HoconValue::String(piece);
    proof {
        lemma_models_push(out@, x);
        assert(models(out@.push(x)) =~= models(out@) + split_path(t@, start as int, k as int));
    }
    out.push(x);
    out
}

impl HoconValue {
    /// The path that this value stands for as a key, as `path_of` says.
    pub fn to_path(&self) -> (r: Vec<HoconValue>)
        ensures
            models(r@) == path_of(self@),
        decreases self,
    {
        match self {
            HoconValue::UnquotedString(s) => {
                let cs = chars_of(s.as_str());
                if cs.len() == 1 && cs[0] == '.' {
                    assert(s@ =~= seq!['.']);
                    return Vec::new();
                }
                assert(s@ != seq!['.']) by {
                    if s@ == seq!['.'] {
                        assert(cs@[0] == '.');
                    }
                }
                let trimmed = trim_chars(cs.as_slice());
                split_dots(&trimmed)
            },
            HoconValue::String(s) => {
                let mut v: Vec<HoconValue> = Vec::new();
                v.push(HoconValue::String(copy_string(s)));
                proof { lemma_models_push(Seq::empty(), v@[0]); assert(v@ =~= seq![v@[0]]); }
                v
            },
            HoconValue::Concat(values) => paths_of_values(values),
            _ => {
                let mut v: Vec<HoconValue> = Vec::new();
                let x = self.duplicate();
                v.push(x);
                proof { lemma_models_push(Seq::empty(), x); assert(v@ =~= seq![x]); }
                v
            },
        }
    }
}

/// The paths of several values, one after the other.
pub fn paths_of_values(values: &Vec<HoconValue>) -> (r: Vec<HoconValue>)
    ensures
        models(r@) == paths_of(models(values@)),
    decreases values,
{
    let mut out: Vec<HoconValue> = Vec::new();
    let mut k: usize = 0;
    proof { lemma_models(values@); }
    while k < values.len()
        invariant
            0 <= k <= values@.len(),
            models(out@) == paths_of(models(values@.take(k as int))),
        decreases values@.len() - k,
    {
        let mut p = values[k].to_path();
        proof {
            lemma_models_add(out@, p@);
            lemma_models_push(values@.take(k as int), values@[k as int]);
            assert(values@.take(k as int).push(values@[k as int]) =~= values@.take(k + 1));
            assert(models(values@.take(k + 1)).drop_last() =~= models(values@.take(k as int)));
        }
        out.append(&mut p);
        k = k + 1;
    }
    assert(values@.take(k as int) =~= values@);
    out
}


// ---------------------------------------------------------------------------
// Rendering keys as text
// ---------------------------------------------------------------------------

pub open spec fn digit_char(d: int) -> char {
    ((d + ('0' as int)) as u8) as char
}

/// The decimal digits of `n`.
pub open spec fn nat_digits(n: nat) -> Seq<char>
    decreases n,
{
    if n < 10 {
        seq![digit_char(n as int)]
    } else {
        nat_digits(n / 10).push(digit_char((n % 10) as int))
    }
}

/// The decimal text of `i`, with a `-` when it is negative.
pub open spec fn decimal(i: int) -> Seq<char> {
    if i < 0 {
        seq!['-'] + nat_digits((-i) as nat)
    } else {
        nat_digits(i as nat)
    }
}

fn push_digits(n: u64, out: &mut Vec<char>)
    ensures
        final(out)@ == old(out)@ + nat_digits(n as nat),
    decreases n,
{
    if n >= 10 {
        push_digits(n / 10, out);
    }
    let d: u8 = (n % 10) as u8;
    out.push((d + 48) as char);
    assert(final(out)@ =~= old(out)@ + nat_digits(n as nat));
}

/// The decimal text of an integer, as `i64::to_string` writes it.
pub fn decimal_chars(i: i64) -> (r: Vec<char>)
    ensures
        r@ == decimal(i as int),
{
    let mut out: Vec<char> = Vec::new();
    if i < 0 {
        out.push('-');
        let m: u64 = if i == i64::MIN {
            9223372036854775808
        } else {
            (-i) as u64
        };
        push_digits(m, &mut out);
    } else {
        push_digits(i as u64, &mut out);
    }
    assert(out@ =~= decimal(i as int));
    out
}

/// A value that can be rendered as a key.
pub open spec fn has_string_value(v: Value) -> bool {
    v is String || v is UnquotedString || v is Null || v is Integer
}

/// The text of a key: a string's text, `null`, or an integer's decimal text.
pub open spec fn string_value_spec(v: Value) -> Seq<char> {
    match v {
        Value::String(t) => t,
        Value::UnquotedString(t) => t,
        Value::Null(_) => seq!['n', 'u', 'l', 'l'],
        Value::Integer(i) => decimal(i as int),
        _ => seq![],
    }
}

impl HoconValue {
    /// The text of a key.
    pub fn string_value(self) -> (r: String)
        requires
            has_string_value(self@),
        ensures
            r@ == string_value_spec(self@),
    {
        match self {
            HoconValue::String(s) => s,
            HoconValue::UnquotedString(s) => s,
            HoconValue::Null(_) => {
                let n: &[char] = &['n', 'u', 'l', 'l'];
                assert(n@ =~= seq!['n', 'u', 'l', 'l']);
                crate::primitives::string_from_chars(n)
            },
            HoconValue::Integer(i) => crate::primitives::string_from_chars(
                decimal_chars(i).as_slice(),
            ),
            _ => String::new(),
        }
    }
}

// ---------------------------------------------------------------------------
// Equality of keys
// ---------------------------------------------------------------------------

/// Two values are equal as keys when both are integers, quoted strings,
/// errors or nulls with the same content; no other values are ever equal.
pub open spec fn key_eq(a: Value, b: Value) -> bool {
    match (a, b) {
        (Value::Integer(x), Value::Integer(y)) => x == y,
        (Value::String(x), Value::String(y)) => x == y,
        (Value::BadValue(x), Value::BadValue(y)) => x == y,
        (Value::Null(x), Value::Null(y)) => x == y,
        _ => false,
    }
}

/// Equality of keys is symmetric and transitive, and a value equals itself
/// as a key exactly when it is an integer, a quoted string, an error or a
/// null.
pub proof fn lemma_key_eq_laws(a: Value, b: Value, c: Value)
    ensures
        key_eq(a, b) == key_eq(b, a),
        key_eq(a, b) && key_eq(b, c) ==> key_eq(a, c),
        key_eq(a, a) <==> (a is Integer || a is String || a is BadValue || a is Null),
{
}

impl PartialEq for HoconValue {
    fn eq(&self, rhs: &Self) -> (r: bool) {
        match (self, rhs) {
            (HoconValue::Integer(left), HoconValue::Integer(right)) => *left == *right,
            (HoconValue::String(left), HoconValue::String(right)) => *left == *right,
            (HoconValue::BadValue(left), HoconValue::BadValue(right)) => *left == *right,
            (HoconValue::Null(left), HoconValue::Null(right)) => *left == *right,
            _ => false,
        }
    }
}

impl Eq for HoconValue {

}

impl vstd::std_specs::cmp::PartialEqSpecImpl for HoconValue {
    open spec fn obeys_eq_spec() -> bool {
        true
    }

    open spec fn eq_spec(&self, rhs: &Self) -> bool {
        key_eq(self@, rhs@)
    }
}


/// The characters of `t` without leading whitespace.
pub fn trim_start_chars(t: &[char]) -> (r: Vec<char>)
    ensures
        r@ == trim_start(t@),
{
    let mut a: usize = 0;
    while a < t.len() && is_whitespace(t[a])
        invariant
            0 <= a <= t@.len(),
            trim_start_index(t@) == crate::lexer::run_end(
                t@,
                a as int,
                |c: char| is_whitespace_char(c),
            ),
        decreases t@.len() - a,
    {
        a = a + 1;
    }
    crate::lexer::slice_to_vec(t, a, t.len())
}

/// The characters of `t` without trailing whitespace.
pub fn trim_end_chars(t: &[char]) -> (r: Vec<char>)
    ensures
        r@ == trim_end(t@),
{
    let mut b: usize = t.len();
    while b > 0 && is_whitespace(t[b - 1])
        invariant
            0 <= b <= t@.len(),
            trim_end_index(t@, t@.len() as int) == trim_end_index(t@, b as int),
        decreases b,
    {
        b = b - 1;
    }
    crate::lexer::slice_to_vec(t, 0, b)
}

} // verus!
