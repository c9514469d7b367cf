//! Reading a finished document.
use vstd::prelude::*;
use crate::tree::{fields_model, lemma_hocons_model, Hocon, HoconModel};
use crate::value::decimal;

verus! {

/// The value of the last field named `k`.
pub open spec fn field_of(fs: Seq<(Seq<char>, HoconModel)>, k: Seq<char>) -> Option<HoconModel>
    decreases fs.len(),
{
    if fs.len() == 0 {
        None
    } else if fs.last().0 == k {
        Some(fs.last().1)
    } else {
        field_of(fs.drop_last(), k)
    }
}

/// The text that a value reads as: a string's text, an integer's decimal
/// text, `true` or `false`, or a real number's text.
pub open spec fn text_of(h: HoconModel) -> Option<Seq<char>> {
    match h {
        HoconModel::String(t) => Some(t),
        HoconModel::Integer(i) => Some(decimal(i as int)),
        HoconModel::Boolean(b) => Some(
            if b {
                seq!['t', 'r', 'u', 'e']
            } else {
                seq!['f', 'a', 'l', 's', 'e']
            },
        ),
        HoconModel::Real(t) => Some(t),
        _ => None,
    }
}

proof fn lemma_fields_model(s: Seq<(String, Hocon)>)
    ensures
        fields_model(s).len() == s.len(),
        forall|i: int|
            0 <= i < s.len() ==> #[trigger] fields_model(s)[i] == (s[i].0@, s[i].1@),
    decreases s.len(),
{
    if s.len() > 0 {
        lemma_fields_model(s.drop_last());
    }
}

impl Hocon {
    /// The value of the field `key`, when this is an object that has one
    /// (the last one, should the key occur more than once).
    pub fn get(&self, key: &str) -> (r: Option<&Hocon>)
        ensures
            match self@ {
                HoconModel::Hash(fs) => match field_of(fs, key@) {
                    Some(h) => r matches Some(x) && x@ == h,
                    None => r is None,
                },
                _ => r is None,
            },
    {
        match self {
            Hocon::Hash(fields) => {
                let k = crate::primitives::string_from_chars(crate::value::chars_of(key).as_slice());
                let ghost fm = fields_model(fields@);
                proof { lemma_fields_model(fields@); }
                let mut j: usize = fields.len();
                assert(fm.take(j as int) =~= fm);
                assert(self@ == HoconModel::Hash(fm));
                while j > 0
                    invariant
                        0 <= j <= fields@.len(),
                        fm == fields_model(fields@),
                        fm.len() == fields@.len(),
                        forall|i: int|
                            0 <= i < fields@.len() ==> #[trigger] fm[i] == (
                                fields@[i].0@,
                                fields@[i].1@,
                            ),
                        k@ == key@,
                        self@ == HoconModel::Hash(fm),
                        field_of(fm, key@) == field_of(fm.take(j as int), key@),
                    decreases j,
                {
                    assert(fm.take(j as int).drop_last() =~= fm.take(j - 1));
                    assert(fm.take(j as int).last() == fm[j - 1]);
                    if fields[j - 1].0 == k {
                        assert(field_of(fm.take(j as int), key@) == Some(fields@[j - 1].1@));
                        return Some(&fields[j - 1].1);
                    }
                    j = j - 1;
                }
                assert(fm.take(0) =~= Seq::<(Seq<char>, HoconModel)>::empty());
                None
            },
            _ => None,
        }
    }

    /// The element at `i`, when this is an array that long.
    pub fn at(&self, i: usize) -> (r: Option<&Hocon>)
        ensures
            match self@ {
                HoconModel::Array(vs) => if i < vs.len() {
                    r matches Some(x) && x@ == vs[i as int]
                } else {
                    r is None
                },
                _ => r is None,
            },
    {
        match self {
            Hocon::Array(vs) => {
                proof { lemma_hocons_model(vs@); }
                if i < vs.len() {
                    Some(&vs[i])
                } else {
                    None
                }
            },
            _ => None,
        }
    }

    /// The value of an integer.
    pub fn as_i64(&self) -> (r: Option<i64>)
        ensures
            r == match self@ {
                HoconModel::Integer(i) => Some(i),
                _ => None::<i64>,
            },
    {
        match self {
            Hocon::Integer(i) => Some(*i),
            _ => None,
        }
    }

    /// The text that this value reads as, as `text_of` says.
    pub fn as_string(&self) -> (r: Option<String>)
        ensures
            match r {
                Some(t) => text_of(self@) == Some(t@),
                None => text_of(self@) is None,
            },
    {
        match self {
            Hocon::String(t) => Some(crate::value::copy_string(t)),
            Hocon::Integer(i) => Some(
                crate::primitives::string_from_chars(crate::value::decimal_chars(*i).as_slice()),
            ),
            Hocon::Boolean(b) => {
                if *b {
                    let t: &[char] = &['t', 'r', 'u', 'e'];
                    assert(t@ =~= seq!['t', 'r', 'u', 'e']);
                    Some(crate::primitives::string_from_chars(t))
                } else {
                    let t: &[char] = &['f', 'a', 'l', 's', 'e'];
                    assert(t@ =~= seq!['f', 'a', 'l', 's', 'e']);
                    Some(crate::primitives::string_from_chars(t))
                }
            },
            Hocon::Real(t) => Some(crate::value::copy_string(t)),
            _ => None,
        }
    }
}

} // verus!
