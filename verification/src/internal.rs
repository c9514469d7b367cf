//! The flat form of a parsed document: a list of entries, each a path and
//! the value found there, and of includes still to be loaded.
use vstd::prelude::*;
use crate::primitives::is_hyphenated_v4_uuid;
use crate::value::{
    copy_string, duplicate_all, lemma_models_add, lemma_models_push, models, HoconValue, Value,
};

verus! {

/// Where an included document comes from.
#[derive(Clone, Copy, Debug, PartialEq, Eq, Structural)]
pub enum IncludeKind {
    File,
    Url,
}

/// An `include` directive: where the document comes from, and whether a
/// failure to load it is an error.
#[derive(Debug)]
pub struct Include {
    pub kind: IncludeKind,
    pub target: String,
    pub required: bool,
}

pub struct IncludeModel {
    pub kind: IncludeKind,
    pub target: Seq<char>,
    pub required: bool,
}

impl View for Include {
    type V = IncludeModel;

    open spec fn view(&self) -> IncludeModel {
        IncludeModel { kind: self.kind, target: self.target@, required: self.required }
    }
}

/// One element of the flat form.
#[derive(Debug)]
pub enum Item {
    /// The value at a path.
    Entry(Vec<HoconValue>, HoconValue),
    /// A document to include at a path.
    Include(Vec<HoconValue>, Include),
}

pub enum ItemModel {
    Entry(Seq<Value>, Value),
    Include(Seq<Value>, IncludeModel),
}

pub open spec fn item_model(it: Item) -> ItemModel {
    match it {
        Item::Entry(p, v) => ItemModel::Entry(models(p@), v@),
        Item::Include(p, i) => ItemModel::Include(models(p@), i@),
    }
}

impl View for Item {
    type V = ItemModel;

    open spec fn view(&self) -> ItemModel {
        item_model(*self)
    }
}

pub open spec fn item_models(s: Seq<Item>) -> Seq<ItemModel> {
    s.map_values(|it: Item| item_model(it))
}

/// The identifier that ties together the items of one `+=`: that of an
/// entry to append to an array, empty for any other item.
pub open spec fn item_id_of(it: Item) -> Seq<char> {
    match it {
        Item::Entry(_, HoconValue::ToConcatToArray { item_id, .. }) => item_id@,
        _ => seq![],
    }
}

pub open spec fn item_ids(s: Seq<Item>) -> Seq<Seq<char>> {
    s.map_values(|it: Item| item_id_of(it))
}

/// The flat form of a document.
#[derive(Debug)]
pub struct HoconInternal {
    pub internal: Vec<Item>,
}

impl View for HoconInternal {
    type V = Seq<ItemModel>;

    open spec fn view(&self) -> Seq<ItemModel> {
        item_models(self.internal@)
    }
}

// ---------------------------------------------------------------------------
// Specifications of the operations on the flat form
// ---------------------------------------------------------------------------

/// An item whose path starts with `p`.
pub open spec fn prefix_item(it: ItemModel, p: Seq<Value>) -> ItemModel {
    match it {
        ItemModel::Entry(k, v) => ItemModel::Entry(p + k, v),
        ItemModel::Include(k, i) => ItemModel::Include(p + k, i),
    }
}

/// Every path prefixed with `p`.
pub open spec fn prefix_items(items: Seq<ItemModel>, p: Seq<Value>) -> Seq<ItemModel> {
    items.map_values(|it: ItemModel| prefix_item(it, p))
}

/// A single value at the empty path.
pub open spec fn value_items(v: Value) -> Seq<ItemModel> {
    seq![ItemModel::Entry(seq![], v)]
}

/// An object: its items, or an empty-object marker when it has none.
pub open spec fn object_items(items: Seq<ItemModel>) -> Seq<ItemModel> {
    if items.len() == 0 {
        value_items(Value::EmptyObject)
    } else {
        items
    }
}

/// The elements of an array, each under its index, one after the other.
pub open spec fn indexed_items(elems: Seq<Seq<ItemModel>>) -> Seq<ItemModel>
    decreases elems.len(),
{
    if elems.len() == 0 {
        seq![]
    } else {
        indexed_items(elems.drop_last()) + prefix_items(
            elems.last(),
            seq![Value::Integer((elems.len() - 1) as i64)],
        )
    }
}

/// An array: its indexed elements, or an empty-array marker when it has none.
pub open spec fn array_items(elems: Seq<Seq<ItemModel>>) -> Seq<ItemModel> {
    if elems.len() == 0 {
        value_items(Value::EmptyArray)
    } else {
        indexed_items(elems)
    }
}

/// The items of a `+=`: every value becomes an item to append to the array
/// at its path.
pub open spec fn concat_to_array_item(it: ItemModel) -> ItemModel {
    match it {
        ItemModel::Entry(k, v) => ItemModel::Entry(
            k,
            Value::ToConcatToArray { value: Box::new(v), original_path: k },
        ),
        ItemModel::Include(k, i) => ItemModel::Include(k, i),
    }
}

pub open spec fn concat_to_array_items(items: Seq<ItemModel>) -> Seq<ItemModel> {
    items.map_values(|it: ItemModel| concat_to_array_item(it))
}

pub proof fn lemma_item_models_push(s: Seq<Item>, x: Item)
    ensures
        item_models(s.push(x)) == item_models(s).push(item_model(x)),
{
    assert(item_models(s.push(x)) =~= item_models(s).push(item_model(x)));
}

pub proof fn lemma_item_models_add(a: Seq<Item>, b: Seq<Item>)
    ensures
        item_models(a + b) == item_models(a) + item_models(b),
{
    assert(item_models(a + b) =~= item_models(a) + item_models(b));
}

pub proof fn lemma_map_push<A, B>(s: Seq<A>, x: A, f: spec_fn(A) -> B)
    ensures
        (s.push(x)).map_values(f) == s.map_values(f).push(f(x)),
{
    assert((s.push(x)).map_values(f) =~= s.map_values(f).push(f(x)));
}

/// Every `+=` entry among the items carries a hyphenated version-4 UUID as
/// its identifier.
pub open spec fn ids_are_uuids(items: Seq<Item>) -> bool {
    forall|k: int|
        0 <= k < items.len() ==> (#[trigger] items[k] matches Item::Entry(
            _,
            HoconValue::ToConcatToArray { item_id: id, .. },
        ) ==> is_hyphenated_v4_uuid(id@))
}

/// Every `+=` entry among the items carries the identifier `u`.
pub open spec fn ids_all(items: Seq<Item>, u: Seq<char>) -> bool {
    forall|k: int|
        0 <= k < items.len() ==> (#[trigger] items[k] matches Item::Entry(
            _,
            HoconValue::ToConcatToArray { item_id: id, .. },
        ) ==> id@ == u)
}

/// The value of an entry (none for an include).
pub open spec fn item_value(it: Item) -> Option<HoconValue> {
    match it {
        Item::Entry(_, v) => Some(v),
        Item::Include(_, _) => None,
    }
}

/// Two lists of items with the same values, one by one.
pub open spec fn same_values(a: Seq<Item>, b: Seq<Item>) -> bool {
    a.len() == b.len() && forall|k: int| 0 <= k < a.len() ==> item_value(#[trigger] a[k]) == item_value(b[k])
}

pub proof fn lemma_same_values_ids(a: Seq<Item>, b: Seq<Item>)
    requires
        same_values(a, b),
    ensures
        ids_are_uuids(a) ==> ids_are_uuids(b),
        forall|u: Seq<char>| ids_all(a, u) ==> #[trigger] ids_all(b, u),
{
    assert forall|k: int| 0 <= k < b.len() implies item_value(#[trigger] b[k]) == item_value(a[k]) by {}
    if ids_are_uuids(a) {
        assert forall|k: int| 0 <= k < b.len() implies (#[trigger] b[k] matches Item::Entry(
            _,
            HoconValue::ToConcatToArray { item_id: id, .. },
        ) ==> is_hyphenated_v4_uuid(id@)) by {
            assert(item_value(b[k]) == item_value(a[k]));
            assert(a[k] matches Item::Entry(_, HoconValue::ToConcatToArray { item_id: id, .. }) ==> is_hyphenated_v4_uuid(id@));
        }
    }
    assert forall|u: Seq<char>| ids_all(a, u) implies #[trigger] ids_all(b, u) by {
        assert forall|k: int| 0 <= k < b.len() implies (#[trigger] b[k] matches Item::Entry(
            _,
            HoconValue::ToConcatToArray { item_id: id, .. },
        ) ==> id@ == u) by {
            assert(item_value(b[k]) == item_value(a[k]));
            assert(a[k] matches Item::Entry(_, HoconValue::ToConcatToArray { item_id: id, .. }) ==> id@ == u);
        }
    }
}

pub proof fn lemma_ids_add(a: Seq<Item>, b: Seq<Item>)
    ensures
        ids_are_uuids(a) && ids_are_uuids(b) ==> ids_are_uuids(a + b),
{
    if ids_are_uuids(a) && ids_are_uuids(b) {
        assert forall|k: int| 0 <= k < (a + b).len() implies (#[trigger] (a + b)[k] matches Item::Entry(
            _,
            HoconValue::ToConcatToArray { item_id: id, .. },
        ) ==> is_hyphenated_v4_uuid(id@)) by {
            if k < a.len() {
                assert((a + b)[k] == a[k]);
            } else {
                assert((a + b)[k] == b[k - a.len()]);
            }
        }
    }
}

pub proof fn lemma_ids_all_uuid(items: Seq<Item>, u: Seq<char>)
    requires
        ids_all(items, u),
        is_hyphenated_v4_uuid(u),
    ensures
        ids_are_uuids(items),
{
    assert forall|k: int| 0 <= k < items.len() implies (#[trigger] items[k] matches Item::Entry(
        _,
        HoconValue::ToConcatToArray { item_id: id, .. },
    ) ==> is_hyphenated_v4_uuid(id@)) by {
        assert(items[k] matches Item::Entry(_, HoconValue::ToConcatToArray { item_id: id, .. }) ==> id@ == u);
    }
}

pub proof fn lemma_ids_single(it: Item)
    requires
        !(it matches Item::Entry(_, HoconValue::ToConcatToArray { .. })),
    ensures
        ids_are_uuids(seq![it]),
{
}

// ---------------------------------------------------------------------------
// The operations
// ---------------------------------------------------------------------------

impl HoconInternal {
    /// A single value at the empty path.
    pub fn from_value(v: HoconValue) -> (r: HoconInternal)
        ensures
            r@ == value_items(v@),
            !(v is ToConcatToArray) ==> ids_are_uuids(r.internal@),
    {
        let mut items: Vec<Item> = Vec::new();
        let e = Item::Entry(Vec::new(), v);
        assert(models(Seq::<HoconValue>::empty()) =~= Seq::<Value>::empty());
        items.push(e);
        assert(item_models(items@) =~= value_items(v@));
        assert(items@ =~= seq![e]);
        proof {
            if !(v is ToConcatToArray) {
                lemma_ids_single(e);
            }
        }
        HoconInternal { internal: items }
    }

    /// An object made of the given items.
    pub fn from_object(items: Vec<Item>) -> (r: HoconInternal)
        ensures
            r@ == object_items(item_models(items@)),
            ids_are_uuids(items@) ==> ids_are_uuids(r.internal@),
    {
        if items.len() == 0 {
            HoconInternal::from_value(HoconValue::EmptyObject)
        } else {
            HoconInternal { internal: items }
        }
    }

    /// Prefixes every path with `p`.
    pub fn add_to_path(self, p: &Vec<HoconValue>) -> (r: HoconInternal)
        ensures
            r@ == prefix_items(self@, models(p@)),
            same_values(self.internal@, r.internal@),
    {
        let ghost src = self.internal@;
        let mut out: Vec<Item> = Vec::new();
        for it in iter: self.internal.into_iter()
            invariant
                iter.seq() == src,
                item_models(out@) == prefix_items(item_models(src.take(iter.index() as int)), models(p@)),
                same_values(src.take(iter.index() as int), out@),
        {
            let mut prefix = duplicate_all(p);
            let x = match it {
                Item::Entry(mut k, v) => {
                    proof { lemma_models_add(prefix@, k@); }
                    prefix.append(&mut k);
                    Item::Entry(prefix, v)
                },
                Item::Include(mut k, i) => {
                    proof { lemma_models_add(prefix@, k@); }
                    prefix.append(&mut k);
                    Item::Include(prefix, i)
                },
            };
            assert(src.take(iter.index() as int + 1) =~= src.take(iter.index() as int).push(it));
            proof {
                lemma_item_models_push(out@, x);
                lemma_item_models_push(src.take(iter.index() as int), it);
                lemma_map_push(
                    item_models(src.take(iter.index() as int)),
                    item_model(it),
                    |i: ItemModel| prefix_item(i, models(p@)),
                );
            }
            assert(item_value(x) == item_value(it));
            out.push(x);
            assert(same_values(src.take(iter.index() as int + 1), out@)) by {
                assert forall|k: int| 0 <= k < out@.len() implies item_value(
                    #[trigger] src.take(iter.index() as int + 1)[k],
                ) == item_value(out@[k]) by {
                    if k < out@.len() - 1 {
                        assert(src.take(iter.index() as int + 1)[k] == src.take(iter.index() as int)[k]);
                    }
                }
            }
        }
        assert(src.take(src.len() as int) =~= src);
        HoconInternal { internal: out }
    }

    /// Every value becomes an item to append, under `item_id`, to the array
    /// at its path.
    pub fn to_concat_to_array(self, item_id: &String) -> (r: HoconInternal)
        ensures
            r@ == concat_to_array_items(self@),
            ids_all(r.internal@, item_id@),
    {
        let ghost src = self.internal@;
        let mut out: Vec<Item> = Vec::new();
        for it in iter: self.internal.into_iter()
            invariant
                iter.seq() == src,
                item_models(out@) == concat_to_array_items(item_models(src.take(iter.index() as int))),
                forall|k: int|
                    0 <= k < out@.len() ==> (#[trigger] out@[k] matches Item::Entry(
                        _,
                        HoconValue::ToConcatToArray { item_id: id, .. },
                    ) ==> id@ == item_id@),
        {
            let x = match it {
                Item::Entry(k, v) => {
                    let original_path = duplicate_all(&k);
                    Item::Entry(
                        k,
                        HoconValue::ToConcatToArray {
                            value: Box::new(v),
                            original_path,
                            item_id: copy_string(item_id),
                        },
                    )
                },
                Item::Include(k, i) => Item::Include(k, i),
            };
            assert(src.take(iter.index() as int + 1) =~= src.take(iter.index() as int).push(it));
            proof {
                lemma_item_models_push(out@, x);
                lemma_item_models_push(src.take(iter.index() as int), it);
                lemma_map_push(
                    item_models(src.take(iter.index() as int)),
                    item_model(it),
                    |i: ItemModel| concat_to_array_item(i),
                );
            }
            out.push(x);
        }
        assert(src.take(src.len() as int) =~= src);
        HoconInternal { internal: out }
    }

    /// An array of the given elements.
    pub fn from_array(elems: Vec<HoconInternal>) -> (r: HoconInternal)
        ensures
            r@ == array_items(elems@.map_values(|e: HoconInternal| e@)),
            (forall|i: int| 0 <= i < elems@.len() ==> ids_are_uuids(#[trigger] elems@[i].internal@))
                ==> ids_are_uuids(r.internal@),
    {
        let ghost src = elems@;
        let ghost ms = src.map_values(|e: HoconInternal| e@);
        if elems.len() == 0 {
            return HoconInternal::from_value(HoconValue::EmptyArray);
        }
        let mut out: Vec<Item> = Vec::new();
        let mut idx: usize = 0;
        let n = elems.len();
        for e in iter: elems.into_iter()
            invariant
                iter.seq() == src,
                ms == src.map_values(|e: HoconInternal| e@),
                idx == iter.index(),
                n == src.len(),
                n > 0,
                item_models(out@) == indexed_items(ms.take(iter.index() as int)),
                (forall|i: int| 0 <= i < src.len() ==> ids_are_uuids(#[trigger] src[i].internal@))
                    ==> ids_are_uuids(out@),
        {
            assert(idx < n);
            let mut key: Vec<HoconValue> = Vec::new();
            key.push(HoconValue::Integer(idx as i64));
            proof {
                lemma_models_push(Seq::empty(), key@[0]);
                assert(key@ =~= seq![key@[0]]);
                assert(ms.take(idx + 1).drop_last() =~= ms.take(idx as int));
                assert(ms.take(idx + 1).last() == e@);
            }
            let ghost before = e.internal@;
            let mut prefixed = e.add_to_path(&key);
            proof {
                lemma_item_models_add(out@, prefixed.internal@);
                lemma_same_values_ids(before, prefixed.internal@);
                lemma_ids_add(out@, prefixed.internal@);
                if forall|i: int| 0 <= i < src.len() ==> ids_are_uuids(#[trigger] src[i].internal@) {
                    assert(src[iter.index() as int] == e);
                }
            }
            out.append(&mut prefixed.internal);
            idx = idx + 1;
        }
        assert(ms.take(n as int) =~= ms);
        HoconInternal { internal: out }
    }
}

} // verus!
