//! Building the document tree from the flat form: each entry's value goes
//! through the first pass of substitution against the tree built so far and
//! is set at its path.
use vstd::prelude::*;
use crate::internal::{item_id_of, item_ids, item_model, item_models, Item, ItemModel};
use crate::tree::{
    children_model, child_model, find_child, find_key, includes_fit, lemma_children_model,
    lemma_children_model_push, lemma_children_model_ext, node_is_array, node_is_array_exec,
    node_result, paths_eq, spec_find_key, spec_substitute, Child, ChildModel, Config, KeyType, Node,
    NodeModel,
};
use crate::value::{
    duplicate_all, key_eq, lemma_models, models, paths_of, paths_of_values, HoconError,
    HoconValue, Value,
};

verus! {

// ---------------------------------------------------------------------------
// Inserting an entry
// ---------------------------------------------------------------------------

/// The position of the last child whose key equals `k` as a key.
pub open spec fn last_index(cs: Seq<ChildModel>, k: Value) -> Option<int>
    decreases cs.len(),
{
    if cs.len() == 0 {
        None
    } else if key_eq(cs.last().key, k) {
        Some(cs.len() - 1)
    } else {
        last_index(cs.drop_last(), k)
    }
}

pub open spec fn node_children_of(n: NodeModel) -> Seq<ChildModel> {
    match n {
        NodeModel::Node { children, .. } => children,
        NodeModel::Leaf(_) => seq![],
    }
}

pub open spec fn node_hint_of(n: NodeModel) -> Option<KeyType> {
    match n {
        NodeModel::Node { key_hint, .. } => key_hint,
        NodeModel::Leaf(_) => None,
    }
}

/// The children with the value under `k` set to `val`: the last child with
/// that key keeps its place, or a new child comes last.
pub open spec fn set_child(cs: Seq<ChildModel>, k: Value, val: NodeModel) -> Seq<ChildModel> {
    match last_index(cs, k) {
        Some(j) => cs.update(j, ChildModel { key: cs[j].key, value: val }),
        None => cs.push(ChildModel { key: k, value: val }),
    }
}

/// A substitution that replaces a value remembers it, so that an optional
/// one can fall back to it when it cannot be resolved.
pub open spec fn with_fallback(v: Value, old: Option<Value>) -> Value {
    match v {
        Value::PathSubstitution { target, optional, original: None } => match old {
            Some(o) => Value::PathSubstitution { target, optional, original: Some(Box::new(o)) },
            None => v,
        },
        _ => v,
    }
}

/// The value of the leaf at `path`, if there is one.
pub open spec fn existing_leaf(tree: NodeModel, path: Seq<Value>) -> Option<Value> {
    match spec_find_key(tree, path) {
        Ok(NodeModel::Leaf(old)) => Some(old),
        _ => None,
    }
}

/// An object (a node that is not an array).
pub open spec fn is_object(n: NodeModel) -> bool {
    n matches NodeModel::Node { children, key_hint } && !node_is_array(children, key_hint)
}

/// An empty object, as the first pass makes of `{}`.
pub open spec fn is_empty_object(n: NodeModel) -> bool {
    n matches NodeModel::Node { children, key_hint } && children.len() == 0 && key_hint == Some(
        KeyType::String,
    )
}

/// An empty array, as the first pass makes of `[]`.
pub open spec fn is_empty_array(n: NodeModel) -> bool {
    n matches NodeModel::Node { children, key_hint } && children.len() == 0 && key_hint == Some(
        KeyType::Int,
    )
}

/// The node that setting `node` over `existing` leaves: an empty object
/// merged into an object keeps that object; anything else replaces what was
/// there.
pub open spec fn merged_node(existing: Option<NodeModel>, node: NodeModel) -> NodeModel {
    match existing {
        Some(e) => if is_empty_object(node) && is_object(e) {
            e
        } else {
            node
        },
        None => node,
    }
}

/// A key of the other kind (index or name) than the children's keys.
pub open spec fn mixes_keys(cs: Seq<ChildModel>, k: Value) -> bool {
    cs.len() > 0 && ((cs[0].key is Integer) != (k is Integer))
}

/// Whether the rest of the previous entry's path goes on with `k`.
pub open spec fn continues(prev: Option<Seq<Value>>, k: Value) -> bool {
    prev matches Some(q) && q.len() > 0 && key_eq(q[0], k)
}

/// The rest of the previous entry's path one level down, while the two paths
/// agree.
pub open spec fn prev_below(prev: Option<Seq<Value>>, k: Value) -> Option<Seq<Value>> {
    if continues(prev, k) {
        Some(prev.unwrap().drop_first())
    } else {
        None
    }
}

/// Whether setting a value below `k` starts the children of `n` afresh: an
/// index `0` that the previous entry's path did not reach this way begins a
/// new array, and a key of the other kind than the children's replaces them.
pub open spec fn starts_afresh(n: NodeModel, k: Value, prev: Option<Seq<Value>>) -> bool {
    (k == Value::Integer(0) && !continues(prev, k)) || mixes_keys(node_children_of(n), k)
}

/// `n` with `node` set at `path`, as the entries of a document are placed:
/// nodes are made along the way where there are none, the children of a node
/// start afresh as `starts_afresh` says, and the node at the end is merged
/// as `merged_node` says. At the empty path only an empty array changes
/// anything (an empty node becomes an empty array). `prev` is what is left,
/// at this depth, of the previous entry's path while the two have agreed.
pub open spec fn spec_place(n: NodeModel, path: Seq<Value>, node: NodeModel, prev: Option<Seq<Value>>) -> NodeModel
    decreases path.len(),
{
    if path.len() == 0 {
        if node_children_of(n).len() == 0 && is_empty_array(node) {
            node
        } else {
            n
        }
    } else {
        let k = path[0];
        let fresh = starts_afresh(n, k, prev);
        let cs = if fresh {
            seq![]
        } else {
            node_children_of(n)
        };
        let existing = match last_index(cs, k) {
            Some(j) => Some(cs[j].value),
            None => None,
        };
        let val = if path.len() == 1 {
            merged_node(existing, node)
        } else {
            let sub = match existing {
                Some(NodeModel::Node { children, key_hint }) => NodeModel::Node { children, key_hint },
                _ => NodeModel::Node { children: seq![], key_hint: None },
            };
            spec_place(sub, path.drop_first(), node, prev_below(prev, k))
        };
        NodeModel::Node {
            children: set_child(cs, k, val),
            key_hint: if fresh {
                None
            } else {
                node_hint_of(n)
            },
        }
    }
}

/// Values that the builder can place: placeholders of array concatenation
/// are not resolved by it.
pub open spec fn placeable(v: Value) -> bool {
    !(v is ToConcatToArray || v is PathSubstitutionInParent || v is Temp)
}

/// The tree before any entry, with no previous path.
pub open spec fn empty_tree() -> NodeModel {
    NodeModel::Node { children: seq![], key_hint: None }
}

/// An entry's value placed into `t` at `path`, after the entry whose path
/// was `prev`: the value (remembering, if it is a substitution, the value it
/// replaces) goes through the first pass of substitution against `t` at
/// `path` and is placed there.
pub open spec fn spec_entry_step(
    t: NodeModel,
    prev: Option<Seq<Value>>,
    path: Seq<Value>,
    v: Value,
    config: Config,
) -> Result<(NodeModel, Option<Seq<Value>>), HoconError> {
    if !placeable(v) {
        Err(HoconError::Unsupported)
    } else {
        let v1 = with_fallback(v, existing_leaf(t, path));
        if !includes_fit(v1, path.len() as int) {
            Err(HoconError::Unsupported)
        } else {
            match spec_substitute(v1, config, t, path) {
                Err(e) => Err(e),
                Ok(node) => Ok((spec_place(t, path, node, prev), Some(path))),
            }
        }
    }
}

/// The `+=` being applied: its identifier, the path of its array, and the
/// index of the element that its items go to.
pub struct AppendTarget {
    pub id: Seq<char>,
    pub array: Seq<Value>,
    pub index: int,
}

/// Elements spliced in front of the array at `array` by a substitution:
/// the indices of the elements that follow move by `offset`.
pub struct ArrayShift {
    pub array: Seq<Value>,
    pub offset: int,
}

/// What building has reached: the tree, the path of the last entry, the
/// last `+=` applied, and the array whose indices move.
pub struct BuildState {
    pub tree: NodeModel,
    pub prev: Option<Seq<Value>>,
    pub append: Option<AppendTarget>,
    pub shift: Option<ArrayShift>,
}

/// Whether `path` lies in an element of the array at `a`.
pub open spec fn in_array(path: Seq<Value>, a: Seq<Value>) -> bool {
    path.len() > a.len() && paths_eq(path.take(a.len() as int), a) && path[a.len() as int] is Integer
}

/// The path of an entry, its index moved as `shift` says when it lies in
/// the shifted array; `None` when the moved index does not fit an `i64`.
pub open spec fn shifted(path: Seq<Value>, shift: Option<ArrayShift>) -> Option<Seq<Value>> {
    match shift {
        Some(sh) => if in_array(path, sh.array) {
            let m = (path[sh.array.len() as int]->Integer_0) + sh.offset;
            if i64::MIN <= m <= i64::MAX {
                Some(path.update(sh.array.len() as int, Value::Integer(m as i64)))
            } else {
                None
            }
        } else {
            Some(path)
        },
        None => Some(path),
    }
}

/// The shift that stays after an entry at `path`: only while the entries
/// stay in the shifted array.
pub open spec fn shift_after(path: Seq<Value>, shift: Option<ArrayShift>) -> Option<ArrayShift> {
    match shift {
        Some(sh) => if in_array(path, sh.array) {
            shift
        } else {
            None
        },
        None => None,
    }
}

/// How many elements the array at `a` has (none where there is no array).
pub open spec fn array_len(t: NodeModel, a: Seq<Value>) -> int {
    match spec_find_key(t, a) {
        Ok(NodeModel::Node { children, key_hint }) => if node_is_array(children, key_hint) {
            children.len() as int
        } else {
            0
        },
        _ => 0,
    }
}

/// The index of the element that an item of the `+=` with identifier `id`
/// goes to in the array at `a`: that of the previous item of the same `+=`,
/// or a new element after the last.
pub open spec fn append_index(st: BuildState, id: Seq<char>, a: Seq<Value>) -> int {
    match st.append {
        Some(at) => if at.id == id && paths_eq(at.array, a) {
            at.index
        } else {
            array_len(st.tree, a)
        },
        None => array_len(st.tree, a),
    }
}

/// An item of `key += value`, found at `p` (`original_path` within the
/// value): it goes through the first pass of substitution and is placed in
/// the element of the array at `key` that `append_index` says.
pub open spec fn spec_append_step(
    st: BuildState,
    p: Seq<Value>,
    value: Value,
    original_path: Seq<Value>,
    id: Seq<char>,
    config: Config,
) -> Result<BuildState, HoconError> {
    let path = paths_of(p);
    let kp = paths_of(original_path);
    if kp.len() > path.len() {
        Err(HoconError::Unsupported)
    } else {
        let a = path.take(path.len() - kp.len());
        let idx = append_index(st, id, a);
        if idx > i64::MAX {
            Err(HoconError::Unsupported)
        } else {
            let full = a + seq![Value::Integer(idx as i64)] + kp;
            if !placeable(value) || !includes_fit(value, full.len() as int) {
                Err(HoconError::Unsupported)
            } else {
                match spec_substitute(value, config, st.tree, full) {
                    Err(e) => Err(e),
                    Ok(node) => Ok(
                        BuildState {
                            tree: spec_place(st.tree, full, node, st.prev),
                            prev: Some(full),
                            append: Some(AppendTarget { id, array: a, index: idx }),
                            shift: None,
                        },
                    ),
                }
            }
        }
    }
}

/// A substitution in front of an array, found at `path` (its first
/// element): when it names an array, the array at `path`'s parent becomes
/// that array and the elements that follow move behind its elements;
/// otherwise it is an element of its own.
pub open spec fn spec_splice_step(st: BuildState, path: Seq<Value>, target: Value, config: Config) -> Result<
    BuildState,
    HoconError,
> {
    if path.len() < 2 {
        Err(HoconError::Unsupported)
    } else {
        let parent = path.drop_last();
        match spec_find_key(st.tree, crate::value::path_of(target)) {
            Ok(NodeModel::Node { children, key_hint }) => if node_is_array(children, key_hint) {
                if children.len() - 1 > i64::MAX {
                    Err(HoconError::Unsupported)
                } else {
                    Ok(
                        BuildState {
                            tree: spec_place(
                                st.tree,
                                parent,
                                NodeModel::Node { children, key_hint },
                                st.prev,
                            ),
                            prev: Some(parent),
                            append: st.append,
                            shift: Some(ArrayShift { array: parent, offset: children.len() - 1 }),
                        },
                    )
                }
            } else {
                spec_element_step(st, path, target, config)
            },
            _ => spec_element_step(st, path, target, config),
        }
    }
}

/// A substitution in front of an array that does not name an array: an
/// element of its own.
pub open spec fn spec_element_step(st: BuildState, path: Seq<Value>, target: Value, config: Config) -> Result<
    BuildState,
    HoconError,
> {
    match spec_entry_step(
        st.tree,
        st.prev,
        path,
        Value::PathSubstitution { target: Box::new(target), optional: false, original: None },
        config,
    ) {
        Err(e) => Err(e),
        Ok((t, prev)) => Ok(BuildState { tree: t, prev, append: st.append, shift: shift_after(path, st.shift) }),
    }
}

/// One item, whose `+=` identifier (if any) is `id`: an include still there
/// is an error when it is required and is left out otherwise; an item of a
/// `+=` is placed as `spec_append_step` says; a substitution in front of an
/// array as `spec_splice_step` says; any other entry as `spec_entry_step`
/// says, at its key path (every key split into its path elements) moved as
/// `shifted` says.
pub open spec fn spec_item_step(st: BuildState, it: ItemModel, id: Seq<char>, config: Config) -> Result<
    BuildState,
    HoconError,
> {
    match it {
        ItemModel::Include(_, inc) => if inc.required {
            Err(HoconError::Include)
        } else {
            Ok(st)
        },
        ItemModel::Entry(p, v) => match v {
            Value::ToConcatToArray { value, original_path } => spec_append_step(
                st,
                p,
                *value,
                original_path,
                id,
                config,
            ),
            _ => match shifted(paths_of(p), st.shift) {
                None => Err(HoconError::Unsupported),
                Some(path) => match v {
                    Value::PathSubstitutionInParent(target) => spec_splice_step(st, path, *target, config),
                    _ => match spec_entry_step(st.tree, st.prev, path, v, config) {
                        Err(e) => Err(e),
                        Ok((t, prev)) => Ok(
                            BuildState {
                                tree: t,
                                prev,
                                append: st.append,
                                shift: shift_after(path, st.shift),
                            },
                        ),
                    },
                },
            },
        },
    }
}

pub open spec fn initial_state() -> BuildState {
    BuildState { tree: empty_tree(), prev: None, append: None, shift: None }
}

/// The items placed one after the other; `ids[k]` is the `+=` identifier of
/// the item at `k`.
pub open spec fn spec_build_from(items: Seq<ItemModel>, ids: Seq<Seq<char>>, config: Config) -> Result<
    BuildState,
    HoconError,
>
    decreases items.len(),
{
    if items.len() == 0 {
        Ok(initial_state())
    } else {
        match spec_build_from(items.drop_last(), ids, config) {
            Err(e) => Err(e),
            Ok(st) => spec_item_step(st, items.last(), ids[items.len() - 1], config),
        }
    }
}

/// The tree of the items.
pub open spec fn spec_build(items: Seq<ItemModel>, ids: Seq<Seq<char>>, config: Config) -> Result<
    NodeModel,
    HoconError,
> {
    match spec_build_from(items, ids, config) {
        Err(e) => Err(e),
        Ok(st) => Ok(st.tree),
    }
}

/// The `+=` identifiers matter only to the items of a `+=`: without such
/// items, any identifiers build the same tree.
pub proof fn lemma_ids_matter_only_to_appends(
    items: Seq<ItemModel>,
    ids1: Seq<Seq<char>>,
    ids2: Seq<Seq<char>>,
    config: Config,
)
    requires
        forall|i: int|
            0 <= i < items.len() ==> !(#[trigger] items[i] matches ItemModel::Entry(
                _,
                Value::ToConcatToArray { .. },
            )),
    ensures
        spec_build_from(items, ids1, config) == spec_build_from(items, ids2, config),
    decreases items.len(),
{
    if items.len() > 0 {
        assert forall|i: int| 0 <= i < items.drop_last().len() implies !(
        #[trigger] items.drop_last()[i] matches ItemModel::Entry(_, Value::ToConcatToArray { .. })) by {
            assert(items.drop_last()[i] == items[i]);
        }
        lemma_ids_matter_only_to_appends(items.drop_last(), ids1, ids2, config);
        assert(!(items[items.len() - 1] matches ItemModel::Entry(_, Value::ToConcatToArray { .. })));
    }
}

/// `key += value` adds to the array at `key`: the value lands in the element
/// that `append_index` says (a new element after the last, unless the item
/// belongs to the `+=` being applied), and can be found there.
pub proof fn lemma_append_places(
    st: BuildState,
    p: Seq<Value>,
    value: Value,
    original_path: Seq<Value>,
    id: Seq<char>,
    config: Config,
)
    requires
        spec_append_step(st, p, value, original_path, id, config) is Ok,
        forall|i: int| 0 <= i < paths_of(p).len() ==> key_eq(#[trigger] paths_of(p)[i], paths_of(p)[i]),
        forall|i: int|
            0 <= i < paths_of(original_path).len() ==> key_eq(
                #[trigger] paths_of(original_path)[i],
                paths_of(original_path)[i],
            ),
    ensures
        ({
            let st2 = spec_append_step(st, p, value, original_path, id, config)->Ok_0;
            let path = paths_of(p);
            let kp = paths_of(original_path);
            let a = path.take(path.len() - kp.len());
            &&& kp.len() <= path.len()
            &&& st2.prev == Some(a + seq![Value::Integer(append_index(st, id, a) as i64)] + kp)
            &&& spec_find_key(st2.tree, st2.prev.unwrap()) is Ok
        }),
{
    let path = paths_of(p);
    let kp = paths_of(original_path);
    let a = path.take(path.len() - kp.len());
    let idx = append_index(st, id, a);
    let full = a + seq![Value::Integer(idx as i64)] + kp;
    assert forall|i: int| 0 <= i < full.len() implies key_eq(#[trigger] full[i], full[i]) by {
        if i < a.len() {
            assert(full[i] == path[i]);
        } else if i > a.len() {
            assert(full[i] == kp[i - a.len() - 1]);
        }
    }
    let node = spec_substitute(value, config, st.tree, full)->Ok_0;
    lemma_place_then_find(st.tree, full, node, st.prev);
}

proof fn lemma_last_index(cs: Seq<ChildModel>, k: Value)
    ensures
        match last_index(cs, k) {
            Some(j) => 0 <= j < cs.len() && key_eq(cs[j].key, k) && forall|i: int|
                j < i < cs.len() ==> !key_eq(#[trigger] cs[i].key, k),
            None => forall|i: int| 0 <= i < cs.len() ==> !key_eq(#[trigger] cs[i].key, k),
        },
    decreases cs.len(),
{
    if cs.len() > 0 && !key_eq(cs.last().key, k) {
        let d = cs.drop_last();
        lemma_last_index(d, k);
        match last_index(d, k) {
            Some(j) => {
                assert forall|i: int| j < i < cs.len() implies !key_eq(#[trigger] cs[i].key, k) by {
                    if i < cs.len() - 1 {
                        assert(cs[i] == d[i]);
                    }
                }
                assert(cs[j] == d[j]);
            },
            None => {
                assert forall|i: int| 0 <= i < cs.len() implies !key_eq(#[trigger] cs[i].key, k) by {
                    if i < cs.len() - 1 {
                        assert(cs[i] == d[i]);
                    }
                }
            },
        }
    }
}

proof fn lemma_find_child_at(cs: Seq<ChildModel>, k: Value, j: int)
    requires
        0 <= j < cs.len(),
        key_eq(cs[j].key, k),
        forall|i: int| j < i < cs.len() ==> !key_eq(#[trigger] cs[i].key, k),
    ensures
        find_child(cs, k) == Some(cs[j].value),
    decreases cs.len(),
{
    if j < cs.len() - 1 {
        assert(!key_eq(cs[cs.len() - 1].key, k));
        assert forall|i: int| j < i < cs.len() - 1 implies !key_eq(
            #[trigger] cs.drop_last()[i].key,
            k,
        ) by {
            assert(cs.drop_last()[i] == cs[i]);
        }
        lemma_find_child_at(cs.drop_last(), k, j);
    }
}

/// Setting the child under a key that equals itself, then finding the
/// child under that key, gives the value set.
proof fn lemma_find_set_child(cs: Seq<ChildModel>, k: Value, val: NodeModel)
    requires
        key_eq(k, k),
    ensures
        find_child(set_child(cs, k, val), k) == Some(val),
{
    lemma_last_index(cs, k);
    match last_index(cs, k) {
        Some(j) => {
            let cs2 = cs.update(j, ChildModel { key: cs[j].key, value: val });
            assert forall|i: int| j < i < cs2.len() implies !key_eq(#[trigger] cs2[i].key, k) by {
                assert(cs2[i] == cs[i]);
            }
            lemma_find_child_at(cs2, k, j);
        },
        None => {
            let cs2 = cs.push(ChildModel { key: k, value: val });
            lemma_find_child_at(cs2, k, cs.len() as int);
        },
    }
}

/// What a read gives back of a write: after a node is placed at a path whose
/// keys each equal themselves as keys, looking that path up finds the node;
/// only an empty object placed over an object finds that object instead.
pub proof fn lemma_place_then_find(n: NodeModel, path: Seq<Value>, node: NodeModel, prev: Option<Seq<Value>>)
    requires
        path.len() > 0,
        forall|i: int| 0 <= i < path.len() ==> key_eq(#[trigger] path[i], path[i]),
    ensures
        spec_find_key(spec_place(n, path, node, prev), path) == Ok::<NodeModel, HoconError>(node)
            || (is_empty_object(node) && (spec_find_key(spec_place(n, path, node, prev), path) matches Ok(
            m,
        ) && is_object(m))),
    decreases path.len(),
{
    let k = path[0];
    assert(key_eq(path[0], path[0]));
    let fresh = starts_afresh(n, k, prev);
    let cs = if fresh {
        Seq::<ChildModel>::empty()
    } else {
        node_children_of(n)
    };
    let existing = match last_index(cs, k) {
        Some(j) => Some(cs[j].value),
        None => None,
    };
    let sub = match existing {
        Some(NodeModel::Node { children, key_hint }) => NodeModel::Node { children, key_hint },
        _ => NodeModel::Node { children: seq![], key_hint: None },
    };
    let val = if path.len() == 1 {
        merged_node(existing, node)
    } else {
        spec_place(sub, path.drop_first(), node, prev_below(prev, k))
    };
    assert(spec_place(n, path, node, prev) == NodeModel::Node {
        children: set_child(cs, k, val),
        key_hint: if fresh {
            None
        } else {
            node_hint_of(n)
        },
    });
    lemma_find_set_child(cs, k, val);
    if path.len() > 1 {
        assert forall|i: int| 0 <= i < path.drop_first().len() implies key_eq(
            #[trigger] path.drop_first()[i],
            path.drop_first()[i],
        ) by {
            assert(path.drop_first()[i] == path[i + 1]);
        }
        lemma_place_then_find(sub, path.drop_first(), node, prev_below(prev, k));
    } else {
        assert(path.drop_first().len() == 0);
    }
}

proof fn lemma_find_child_update_other(cs: Seq<ChildModel>, j: int, c: ChildModel, k: Value)
    requires
        0 <= j < cs.len(),
        !key_eq(cs[j].key, k),
        !key_eq(c.key, k),
    ensures
        find_child(cs.update(j, c), k) == find_child(cs, k),
    decreases cs.len(),
{
    let cs2 = cs.update(j, c);
    if j < cs.len() - 1 {
        assert(cs2.last() == cs.last());
        assert(cs2.drop_last() =~= cs.drop_last().update(j, c));
        lemma_find_child_update_other(cs.drop_last(), j, c, k);
    } else {
        assert(cs2.drop_last() =~= cs.drop_last());
    }
}

/// Setting the child under `k` leaves the child found under a key that is
/// not equal to `k` as it was.
proof fn lemma_find_set_child_other(cs: Seq<ChildModel>, k: Value, val: NodeModel, other: Value)
    requires
        !key_eq(other, k),
    ensures
        find_child(set_child(cs, k, val), other) == find_child(cs, other),
{
    crate::value::lemma_key_eq_laws(other, k, k);
    lemma_last_index(cs, k);
    match last_index(cs, k) {
        Some(j) => {
            crate::value::lemma_key_eq_laws(other, cs[j].key, k);
            crate::value::lemma_key_eq_laws(cs[j].key, other, k);
            lemma_find_child_update_other(cs, j, ChildModel { key: cs[j].key, value: val }, other);
        },
        None => {
            assert(cs.push(ChildModel { key: k, value: val }).drop_last() =~= cs);
        },
    }
}

/// A value set under one key leaves the other keys of the object as they
/// were, unless the object starts afresh (an array begun anew, or keys of
/// the other kind): objects given in parts merge.
pub proof fn lemma_place_keeps_siblings(
    n: NodeModel,
    path: Seq<Value>,
    node: NodeModel,
    prev: Option<Seq<Value>>,
    other: Value,
)
    requires
        path.len() > 0,
        !starts_afresh(n, path[0], prev),
        !key_eq(other, path[0]),
    ensures
        find_child(node_children_of(spec_place(n, path, node, prev)), other) == find_child(
            node_children_of(n),
            other,
        ),
{
    let k = path[0];
    let cs = node_children_of(n);
    let existing = match last_index(cs, k) {
        Some(j) => Some(cs[j].value),
        None => None,
    };
    let sub = match existing {
        Some(NodeModel::Node { children, key_hint }) => NodeModel::Node { children, key_hint },
        _ => NodeModel::Node { children: seq![], key_hint: None },
    };
    let val = if path.len() == 1 {
        merged_node(existing, node)
    } else {
        spec_place(sub, path.drop_first(), node, prev_below(prev, k))
    };
    assert(node_children_of(spec_place(n, path, node, prev)) == set_child(cs, k, val));
    lemma_find_set_child_other(cs, k, val, other);
}

/// A substitution set over a value remembers it: when the substitution
/// cannot be resolved against the tree built so far, the tree holds at the
/// entry's path the substitution with the previous value as its fallback.
pub proof fn lemma_substitution_keeps_previous(
    t: NodeModel,
    prev: Option<Seq<Value>>,
    path: Seq<Value>,
    target: Value,
    optional: bool,
    old: Value,
    config: Config,
)
    requires
        path.len() > 0,
        forall|i: int| 0 <= i < path.len() ==> key_eq(#[trigger] path[i], path[i]),
        spec_find_key(t, path) == Ok::<NodeModel, HoconError>(NodeModel::Leaf(old)),
        spec_find_key(t, crate::value::path_of(target)) is Err,
    ensures
        spec_entry_step(
            t,
            prev,
            path,
            Value::PathSubstitution { target: Box::new(target), optional, original: None },
            config,
        ) matches Ok((t2, _)) && spec_find_key(t2, path) == Ok::<NodeModel, HoconError>(
            NodeModel::Leaf(
                Value::PathSubstitution {
                    target: Box::new(target),
                    optional,
                    original: Some(Box::new(old)),
                },
            ),
        ),
{
    let v1 = Value::PathSubstitution { target: Box::new(target), optional, original: Some(Box::new(old)) };
    assert(with_fallback(
        Value::PathSubstitution { target: Box::new(target), optional, original: None },
        existing_leaf(t, path),
    ) == v1);
    assert(spec_substitute(v1, config, t, path) == Ok::<NodeModel, HoconError>(NodeModel::Leaf(v1)));
    lemma_place_then_find(t, path, NodeModel::Leaf(v1), prev);
}

/// A substitution of a key that the tree built so far holds takes that
/// key's node at once (an empty object placed over an object keeps the
/// object).
pub proof fn lemma_substitution_takes_value(
    t: NodeModel,
    prev: Option<Seq<Value>>,
    path: Seq<Value>,
    target: Value,
    optional: bool,
    found: NodeModel,
    config: Config,
)
    requires
        path.len() > 0,
        forall|i: int| 0 <= i < path.len() ==> key_eq(#[trigger] path[i], path[i]),
        spec_find_key(t, crate::value::path_of(target)) == Ok::<NodeModel, HoconError>(found),
        !(found matches NodeModel::Leaf(Value::BadValue(_))),
    ensures
        spec_entry_step(
            t,
            prev,
            path,
            Value::PathSubstitution { target: Box::new(target), optional, original: None },
            config,
        ) matches Ok((t2, _)) && (spec_find_key(t2, path) == Ok::<NodeModel, HoconError>(found)
            || (is_empty_object(found) && (spec_find_key(t2, path) matches Ok(m) && is_object(m)))),
{
    let v0 = Value::PathSubstitution { target: Box::new(target), optional, original: None };
    let v1 = with_fallback(v0, existing_leaf(t, path));
    assert(v1 matches Value::PathSubstitution { target: t1, .. } && *t1 == target);
    assert(spec_substitute(v1, config, t, path) == Ok::<NodeModel, HoconError>(found));
    lemma_place_then_find(t, path, found, prev);
}

fn last_index_exec(cs: &Vec<Child>, k: &HoconValue) -> (r: Option<usize>)
    ensures
        match r {
            Some(j) => last_index(children_model(cs@), k@) == Some(j as int) && j < cs@.len(),
            None => last_index(children_model(cs@), k@) is None,
        },
{
    proof { lemma_children_model(cs@); }
    let ghost cm = children_model(cs@);
    let mut j: usize = cs.len();
    assert(cm.take(j as int) =~= cm);
    while j > 0
        invariant
            0 <= j <= cs@.len(),
            cm == children_model(cs@),
            cm.len() == cs@.len(),
            forall|i: int| 0 <= i < cs@.len() ==> #[trigger] cm[i] == child_model(cs@[i]),
            last_index(cm, k@) == last_index(cm.take(j as int), k@),
        decreases j,
    {
        assert(cm.take(j as int).drop_last() =~= cm.take(j - 1));
        if cs[j - 1].key == *k {
            return Some(j - 1);
        }
        j = j - 1;
    }
    assert(cm.take(0) =~= Seq::<ChildModel>::empty());
    None
}

fn split_node(n: Node) -> (r: (Vec<Child>, Option<KeyType>))
    ensures
        children_model(r.0@) == node_children_of(n@),
        r.1 == node_hint_of(n@),
{
    match n {
        Node::Node { children, key_hint } => (children, key_hint),
        Node::Leaf(_) => {
            assert(children_model(Seq::<Child>::empty()) =~= Seq::<ChildModel>::empty());
            (Vec::new(), None)
        },
    }
}

fn is_object_exec(n: &Node) -> (b: bool)
    ensures
        b == is_object(n@),
{
    match n {
        Node::Node { children, key_hint } => !node_is_array_exec(children, *key_hint),
        Node::Leaf(_) => false,
    }
}

fn is_empty_object_exec(n: &Node) -> (b: bool)
    ensures
        b == is_empty_object(n@),
{
    match n {
        Node::Node { children, key_hint } => {
            proof { lemma_children_model(children@); }
            children.len() == 0 && match key_hint {
                Some(KeyType::String) => true,
                _ => false,
            }
        },
        Node::Leaf(_) => false,
    }
}

fn merged_node_exec(existing: Option<Node>, node: Node) -> (r: Node)
    ensures
        r@ == merged_node(
            match existing {
                Some(e) => Some(e@),
                None => None,
            },
            node@,
        ),
{
    match existing {
        Some(e) => {
            if is_empty_object_exec(&node) && is_object_exec(&e) {
                e
            } else {
                node
            }
        },
        None => node,
    }
}

/// The suffix of the previous path from `k` on, when `aligned`.
pub open spec fn prev_at(prev: Seq<Value>, k: int, aligned: bool) -> Option<Seq<Value>> {
    if aligned {
        Some(prev.skip(k))
    } else {
        None
    }
}

fn continues_exec(prev: &Vec<HoconValue>, aligned: bool, k: usize, key: &HoconValue) -> (b: bool)
    requires
        aligned ==> k <= prev@.len(),
    ensures
        b == continues(prev_at(models(prev@), k as int, aligned), key@),
{
    proof { lemma_models(prev@); }
    if aligned && k < prev.len() {
        assert(models(prev@).skip(k as int)[0] == prev@[k as int]@);
        prev[k] == *key
    } else {
        false
    }
}

fn starts_afresh_exec(n: &Node, key: &HoconValue, prev: &Vec<HoconValue>, aligned: bool, k: usize) -> (b:
    bool)
    requires
        aligned ==> k <= prev@.len(),
    ensures
        b == starts_afresh(n@, key@, prev_at(models(prev@), k as int, aligned)),
{
    let cont = continues_exec(prev, aligned, k, key);
    let zero = match key {
        HoconValue::Integer(i) => *i == 0,
        _ => false,
    };
    let mixes = match n {
        Node::Node { children, .. } => {
            proof { lemma_children_model(children@); }
            if children.len() > 0 {
                let first_int = match &children[0].key {
                    HoconValue::Integer(_) => true,
                    _ => false,
                };
                let key_int = match key {
                    HoconValue::Integer(_) => true,
                    _ => false,
                };
                first_int != key_int
            } else {
                false
            }
        },
        Node::Leaf(_) => false,
    };
    (zero && !cont) || mixes
}

/// `n` with `node` set at the path `path[k..]`, as `spec_place` says; the
/// previous entry's path is `prev`, agreeing with `path` up to `k` when
/// `aligned`.
pub fn place(n: Node, path: &Vec<HoconValue>, k: usize, node: Node, prev: &Vec<HoconValue>, aligned: bool) -> (r:
    Node)
    requires
        k <= path@.len(),
        aligned ==> k <= prev@.len(),
    ensures
        r@ == spec_place(
            n@,
            models(path@).skip(k as int),
            node@,
            prev_at(models(prev@), k as int, aligned),
        ),
    decreases path@.len() - k,
{
    proof {
        lemma_models(path@);
        lemma_models(prev@);
    }
    let ghost p = models(path@).skip(k as int);
    let ghost pv = prev_at(models(prev@), k as int, aligned);
    if k == path.len() {
        assert(p.len() == 0);
        let no_children = match &n {
            Node::Node { children, .. } => {
                proof { lemma_children_model(children@); }
                children.len() == 0
            },
            Node::Leaf(_) => true,
        };
        let empty_array = match &node {
            Node::Node { children, key_hint } => {
                proof { lemma_children_model(children@); }
                children.len() == 0 && match key_hint {
                    Some(KeyType::Int) => true,
                    _ => false,
                }
            },
            Node::Leaf(_) => false,
        };
        if no_children && empty_array {
            return node;
        }
        return n;
    }
    assert(p[0] == path@[k as int]@);
    assert(p.drop_first() =~= models(path@).skip(k + 1));
    let fresh = starts_afresh_exec(&n, &path[k], prev, aligned, k);
    let cont = continues_exec(prev, aligned, k, &path[k]);
    proof {
        if cont {
            assert(models(prev@).skip(k as int).drop_first() =~= models(prev@).skip(k + 1));
        }
    }
    assert(prev_below(pv, p[0]) == prev_at(models(prev@), k + 1, cont));
    let (mut children, hint) = split_node(n);
    if fresh {
        children = Vec::new();
    }
    let hint = if fresh { None } else { hint };
    let ghost orig = children@;
    let ghost cs = children_model(orig);
    proof { lemma_children_model(orig); }
    assert(cs == (if fresh { Seq::<ChildModel>::empty() } else { node_children_of(n@) })) by {
        if fresh {
            assert(children_model(Seq::<Child>::empty()) =~= Seq::<ChildModel>::empty());
        }
    }
    let found = last_index_exec(&children, &path[k]);
    let existing: Option<Child> = match found {
        Some(j) => Some(children.remove(j)),
        None => None,
    };
    let ghost spec_existing: Option<NodeModel> = match last_index(cs, p[0]) {
        Some(j) => Some(cs[j].value),
        None => None,
    };
    let (key, old): (HoconValue, Option<Node>) = match existing {
        Some(c) => (c.key, Some(c.value)),
        None => (path[k].duplicate(), None),
    };
    assert(match old {
        Some(o) => spec_existing == Some(o@),
        None => spec_existing is None,
    });
    let val = if k + 1 == path.len() {
        merged_node_exec(old, node)
    } else {
        let sub = match old {
            Some(Node::Node { children, key_hint }) => Node::Node { children, key_hint },
            _ => Node::Node { children: Vec::new(), key_hint: None },
        };
        place(sub, path, k + 1, node, prev, cont)
    };
    let c = Child { key, value: val };
    match found {
        Some(j) => {
            children.insert(j, c);
            proof {
                let target = set_child(cs, p[0], val@);
                assert(children@ =~= orig.update(j as int, c));
                assert forall|i: int| 0 <= i < children@.len() implies child_model(
                    #[trigger] children@[i],
                ) == target[i] by {
                    if i != j {
                        assert(children@[i] == orig[i]);
                    }
                }
                lemma_children_model_ext(children@, target);
            }
        },
        None => {
            children.push(c);
            proof {
                lemma_children_model_push(orig, c);
            }
        },
    }
    Node::Node { children, key_hint: hint }
}

/// An error of the first items stays the result when more items follow.
pub proof fn lemma_build_err(
    items: Seq<ItemModel>,
    ids: Seq<Seq<char>>,
    config: Config,
    k: int,
    m: int,
    e: HoconError,
)
    requires
        0 <= k <= m <= items.len(),
        spec_build_from(items.take(k), ids, config) == Err::<BuildState, HoconError>(e),
    ensures
        spec_build_from(items.take(m), ids, config) == Err::<BuildState, HoconError>(e),
    decreases m - k,
{
    if k < m {
        assert(items.take(k + 1).drop_last() =~= items.take(k));
        lemma_build_err(items, ids, config, k + 1, m, e);
    }
}

fn placeable_exec(v: &HoconValue) -> (b: bool)
    ensures
        b == placeable(v@),
{
    match v {
        HoconValue::ToConcatToArray { .. } => false,
        HoconValue::PathSubstitutionInParent(_) => false,
        HoconValue::Temp => false,
        _ => true,
    }
}

fn with_fallback_exec(v: &HoconValue, tree: &Node, path: &Vec<HoconValue>) -> (r: HoconValue)
    ensures
        r@ == with_fallback(v@, existing_leaf(tree@, models(path@))),
{
    match v {
        HoconValue::PathSubstitution { target, optional, original: None } => {
            match find_key(tree, path) {
                Ok(Node::Leaf(old)) => HoconValue::PathSubstitution {
                    target: Box::new(target.duplicate()),
                    optional: *optional,
                    original: Some(Box::new(old)),
                },
                _ => v.duplicate(),
            }
        },
        _ => v.duplicate(),
    }
}

/// The first `m` values of `v`.
fn take_values(v: &Vec<HoconValue>, m: usize) -> (r: Vec<HoconValue>)
    requires
        m <= v@.len(),
    ensures
        models(r@) == models(v@).take(m as int),
{
    proof { lemma_models(v@); }
    let mut out: Vec<HoconValue> = Vec::new();
    let mut k: usize = 0;
    assert(models(out@) =~= models(v@).take(0));
    while k < m
        invariant
            0 <= k <= m <= v@.len(),
            models(v@).len() == v@.len(),
            forall|i: int| 0 <= i < v@.len() ==> #[trigger] models(v@)[i] == v@[i]@,
            models(out@) == models(v@).take(k as int),
        decreases m - k,
    {
        let x = v[k].duplicate();
        proof { crate::value::lemma_models_push(out@, x); }
        out.push(x);
        assert(models(out@) =~= models(v@).take(k + 1));
        k = k + 1;
    }
    out
}

/// How many elements the array at `a` has, as `array_len` says.
fn array_len_exec(t: &Node, a: &Vec<HoconValue>) -> (r: usize)
    ensures
        r as int == array_len(t@, models(a@)),
{
    match find_key(t, a) {
        Ok(Node::Node { children, key_hint }) => {
            proof { lemma_children_model(children@); }
            if node_is_array_exec(&children, key_hint) {
                children.len()
            } else {
                0
            }
        },
        _ => 0,
    }
}

/// The model of the `+=` being applied.
pub open spec fn append_model(append: Option<(String, Vec<HoconValue>, usize)>) -> Option<AppendTarget> {
    match append {
        Some((id, a, idx)) => Some(AppendTarget { id: id@, array: models(a@), index: idx as int }),
        None => None,
    }
}

/// The path the element of an append goes to.
fn append_path(a: &Vec<HoconValue>, idx: i64, kp: &Vec<HoconValue>) -> (r: Vec<HoconValue>)
    ensures
        models(r@) == models(a@) + seq![Value::Integer(idx)] + models(kp@),
{
    let mut full = duplicate_all(a);
    let x = HoconValue::Integer(idx);
    proof { crate::value::lemma_models_push(full@, x); }
    full.push(x);
    let mut rest = duplicate_all(kp);
    proof { crate::value::lemma_models_add(full@, rest@); }
    full.append(&mut rest);
    full
}

/// The state of building: the tree, the path of the last entry (when
/// `has_prev`), the `+=` being applied (identifier, array path, index) and
/// the array whose indices move (path, offset).
struct Builder {
    tree: Node,
    prev: Vec<HoconValue>,
    has_prev: bool,
    append: Option<(String, Vec<HoconValue>, usize)>,
    shift: Option<(Vec<HoconValue>, i64)>,
}

pub open spec fn shift_model(shift: Option<(Vec<HoconValue>, i64)>) -> Option<ArrayShift> {
    match shift {
        Some((a, off)) => Some(ArrayShift { array: models(a@), offset: off as int }),
        None => None,
    }
}

spec fn state_model(b: Builder) -> BuildState {
    BuildState {
        tree: b.tree@,
        prev: if b.has_prev {
            Some(models(b.prev@))
        } else {
            None
        },
        append: append_model(b.append),
        shift: shift_model(b.shift),
    }
}

pub open spec fn opt_path_model(r: Option<Vec<HoconValue>>) -> Option<Seq<Value>> {
    match r {
        Some(v) => Some(models(v@)),
        None => None,
    }
}

/// Whether `path` lies in an element of the array at `a`, as `in_array`
/// says.
fn in_array_exec(path: &Vec<HoconValue>, a: &Vec<HoconValue>) -> (b: bool)
    ensures
        b == in_array(models(path@), models(a@)),
{
    proof {
        lemma_models(path@);
        lemma_models(a@);
    }
    if path.len() <= a.len() {
        return false;
    }
    let head = take_values(path, a.len());
    if !crate::tree::paths_equal(&head, a) {
        return false;
    }
    match &path[a.len()] {
        HoconValue::Integer(_) => true,
        _ => false,
    }
}

/// The path moved as `shifted` says.
fn shifted_exec(path: Vec<HoconValue>, shift: &Option<(Vec<HoconValue>, i64)>) -> (r: Option<
    Vec<HoconValue>,
>)
    ensures
        opt_path_model(r) == shifted(models(path@), shift_model(*shift)),
{
    proof { lemma_models(path@); }
    match shift {
        Some((a, off)) => {
            if !in_array_exec(&path, a) {
                return Some(path);
            }
            proof { lemma_models(a@); }
            let j: i64 = match &path[a.len()] {
                HoconValue::Integer(j) => *j,
                _ => 0,
            };
            let m: i128 = j as i128 + *off as i128;
            if m < -9223372036854775808i128 || m > 9223372036854775807i128 {
                return None;
            }
            let mut moved = path;
            let ghost before = moved@;
            moved.set(a.len(), HoconValue::Integer(m as i64));
            proof {
                lemma_models(moved@);
                assert(models(moved@) =~= models(before).update(
                    a@.len() as int,
                    Value::Integer(m as i64),
                ));
            }
            Some(moved)
        },
        None => Some(path),
    }
}

/// The shift that stays after an entry at `path`, as `shift_after` says.
fn shift_after_exec(path: &Vec<HoconValue>, shift: Option<(Vec<HoconValue>, i64)>) -> (r: Option<
    (Vec<HoconValue>, i64),
>)
    ensures
        shift_model(r) == shift_after(models(path@), shift_model(shift)),
{
    match shift {
        Some((a, off)) => {
            if in_array_exec(path, &a) {
                Some((a, off))
            } else {
                None
            }
        },
        None => None,
    }
}

/// An entry's value placed at `path`, as `spec_entry_step` says.
fn entry_step(
    t: Node,
    prev: &Vec<HoconValue>,
    has_prev: bool,
    path: &Vec<HoconValue>,
    v: &HoconValue,
    config: Config,
) -> (r: Result<Node, HoconError>)
    ensures
        match r {
            Ok(n) => spec_entry_step(
                t@,
                if has_prev {
                    Some(models(prev@))
                } else {
                    None
                },
                models(path@),
                v@,
                config,
            ) == Ok::<(NodeModel, Option<Seq<Value>>), HoconError>((n@, Some(models(path@)))),
            Err(e) => spec_entry_step(
                t@,
                if has_prev {
                    Some(models(prev@))
                } else {
                    None
                },
                models(path@),
                v@,
                config,
            ) == Err::<(NodeModel, Option<Seq<Value>>), HoconError>(e),
        },
{
    if !placeable_exec(v) {
        return Err(HoconError::Unsupported);
    }
    proof {
        lemma_models(path@);
        lemma_models(prev@);
        assert(models(path@).skip(0) =~= models(path@));
        assert(models(prev@).skip(0) =~= models(prev@));
    }
    let v1 = with_fallback_exec(v, &t, path);
    if !crate::loader::includes_fit_exec(&v1, path.len()) {
        return Err(HoconError::Unsupported);
    }
    let node = match v1.substitute(config, &t, path) {
        Err(e) => return Err(e),
        Ok(node) => node,
    };
    Ok(place(t, path, 0, node, prev, has_prev))
}

/// An item of a `+=`, as `spec_append_step` says.
fn append_step(
    b: Builder,
    p: &Vec<HoconValue>,
    value: &HoconValue,
    original_path: &Vec<HoconValue>,
    item_id: &String,
    config: Config,
) -> (r: Result<Builder, HoconError>)
    ensures
        match r {
            Ok(b2) => spec_append_step(state_model(b), models(p@), value@, models(original_path@), item_id@, config)
                == Ok::<BuildState, HoconError>(state_model(b2)),
            Err(e) => spec_append_step(state_model(b), models(p@), value@, models(original_path@), item_id@, config)
                == Err::<BuildState, HoconError>(e),
        },
{
    let ghost st = state_model(b);
    let path = paths_of_values(p);
    let kp = paths_of_values(original_path);
    proof {
        lemma_models(path@);
        lemma_models(kp@);
    }
    if kp.len() > path.len() {
        return Err(HoconError::Unsupported);
    }
    let a = take_values(&path, path.len() - kp.len());
    let same = match &b.append {
        Some((aid, aa, _)) => *aid == *item_id && crate::tree::paths_equal(aa, &a),
        None => false,
    };
    let idx: usize = if same {
        match &b.append {
            Some((_, _, ai)) => *ai,
            None => 0,
        }
    } else {
        array_len_exec(&b.tree, &a)
    };
    assert(idx as int == append_index(st, item_id@, models(a@)));
    let wide: u64 = idx as u64;
    if wide > 9223372036854775807u64 {
        return Err(HoconError::Unsupported);
    }
    let full = append_path(&a, idx as i64, &kp);
    proof {
        lemma_models(full@);
        lemma_models(b.prev@);
        assert(models(full@).skip(0) =~= models(full@));
        assert(models(b.prev@).skip(0) =~= models(b.prev@));
    }
    if !placeable_exec(value) || !crate::loader::includes_fit_exec(value, full.len()) {
        return Err(HoconError::Unsupported);
    }
    let node = match value.substitute(config, &b.tree, &full) {
        Err(e) => return Err(e),
        Ok(node) => node,
    };
    let tree = place(b.tree, &full, 0, node, &b.prev, b.has_prev);
    Ok(Builder {
        tree,
        prev: full,
        has_prev: true,
        append: Some((crate::value::copy_string(item_id), a, idx)),
        shift: None,
    })
}

/// A substitution in front of an array, at `path`, as `spec_splice_step`
/// says.
fn splice_step(b: Builder, path: Vec<HoconValue>, target: &HoconValue, config: Config) -> (r: Result<
    Builder,
    HoconError,
>)
    ensures
        match r {
            Ok(b2) => spec_splice_step(state_model(b), models(path@), target@, config)
                == Ok::<BuildState, HoconError>(state_model(b2)),
            Err(e) => spec_splice_step(state_model(b), models(path@), target@, config)
                == Err::<BuildState, HoconError>(e),
        },
{
    proof {
        lemma_models(path@);
        lemma_models(b.prev@);
        assert(models(b.prev@).skip(0) =~= models(b.prev@));
    }
    if path.len() < 2 {
        return Err(HoconError::Unsupported);
    }
    let found = find_key(&b.tree, &target.to_path());
    let splice = match &found {
        Ok(Node::Node { children, key_hint }) => node_is_array_exec(children, *key_hint),
        _ => false,
    };
    if splice {
        match found {
            Ok(Node::Node { children, key_hint }) => {
                proof { lemma_children_model(children@); }
                let n = children.len();
                let wide: u64 = n as u64;
                if wide > 9223372036854775808u64 {
                    return Err(HoconError::Unsupported);
                }
                let offset: i64 = if n == 0 {
                    -1
                } else {
                    (n - 1) as i64
                };
                let parent = take_values(&path, path.len() - 1);
                assert(models(parent@) =~= models(path@).drop_last());
                proof {
                    lemma_models(parent@);
                    assert(models(parent@).skip(0) =~= models(parent@));
                }
                let tree = place(b.tree, &parent, 0, Node::Node { children, key_hint }, &b.prev, b.has_prev);
                let shift_path = duplicate_all(&parent);
                return Ok(Builder {
                    tree,
                    prev: parent,
                    has_prev: true,
                    append: b.append,
                    shift: Some((shift_path, offset)),
                });
            },
            _ => {
                return Err(HoconError::Unsupported);
            },
        }
    }
    let sub = HoconValue::PathSubstitution {
        target: Box::new(target.duplicate()),
        optional: false,
        original: None,
    };
    let tree = entry_step(b.tree, &b.prev, b.has_prev, &path, &sub, config)?;
    let shift = shift_after_exec(&path, b.shift);
    Ok(Builder { tree, prev: path, has_prev: true, append: b.append, shift })
}

/// One item, as `spec_item_step` says.
fn item_step(b: Builder, it: &Item, config: Config) -> (r: Result<Builder, HoconError>)
    ensures
        match r {
            Ok(b2) => spec_item_step(state_model(b), it@, item_id_of(*it), config)
                == Ok::<BuildState, HoconError>(state_model(b2)),
            Err(e) => spec_item_step(state_model(b), it@, item_id_of(*it), config)
                == Err::<BuildState, HoconError>(e),
        },
{
    match it {
        Item::Include(_, inc) => {
            if inc.required {
                Err(HoconError::Include)
            } else {
                Ok(b)
            }
        },
        Item::Entry(p, v) => {
            match v {
                HoconValue::ToConcatToArray { value, original_path, item_id } => {
                    append_step(b, p, value, original_path, item_id, config)
                },
                _ => {
                    let raw = paths_of_values(p);
                    let path = match shifted_exec(raw, &b.shift) {
                        None => return Err(HoconError::Unsupported),
                        Some(x) => x,
                    };
                    match v {
                        HoconValue::PathSubstitutionInParent(target) => splice_step(b, path, target, config),
                        _ => {
                            let tree = entry_step(b.tree, &b.prev, b.has_prev, &path, v, config)?;
                            let shift = shift_after_exec(&path, b.shift);
                            Ok(Builder { tree, prev: path, has_prev: true, append: b.append, shift })
                        },
                    }
                },
            }
        },
    }
}

/// The tree of the items, as `spec_build` says.
pub fn build_tree(items: &Vec<Item>, config: Config) -> (r: Result<Node, HoconError>)
    ensures
        node_result(r) == spec_build(item_models(items@), item_ids(items@), config),
{
    let ghost ms = item_models(items@);
    let ghost ids = item_ids(items@);
    let mut b = Builder {
        tree: Node::Node { children: Vec::new(), key_hint: None },
        prev: Vec::new(),
        has_prev: false,
        append: None,
        shift: None,
    };
    assert(children_model(Seq::<Child>::empty()) =~= Seq::<ChildModel>::empty());
    assert(ms.take(0) =~= Seq::<ItemModel>::empty());
    assert(state_model(b) == initial_state());
    let mut k: usize = 0;
    while k < items.len()
        invariant
            0 <= k <= items@.len(),
            ms == item_models(items@),
            ids == item_ids(items@),
            ms.len() == items@.len(),
            ids.len() == items@.len(),
            spec_build_from(ms.take(k as int), ids, config) == Ok::<BuildState, HoconError>(
                state_model(b),
            ),
        decreases items@.len() - k,
    {
        assert(ms.take(k + 1).drop_last() =~= ms.take(k as int));
        assert(ms.take(k + 1).last() == item_model(items@[k as int]));
        assert(ms.take(k + 1).len() == k + 1);
        assert(ids[k as int] == item_id_of(items@[k as int]));
        match item_step(b, &items[k], config) {
            Err(e) => {
                proof { lemma_build_err(ms, ids, config, k + 1, ms.len() as int, e); }
                assert(ms.take(ms.len() as int) =~= ms);
                return Err(e);
            },
            Ok(b2) => {
                b = b2;
            },
        }
        k = k + 1;
    }
    assert(ms.take(k as int) =~= ms);
    Ok(b.tree)
}

} // verus!
