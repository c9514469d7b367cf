//! The document as a tree of objects and arrays, and the two passes that
//! turn it into a finished `Hocon` document: substitution and finalisation.
use vstd::prelude::*;
use crate::value::{
    is_whitespace_char, trim_end_index, trim_start_index,
    decimal, duplicate_all, has_string_value, is_blank_unquoted, key_eq, models, path_of, paths_of,
    paths_of_values, string_value_spec, trim, trim_end, trim_start, HoconError, HoconValue, Value,
    chars_of, trim_chars, trim_start_chars, trim_end_chars, decimal_chars,
};
use crate::primitives::string_from_chars;

verus! {

/// Whether an object's children are keyed by index or by name.
#[derive(Clone, Copy, Debug, PartialEq, Eq, Structural)]
pub enum KeyType {
    Int,
    String,
}

/// A node of the document tree: a value, or an object or array whose
/// children are keyed.
#[derive(Debug)]
pub enum Node {
    Leaf(HoconValue),
    Node { children: Vec<Child>, key_hint: Option<KeyType> },
}

/// A keyed child of an object or array.
#[derive(Debug)]
pub struct Child {
    pub key: HoconValue,
    pub value: Node,
}

pub enum NodeModel {
    Leaf(Value),
    Node { children: Seq<ChildModel>, key_hint: Option<KeyType> },
}

pub struct ChildModel {
    pub key: Value,
    pub value: NodeModel,
}

pub open spec fn node_model(n: Node) -> NodeModel
    decreases n,
{
    match n {
        Node::Leaf(v) => NodeModel::Leaf(v@),
        Node::Node { children, key_hint } => NodeModel::Node {
            children: children_model(children@),
            key_hint,
        },
    }
}

pub open spec fn child_model(c: Child) -> ChildModel
    decreases c,
{
    ChildModel { key: c.key@, value: node_model(c.value) }
}

pub open spec fn children_model(s: Seq<Child>) -> Seq<ChildModel>
    decreases s,
{
    if s.len() == 0 {
        seq![]
    } else {
        children_model(s.drop_last()).push(child_model(s.last()))
    }
}

impl View for Node {
    type V = NodeModel;

    open spec fn view(&self) -> NodeModel {
        node_model(*self)
    }
}

impl View for Child {
    type V = ChildModel;

    open spec fn view(&self) -> ChildModel {
        child_model(*self)
    }
}

pub proof fn lemma_children_model(s: Seq<Child>)
    ensures
        children_model(s).len() == s.len(),
        forall|i: int| 0 <= i < s.len() ==> #[trigger] children_model(s)[i] == child_model(s[i]),
    decreases s.len(),
{
    if s.len() > 0 {
        lemma_children_model(s.drop_last());
    }
}

pub proof fn lemma_children_model_push(s: Seq<Child>, c: Child)
    ensures
        children_model(s.push(c)) == children_model(s).push(child_model(c)),
{
    assert(s.push(c).drop_last() =~= s);
}

pub proof fn lemma_children_model_ext(a: Seq<Child>, b: Seq<ChildModel>)
    requires
        a.len() == b.len(),
        forall|i: int| 0 <= i < a.len() ==> child_model(#[trigger] a[i]) == b[i],
    ensures
        children_model(a) == b,
{
    lemma_children_model(a);
    assert(children_model(a) =~= b);
}

impl Node {
    /// A deep copy with the same model.
    pub fn duplicate(&self) -> (r: Node)
        ensures
            r@ == self@,
        decreases self,
    {
        match self {
            Node::Leaf(v) => Node::Leaf(v.duplicate()),
            Node::Node { children, key_hint } => Node::Node {
                children: duplicate_children(children),
                key_hint: *key_hint,
            },
        }
    }
}

/// Deep copies of children.
pub fn duplicate_children(cs: &Vec<Child>) -> (r: Vec<Child>)
    ensures
        children_model(r@) == children_model(cs@),
    decreases cs,
{
    let mut out: Vec<Child> = Vec::new();
    let mut k: usize = 0;
    while k < cs.len()
        invariant
            0 <= k <= cs@.len(),
            children_model(out@) == children_model(cs@.take(k as int)),
        decreases cs@.len() - k,
    {
        let c = Child { key: cs[k].key.duplicate(), value: cs[k].value.duplicate() };
        proof {
            lemma_children_model_push(out@, c);
            lemma_children_model_push(cs@.take(k as int), cs@[k as int]);
            assert(cs@.take(k as int).push(cs@[k as int]) =~= cs@.take(k + 1));
        }
        out.push(c);
        k = k + 1;
    }
    assert(cs@.take(k as int) =~= cs@);
    out
}

// ---------------------------------------------------------------------------
// Looking up a path
// ---------------------------------------------------------------------------

/// The last child whose key equals `k` as a key.
pub open spec fn find_child(children: Seq<ChildModel>, k: Value) -> Option<NodeModel>
    decreases children.len(),
{
    if children.len() == 0 {
        None
    } else if key_eq(children.last().key, k) {
        Some(children.last().value)
    } else {
        find_child(children.drop_last(), k)
    }
}

/// The node at `path` below `n`.
pub open spec fn spec_find_key(n: NodeModel, path: Seq<Value>) -> Result<NodeModel, HoconError>
    decreases path.len(),
{
    if path.len() == 0 {
        Ok(n)
    } else {
        match n {
            NodeModel::Leaf(_) => Err(HoconError::KeyNotFound),
            NodeModel::Node { children, .. } => match find_child(children, path[0]) {
                None => Err(HoconError::KeyNotFound),
                Some(c) => spec_find_key(c, path.drop_first()),
            },
        }
    }
}

/// The child of `n` with key `k`, if any.
fn child_with_key<'a>(n: &'a Node, k: &HoconValue) -> (r: Option<&'a Node>)
    ensures
        match n@ {
            NodeModel::Leaf(_) => r is None,
            NodeModel::Node { children, .. } => match find_child(children, k@) {
                None => r is None,
                Some(c) => r matches Some(x) && x@ == c,
            },
        },
{
    match n {
        Node::Leaf(_) => None,
        Node::Node { children, key_hint } => {
            assert(n@ == NodeModel::Node { children: children_model(children@), key_hint: *key_hint });
            proof { lemma_children_model(children@); }
            let mut j: usize = children.len();
            assert(children_model(children@).take(j as int) =~= children_model(children@));
            while j > 0
                invariant
                    0 <= j <= children@.len(),
                    n@ == (NodeModel::Node { children: children_model(children@), key_hint: *key_hint }),
                    children_model(children@).len() == children@.len(),
                    forall|i: int| 0 <= i < children@.len() ==> #[trigger] children_model(children@)[i] == child_model(children@[i]),
                    find_child(children_model(children@), k@) == find_child(
                        children_model(children@).take(j as int),
                        k@,
                    ),
                decreases j,
            {
                let ghost cm = children_model(children@).take(j as int);
                assert(cm.drop_last() =~= children_model(children@).take(j - 1));
                if children[j - 1].key == *k {
                    assert(cm.last() == child_model(children@[j - 1]));
                    assert(key_eq(cm.last().key, k@));
                    assert(find_child(cm, k@) == Some(node_model(children@[j - 1].value)));
                    return Some(&children[j - 1].value);
                }
                j = j - 1;
            }
            assert(children_model(children@).take(0) =~= Seq::<ChildModel>::empty());
            None
        },
    }
}

/// A copy of the node at `path` below `n`.
pub fn find_key(n: &Node, path: &Vec<HoconValue>) -> (r: Result<Node, HoconError>)
    ensures
        match r {
            Ok(x) => spec_find_key(n@, models(path@)) == Ok::<NodeModel, HoconError>(x@),
            Err(e) => spec_find_key(n@, models(path@)) == Err::<NodeModel, HoconError>(e),
        },
{
    proof { crate::value::lemma_models(path@); }
    let mut cur: &Node = n;
    let mut k: usize = 0;
    assert(models(path@).skip(0) =~= models(path@));
    while k < path.len()
        invariant
            0 <= k <= path@.len(),
            models(path@).len() == path@.len(),
            forall|i: int| 0 <= i < path@.len() ==> #[trigger] models(path@)[i] == path@[i]@,
            spec_find_key(n@, models(path@)) == spec_find_key(cur@, models(path@).skip(k as int)),
        decreases path@.len() - k,
    {
        assert(models(path@).skip(k as int)[0] == path@[k as int]@);
        assert(models(path@).skip(k as int).drop_first() =~= models(path@).skip(k + 1));
        match child_with_key(cur, &path[k]) {
            Some(c) => {
                cur = c;
            },
            None => return Err(HoconError::KeyNotFound),
        }
        k = k + 1;
    }
    assert(models(path@).skip(k as int) =~= Seq::<Value>::empty());
    Ok(cur.duplicate())
}


// ---------------------------------------------------------------------------
// Substitution
// ---------------------------------------------------------------------------

/// How a document is loaded.
#[derive(Clone, Copy, Debug, PartialEq, Eq, Structural)]
pub struct Config {
    /// Errors stop the load instead of becoming bad values.
    pub strict: bool,
    /// A substitution that the document cannot resolve is looked up in the
    /// environment.
    pub system: bool,
}

pub open spec fn node_result(r: Result<Node, HoconError>) -> Result<NodeModel, HoconError> {
    match r {
        Ok(n) => Ok(n@),
        Err(e) => Err(e),
    }
}

pub open spec fn nodes_model(s: Seq<Node>) -> Seq<NodeModel> {
    s.map_values(|n: Node| n@)
}

/// The children that a substituted part adds to an object or array: a value
/// is one child keyed `0`, an object or array gives its children.
pub open spec fn node_children(n: NodeModel) -> Seq<ChildModel> {
    match n {
        NodeModel::Leaf(_) => seq![ChildModel { key: Value::Integer(0), value: n }],
        NodeModel::Node { children, .. } => children,
    }
}

pub open spec fn flat_children(nodes: Seq<NodeModel>) -> Seq<ChildModel>
    decreases nodes.len(),
{
    if nodes.len() == 0 {
        seq![]
    } else {
        flat_children(nodes.drop_last()) + node_children(nodes.last())
    }
}

/// A leaf holding an unquoted string that is all whitespace.
pub open spec fn is_blank_leaf(n: NodeModel) -> bool {
    n matches NodeModel::Leaf(v) && is_blank_unquoted(v)
}

/// The children from position `start` on, each keyed by its position; those
/// that are blank leaves are dropped (their positions stay unused).
pub open spec fn relabel(cs: Seq<ChildModel>, start: int) -> Seq<ChildModel>
    decreases cs.len(),
{
    if cs.len() == 0 {
        seq![]
    } else {
        (if is_blank_leaf(cs[0].value) {
            seq![]
        } else {
            seq![ChildModel { key: Value::Integer(start as i64), value: cs[0].value }]
        }) + relabel(cs.drop_first(), start + 1)
    }
}

pub open spec fn leaf_value(n: NodeModel) -> Value {
    match n {
        NodeModel::Leaf(v) => v,
        _ => Value::Temp,
    }
}

/// What the substituted parts of a concatenation become: when one of them
/// is an object or array, an array of all their children; otherwise the
/// concatenation of the values.
pub open spec fn combine_nodes(nodes: Seq<NodeModel>) -> NodeModel {
    if exists|i: int| 0 <= i < nodes.len() && nodes[i] is Node {
        NodeModel::Node { children: relabel(flat_children(nodes), 0), key_hint: None }
    } else {
        NodeModel::Leaf(Value::Concat(nodes.map_values(|n: NodeModel| leaf_value(n))))
    }
}

/// Every include inside `v` that substitution visits was found at most `n`
/// levels deep, so its path fits in a path of length `n`.
pub open spec fn includes_fit(v: Value, n: int) -> bool
    decreases v,
{
    match v {
        Value::Concat(vs) => includes_fit_all(vs, n),
        Value::Included { value, original_path, .. } => original_path.len() <= n && includes_fit(
            *value,
            n,
        ),
        _ => true,
    }
}

pub open spec fn includes_fit_all(vs: Seq<Value>, n: int) -> bool
    decreases vs,
{
    if vs.len() == 0 {
        true
    } else {
        includes_fit_all(vs.drop_last(), n) && includes_fit(vs.last(), n)
    }
}

/// The first pass over a value found at `at_path`: a substitution whose
/// target is in `tree` becomes that node; a concatenation is substituted
/// part by part and combined; empty objects and arrays become empty nodes;
/// an included value is looked up relative to where it was included first.
pub open spec fn spec_substitute(v: Value, config: Config, tree: NodeModel, at_path: Seq<Value>) -> Result<
    NodeModel,
    HoconError,
>
    decreases v, 0int,
{
    match v {
        Value::PathSubstitution { target, optional, original } => match spec_find_key(
            tree,
            path_of(*target),
        ) {
            Err(_) => Ok(NodeModel::Leaf(v)),
            Ok(NodeModel::Leaf(Value::BadValue(_))) => Ok(NodeModel::Leaf(v)),
            Ok(n) => Ok(n),
        },
        Value::Concat(values) => match spec_substitute_all(values, None, config, tree, at_path) {
            Err(e) => Err(e),
            Ok(nodes) => Ok(combine_nodes(nodes)),
        },
        Value::EmptyObject => Ok(NodeModel::Node { children: seq![], key_hint: Some(KeyType::String) }),
        Value::EmptyArray => Ok(NodeModel::Node { children: seq![], key_hint: Some(KeyType::Int) }),
        Value::Included { value, include_root, original_path } => spec_substitute_included(
            *value,
            include_root,
            original_path,
            config,
            tree,
            at_path,
        ),
        _ => Ok(NodeModel::Leaf(v)),
    }
}

/// The path that a substitution inside an include stands for: relative to
/// where the include was found.
pub open spec fn included_target(value: Value) -> Option<Value> {
    match value {
        Value::PathSubstitution { target, .. } => Some(*target),
        Value::PathSubstitutionInParent(t) => Some(*t),
        _ => None,
    }
}

/// The first pass over a value that came from an include.
pub open spec fn spec_substitute_included(
    value: Value,
    include_root: Option<Seq<Value>>,
    original_path: Seq<Value>,
    config: Config,
    tree: NodeModel,
    at_path: Seq<Value>,
) -> Result<NodeModel, HoconError>
    decreases value, 1int,
{
    let plain = match spec_substitute(value, config, tree, at_path) {
        Ok(NodeModel::Leaf(found)) => Ok(
            NodeModel::Leaf(
                Value::Included { value: Box::new(found), original_path, include_root },
            ),
        ),
        r => r,
    };
    match value {
        Value::Concat(values) => match spec_substitute_all(
            values,
            Some((include_root, original_path)),
            config,
            tree,
            at_path,
        ) {
            Err(e) => Err(e),
            Ok(nodes) => Ok(combine_nodes(nodes)),
        },
        _ => match included_target(value) {
            Some(path) => {
                let root_path = paths_of(at_path.take(at_path.len() - original_path.len()));
                match spec_find_key(tree, root_path + path_of(path)) {
                    Ok(n) => if is_bad_leaf(n) {
                        plain
                    } else {
                        Ok(n)
                    },
                    Err(_) => plain,
                }
            },
            None => plain,
        },
    }
}

pub open spec fn is_bad_leaf(n: NodeModel) -> bool {
    n matches NodeModel::Leaf(Value::BadValue(_))
}

/// The parts of a concatenation, substituted one by one (each wrapped as
/// included when `wrap` says so); an error stops the pass when processing
/// strictly and becomes a bad value otherwise.
pub open spec fn spec_substitute_all(
    vs: Seq<Value>,
    wrap: Option<(Option<Seq<Value>>, Seq<Value>)>,
    config: Config,
    tree: NodeModel,
    at_path: Seq<Value>,
) -> Result<Seq<NodeModel>, HoconError>
    decreases vs, 2int,
{
    if vs.len() == 0 {
        Ok(seq![])
    } else {
        match spec_substitute_all(vs.drop_last(), wrap, config, tree, at_path) {
            Err(e) => Err(e),
            Ok(ns) => {
                let r = match wrap {
                    None => spec_substitute(vs.last(), config, tree, at_path),
                    Some((ir, op)) => spec_substitute_included(
                        vs.last(),
                        ir,
                        op,
                        config,
                        tree,
                        at_path,
                    ),
                };
                match r {
                    Ok(n) => Ok(ns.push(n)),
                    Err(e) => if config.strict {
                        Err(e)
                    } else {
                        Ok(ns.push(NodeModel::Leaf(Value::BadValue(e))))
                    },
                }
            },
        }
    }
}


pub proof fn lemma_includes_fit_all(vs: Seq<Value>, n: int)
    requires
        includes_fit_all(vs, n),
    ensures
        forall|k: int| 0 <= k < vs.len() ==> includes_fit(#[trigger] vs[k], n),
    decreases vs.len(),
{
    if vs.len() > 0 {
        lemma_includes_fit_all(vs.drop_last(), n);
        assert forall|k: int| 0 <= k < vs.len() implies includes_fit(#[trigger] vs[k], n) by {
            if k < vs.len() - 1 {
                assert(vs[k] == vs.drop_last()[k]);
            }
        }
    }
}

pub proof fn lemma_substitute_all_err(
    vs: Seq<Value>,
    k: int,
    m: int,
    wrap: Option<(Option<Seq<Value>>, Seq<Value>)>,
    config: Config,
    tree: NodeModel,
    at_path: Seq<Value>,
    e: HoconError,
)
    requires
        0 <= k <= m <= vs.len(),
        spec_substitute_all(vs.take(k), wrap, config, tree, at_path) == Err::<Seq<NodeModel>, HoconError>(e),
    ensures
        spec_substitute_all(vs.take(m), wrap, config, tree, at_path) == Err::<Seq<NodeModel>, HoconError>(e),
    decreases m - k,
{
    if m > k {
        lemma_substitute_all_err(vs, k, m - 1, wrap, config, tree, at_path, e);
        assert(vs.take(m).drop_last() =~= vs.take(m - 1));
    }
}

pub open spec fn opt_models(r: Option<Vec<HoconValue>>) -> Option<Seq<Value>> {
    match r {
        Some(v) => Some(models(v@)),
        None => None,
    }
}

pub open spec fn wrap_model(wrap: Option<(&Option<Vec<HoconValue>>, &Vec<HoconValue>)>) -> Option<
    (Option<Seq<Value>>, Seq<Value>),
> {
    match wrap {
        Some((ir, op)) => Some((opt_models(*ir), models(op@))),
        None => None,
    }
}

fn duplicate_opt(r: &Option<Vec<HoconValue>>) -> (c: Option<Vec<HoconValue>>)
    ensures
        opt_models(c) == opt_models(*r),
{
    match r {
        Some(v) => Some(duplicate_all(v)),
        None => None,
    }
}

/// Whether a node is a leaf holding a bad value.
fn is_bad_node(n: &Node) -> (b: bool)
    ensures
        b == is_bad_leaf(n@),
{
    match n {
        Node::Leaf(HoconValue::BadValue(_)) => true,
        _ => false,
    }
}

/// Combines the substituted parts of a concatenation, as `combine_nodes` says.
pub fn combine(nodes: Vec<Node>) -> (r: Node)
    ensures
        r@ == combine_nodes(nodes_model(nodes@)),
{
    let ghost ns = nodes_model(nodes@);
    let mut any_node = false;
    let mut k: usize = 0;
    while k < nodes.len()
        invariant
            0 <= k <= nodes@.len(),
            ns == nodes_model(nodes@),
            any_node <==> exists|i: int| 0 <= i < k && ns[i] is Node,
        decreases nodes@.len() - k,
    {
        if let Node::Node { .. } = &nodes[k] {
            any_node = true;
            assert(ns[k as int] is Node);
        } else {
            assert(!(ns[k as int] is Node));
            assert forall|i: int| 0 <= i < k + 1 && ns[i] is Node implies 0 <= i < k by {}
        }
        k = k + 1;
    }
    if any_node {
        let mut flat: Vec<Child> = Vec::new();
        for n in iter: nodes.into_iter()
            invariant
                iter.seq() == nodes@,
                ns == nodes_model(nodes@),
                children_model(flat@) == flat_children(ns.take(iter.index() as int)),
        {
            assert(ns.take(iter.index() + 1).drop_last() =~= ns.take(iter.index() as int));
            match n {
                Node::Leaf(v) => {
                    let c = Child { key: HoconValue::Integer(0), value: Node::Leaf(v) };
                    proof { lemma_children_model_push(flat@, c); }
                    flat.push(c);
                    assert(children_model(flat@) =~= flat_children(
                        ns.take(iter.index() as int + 1),
                    ));
                },
                Node::Node { children, .. } => {
                    let mut cs = children;
                    proof {
                        lemma_children_model(flat@);
                        lemma_children_model(cs@);
                        lemma_children_model(flat@ + cs@);
                        assert(children_model(flat@ + cs@) =~= children_model(flat@)
                            + children_model(cs@));
                    }
                    flat.append(&mut cs);
                },
            }
        }
        assert(ns.take(ns.len() as int) =~= ns);
        let ghost fc = children_model(flat@);
        let mut out: Vec<Child> = Vec::new();
        let mut idx: usize = 0;
        let n = flat.len();
        proof { lemma_children_model(flat@); }
        assert(fc.skip(0) =~= fc);
        assert(children_model(out@) + relabel(fc, 0) =~= relabel(fc, 0));
        for c in iter: flat.into_iter()
            invariant
                iter.seq() == flat@,
                fc == children_model(flat@),
                fc.len() == flat@.len(),
                forall|i: int| 0 <= i < flat@.len() ==> #[trigger] fc[i] == child_model(flat@[i]),
                idx == iter.index(),
                n == flat@.len(),
                relabel(fc, 0) == children_model(out@) + relabel(fc.skip(idx as int), idx as int),
        {
            let ghost rest = fc.skip(idx as int);
            assert(rest.drop_first() =~= fc.skip(idx + 1));
            assert(rest[0] == child_model(c));
            let blank = match &c.value {
                Node::Leaf(HoconValue::UnquotedString(us)) => crate::value::blank(us.as_str()),
                _ => false,
            };
            assert(blank == is_blank_leaf(rest[0].value));
            if !blank {
                let k = Child { key: HoconValue::Integer(idx as i64), value: c.value };
                proof { lemma_children_model_push(out@, k); }
                out.push(k);
                assert(children_model(out@) + relabel(fc.skip(idx + 1), idx + 1) =~= children_model(
                    out@.drop_last(),
                ) + relabel(rest, idx as int));
            } else {
                assert(children_model(out@) + relabel(fc.skip(idx + 1), idx + 1) =~= children_model(
                    out@,
                ) + relabel(rest, idx as int));
            }
            idx = idx + 1;
        }
        assert(fc.skip(idx as int) =~= Seq::<ChildModel>::empty());
        assert(children_model(out@) + Seq::<ChildModel>::empty() =~= children_model(out@));
        Node::Node { children: out, key_hint: None }
    } else {
        let mut leaves: Vec<HoconValue> = Vec::new();
        for n in iter: nodes.into_iter()
            invariant
                iter.seq() == nodes@,
                ns == nodes_model(nodes@),
                forall|i: int| 0 <= i < ns.len() ==> !(ns[i] is Node),
                models(leaves@) == ns.take(iter.index() as int).map_values(
                    |n: NodeModel| leaf_value(n),
                ),
        {
            assert(!(ns[iter.index() as int] is Node));
            match n {
                Node::Leaf(v) => {
                    proof { crate::value::lemma_models_push(leaves@, v); }
                    leaves.push(v);
                    assert(models(leaves@) =~= ns.take(iter.index() as int + 1).map_values(
                        |n: NodeModel| leaf_value(n),
                    ));
                },
                Node::Node { .. } => {},
            }
        }
        assert(ns.take(ns.len() as int) =~= ns);
        Node::Leaf(HoconValue::Concat(leaves))
    }
}


impl HoconValue {
    /// The first pass over this value, found at `at_path` in `current_tree`,
    /// as `spec_substitute` says.
    pub fn substitute(&self, config: Config, current_tree: &Node, at_path: &Vec<HoconValue>) -> (r:
        Result<Node, HoconError>)
        requires
            includes_fit(self@, at_path@.len() as int),
        ensures
            node_result(r) == spec_substitute(self@, config, current_tree@, models(at_path@)),
        decreases self, 0int,
    {
        match self {
            HoconValue::PathSubstitution { target, .. } => {
                let p = target.to_path();
                match find_key(current_tree, &p) {
                    Err(_) => Ok(Node::Leaf(self.duplicate())),
                    Ok(n) => {
                        if is_bad_node(&n) {
                            Ok(Node::Leaf(self.duplicate()))
                        } else {
                            Ok(n)
                        }
                    },
                }
            },
            HoconValue::Concat(values) => {
                match substitute_all(values, None, config, current_tree, at_path) {
                    Err(e) => Err(e),
                    Ok(nodes) => Ok(combine(nodes)),
                }
            },
            HoconValue::EmptyObject => Ok(
                Node::Node { children: Vec::new(), key_hint: Some(KeyType::String) },
            ),
            HoconValue::EmptyArray => Ok(
                Node::Node { children: Vec::new(), key_hint: Some(KeyType::Int) },
            ),
            HoconValue::Included { value, include_root, original_path } => {
                proof { crate::value::lemma_models(original_path@); }
                substitute_included(
                value,
                include_root,
                original_path,
                config,
                current_tree,
                at_path,
            )
            },
            _ => Ok(Node::Leaf(self.duplicate())),
        }
    }
}

/// The first pass over a value that came from an include, as
/// `spec_substitute_included` says.
fn substitute_included(
    value: &HoconValue,
    include_root: &Option<Vec<HoconValue>>,
    original_path: &Vec<HoconValue>,
    config: Config,
    current_tree: &Node,
    at_path: &Vec<HoconValue>,
) -> (r: Result<Node, HoconError>)
    requires
        includes_fit(value@, at_path@.len() as int),
        original_path@.len() <= at_path@.len(),
    ensures
        node_result(r) == spec_substitute_included(
            value@,
            opt_models(*include_root),
            models(original_path@),
            config,
            current_tree@,
            models(at_path@),
        ),
    decreases value, 1int,
{
    proof {
        crate::value::lemma_models(original_path@);
        crate::value::lemma_models(at_path@);
    }
    if let HoconValue::Concat(values) = value {
        return match substitute_all(
            values,
            Some((include_root, original_path)),
            config,
            current_tree,
            at_path,
        ) {
            Err(e) => Err(e),
            Ok(nodes) => Ok(combine(nodes)),
        };
    }
    let direct: Option<&HoconValue> = match value {
        HoconValue::PathSubstitution { target, .. } => Some(&**target),
        HoconValue::PathSubstitutionInParent(t) => Some(&**t),
        _ => None,
    };
    if let Some(path) = direct {
        let keep = at_path.len() - original_path.len();
        let mut prefix: Vec<HoconValue> = Vec::new();
        let mut k: usize = 0;
        while k < keep
            invariant
                0 <= k <= keep <= at_path@.len(),
                models(prefix@) == models(at_path@.take(k as int)),
            decreases keep - k,
        {
            let x = at_path[k].duplicate();
            proof {
                crate::value::lemma_models_push(prefix@, x);
                crate::value::lemma_models_push(at_path@.take(k as int), at_path@[k as int]);
                assert(at_path@.take(k as int).push(at_path@[k as int]) =~= at_path@.take(k + 1));
            }
            prefix.push(x);
            k = k + 1;
        }
        let mut fixed = paths_of_values(&prefix);
        let mut tail = path.to_path();
        proof {
            crate::value::lemma_models_add(fixed@, tail@);
            crate::value::lemma_models(at_path@.take(keep as int));
            assert(models(at_path@.take(keep as int)) =~= models(at_path@).take(
                models(at_path@).len() - models(original_path@).len(),
            ));
        }
        fixed.append(&mut tail);
        match find_key(current_tree, &fixed) {
            Ok(n) => {
                if !is_bad_node(&n) {
                    return Ok(n);
                }
            },
            Err(_) => {},
        }
    }
    match value.substitute(config, current_tree, at_path) {
        Ok(Node::Leaf(found)) => Ok(
            Node::Leaf(
                HoconValue::Included {
                    value: Box::new(found),
                    original_path: duplicate_all(original_path),
                    include_root: duplicate_opt(include_root),
                },
            ),
        ),
        r => r,
    }
}

/// The parts of a concatenation, substituted one by one, as
/// `spec_substitute_all` says.
fn substitute_all(
    vs: &Vec<HoconValue>,
    wrap: Option<(&Option<Vec<HoconValue>>, &Vec<HoconValue>)>,
    config: Config,
    current_tree: &Node,
    at_path: &Vec<HoconValue>,
) -> (r: Result<Vec<Node>, HoconError>)
    requires
        includes_fit_all(models(vs@), at_path@.len() as int),
        wrap matches Some((_, op)) ==> op@.len() <= at_path@.len(),
    ensures
        match r {
            Ok(ns) => spec_substitute_all(
                models(vs@),
                wrap_model(wrap),
                config,
                current_tree@,
                models(at_path@),
            ) == Ok::<Seq<NodeModel>, HoconError>(nodes_model(ns@)),
            Err(e) => spec_substitute_all(
                models(vs@),
                wrap_model(wrap),
                config,
                current_tree@,
                models(at_path@),
            ) == Err::<Seq<NodeModel>, HoconError>(e),
        },
    decreases vs, 2int,
{
    let ghost ms = models(vs@);
    proof {
        crate::value::lemma_models(vs@);
        lemma_includes_fit_all(ms, at_path@.len() as int);
    }
    let mut out: Vec<Node> = Vec::new();
    let mut k: usize = 0;
    assert(ms.take(0) =~= Seq::<Value>::empty());
    assert(nodes_model(out@) =~= Seq::<NodeModel>::empty());
    while k < vs.len()
        invariant
            0 <= k <= vs@.len(),
            ms == models(vs@),
            ms.len() == vs@.len(),
            forall|i: int| 0 <= i < vs@.len() ==> #[trigger] ms[i] == vs@[i]@,
            forall|i: int| 0 <= i < ms.len() ==> includes_fit(#[trigger] ms[i], at_path@.len() as int),
            wrap matches Some((_, op)) ==> op@.len() <= at_path@.len(),
            spec_substitute_all(
                ms.take(k as int),
                wrap_model(wrap),
                config,
                current_tree@,
                models(at_path@),
            ) == Ok::<Seq<NodeModel>, HoconError>(nodes_model(out@)),
        decreases vs@.len() - k,
    {
        assert(ms.take(k + 1).drop_last() =~= ms.take(k as int));
        assert(ms.take(k + 1).last() == vs@[k as int]@);
        assert(includes_fit(ms[k as int], at_path@.len() as int));
        let r = match wrap {
            None => vs[k].substitute(config, current_tree, at_path),
            Some((ir, op)) => substitute_included(&vs[k], ir, op, config, current_tree, at_path),
        };
        match r {
            Ok(n) => {
                assert(nodes_model(out@.push(n)) =~= nodes_model(out@).push(n@));
                out.push(n);
            },
            Err(e) => {
                if config.strict {
                    proof {
                        lemma_substitute_all_err(
                            ms,
                            k + 1,
                            ms.len() as int,
                            wrap_model(wrap),
                            config,
                            current_tree@,
                            models(at_path@),
                            e,
                        );
                        assert(ms.take(ms.len() as int) =~= ms);
                    }
                    return Err(e);
                }
                let n = Node::Leaf(HoconValue::BadValue(e));
                assert(nodes_model(out@.push(n)) =~= nodes_model(out@).push(n@));
                out.push(n);
            },
        }
        k = k + 1;
    }
    assert(ms.take(k as int) =~= ms);
    Ok(out)
}


// ---------------------------------------------------------------------------
// The finished document
// ---------------------------------------------------------------------------

/// A finished HOCON document or part of one.
#[derive(Debug, PartialEq)]
pub enum Hocon {
    /// A number that does not fit an `i64`, held by its text.
    Real(String),
    Integer(i64),
    String(String),
    Boolean(bool),
    Array(Vec<Hocon>),
    /// The fields of an object, in the order of the document.
    Hash(Vec<(String, Hocon)>),
    Null,
    /// A value that could not be resolved (when not loading strictly).
    BadValue(HoconError),
}

pub enum HoconModel {
    Real(Seq<char>),
    Integer(i64),
    String(Seq<char>),
    Boolean(bool),
    Array(Seq<HoconModel>),
    Hash(Seq<(Seq<char>, HoconModel)>),
    Null,
    BadValue(HoconError),
}

pub open spec fn hocon_model(h: Hocon) -> HoconModel
    decreases h,
{
    match h {
        Hocon::Real(t) => HoconModel::Real(t@),
        Hocon::Integer(i) => HoconModel::Integer(i),
        Hocon::String(t) => HoconModel::String(t@),
        Hocon::Boolean(b) => HoconModel::Boolean(b),
        Hocon::Array(vs) => HoconModel::Array(hocons_model(vs@)),
        Hocon::Hash(fs) => HoconModel::Hash(fields_model(fs@)),
        Hocon::Null => HoconModel::Null,
        Hocon::BadValue(e) => HoconModel::BadValue(e),
    }
}

pub open spec fn hocons_model(s: Seq<Hocon>) -> Seq<HoconModel>
    decreases s,
{
    if s.len() == 0 {
        seq![]
    } else {
        hocons_model(s.drop_last()).push(hocon_model(s.last()))
    }
}

pub open spec fn fields_model(s: Seq<(String, Hocon)>) -> Seq<(Seq<char>, HoconModel)>
    decreases s,
{
    if s.len() == 0 {
        seq![]
    } else {
        fields_model(s.drop_last()).push((s.last().0@, hocon_model(s.last().1)))
    }
}

impl View for Hocon {
    type V = HoconModel;

    open spec fn view(&self) -> HoconModel {
        hocon_model(*self)
    }
}

pub proof fn lemma_hocons_model_push(s: Seq<Hocon>, h: Hocon)
    ensures
        hocons_model(s.push(h)) == hocons_model(s).push(hocon_model(h)),
{
    assert(s.push(h).drop_last() =~= s);
}

pub proof fn lemma_fields_model_push(s: Seq<(String, Hocon)>, f: (String, Hocon))
    ensures
        fields_model(s.push(f)) == fields_model(s).push((f.0@, hocon_model(f.1))),
{
    assert(s.push(f).drop_last() =~= s);
}

pub open spec fn hocon_result(r: Result<Hocon, HoconError>) -> Result<HoconModel, HoconError> {
    match r {
        Ok(h) => Ok(h@),
        Err(e) => Err(e),
    }
}

// ---------------------------------------------------------------------------
// Finalisation: specification
// ---------------------------------------------------------------------------

/// How much finalisation may visit inside a value without following a
/// substitution.
pub open spec fn value_size(v: Value) -> nat
    decreases v,
{
    match v {
        Value::Concat(vs) => 1 + values_size(vs),
        Value::PathSubstitution { original, .. } => match original {
            Some(o) => 1 + value_size(*o),
            None => 1,
        },
        Value::Included { value, .. } => 1 + value_size(*value),
        _ => 1,
    }
}

pub open spec fn values_size(vs: Seq<Value>) -> nat
    decreases vs,
{
    if vs.len() == 0 {
        0
    } else {
        values_size(vs.drop_last()) + value_size(vs.last())
    }
}

pub open spec fn node_size(n: NodeModel) -> nat
    decreases n,
{
    match n {
        NodeModel::Leaf(v) => 1 + value_size(v),
        NodeModel::Node { children, .. } => 1 + children_size(children),
    }
}

pub open spec fn children_size(cs: Seq<ChildModel>) -> nat
    decreases cs,
{
    if cs.len() == 0 {
        0
    } else {
        children_size(cs.drop_last()) + node_size(cs.last().value)
    }
}

/// An error stops a strict load, and is a bad value otherwise.
pub open spec fn bad_or_err(config: Config, e: HoconError) -> Result<HoconModel, HoconError> {
    if config.strict {
        Err(e)
    } else {
        Ok(HoconModel::BadValue(e))
    }
}

/// An unquoted string: `null` is null; other text is a string, trimmed
/// unless it is part of a concatenation.
pub open spec fn finalize_unquoted(t: Seq<char>, in_concat: bool) -> HoconModel {
    if t == seq!['n', 'u', 'l', 'l'] {
        HoconModel::Null
    } else if in_concat {
        HoconModel::String(t)
    } else {
        HoconModel::String(trim(t))
    }
}

/// The text that a finished value contributes to a concatenation: strings,
/// integers, numbers, booleans and null give their text; arrays, objects and
/// bad values give none.
pub open spec fn internal_string(h: HoconModel) -> Option<Seq<char>> {
    match h {
        HoconModel::String(t) => Some(t),
        HoconModel::Integer(i) => Some(decimal(i as int)),
        HoconModel::Real(t) => Some(t),
        HoconModel::Boolean(b) => Some(
            if b {
                seq!['t', 'r', 'u', 'e']
            } else {
                seq!['f', 'a', 'l', 's', 'e']
            },
        ),
        HoconModel::Null => Some(seq!['n', 'u', 'l', 'l']),
        _ => None,
    }
}

/// The texts of path elements joined with dots (the name of an environment
/// variable).
pub open spec fn join_names(path: Seq<Value>) -> Seq<char>
    decreases path.len(),
{
    if path.len() == 0 {
        seq![]
    } else if path.len() == 1 {
        string_value_spec(path[0])
    } else {
        join_names(path.drop_last()) + seq!['.'] + string_value_spec(path.last())
    }
}

/// The value of the environment variable `name`, when it is set.
pub open spec fn env_lookup(env: Seq<(Seq<char>, Seq<char>)>, name: Seq<char>) -> Option<Seq<char>>
    decreases env.len(),
{
    if env.len() == 0 {
        None
    } else if env[0].0 == name {
        Some(env[0].1)
    } else {
        env_lookup(env.drop_first(), name)
    }
}

/// Two paths with the same length whose elements are equal as keys.
pub open spec fn paths_eq(a: Seq<Value>, b: Seq<Value>) -> bool {
    a.len() == b.len() && forall|i: int| 0 <= i < a.len() ==> key_eq(#[trigger] a[i], b[i])
}

pub open spec fn node_is_array(children: Seq<ChildModel>, key_hint: Option<KeyType>) -> bool {
    if children.len() == 0 {
        key_hint == Some(KeyType::Int)
    } else {
        forall|i: int| 0 <= i < children.len() ==> #[trigger] children[i].key is Integer
    }
}

/// The text of a key; keys that have none give the empty text.
pub open spec fn key_text(k: Value) -> Seq<char> {
    if has_string_value(k) {
        string_value_spec(k)
    } else {
        seq![]
    }
}

/// The second pass: the finished value that `v` stands for in the document
/// `root`. A substitution is looked up (relative to the include it came
/// from, if any) and its target finished in turn, at most `budget` levels
/// deep; one that points at the path being resolved is null; one that
/// cannot be resolved is looked up in `env` when `config.system` (a path
/// with an element that has no text cannot be named there, and is
/// unsupported), then falls back to the value it replaced when it is
/// optional, and is an error (or a bad value) otherwise.
pub open spec fn spec_finalize(
    v: Value,
    root: NodeModel,
    config: Config,
    in_concat: bool,
    included_path: Option<Seq<Value>>,
    substituting_path: Option<Seq<Value>>,
    env: Seq<(Seq<char>, Seq<char>)>,
    budget: nat,
) -> Result<HoconModel, HoconError>
    decreases budget, value_size(v), 1int,
{
    match v {
        Value::Null(_) => Ok(HoconModel::Null),
        Value::BadValue(e) => bad_or_err(config, e),
        Value::Boolean(b) => Ok(HoconModel::Boolean(b)),
        Value::Integer(i) => Ok(HoconModel::Integer(i)),
        Value::Real(t) => Ok(HoconModel::Real(t)),
        Value::String(t) => Ok(HoconModel::String(t)),
        Value::UnquotedString(t) => Ok(finalize_unquoted(t, in_concat)),
        Value::Concat(values) => Ok(
            HoconModel::String(
                spec_concat_text(
                    values,
                    values.len() as int,
                    root,
                    config,
                    included_path,
                    substituting_path,
                    env,
                    budget,
                ),
            ),
        ),
        Value::PathSubstitution { target, optional, original } => {
            let fixed = match included_path {
                Some(ip) => paths_of(ip) + path_of(*target),
                None => path_of(*target),
            };
            if substituting_path matches Some(sp) && paths_eq(fixed, sp) {
                Ok(HoconModel::Null)
            } else {
                let found = match spec_find_key(root, fixed) {
                    Err(e) => Err(e),
                    Ok(n) => if budget == 0 {
                        Err(HoconError::TooDeep)
                    } else {
                        spec_finalize_node(
                            n,
                            root,
                            config,
                            included_path,
                            Some(fixed),
                            env,
                            (budget - 1) as nat,
                        )
                    },
                };
                let failed = match found {
                    Err(e) => Some(e),
                    Ok(HoconModel::BadValue(e)) => Some(e),
                    _ => None,
                };
                match failed {
                    Some(err) => if config.system && !names_ok(path_of(*target)) {
                        Err(HoconError::Unsupported)
                    } else if config.system {
                        match env_lookup(env, join_names(path_of(*target))) {
                            Some(val) => Ok(HoconModel::String(val)),
                            None => match original {
                                Some(o) => if optional {
                                    spec_finalize(
                                        *o,
                                        root,
                                        config,
                                        in_concat,
                                        included_path,
                                        substituting_path,
                                        env,
                                        budget,
                                    )
                                } else {
                                    bad_or_err(config, err)
                                },
                                None => bad_or_err(config, err),
                            },
                        }
                    } else if config.strict {
                        Err(err)
                    } else {
                        found
                    },
                    None => found,
                }
            }
        },
        Value::Included { value, include_root, .. } => spec_finalize(
            *value,
            root,
            config,
            in_concat,
            include_root,
            None,
            env,
            budget,
        ),
        _ => Ok(HoconModel::Null),
    }
}

/// The path a substitution looks up: relative to the include it came from,
/// if any.
pub open spec fn lookup_path(included_path: Option<Seq<Value>>, target: Value) -> Seq<Value> {
    match included_path {
        Some(ip) => paths_of(ip) + path_of(target),
        None => path_of(target),
    }
}

/// A missing optional substitution keeps the previous value of the key:
/// when neither the document nor the environment holds anything for a path
/// whose elements all have text, it
/// is finished as the value it replaced is, whatever that value is (a
/// concatenation or another substitution included).
pub proof fn lemma_optional_fallback(
    target: Value,
    previous: Value,
    root: NodeModel,
    config: Config,
    in_concat: bool,
    included_path: Option<Seq<Value>>,
    substituting_path: Option<Seq<Value>>,
    env: Seq<(Seq<char>, Seq<char>)>,
    budget: nat,
)
    requires
        config.system,
        names_ok(path_of(target)),
        spec_find_key(root, lookup_path(included_path, target)) is Err,
        env_lookup(env, join_names(path_of(target))) is None,
        !(substituting_path matches Some(sp) && paths_eq(lookup_path(included_path, target), sp)),
    ensures
        spec_finalize(
            Value::PathSubstitution {
                target: Box::new(target),
                optional: true,
                original: Some(Box::new(previous)),
            },
            root,
            config,
            in_concat,
            included_path,
            substituting_path,
            env,
            budget,
        ) == spec_finalize(
            previous,
            root,
            config,
            in_concat,
            included_path,
            substituting_path,
            env,
            budget,
        ),
{
}

/// A substitution whose target the document holds is finished as that
/// target is, looked up from the root, unless that fails or gives a bad
/// value.
pub proof fn lemma_substitution_resolves(
    target: Value,
    optional: bool,
    original: Option<Box<Value>>,
    root: NodeModel,
    config: Config,
    in_concat: bool,
    included_path: Option<Seq<Value>>,
    substituting_path: Option<Seq<Value>>,
    env: Seq<(Seq<char>, Seq<char>)>,
    budget: nat,
    found: NodeModel,
    h: HoconModel,
)
    requires
        budget > 0,
        spec_find_key(root, lookup_path(included_path, target)) == Ok::<NodeModel, HoconError>(found),
        !(substituting_path matches Some(sp) && paths_eq(lookup_path(included_path, target), sp)),
        spec_finalize_node(
            found,
            root,
            config,
            included_path,
            Some(lookup_path(included_path, target)),
            env,
            (budget - 1) as nat,
        ) == Ok::<HoconModel, HoconError>(h),
        !(h is BadValue),
    ensures
        spec_finalize(
            Value::PathSubstitution { target: Box::new(target), optional, original },
            root,
            config,
            in_concat,
            included_path,
            substituting_path,
            env,
            budget,
        ) == Ok::<HoconModel, HoconError>(h),
{
}

/// The text of a concatenation's first `values.len()` parts (of `n`): the
/// first part's leading and the last part's trailing whitespace is dropped
/// when they are unquoted strings; parts that fail or give no text are left
/// out.
pub open spec fn spec_concat_text(
    values: Seq<Value>,
    n: int,
    root: NodeModel,
    config: Config,
    included_path: Option<Seq<Value>>,
    substituting_path: Option<Seq<Value>>,
    env: Seq<(Seq<char>, Seq<char>)>,
    budget: nat,
) -> Seq<char>
    decreases budget, values_size(values), 2int,
{
    if values.len() == 0 {
        seq![]
    } else {
        let k = values.len() - 1;
        let part = values.last();
        let r = match part {
            Value::UnquotedString(t) => if k == 0 {
                Ok(finalize_unquoted(trim_start(t), true))
            } else if k == n - 1 {
                Ok(finalize_unquoted(trim_end(t), true))
            } else {
                Ok(finalize_unquoted(t, true))
            },
            _ => spec_finalize(
                part,
                root,
                config,
                true,
                included_path,
                substituting_path,
                env,
                budget,
            ),
        };
        spec_concat_text(
            values.drop_last(),
            n,
            root,
            config,
            included_path,
            substituting_path,
            env,
            budget,
        ) + match r {
            Ok(h) => match internal_string(h) {
                Some(t) => t,
                None => seq![],
            },
            Err(_) => seq![],
        }
    }
}

/// A finished node: a value is finished as above; an object whose keys are
/// all indices (or an empty array) is an array of its finished children, any
/// other object a hash of its keys' texts and finished children.
pub open spec fn spec_finalize_node(
    n: NodeModel,
    root: NodeModel,
    config: Config,
    included_path: Option<Seq<Value>>,
    substituting_path: Option<Seq<Value>>,
    env: Seq<(Seq<char>, Seq<char>)>,
    budget: nat,
) -> Result<HoconModel, HoconError>
    decreases budget, node_size(n), 1int,
{
    match n {
        NodeModel::Leaf(v) => {
            spec_finalize(
            v,
            root,
            config,
            false,
            included_path,
            substituting_path,
            env,
            budget,
        )
        },
        NodeModel::Node { children, key_hint } => match spec_finalize_children(
            children,
            root,
            config,
            included_path,
            substituting_path,
            env,
            budget,
        ) {
            Err(e) => Err(e),
            Ok(hs) => if node_is_array(children, key_hint) {
                Ok(HoconModel::Array(hs))
            } else {
                Ok(
                    HoconModel::Hash(
                        Seq::new(children.len(), |i: int| (key_text(children[i].key), hs[i])),
                    ),
                )
            },
        },
    }
}

/// The finished values of children, in order; the first error stops.
pub open spec fn spec_finalize_children(
    cs: Seq<ChildModel>,
    root: NodeModel,
    config: Config,
    included_path: Option<Seq<Value>>,
    substituting_path: Option<Seq<Value>>,
    env: Seq<(Seq<char>, Seq<char>)>,
    budget: nat,
) -> Result<Seq<HoconModel>, HoconError>
    decreases budget, children_size(cs), 2int,
{
    if cs.len() == 0 {
        Ok(seq![])
    } else {
        proof {
            assert(children_size(cs) == children_size(cs.drop_last()) + node_size(cs.last().value));
            assert(node_size(cs.last().value) >= 1);
        }
        match spec_finalize_children(
            cs.drop_last(),
            root,
            config,
            included_path,
            substituting_path,
            env,
            budget,
        ) {
            Err(e) => Err(e),
            Ok(hs) => match spec_finalize_node(
                cs.last().value,
                root,
                config,
                included_path,
                substituting_path,
                env,
                budget,
            ) {
                Err(e) => Err(e),
                Ok(h) => Ok(hs.push(h)),
            },
        }
    }
}


// ---------------------------------------------------------------------------
// Finalisation: what it may be applied to
// ---------------------------------------------------------------------------

/// A value that finalisation can finish: it holds no placeholder that the
/// first pass should have replaced.
pub open spec fn finalizable(v: Value) -> bool
    decreases v,
{
    match v {
        Value::Temp => false,
        Value::EmptyObject => false,
        Value::EmptyArray => false,
        Value::PathSubstitutionInParent(_) => false,
        Value::ToConcatToArray { .. } => false,
        Value::Concat(vs) => all_finalizable(vs),
        Value::PathSubstitution { original, .. } => match original {
            Some(o) => finalizable(*o),
            None => true,
        },
        Value::Included { value, .. } => finalizable(*value),
        _ => true,
    }
}

pub open spec fn all_finalizable(vs: Seq<Value>) -> bool
    decreases vs,
{
    if vs.len() == 0 {
        true
    } else {
        all_finalizable(vs.drop_last()) && finalizable(vs.last())
    }
}

pub open spec fn names_ok(p: Seq<Value>) -> bool {
    forall|i: int| 0 <= i < p.len() ==> has_string_value(#[trigger] p[i])
}

/// Every leaf of the tree is finalizable.
pub open spec fn tree_finalizable(n: NodeModel) -> bool
    decreases n,
{
    match n {
        NodeModel::Leaf(v) => finalizable(v),
        NodeModel::Node { children, .. } => children_finalizable(children),
    }
}

pub open spec fn children_finalizable(cs: Seq<ChildModel>) -> bool
    decreases cs,
{
    if cs.len() == 0 {
        true
    } else {
        children_finalizable(cs.drop_last()) && tree_finalizable(cs.last().value)
    }
}

pub proof fn lemma_all_finalizable(vs: Seq<Value>)
    requires
        all_finalizable(vs),
    ensures
        forall|k: int| 0 <= k < vs.len() ==> finalizable(#[trigger] vs[k]),
        forall|k: int| 0 <= k < vs.len() ==> value_size(#[trigger] vs[k]) <= values_size(vs),
    decreases vs.len(),
{
    if vs.len() > 0 {
        lemma_all_finalizable(vs.drop_last());
        assert forall|k: int| 0 <= k < vs.len() implies finalizable(#[trigger] vs[k]) && value_size(vs[k]) <= values_size(vs) by {
            if k < vs.len() - 1 {
                assert(vs[k] == vs.drop_last()[k]);
            }
        }
    }
}

pub proof fn lemma_children_finalizable(cs: Seq<ChildModel>)
    requires
        children_finalizable(cs),
    ensures
        forall|k: int| 0 <= k < cs.len() ==> tree_finalizable(#[trigger] cs[k].value),
        forall|k: int| 0 <= k < cs.len() ==> node_size(#[trigger] cs[k].value) <= children_size(cs),
    decreases cs.len(),
{
    if cs.len() > 0 {
        lemma_children_finalizable(cs.drop_last());
        assert forall|k: int| 0 <= k < cs.len() implies tree_finalizable(#[trigger] cs[k].value) && node_size(cs[k].value) <= children_size(cs) by {
            if k < cs.len() - 1 {
                assert(cs[k] == cs.drop_last()[k]);
            }
        }
    }
}

proof fn lemma_find_child_finalizable(cs: Seq<ChildModel>, k: Value)
    requires
        children_finalizable(cs),
    ensures
        find_child(cs, k) matches Some(n) ==> tree_finalizable(n),
    decreases cs.len(),
{
    if cs.len() > 0 {
        lemma_find_child_finalizable(cs.drop_last(), k);
    }
}

/// A node found in a finalizable tree is finalizable.
pub proof fn lemma_find_key_finalizable(n: NodeModel, path: Seq<Value>)
    requires
        tree_finalizable(n),
    ensures
        spec_find_key(n, path) matches Ok(m) ==> tree_finalizable(m),
    decreases path.len(),
{
    if path.len() > 0 {
        match n {
            NodeModel::Leaf(_) => {},
            NodeModel::Node { children, .. } => {
                lemma_find_child_finalizable(children, path[0]);
                match find_child(children, path[0]) {
                    Some(c) => lemma_find_key_finalizable(c, path.drop_first()),
                    None => {},
                }
            },
        }
    }
}

// ---------------------------------------------------------------------------
// Finalisation: code
// ---------------------------------------------------------------------------

pub open spec fn env_model(env: Seq<(String, String)>) -> Seq<(Seq<char>, Seq<char>)> {
    env.map_values(|p: (String, String)| (p.0@, p.1@))
}

/// The value of the variable `name` in `env`.
pub fn env_lookup_exec(env: &Vec<(String, String)>, name: &String) -> (r: Option<String>)
    ensures
        match r {
            Some(v) => env_lookup(env_model(env@), name@) == Some(v@),
            None => env_lookup(env_model(env@), name@) is None,
        },
{
    let ghost em = env_model(env@);
    let mut k: usize = 0;
    assert(em.skip(0) =~= em);
    while k < env.len()
        invariant
            0 <= k <= env@.len(),
            em == env_model(env@),
            env_lookup(em, name@) == env_lookup(em.skip(k as int), name@),
        decreases env@.len() - k,
    {
        assert(em.skip(k as int)[0] == (env@[k as int].0@, env@[k as int].1@));
        assert(em.skip(k as int).drop_first() =~= em.skip(k + 1));
        if env[k].0 == *name {
            return Some(env[k].1.clone());
        }
        k = k + 1;
    }
    assert(em.skip(k as int) =~= Seq::<(Seq<char>, Seq<char>)>::empty());
    None
}

/// The texts of a path's elements joined with dots.
fn join_names_exec(path: &Vec<HoconValue>) -> (r: String)
    requires
        names_ok(models(path@)),
    ensures
        r@ == join_names(models(path@)),
{
    proof { crate::value::lemma_models(path@); }
    let ghost ms = models(path@);
    let mut out: Vec<char> = Vec::new();
    let mut k: usize = 0;
    while k < path.len()
        invariant
            0 <= k <= path@.len(),
            ms == models(path@),
            ms.len() == path@.len(),
            forall|i: int| 0 <= i < path@.len() ==> #[trigger] ms[i] == path@[i]@,
            names_ok(ms),
            out@ == join_names(ms.take(k as int)),
        decreases path@.len() - k,
    {
        assert(has_string_value(ms[k as int]));
        let text = chars_of(path[k].duplicate().string_value().as_str());
        assert(ms.take(k + 1).drop_last() =~= ms.take(k as int));
        if k > 0 {
            out.push('.');
        }
        let ghost before = out@;
        let mut t = text;
        out.append(&mut t);
        assert(out@ =~= join_names(ms.take(k + 1)));
        k = k + 1;
    }
    assert(ms.take(k as int) =~= ms);
    string_from_chars(out.as_slice())
}

/// Whether two paths are equal element by element.
pub(crate) fn paths_equal(a: &Vec<HoconValue>, b: &Vec<HoconValue>) -> (r: bool)
    ensures
        r == paths_eq(models(a@), models(b@)),
{
    proof {
        crate::value::lemma_models(a@);
        crate::value::lemma_models(b@);
    }
    if a.len() != b.len() {
        return false;
    }
    let mut k: usize = 0;
    while k < a.len()
        invariant
            0 <= k <= a@.len(),
            a@.len() == b@.len(),
            models(a@).len() == a@.len(),
            models(b@).len() == b@.len(),
            forall|i: int| 0 <= i < a@.len() ==> #[trigger] models(a@)[i] == a@[i]@,
            forall|i: int| 0 <= i < b@.len() ==> #[trigger] models(b@)[i] == b@[i]@,
            forall|i: int| 0 <= i < k ==> key_eq(#[trigger] models(a@)[i], models(b@)[i]),
        decreases a@.len() - k,
    {
        if !(a[k] == b[k]) {
            assert(!key_eq(models(a@)[k as int], models(b@)[k as int]));
            return false;
        }
        k = k + 1;
    }
    true
}

/// The finished form of an unquoted string.
fn finalize_unquoted_exec(t: &[char], in_concat: bool) -> (r: Hocon)
    ensures
        r@ == finalize_unquoted(t@, in_concat),
{
    let null: &[char] = &['n', 'u', 'l', 'l'];
    assert(null@ =~= seq!['n', 'u', 'l', 'l']);
    if t.len() == 4 && crate::lexer::has_prefix(t, 0, null) {
        assert(t@ =~= t@.subrange(0, 4));
        return Hocon::Null;
    }
    assert(t@ != seq!['n', 'u', 'l', 'l']) by {
        if t@ == seq!['n', 'u', 'l', 'l'] {
            assert(t@.subrange(0, 4) =~= t@);
        }
    }
    if in_concat {
        Hocon::String(string_from_chars(t))
    } else {
        Hocon::String(string_from_chars(trim_chars(t).as_slice()))
    }
}

/// The text a finished value contributes to a concatenation.
fn internal_string_exec(h: &Hocon) -> (r: Option<Vec<char>>)
    ensures
        match r {
            Some(t) => internal_string(h@) == Some(t@),
            None => internal_string(h@) is None,
        },
{
    match h {
        Hocon::String(t) => Some(chars_of(t.as_str())),
        Hocon::Integer(i) => Some(decimal_chars(*i)),
        Hocon::Real(t) => Some(chars_of(t.as_str())),
        Hocon::Boolean(b) => {
            let mut v: Vec<char> = Vec::new();
            if *b {
                v.push('t');
                v.push('r');
                v.push('u');
                v.push('e');
                assert(v@ =~= seq!['t', 'r', 'u', 'e']);
            } else {
                v.push('f');
                v.push('a');
                v.push('l');
                v.push('s');
                v.push('e');
                assert(v@ =~= seq!['f', 'a', 'l', 's', 'e']);
            }
            Some(v)
        },
        Hocon::Null => {
            let mut v: Vec<char> = Vec::new();
            v.push('n');
            v.push('u');
            v.push('l');
            v.push('l');
            assert(v@ =~= seq!['n', 'u', 'l', 'l']);
            Some(v)
        },
        _ => None,
    }
}

fn bad_or_err_exec(config: Config, e: HoconError) -> (r: Result<Hocon, HoconError>)
    ensures
        hocon_result(r) == bad_or_err(config, e),
{
    if config.strict {
        Err(e)
    } else {
        Ok(Hocon::BadValue(e))
    }
}

fn key_text_exec(k: &HoconValue) -> (r: String)
    ensures
        r@ == key_text(k@),
{
    match k {
        HoconValue::String(_) | HoconValue::UnquotedString(_) | HoconValue::Null(_)
        | HoconValue::Integer(_) => k.duplicate().string_value(),
        _ => String::new(),
    }
}

impl HoconValue {
    /// The finished value that this value stands for in `root`, as
    /// `spec_finalize` says.
    pub fn finalize(
        &self,
        root: &Node,
        config: Config,
        in_concat: bool,
        included_path: &Option<Vec<HoconValue>>,
        substituting_path: &Option<Vec<HoconValue>>,
        env: &Vec<(String, String)>,
        budget: usize,
    ) -> (r: Result<Hocon, HoconError>)
        requires
            finalizable(self@),
            tree_finalizable(root@),
        ensures
            hocon_result(r) == spec_finalize(
                self@,
                root@,
                config,
                in_concat,
                crate::tree::opt_models(*included_path),
                crate::tree::opt_models(*substituting_path),
                env_model(env@),
                budget as nat,
            ),
        decreases budget, value_size(self@), 1int,
    {
        match self {
            HoconValue::Null(_) => Ok(Hocon::Null),
            HoconValue::BadValue(e) => bad_or_err_exec(config, *e),
            HoconValue::Boolean(b) => Ok(Hocon::Boolean(*b)),
            HoconValue::Integer(i) => Ok(Hocon::Integer(*i)),
            HoconValue::Real(t) => Ok(Hocon::Real(t.clone())),
            HoconValue::String(t) => Ok(Hocon::String(t.clone())),
            HoconValue::UnquotedString(t) => Ok(
                finalize_unquoted_exec(chars_of(t.as_str()).as_slice(), in_concat),
            ),
            HoconValue::Concat(values) => {
                proof { crate::value::lemma_models(values@); }
                let text = concat_text(
                    values,
                    root,
                    config,
                    included_path,
                    substituting_path,
                    env,
                    budget,
                );
                Ok(Hocon::String(string_from_chars(text.as_slice())))
            },
            HoconValue::PathSubstitution { target, optional, original } => {
                let mut fixed: Vec<HoconValue> = match included_path {
                    Some(ip) => paths_of_values(ip),
                    None => Vec::new(),
                };
                let mut tp = target.to_path();
                proof {
                    crate::value::lemma_models_add(fixed@, tp@);
                    assert(models(Seq::<HoconValue>::empty()) =~= Seq::<Value>::empty());
                }
                fixed.append(&mut tp);
                assert(models(fixed@) == (match crate::tree::opt_models(*included_path) {
                    Some(ip) => paths_of(ip) + path_of(target@),
                    None => path_of(target@),
                })) by {
                    assert(Seq::<Value>::empty() + path_of(target@) =~= path_of(target@));
                }
                let same = match substituting_path {
                    Some(sp) => paths_equal(&fixed, sp),
                    None => false,
                };
                if same {
                    return Ok(Hocon::Null);
                }
                let found: Result<Hocon, HoconError> = match find_key(root, &fixed) {
                    Err(e) => Err(e),
                    Ok(n) => {
                        proof { lemma_find_key_finalizable(root@, models(fixed@)); }
                        if budget == 0 {
                            Err(HoconError::TooDeep)
                        } else {
                            let sub = Some(duplicate_all(&fixed));
                            finalize_node(&n, root, config, included_path, &sub, env, budget - 1)
                        }
                    },
                };
                let failed: Option<HoconError> = match &found {
                    Err(e) => Some(*e),
                    Ok(Hocon::BadValue(e)) => Some(*e),
                    _ => None,
                };
                match failed {
                    Some(err) => {
                        if config.system && !names_ok_exec(target) {
                            Err(HoconError::Unsupported)
                        } else if config.system {
                            let name = join_names_exec(&target.to_path());
                            match env_lookup_exec(env, &name) {
                                Some(val) => Ok(Hocon::String(val)),
                                None => match original {
                                    Some(o) => {
                                        if *optional {
                                            o.finalize(
                                                root,
                                                config,
                                                in_concat,
                                                included_path,
                                                substituting_path,
                                                env,
                                                budget,
                                            )
                                        } else {
                                            bad_or_err_exec(config, err)
                                        }
                                    },
                                    None => bad_or_err_exec(config, err),
                                },
                            }
                        } else if config.strict {
                            Err(err)
                        } else {
                            found
                        }
                    },
                    None => found,
                }
            },
            HoconValue::Included { value, include_root, .. } => value.finalize(
                root,
                config,
                in_concat,
                include_root,
                &None,
                env,
                budget,
            ),
            _ => Ok(Hocon::Null),
        }
    }
}

/// Whether every element of the path that `target` stands for has a text.
pub(crate) fn names_ok_exec(target: &HoconValue) -> (b: bool)
    ensures
        b == names_ok(path_of(target@)),
{
    let p = target.to_path();
    proof { crate::value::lemma_models(p@); }
    let mut k: usize = 0;
    while k < p.len()
        invariant
            0 <= k <= p@.len(),
            models(p@) == path_of(target@),
            models(p@).len() == p@.len(),
            forall|i: int| 0 <= i < p@.len() ==> #[trigger] models(p@)[i] == p@[i]@,
            forall|i: int| 0 <= i < k ==> has_string_value(#[trigger] models(p@)[i]),
        decreases p@.len() - k,
    {
        let ok = match &p[k] {
            HoconValue::String(_) => true,
            HoconValue::UnquotedString(_) => true,
            HoconValue::Null(_) => true,
            HoconValue::Integer(_) => true,
            _ => false,
        };
        if !ok {
            assert(!has_string_value(models(p@)[k as int]));
            return false;
        }
        k = k + 1;
    }
    true
}

/// The text of a concatenation, as `spec_concat_text` says.
fn concat_text(
    values: &Vec<HoconValue>,
    root: &Node,
    config: Config,
    included_path: &Option<Vec<HoconValue>>,
    substituting_path: &Option<Vec<HoconValue>>,
    env: &Vec<(String, String)>,
    budget: usize,
) -> (r: Vec<char>)
    requires
        all_finalizable(models(values@)),
        tree_finalizable(root@),
    ensures
        r@ == spec_concat_text(
            models(values@),
            values@.len() as int,
            root@,
            config,
            crate::tree::opt_models(*included_path),
            crate::tree::opt_models(*substituting_path),
            env_model(env@),
            budget as nat,
        ),
    decreases budget, values_size(models(values@)), 2int,
{
    let ghost ms = models(values@);
    proof {
        crate::value::lemma_models(values@);
        lemma_all_finalizable(ms);
    }
    let n = values.len();
    let mut out: Vec<char> = Vec::new();
    let mut k: usize = 0;
    assert(ms.take(0) =~= Seq::<Value>::empty());
    while k < n
        invariant
            0 <= k <= n,
            n == values@.len(),
            ms == models(values@),
            ms.len() == n,
            forall|i: int| 0 <= i < n ==> #[trigger] ms[i] == values@[i]@,
            forall|i: int| 0 <= i < n ==> finalizable(#[trigger] ms[i]),
            forall|i: int| 0 <= i < n ==> value_size(#[trigger] ms[i]) <= values_size(ms),
            tree_finalizable(root@),
            out@ == spec_concat_text(
                ms.take(k as int),
                n as int,
                root@,
                config,
                crate::tree::opt_models(*included_path),
                crate::tree::opt_models(*substituting_path),
                env_model(env@),
                budget as nat,
            ),
        decreases n - k,
    {
        assert(ms.take(k + 1).drop_last() =~= ms.take(k as int));
        assert(ms.take(k + 1).last() == ms[k as int]);
        let r: Result<Hocon, HoconError> = match &values[k] {
            HoconValue::UnquotedString(t) => {
                let cs = chars_of(t.as_str());
                if k == 0 {
                    Ok(finalize_unquoted_exec(trim_start_chars(cs.as_slice()).as_slice(), true))
                } else if k == n - 1 {
                    Ok(finalize_unquoted_exec(trim_end_chars(cs.as_slice()).as_slice(), true))
                } else {
                    Ok(finalize_unquoted_exec(cs.as_slice(), true))
                }
            },
            _ => values[k].finalize(
                root,
                config,
                true,
                included_path,
                substituting_path,
                env,
                budget,
            ),
        };
        match r {
            Ok(h) => match internal_string_exec(&h) {
                Some(mut t) => {
                    out.append(&mut t);
                },
                None => {
                    assert(out@ + Seq::<char>::empty() =~= out@);
                },
            },
            Err(_) => {
                assert(out@ + Seq::<char>::empty() =~= out@);
            },
        }
        k = k + 1;
    }
    assert(ms.take(n as int) =~= ms);
    out
}

/// The finished form of a node, as `spec_finalize_node` says.
pub fn finalize_node(
    n: &Node,
    root: &Node,
    config: Config,
    included_path: &Option<Vec<HoconValue>>,
    substituting_path: &Option<Vec<HoconValue>>,
    env: &Vec<(String, String)>,
    budget: usize,
) -> (r: Result<Hocon, HoconError>)
    requires
        tree_finalizable(n@),
        tree_finalizable(root@),
    ensures
        hocon_result(r) == spec_finalize_node(
            n@,
            root@,
            config,
            crate::tree::opt_models(*included_path),
            crate::tree::opt_models(*substituting_path),
            env_model(env@),
            budget as nat,
        ),
    decreases budget, node_size(n@), 1int,
{
    match n {
        Node::Leaf(v) => v.finalize(
            root,
            config,
            false,
            included_path,
            substituting_path,
            env,
            budget,
        ),
        Node::Node { children, key_hint } => {
            let hs = match finalize_children(
                children,
                root,
                config,
                included_path,
                substituting_path,
                env,
                budget,
            ) {
                Ok(hs) => hs,
                Err(e) => return Err(e),
            };
            let ghost cm = children_model(children@);
            proof { lemma_children_model(children@); }
            let is_array = node_is_array_exec(children, *key_hint);
            if is_array {
                Ok(Hocon::Array(hs))
            } else {
                let ghost hm = hocons_model(hs@);
                let mut fields: Vec<(String, Hocon)> = Vec::new();
                let mut idx: usize = 0;
                let nc = children.len();
                proof { lemma_hocons_model(hs@); }
                for h in iter: hs.into_iter()
                    invariant
                        iter.seq() == hs@,
                        hm == hocons_model(hs@),
                        hm.len() == hs@.len(),
                        forall|i: int| 0 <= i < hs@.len() ==> #[trigger] hm[i] == hocon_model(hs@[i]),
                        hs@.len() == children@.len(),
                        nc == children@.len(),
                        cm == children_model(children@),
                        cm.len() == children@.len(),
                        forall|i: int| 0 <= i < children@.len() ==> #[trigger] cm[i] == child_model(children@[i]),
                        idx == iter.index(),
                        fields_model(fields@) == Seq::new(
                            idx as nat,
                            |i: int| (key_text(cm[i].key), hm[i]),
                        ),
                {
                    assert(iter.index() < iter.seq().len());
                    let key = key_text_exec(&children[idx].key);
                    let f = (key, h);
                    proof { lemma_fields_model_push(fields@, f); }
                    fields.push(f);
                    assert(fields_model(fields@) =~= Seq::new(
                        (idx + 1) as nat,
                        |i: int| (key_text(cm[i].key), hm[i]),
                    ));
                    idx = idx + 1;
                }
                Ok(Hocon::Hash(fields))
            }
        },
    }
}

pub proof fn lemma_hocons_model(s: Seq<Hocon>)
    ensures
        hocons_model(s).len() == s.len(),
        forall|i: int| 0 <= i < s.len() ==> #[trigger] hocons_model(s)[i] == hocon_model(s[i]),
    decreases s.len(),
{
    if s.len() > 0 {
        lemma_hocons_model(s.drop_last());
    }
}

pub(crate) fn node_is_array_exec(children: &Vec<Child>, key_hint: Option<KeyType>) -> (r: bool)
    ensures
        r == node_is_array(children_model(children@), key_hint),
{
    proof { lemma_children_model(children@); }
    if children.len() == 0 {
        return match key_hint {
            Some(KeyType::Int) => true,
            _ => false,
        };
    }
    let mut k: usize = 0;
    while k < children.len()
        invariant
            0 <= k <= children@.len(),
            children_model(children@).len() == children@.len(),
            forall|i: int| 0 <= i < children@.len() ==> #[trigger] children_model(children@)[i] == child_model(children@[i]),
            forall|i: int| 0 <= i < k ==> #[trigger] children_model(children@)[i].key is Integer,
        decreases children@.len() - k,
    {
        match &children[k].key {
            HoconValue::Integer(_) => {},
            _ => {
                assert(!(children_model(children@)[k as int].key is Integer));
                return false;
            },
        }
        k = k + 1;
    }
    true
}

/// The finished values of children, as `spec_finalize_children` says.
fn finalize_children(
    cs: &Vec<Child>,
    root: &Node,
    config: Config,
    included_path: &Option<Vec<HoconValue>>,
    substituting_path: &Option<Vec<HoconValue>>,
    env: &Vec<(String, String)>,
    budget: usize,
) -> (r: Result<Vec<Hocon>, HoconError>)
    requires
        children_finalizable(children_model(cs@)),
        tree_finalizable(root@),
    ensures
        match r {
            Ok(hs) => spec_finalize_children(
                children_model(cs@),
                root@,
                config,
                crate::tree::opt_models(*included_path),
                crate::tree::opt_models(*substituting_path),
                env_model(env@),
                budget as nat,
            ) == Ok::<Seq<HoconModel>, HoconError>(hocons_model(hs@)),
            Err(e) => spec_finalize_children(
                children_model(cs@),
                root@,
                config,
                crate::tree::opt_models(*included_path),
                crate::tree::opt_models(*substituting_path),
                env_model(env@),
                budget as nat,
            ) == Err::<Seq<HoconModel>, HoconError>(e),
        },
        r matches Ok(hs) ==> hs@.len() == cs@.len(),
    decreases budget, children_size(children_model(cs@)), 2int,
{
    let ghost cm = children_model(cs@);
    proof {
        lemma_children_model(cs@);
        lemma_children_finalizable(cm);
    }
    let mut out: Vec<Hocon> = Vec::new();
    let mut k: usize = 0;
    assert(cm.take(0) =~= Seq::<ChildModel>::empty());
    while k < cs.len()
        invariant
            0 <= k <= cs@.len(),
            cm == children_model(cs@),
            cm.len() == cs@.len(),
            forall|i: int| 0 <= i < cs@.len() ==> #[trigger] cm[i] == child_model(cs@[i]),
            forall|i: int| 0 <= i < cs@.len() ==> tree_finalizable(#[trigger] cm[i].value),
            forall|i: int| 0 <= i < cs@.len() ==> node_size(#[trigger] cm[i].value) <= children_size(cm),
            tree_finalizable(root@),
            out@.len() == k,
            spec_finalize_children(
                cm.take(k as int),
                root@,
                config,
                crate::tree::opt_models(*included_path),
                crate::tree::opt_models(*substituting_path),
                env_model(env@),
                budget as nat,
            ) == Ok::<Seq<HoconModel>, HoconError>(hocons_model(out@)),
        decreases cs@.len() - k,
    {
        assert(cm.take(k + 1).drop_last() =~= cm.take(k as int));
        assert(cm.take(k + 1).last() == cm[k as int]);
        assert(tree_finalizable(cm[k as int].value));
        match finalize_node(
            &cs[k].value,
            root,
            config,
            included_path,
            substituting_path,
            env,
            budget,
        ) {
            Ok(h) => {
                proof { lemma_hocons_model_push(out@, h); }
                out.push(h);
            },
            Err(e) => {
                proof {
                    lemma_finalize_children_err(
                        cm,
                        k + 1,
                        cm.len() as int,
                        root@,
                        config,
                        crate::tree::opt_models(*included_path),
                        crate::tree::opt_models(*substituting_path),
                        env_model(env@),
                        budget as nat,
                        e,
                    );
                    assert(cm.take(cm.len() as int) =~= cm);
                }
                return Err(e);
            },
        }
        k = k + 1;
    }
    assert(cm.take(k as int) =~= cm);
    Ok(out)
}

pub proof fn lemma_finalize_children_err(
    cs: Seq<ChildModel>,
    k: int,
    m: int,
    root: NodeModel,
    config: Config,
    included_path: Option<Seq<Value>>,
    substituting_path: Option<Seq<Value>>,
    env: Seq<(Seq<char>, Seq<char>)>,
    budget: nat,
    e: HoconError,
)
    requires
        0 <= k <= m <= cs.len(),
        spec_finalize_children(
            cs.take(k),
            root,
            config,
            included_path,
            substituting_path,
            env,
            budget,
        ) == Err::<Seq<HoconModel>, HoconError>(e),
    ensures
        spec_finalize_children(
            cs.take(m),
            root,
            config,
            included_path,
            substituting_path,
            env,
            budget,
        ) == Err::<Seq<HoconModel>, HoconError>(e),
    decreases m - k,
{
    if m > k {
        lemma_finalize_children_err(
            cs,
            k,
            m - 1,
            root,
            config,
            included_path,
            substituting_path,
            env,
            budget,
            e,
        );
        assert(cs.take(m).drop_last() =~= cs.take(m - 1));
    }
}

// ---------------------------------------------------------------------------
// Laws of finishing
// ---------------------------------------------------------------------------

/// `r` is `t` with its leading and trailing whitespace taken away: a run of
/// `t` that only whitespace surrounds, and that neither begins nor ends
/// with whitespace.
pub open spec fn whitespace_stripped(t: Seq<char>, r: Seq<char>) -> bool {
    exists|a: int, b: int|
        #![trigger t.subrange(a, b)]
        0 <= a <= b <= t.len() && r == t.subrange(a, b) && (forall|k: int|
            0 <= k < a ==> is_whitespace_char(#[trigger] t[k])) && (forall|k: int|
            b <= k < t.len() ==> is_whitespace_char(#[trigger] t[k])) && (r.len() > 0
            ==> !is_whitespace_char(r[0]) && !is_whitespace_char(r[r.len() - 1]))
}

/// An unquoted text other than `null`, finished on its own (not inside a
/// concatenation), is that text without its leading and trailing
/// whitespace.
pub proof fn lemma_unquoted_is_stripped(
    t: Seq<char>,
    root: NodeModel,
    config: Config,
    included_path: Option<Seq<Value>>,
    substituting_path: Option<Seq<Value>>,
    env: Seq<(Seq<char>, Seq<char>)>,
    budget: nat,
)
    requires
        t != seq!['n', 'u', 'l', 'l'],
    ensures
        spec_finalize(
            Value::UnquotedString(t),
            root,
            config,
            false,
            included_path,
            substituting_path,
            env,
            budget,
        ) matches Ok(HoconModel::String(r)) && whitespace_stripped(t, r),
{
    let a = trim_start_index(t);
    crate::lexer::lemma_run_end(t, 0, |c: char| is_whitespace_char(c));
    let u = trim_start(t);
    crate::value::lemma_trim_end_index(u, u.len() as int);
    let m = trim_end_index(u, u.len() as int);
    let b = a + m;
    let r = trim(t);
    assert(r =~= t.subrange(a, b));
    assert forall|k: int| b <= k < t.len() implies is_whitespace_char(#[trigger] t[k]) by {
        assert(u[k - a] == t[k]);
    }
    if r.len() > 0 {
        assert(u[m - 1] == t[b - 1]);
        assert(r[0] == t[a]);
        assert(r[r.len() - 1] == t[b - 1]);
    }
    assert(whitespace_stripped(t, r));
}

/// The text of a concatenation is the text of all its parts but the last,
/// then the text of the last: a string or a real number gives its own
/// text, an integer its decimal digits, a boolean `true` or `false`, and
/// null `null`.
pub proof fn lemma_concat_text_parts(
    values: Seq<Value>,
    n: int,
    root: NodeModel,
    config: Config,
    included_path: Option<Seq<Value>>,
    substituting_path: Option<Seq<Value>>,
    env: Seq<(Seq<char>, Seq<char>)>,
    budget: nat,
    h: HoconModel,
)
    requires
        values.len() > 0,
        !(values.last() is UnquotedString),
        spec_finalize(
            values.last(),
            root,
            config,
            true,
            included_path,
            substituting_path,
            env,
            budget,
        ) == Ok::<HoconModel, HoconError>(h),
    ensures
        ({
            let whole = spec_concat_text(
                values,
                n,
                root,
                config,
                included_path,
                substituting_path,
                env,
                budget,
            );
            let before = spec_concat_text(
                values.drop_last(),
                n,
                root,
                config,
                included_path,
                substituting_path,
                env,
                budget,
            );
            &&& h matches HoconModel::Real(t) ==> whole == before + t
            &&& h matches HoconModel::String(t) ==> whole == before + t
            &&& h matches HoconModel::Integer(i) ==> whole == before + decimal(i as int)
            &&& h matches HoconModel::Boolean(b) ==> whole == before + (if b {
                seq!['t', 'r', 'u', 'e']
            } else {
                seq!['f', 'a', 'l', 's', 'e']
            })
            &&& h is Null ==> whole == before + seq!['n', 'u', 'l', 'l']
        }),
{
}

/// A real number in a concatenation contributes its own text.
pub proof fn lemma_concat_keeps_real(
    values: Seq<Value>,
    n: int,
    root: NodeModel,
    config: Config,
    included_path: Option<Seq<Value>>,
    substituting_path: Option<Seq<Value>>,
    env: Seq<(Seq<char>, Seq<char>)>,
    budget: nat,
    t: Seq<char>,
)
    requires
        values.len() > 0,
        values.last() == Value::Real(t),
    ensures
        spec_concat_text(values, n, root, config, included_path, substituting_path, env, budget)
            == spec_concat_text(
            values.drop_last(),
            n,
            root,
            config,
            included_path,
            substituting_path,
            env,
            budget,
        ) + t,
{
    lemma_concat_text_parts(
        values,
        n,
        root,
        config,
        included_path,
        substituting_path,
        env,
        budget,
        HoconModel::Real(t),
    );
}

/// An object node finishes to an array exactly when its keys are all
/// indices, or it has no children and was made as an array; otherwise to
/// a hash with one field per child.
pub proof fn lemma_node_array_or_hash(
    children: Seq<ChildModel>,
    key_hint: Option<KeyType>,
    root: NodeModel,
    config: Config,
    included_path: Option<Seq<Value>>,
    substituting_path: Option<Seq<Value>>,
    env: Seq<(Seq<char>, Seq<char>)>,
    budget: nat,
)
    ensures
        spec_finalize_node(
            NodeModel::Node { children, key_hint },
            root,
            config,
            included_path,
            substituting_path,
            env,
            budget,
        ) matches Ok(h) ==> (h is Array <==> node_is_array(children, key_hint)) && (h matches HoconModel::Hash(fs) ==> fs.len() == children.len()),
{
}

/// An empty array (`[]`) finishes to the empty array, never to an object.
pub proof fn lemma_empty_array_node(
    root: NodeModel,
    config: Config,
    included_path: Option<Seq<Value>>,
    substituting_path: Option<Seq<Value>>,
    env: Seq<(Seq<char>, Seq<char>)>,
    budget: nat,
)
    ensures
        spec_finalize_node(
            NodeModel::Node { children: seq![], key_hint: Some(KeyType::Int) },
            root,
            config,
            included_path,
            substituting_path,
            env,
            budget,
        ) == Ok::<HoconModel, HoconError>(HoconModel::Array(seq![])),
{
}

} // verus!
