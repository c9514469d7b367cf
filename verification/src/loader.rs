//! Loading a document: its includes, the tree of its entries, and the
//! finished value.
use vstd::prelude::*;
use crate::builder::{build_tree, spec_build};
use crate::grammar::{doc_tail_end, spec_root, MAX_DEPTH};
use crate::primitives::is_hyphenated_v4_uuid;
use crate::internal::{
    ids_are_uuids, item_ids, item_model, item_models, lemma_ids_add, lemma_item_models_add,
    lemma_item_models_push,
    lemma_map_push, HoconInternal, Include, IncludeModel, Item, ItemModel,
};
use crate::tree::{
    all_finalizable, children_finalizable, children_model, child_model, children_size, env_model,
    finalizable, finalize_node, hocon_result, includes_fit, includes_fit_all, lemma_children_model,
    node_size, spec_finalize_node, spec_substitute, tree_finalizable, Child, ChildModel,
    Config, Hocon, HoconModel, Node, NodeModel,
};
use crate::value::{
    duplicate_all, lemma_models, lemma_models_add, models, path_of, paths_of,
    paths_of_values, HoconError, HoconValue, Value,
};

verus! {

// ---------------------------------------------------------------------------
// The first pass over a whole tree
// ---------------------------------------------------------------------------

proof fn lemma_children_size(cs: Seq<ChildModel>)
    ensures
        forall|k: int| 0 <= k < cs.len() ==> node_size(#[trigger] cs[k].value) <= children_size(cs),
    decreases cs.len(),
{
    if cs.len() > 0 {
        lemma_children_size(cs.drop_last());
        assert forall|k: int| 0 <= k < cs.len() implies node_size(#[trigger] cs[k].value)
            <= children_size(cs) by {
            if k < cs.len() - 1 {
                assert(cs[k] == cs.drop_last()[k]);
            }
        }
    }
}

/// Whether the includes inside `v` fit a path of length `n`, as
/// `includes_fit` says.
pub(crate) fn includes_fit_exec(v: &HoconValue, n: usize) -> (b: bool)
    ensures
        b == includes_fit(v@, n as int),
    decreases v,
{
    match v {
        HoconValue::Concat(vs) => includes_fit_all_exec(vs, n),
        HoconValue::Included { value, original_path, .. } => {
            proof { lemma_models(original_path@); }
            original_path.len() <= n && includes_fit_exec(value, n)
        },
        _ => true,
    }
}

fn includes_fit_all_exec(vs: &Vec<HoconValue>, n: usize) -> (b: bool)
    ensures
        b == includes_fit_all(models(vs@), n as int),
    decreases vs,
{
    let mut k: usize = 0;
    proof { lemma_models(vs@); }
    assert(models(vs@).take(0) =~= Seq::<Value>::empty());
    while k < vs.len()
        invariant
            0 <= k <= vs@.len(),
            models(vs@).len() == vs@.len(),
            forall|i: int| 0 <= i < vs@.len() ==> #[trigger] models(vs@)[i] == vs@[i]@,
            includes_fit_all(models(vs@).take(k as int), n as int),
        decreases vs@.len() - k,
    {
        assert(models(vs@).take(k + 1).drop_last() =~= models(vs@).take(k as int));
        if !includes_fit_exec(&vs[k], n) {
            proof { lemma_fit_all_prefix(models(vs@), k + 1, vs@.len() as int, n as int); }
            assert(models(vs@).take(vs@.len() as int) =~= models(vs@));
            return false;
        }
        k = k + 1;
    }
    assert(models(vs@).take(k as int) =~= models(vs@));
    true
}

proof fn lemma_fit_all_prefix(vs: Seq<Value>, k: int, m: int, n: int)
    requires
        0 <= k <= m <= vs.len(),
        !includes_fit_all(vs.take(k), n),
    ensures
        !includes_fit_all(vs.take(m), n),
    decreases m - k,
{
    if k < m {
        assert(vs.take(k + 1).drop_last() =~= vs.take(k));
        lemma_fit_all_prefix(vs, k + 1, m, n);
    }
}

// ---------------------------------------------------------------------------
// What finalisation may be applied to, checked
// ---------------------------------------------------------------------------

/// Whether `v` is finalizable, as `finalizable` says.
fn finalizable_exec(v: &HoconValue) -> (b: bool)
    ensures
        b == finalizable(v@),
    decreases v,
{
    match v {
        HoconValue::Temp => false,
        HoconValue::EmptyObject => false,
        HoconValue::EmptyArray => false,
        HoconValue::PathSubstitutionInParent(_) => false,
        HoconValue::ToConcatToArray { .. } => false,
        HoconValue::Concat(vs) => all_finalizable_exec(vs),
        HoconValue::PathSubstitution { original, .. } => {
            match original {
                Some(o) => finalizable_exec(o),
                None => true,
            }
        },
        HoconValue::Included { value, .. } => finalizable_exec(value),
        _ => true,
    }
}

proof fn lemma_all_finalizable_prefix(vs: Seq<Value>, k: int, m: int)
    requires
        0 <= k <= m <= vs.len(),
        !all_finalizable(vs.take(k)),
    ensures
        !all_finalizable(vs.take(m)),
    decreases m - k,
{
    if k < m {
        assert(vs.take(k + 1).drop_last() =~= vs.take(k));
        lemma_all_finalizable_prefix(vs, k + 1, m);
    }
}

fn all_finalizable_exec(vs: &Vec<HoconValue>) -> (b: bool)
    ensures
        b == all_finalizable(models(vs@)),
    decreases vs,
{
    let mut k: usize = 0;
    proof { lemma_models(vs@); }
    assert(models(vs@).take(0) =~= Seq::<Value>::empty());
    while k < vs.len()
        invariant
            0 <= k <= vs@.len(),
            models(vs@).len() == vs@.len(),
            forall|i: int| 0 <= i < vs@.len() ==> #[trigger] models(vs@)[i] == vs@[i]@,
            all_finalizable(models(vs@).take(k as int)),
        decreases vs@.len() - k,
    {
        assert(models(vs@).take(k + 1).drop_last() =~= models(vs@).take(k as int));
        if !finalizable_exec(&vs[k]) {
            proof { lemma_all_finalizable_prefix(models(vs@), k + 1, vs@.len() as int); }
            assert(models(vs@).take(vs@.len() as int) =~= models(vs@));
            return false;
        }
        k = k + 1;
    }
    assert(models(vs@).take(k as int) =~= models(vs@));
    true
}

proof fn lemma_children_finalizable_prefix(cs: Seq<ChildModel>, k: int, m: int)
    requires
        0 <= k <= m <= cs.len(),
        !children_finalizable(cs.take(k)),
    ensures
        !children_finalizable(cs.take(m)),
    decreases m - k,
{
    if k < m {
        assert(cs.take(k + 1).drop_last() =~= cs.take(k));
        lemma_children_finalizable_prefix(cs, k + 1, m);
    }
}

/// Whether every leaf of `n` is finalizable, as `tree_finalizable` says.
pub fn tree_finalizable_exec(n: &Node) -> (b: bool)
    ensures
        b == tree_finalizable(n@),
    decreases node_size(n@), 0int,
{
    match n {
        Node::Leaf(v) => finalizable_exec(v),
        Node::Node { children, .. } => children_finalizable_exec(children),
    }
}

fn children_finalizable_exec(cs: &Vec<Child>) -> (b: bool)
    ensures
        b == children_finalizable(children_model(cs@)),
    decreases children_size(children_model(cs@)), 1int,
{
    let ghost cm = children_model(cs@);
    proof {
        lemma_children_model(cs@);
        lemma_children_size(cm);
    }
    assert(cm.take(0) =~= Seq::<ChildModel>::empty());
    let mut k: usize = 0;
    while k < cs.len()
        invariant
            0 <= k <= cs@.len(),
            cm == children_model(cs@),
            cm.len() == cs@.len(),
            forall|i: int| 0 <= i < cs@.len() ==> #[trigger] cm[i] == child_model(cs@[i]),
            forall|i: int| 0 <= i < cm.len() ==> node_size(#[trigger] cm[i].value) <= children_size(cm),
            children_finalizable(cm.take(k as int)),
        decreases cs@.len() - k,
    {
        assert(cm.take(k + 1).drop_last() =~= cm.take(k as int));
        assert(cm.take(k + 1).last() == cm[k as int]);
        assert(node_size(cm[k as int].value) <= children_size(cm));
        if !tree_finalizable_exec(&cs[k].value) {
            proof { lemma_children_finalizable_prefix(cm, k + 1, cm.len() as int); }
            assert(cm.take(cm.len() as int) =~= cm);
            return false;
        }
        k = k + 1;
    }
    assert(cm.take(k as int) =~= cm);
    true
}

// ---------------------------------------------------------------------------
// How far substitutions are followed
// ---------------------------------------------------------------------------

/// `x`, or `usize::MAX` when it is larger.
pub open spec fn capped(x: nat) -> nat {
    if x > usize::MAX {
        usize::MAX as nat
    } else {
        x
    }
}

fn sat_add(a: usize, b: usize) -> (r: usize)
    ensures
        r == capped((a + b) as nat),
{
    match a.checked_add(b) {
        Some(c) => c,
        None => usize::MAX,
    }
}

proof fn lemma_capped_add(x: nat, y: nat)
    ensures
        capped((capped(x) + capped(y)) as nat) == capped((x + y) as nat),
{
}

/// The size of a value, as `value_size` says, capped at `usize::MAX`.
fn value_size_exec(v: &HoconValue) -> (r: usize)
    ensures
        r == capped(crate::tree::value_size(v@)),
    decreases v,
{
    match v {
        HoconValue::Concat(vs) => {
            let n = values_size_exec(vs);
            proof { lemma_capped_add(1, crate::tree::values_size(models(vs@))); }
            sat_add(1, n)
        },
        HoconValue::PathSubstitution { original, .. } => match original {
            Some(o) => {
                let n = value_size_exec(o);
                proof { lemma_capped_add(1, crate::tree::value_size(o@)); }
                sat_add(1, n)
            },
            None => 1,
        },
        HoconValue::Included { value, .. } => {
            let n = value_size_exec(value);
            proof { lemma_capped_add(1, crate::tree::value_size(value@)); }
            sat_add(1, n)
        },
        _ => 1,
    }
}

fn values_size_exec(vs: &Vec<HoconValue>) -> (r: usize)
    ensures
        r == capped(crate::tree::values_size(models(vs@))),
    decreases vs,
{
    proof { lemma_models(vs@); }
    let mut total: usize = 0;
    let mut k: usize = 0;
    assert(models(vs@).take(0) =~= Seq::<Value>::empty());
    while k < vs.len()
        invariant
            0 <= k <= vs@.len(),
            models(vs@).len() == vs@.len(),
            forall|i: int| 0 <= i < vs@.len() ==> #[trigger] models(vs@)[i] == vs@[i]@,
            total == capped(crate::tree::values_size(models(vs@).take(k as int))),
        decreases vs@.len() - k,
    {
        assert(models(vs@).take(k + 1).drop_last() =~= models(vs@).take(k as int));
        let n = value_size_exec(&vs[k]);
        proof {
            lemma_capped_add(
                crate::tree::values_size(models(vs@).take(k as int)),
                crate::tree::value_size(vs@[k as int]@),
            );
        }
        total = sat_add(total, n);
        k = k + 1;
    }
    assert(models(vs@).take(k as int) =~= models(vs@));
    total
}

/// The size of a node, as `node_size` says, capped at `usize::MAX`.
fn node_size_exec(n: &Node) -> (r: usize)
    ensures
        r == capped(node_size(n@)),
    decreases node_size(n@), 0int,
{
    match n {
        Node::Leaf(v) => {
            let m = value_size_exec(v);
            proof { lemma_capped_add(1, crate::tree::value_size(v@)); }
            sat_add(1, m)
        },
        Node::Node { children, .. } => {
            let m = children_size_exec(children);
            proof { lemma_capped_add(1, children_size(children_model(children@))); }
            sat_add(1, m)
        },
    }
}

fn children_size_exec(cs: &Vec<Child>) -> (r: usize)
    ensures
        r == capped(children_size(children_model(cs@))),
    decreases children_size(children_model(cs@)), 1int,
{
    let ghost cm = children_model(cs@);
    proof {
        lemma_children_model(cs@);
        lemma_children_size(cm);
    }
    assert(cm.take(0) =~= Seq::<ChildModel>::empty());
    let mut total: usize = 0;
    let mut k: usize = 0;
    while k < cs.len()
        invariant
            0 <= k <= cs@.len(),
            cm == children_model(cs@),
            cm.len() == cs@.len(),
            forall|i: int| 0 <= i < cs@.len() ==> #[trigger] cm[i] == child_model(cs@[i]),
            forall|i: int| 0 <= i < cm.len() ==> node_size(#[trigger] cm[i].value) <= children_size(cm),
            total == capped(children_size(cm.take(k as int))),
        decreases cs@.len() - k,
    {
        assert(cm.take(k + 1).drop_last() =~= cm.take(k as int));
        assert(cm.take(k + 1).last() == cm[k as int]);
        assert(node_size(cm[k as int].value) <= children_size(cm));
        let n = node_size_exec(&cs[k].value);
        proof { lemma_capped_add(children_size(cm.take(k as int)), node_size(cm[k as int].value)); }
        total = sat_add(total, n);
        k = k + 1;
    }
    assert(cm.take(k as int) =~= cm);
    total
}

/// How many substitutions are followed, one inside the other, when a tree
/// is finished: with `c` the tree's size (capped), `c * (c + 1) + 1`
/// (capped). The tree holds at most `c` substitutions and at most `c`
/// include roots; on one line of the resolution, a substitution that is
/// looked up twice under the same include root starts the same lookup
/// again, which never ends. So a resolution that ends follows fewer
/// substitutions than this, and only one that never ends is cut off.
pub open spec fn substitution_budget(t: NodeModel) -> nat {
    let c = capped(node_size(t));
    capped((c * (c + 1) + 1) as nat)
}

fn substitution_budget_exec(t: &Node) -> (r: usize)
    ensures
        r == substitution_budget(t@),
{
    let c = node_size_exec(t);
    let wide: u128 = c as u128;
    assert(wide * (wide + 1) + 1 <= 340282366920938463463374607431768211455u128) by (nonlinear_arith)
        requires
            wide <= 18446744073709551615u128,
    ;
    let total: u128 = wide * (wide + 1) + 1;
    if total > usize::MAX as u128 {
        usize::MAX
    } else {
        total as usize
    }
}

// ---------------------------------------------------------------------------
// Loading
// ---------------------------------------------------------------------------

/// The finished document of the items: their tree (built with the first
/// pass of substitution), then the second pass from its root, following
/// substitutions at most `substitution_budget` levels deep. A tree that still holds a
/// placeholder is not resolved.
pub open spec fn spec_load_items(
    items: Seq<ItemModel>,
    ids: Seq<Seq<char>>,
    config: Config,
    env: Seq<(Seq<char>, Seq<char>)>,
) -> Result<HoconModel, HoconError> {
    match spec_build(items, ids, config) {
        Err(e) => Err(e),
        Ok(t) => if tree_finalizable(t) {
            spec_finalize_node(t, t, config, None, None, env, substitution_budget(t))
        } else {
            Err(HoconError::Unsupported)
        },
    }
}

/// The finished document of a parsed document, as `spec_load_items` says
/// (with the `+=` identifiers its items carry); `env` holds the
/// environment's variables, by name.
pub fn load_items(doc: &HoconInternal, config: Config, env: &Vec<(String, String)>) -> (r: Result<
    Hocon,
    HoconError,
>)
    ensures
        hocon_result(r) == spec_load_items(doc@, item_ids(doc.internal@), config, env_model(env@)),
{
    let t = match build_tree(&doc.internal, config) {
        Err(e) => return Err(e),
        Ok(t) => t,
    };
    if !tree_finalizable_exec(&t) {
        return Err(HoconError::Unsupported);
    }
    let budget = substitution_budget_exec(&t);
    finalize_node(&t, &t, config, &None, &None, env, budget)
}

/// The flat form of a text: a text that is not a document is a parse
/// error, and so is one with text left over after it when loading strictly.
pub open spec fn spec_parse_document(s: Seq<char>, config: Config) -> Result<Seq<ItemModel>, HoconError> {
    match spec_root(s, 0, 0) {
        Err(_) => Err(HoconError::Parse),
        Ok((e, items)) => if config.strict && doc_tail_end(s, e) < s.len() {
            Err(HoconError::Parse)
        } else {
            Ok(items)
        },
    }
}

/// The finished document of a text: its flat form, loaded as
/// `spec_load_items` says with the `+=` identifiers `ids`.
pub open spec fn spec_load_str(
    s: Seq<char>,
    ids: Seq<Seq<char>>,
    config: Config,
    env: Seq<(Seq<char>, Seq<char>)>,
) -> Result<HoconModel, HoconError> {
    match spec_parse_document(s, config) {
        Err(e) => Err(e),
        Ok(items) => spec_load_items(items, ids, config, env),
    }
}

/// A document whose first field, `a = `, opens more than `MAX_DEPTH`
/// arrays does not load: it is a parse error, however the text goes on.
pub proof fn lemma_nested_past_the_limit_does_not_load(
    s: Seq<char>,
    n: int,
    ids: Seq<Seq<char>>,
    config: Config,
    env: Seq<(Seq<char>, Seq<char>)>,
)
    requires
        n > MAX_DEPTH,
        s.len() >= 4 + n,
        s[0] == 'a',
        s[1] == ' ',
        s[2] == '=',
        s[3] == ' ',
        forall|k: int| 4 <= k < 4 + n ==> #[trigger] s[k] == '[',
    ensures
        spec_load_str(s, ids, config, env) == Err::<HoconModel, HoconError>(HoconError::Parse),
{
    crate::grammar::lemma_field_nested_past_the_limit_is_fatal(s, n);
}

/// A document whose first field, `a = `, is a substitution left without
/// its `}` does not load: it is a parse error.
pub proof fn lemma_unclosed_substitution_does_not_load(
    s: Seq<char>,
    k: int,
    v: Value,
    ids: Seq<Seq<char>>,
    config: Config,
    env: Seq<(Seq<char>, Seq<char>)>,
)
    requires
        s.len() >= 4,
        s[0] == 'a',
        s[1] == ' ',
        s[2] == '=',
        s[3] == ' ',
        crate::lexer::starts_with(s, 4, seq!['$', '{']),
        crate::grammar::spec_hocon_value(
            s,
            if crate::lexer::starts_with(s, 4, seq!['$', '{', '?']) {
                7int
            } else {
                6int
            },
            1,
        ) == Ok::<(int, Value), crate::grammar::ParseError>((k, v)),
        !(0 <= k < s.len() && s[k] == '}'),
    ensures
        spec_load_str(s, ids, config, env) == Err::<HoconModel, HoconError>(HoconError::Parse),
{
    crate::grammar::lemma_field_unclosed_substitution_is_fatal(s, k, v);
}

/// At the end of the text no field begins.
proof fn lemma_no_field_at_end(s: Seq<char>)
    ensures
        crate::grammar::spec_key_value(s, s.len() as int, 0) == Err::<(int, Seq<ItemModel>), crate::grammar::ParseError>(
            crate::grammar::ParseError::Backtrack,
        ),
        crate::grammar::spec_hashlist(s, s.len() as int, 0) == Ok::<(int, Seq<ItemModel>), crate::grammar::ParseError>(
            (s.len() as int, seq![]),
        ),
{
    let n = s.len() as int;
    assert(crate::lexer::space_end(s, n) == n);
    assert(crate::lexer::multispace_end(s, n) == n);
    assert(crate::lexer::newlines_end(s, n) == n);
    assert(crate::lexer::possible_comment_end(s, n) == n);
    assert(crate::grammar::spec_include_parser(s, n) is None);
    assert(crate::lexer::unquoted_end(s, n) == n);
    assert(crate::grammar::spec_key_value(s, n, 0) == Err::<(int, Seq<ItemModel>), crate::grammar::ParseError>(
        crate::grammar::ParseError::Backtrack,
    )) by {
        reveal_with_fuel(crate::grammar::spec_key_value, 1);
    }
    reveal_with_fuel(crate::grammar::spec_hashlist, 1);
    reveal_with_fuel(crate::grammar::spec_key_value, 1);
}

/// A text of whitespace alone is the empty object.
pub proof fn lemma_blank_text_is_empty_object(
    s: Seq<char>,
    ids: Seq<Seq<char>>,
    config: Config,
    env: Seq<(Seq<char>, Seq<char>)>,
)
    requires
        forall|k: int| 0 <= k < s.len() ==> crate::lexer::is_multispace_char(#[trigger] s[k]),
    ensures
        spec_load_str(s, ids, config, env) == Ok::<HoconModel, HoconError>(HoconModel::Hash(seq![])),
{
    let n = s.len() as int;
    crate::lexer::lemma_run_end(s, 0, |c: char| crate::lexer::is_multispace_char(c));
    crate::lexer::lemma_run_end(s, 0, |c: char| crate::lexer::is_newline_char(c));
    assert(crate::lexer::multispace_end(s, 0) == n);
    let b = crate::lexer::space_end(s, crate::lexer::newlines_end(s, 0));
    crate::lexer::lemma_run_end(s, crate::lexer::newlines_end(s, 0), |c: char| crate::lexer::is_space_char(c));
    assert(crate::lexer::spec_comment(s, b) is None) by {
        if 0 <= b < n {
            assert(crate::lexer::is_multispace_char(s[b]));
            if crate::lexer::starts_with(s, b, seq!['/', '/']) {
                assert(s.subrange(b, b + 2)[0] == s[b]);
            }
        }
    }
    assert(crate::lexer::possible_comment_end(s, 0) == 0);
    assert(crate::lexer::space_end(s, n) == n);
    assert(crate::lexer::multispace_end(s, n) == n);
    assert(crate::lexer::newlines_end(s, n) == n);
    assert(crate::lexer::possible_comment_end(s, n) == n);
    assert(crate::grammar::spec_include_parser(s, n) is None);
    assert(crate::grammar::spec_root_include(s, n, 0) == Err::<(int, Seq<ItemModel>), crate::grammar::ParseError>(
        crate::grammar::ParseError::Backtrack,
    ));
    lemma_no_field_at_end(s);
    assert(crate::grammar::spec_root_hash(s, n) == Ok::<(int, Seq<ItemModel>), crate::grammar::ParseError>(
        (n, seq![]),
    ));
    assert(doc_tail_end(s, n) == n);
    let items = crate::internal::object_items(seq![]);
    assert(spec_root(s, 0, 0) == Ok::<(int, Seq<ItemModel>), crate::grammar::ParseError>((n, items)));
    let node = NodeModel::Node { children: seq![], key_hint: Some(crate::tree::KeyType::String) };
    assert(paths_of(seq![]) == Seq::<Value>::empty());
    assert(spec_substitute(Value::EmptyObject, config, crate::builder::empty_tree(), seq![]) == Ok::<
        NodeModel,
        HoconError,
    >(node));
    assert(items.drop_last() =~= Seq::<ItemModel>::empty());
    assert(items.last() == ItemModel::Entry(seq![], Value::EmptyObject));
    assert(crate::builder::spec_build_from(Seq::<ItemModel>::empty(), ids, config) == Ok::<
        crate::builder::BuildState,
        HoconError,
    >(crate::builder::initial_state()));
    assert(!crate::builder::is_empty_array(node));
    assert(crate::builder::spec_place(crate::builder::empty_tree(), seq![], node, None)
        == crate::builder::empty_tree());
    assert(crate::builder::spec_entry_step(
        crate::builder::empty_tree(),
        None,
        seq![],
        Value::EmptyObject,
        config,
    ) == Ok::<(NodeModel, Option<Seq<Value>>), HoconError>((crate::builder::empty_tree(), Some(seq![]))));
    assert(crate::builder::shifted(seq![], None) == Some(Seq::<Value>::empty()));
    assert(spec_build(items, ids, config) == Ok::<NodeModel, HoconError>(crate::builder::empty_tree()));
    assert(tree_finalizable(crate::builder::empty_tree()));
    let hs = Seq::<HoconModel>::empty();
    assert(crate::tree::spec_finalize_children(
        seq![],
        crate::builder::empty_tree(),
        config,
        None,
        None,
        env,
        MAX_DEPTH as nat,
    ) == Ok::<Seq<HoconModel>, HoconError>(hs));
    assert(Seq::new(0, |i: int| (crate::tree::key_text(Seq::<ChildModel>::empty()[i].key), hs[i]))
        =~= Seq::<(Seq<char>, HoconModel)>::empty());
}

/// The flat form of a text, as `spec_parse_document` says.
pub fn parse_document(text: &str, config: Config) -> (r: Result<HoconInternal, HoconError>)
    ensures
        internal_result(r) == spec_parse_document(text@, config),
        r matches Ok(d) ==> ids_are_uuids(d.internal@),
{
    match crate::parser::parse(text) {
        Err(_) => Err(HoconError::Parse),
        Ok((e, doc)) => {
            if config.strict {
                let cs = crate::value::chars_of(text);
                let tail = crate::lexer::multispace0(
                    cs.as_slice(),
                    crate::lexer::possible_comment(cs.as_slice(), e),
                );
                if tail < cs.len() {
                    return Err(HoconError::Parse);
                }
            }
            Ok(doc)
        },
    }
}

/// Loads a document from its text, as `spec_load_str` says for the `+=`
/// identifiers that parsing drew: one random hyphenated version-4 UUID per
/// `+=`, shared by its items (see `key_value`), and none for other items. Includes are not loaded here: a required one is an error and
/// any other is left out (`parse_document`, `resolve_includes` and
/// `load_items` load them).
pub fn load_str(text: &str, config: Config, env: &Vec<(String, String)>) -> (r: Result<
    Hocon,
    HoconError,
>)
    ensures
        exists|ids: Seq<Seq<char>>|
            hocon_result(r) == #[trigger] spec_load_str(text@, ids, config, env_model(env@))
                && forall|k: int|
                0 <= k < ids.len() ==> (#[trigger] ids[k]).len() == 0 || is_hyphenated_v4_uuid(ids[k]),
{
    match parse_document(text, config) {
        Err(e) => {
            assert(hocon_result(Err(e)) == spec_load_str(text@, seq![], config, env_model(env@)));
            Err(e)
        },
        Ok(doc) => {
            let r = load_items(&doc, config, env);
            assert forall|k: int| 0 <= k < item_ids(doc.internal@).len() implies (#[trigger] item_ids(
                doc.internal@,
            )[k]).len() == 0 || is_hyphenated_v4_uuid(item_ids(doc.internal@)[k]) by {
                assert(item_ids(doc.internal@)[k] == crate::internal::item_id_of(doc.internal@[k]));
            }
            assert(hocon_result(r) == spec_load_str(
                text@,
                item_ids(doc.internal@),
                config,
                env_model(env@),
            ));
            r
        },
    }
}

// ---------------------------------------------------------------------------
// Includes
// ---------------------------------------------------------------------------

/// A value of an included document, found at `k` in it and placed below
/// `p`: it remembers where it was included, so that its substitutions are
/// looked up there first. Markers of empty objects and arrays stay as they
/// are.
pub open spec fn included_value(v: Value, p: Seq<Value>, k: Seq<Value>) -> Value {
    match v {
        Value::EmptyObject => v,
        Value::EmptyArray => v,
        _ => Value::Included {
            value: Box::new(v),
            include_root: Some(p),
            original_path: paths_of(k),
        },
    }
}

/// An item of an included document placed below `p`.
pub open spec fn included_item(it: ItemModel, p: Seq<Value>) -> ItemModel {
    match it {
        ItemModel::Entry(k, v) => ItemModel::Entry(p + k, included_value(v, p, k)),
        ItemModel::Include(k, i) => ItemModel::Include(p + k, i),
    }
}

pub open spec fn included_items(items: Seq<ItemModel>, p: Seq<Value>) -> Seq<ItemModel> {
    items.map_values(|it: ItemModel| included_item(it, p))
}

/// The document loaded for the item at `k`, if any.
pub open spec fn loaded_at(loaded: Seq<Option<Seq<ItemModel>>>, k: int) -> Option<Seq<ItemModel>> {
    if 0 <= k < loaded.len() {
        loaded[k]
    } else {
        None
    }
}

/// The items with each include replaced by the document loaded for it
/// (`loaded[k]` for the item at `k`), placed at the include's path. An
/// include for which nothing was loaded is an error when it is required and
/// is dropped otherwise.
pub open spec fn spec_resolve(items: Seq<ItemModel>, loaded: Seq<Option<Seq<ItemModel>>>) -> Result<
    Seq<ItemModel>,
    HoconError,
>
    decreases items.len(),
{
    if items.len() == 0 {
        Ok(seq![])
    } else {
        match spec_resolve(items.drop_last(), loaded) {
            Err(e) => Err(e),
            Ok(rs) => match items.last() {
                ItemModel::Entry(_, _) => Ok(rs.push(items.last())),
                ItemModel::Include(p, inc) => match loaded_at(loaded, items.len() - 1) {
                    Some(sub) => Ok(rs + included_items(sub, p)),
                    None => if inc.required {
                        Err(HoconError::Include)
                    } else {
                        Ok(rs)
                    },
                },
            },
        }
    }
}

pub open spec fn loaded_models(loaded: Seq<Option<HoconInternal>>) -> Seq<Option<Seq<ItemModel>>> {
    loaded.map_values(
        |d: Option<HoconInternal>|
            match d {
                Some(x) => Some(x@),
                None => None,
            },
    )
}

pub open spec fn internal_result(r: Result<HoconInternal, HoconError>) -> Result<
    Seq<ItemModel>,
    HoconError,
> {
    match r {
        Ok(d) => Ok(d@),
        Err(e) => Err(e),
    }
}

proof fn lemma_resolve_err(
    items: Seq<ItemModel>,
    loaded: Seq<Option<Seq<ItemModel>>>,
    k: int,
    m: int,
    e: HoconError,
)
    requires
        0 <= k <= m <= items.len(),
        spec_resolve(items.take(k), loaded) == Err::<Seq<ItemModel>, HoconError>(e),
    ensures
        spec_resolve(items.take(m), loaded) == Err::<Seq<ItemModel>, HoconError>(e),
    decreases m - k,
{
    if k < m {
        assert(items.take(k + 1).drop_last() =~= items.take(k));
        lemma_resolve_err(items, loaded, k + 1, m, e);
    }
}

proof fn lemma_resolve_errors_are_include(items: Seq<ItemModel>, loaded: Seq<Option<Seq<ItemModel>>>)
    ensures
        spec_resolve(items, loaded) is Err ==> spec_resolve(items, loaded)->Err_0 == HoconError::Include,
    decreases items.len(),
{
    if items.len() > 0 {
        lemma_resolve_errors_are_include(items.drop_last(), loaded);
    }
}

/// A required include for which nothing could be loaded makes the whole
/// document an error, wherever it stands.
pub proof fn lemma_missing_required_include(
    items: Seq<ItemModel>,
    loaded: Seq<Option<Seq<ItemModel>>>,
    k: int,
)
    requires
        0 <= k < items.len(),
        items[k] matches ItemModel::Include(_, inc) && inc.required,
        loaded_at(loaded, k) is None,
    ensures
        spec_resolve(items, loaded) == Err::<Seq<ItemModel>, HoconError>(HoconError::Include),
{
    assert(items.take(k + 1).drop_last() =~= items.take(k));
    assert(items.take(k + 1).last() == items[k]);
    lemma_resolve_errors_are_include(items.take(k), loaded);
    assert(spec_resolve(items.take(k + 1), loaded) == Err::<Seq<ItemModel>, HoconError>(
        HoconError::Include,
    ));
    lemma_resolve_err(items, loaded, k + 1, items.len() as int, HoconError::Include);
    assert(items.take(items.len() as int) =~= items);
}

/// A document without includes is left as it is.
pub proof fn lemma_resolve_without_includes(items: Seq<ItemModel>, loaded: Seq<Option<Seq<ItemModel>>>)
    requires
        forall|i: int| 0 <= i < items.len() ==> #[trigger] items[i] is Entry,
    ensures
        spec_resolve(items, loaded) == Ok::<Seq<ItemModel>, HoconError>(items),
    decreases items.len(),
{
    if items.len() > 0 {
        assert forall|i: int| 0 <= i < items.drop_last().len() implies #[trigger] items.drop_last()[i] is Entry by {
            assert(items.drop_last()[i] == items[i]);
        }
        lemma_resolve_without_includes(items.drop_last(), loaded);
        assert(items[items.len() - 1] is Entry);
        assert(items.drop_last().push(items.last()) =~= items);
    } else {
        assert(items =~= Seq::<ItemModel>::empty());
    }
}

/// An include that is not required, for which nothing could be loaded, is
/// left out: the items around it resolve as if it were not there.
pub proof fn lemma_missing_optional_include(
    items: Seq<ItemModel>,
    loaded: Seq<Option<Seq<ItemModel>>>,
    p: Seq<Value>,
    inc: IncludeModel,
)
    requires
        !inc.required,
        loaded_at(loaded, items.len() as int) is None,
    ensures
        spec_resolve(items.push(ItemModel::Include(p, inc)), loaded) == spec_resolve(items, loaded),
{
    assert(items.push(ItemModel::Include(p, inc)).drop_last() =~= items);
}

/// What an include loads lands under the include's path: each entry keeps
/// its value (remembering where it was included) at the include's path
/// followed by its own path.
pub proof fn lemma_included_under_path(p: Seq<Value>, inc: IncludeModel, sub: Seq<ItemModel>)
    ensures
        spec_resolve(seq![ItemModel::Include(p, inc)], seq![Some(sub)]) == Ok::<
            Seq<ItemModel>,
            HoconError,
        >(included_items(sub, p)),
        forall|i: int|
            0 <= i < sub.len() ==> (#[trigger] sub[i] matches ItemModel::Entry(k, v)
                ==> included_items(sub, p)[i] == ItemModel::Entry(p + k, included_value(v, p, k))),
{
    let items = seq![ItemModel::Include(p, inc)];
    let loaded = seq![Some(sub)];
    assert(items.drop_last() =~= Seq::<ItemModel>::empty());
    assert(spec_resolve(Seq::<ItemModel>::empty(), loaded) == Ok::<Seq<ItemModel>, HoconError>(seq![]));
    assert(loaded_at(loaded, 0) == Some(sub));
    assert(Seq::<ItemModel>::empty() + included_items(sub, p) =~= included_items(sub, p));
}

/// The `+=` identifier of an item: that of an entry whose value is to be
/// appended to an array, none for any other item.
pub open spec fn item_tag(it: Item) -> Option<Seq<char>> {
    match it {
        Item::Entry(_, v) => crate::value::value_item_id(v),
        Item::Include(_, _) => None,
    }
}

fn copy_include(inc: &Include) -> (r: Include)
    ensures
        r@ == inc@,
{
    Include { kind: inc.kind, target: crate::value::copy_string(&inc.target), required: inc.required }
}

/// The items of `sub` placed below `p`, as `included_items` says.
fn place_included(sub: &HoconInternal, p: &Vec<HoconValue>) -> (r: Vec<Item>)
    ensures
        item_models(r@) == included_items(sub@, models(p@)),
        forall|k: int| 0 <= k < r@.len() ==> #[trigger] item_tag(r@[k]) is None,
{
    let ghost src = sub.internal@;
    let mut out: Vec<Item> = Vec::new();
    let mut j: usize = 0;
    assert(src.take(0) =~= Seq::<Item>::empty());
    assert(item_models(Seq::<Item>::empty()) =~= Seq::<ItemModel>::empty());
    assert(included_items(Seq::<ItemModel>::empty(), models(p@)) =~= Seq::<ItemModel>::empty());
    while j < sub.internal.len()
        invariant
            0 <= j <= src.len(),
            src == sub.internal@,
            item_models(out@) == included_items(item_models(src.take(j as int)), models(p@)),
            forall|k: int| 0 <= k < out@.len() ==> #[trigger] item_tag(out@[k]) is None,
        decreases src.len() - j,
    {
        let mut prefix = duplicate_all(p);
        let x = match &sub.internal[j] {
            Item::Entry(k, v) => {
                let mut kk = duplicate_all(k);
                proof { lemma_models_add(prefix@, kk@); }
                prefix.append(&mut kk);
                let placed = match v {
                    HoconValue::EmptyObject => HoconValue::EmptyObject,
                    HoconValue::EmptyArray => HoconValue::EmptyArray,
                    _ => HoconValue::Included {
                        value: Box::new(v.duplicate()),
                        include_root: Some(duplicate_all(p)),
                        original_path: paths_of_values(k),
                    },
                };
                Item::Entry(prefix, placed)
            },
            Item::Include(k, i) => {
                let mut kk = duplicate_all(k);
                proof { lemma_models_add(prefix@, kk@); }
                prefix.append(&mut kk);
                Item::Include(prefix, copy_include(i))
            },
        };
        proof {
            let it = src[j as int];
            assert(src.take(j + 1) =~= src.take(j as int).push(it));
            lemma_item_models_push(out@, x);
            lemma_item_models_push(src.take(j as int), it);
            lemma_map_push(
                item_models(src.take(j as int)),
                item_model(it),
                |i: ItemModel| included_item(i, models(p@)),
            );
        }
        assert(item_tag(x) is None);
        out.push(x);
        assert forall|k: int| 0 <= k < out@.len() implies #[trigger] item_tag(out@[k]) is None by {
            if k < out@.len() - 1 {
                assert(out@[k] == out@.drop_last()[k]);
            }
        }
        j = j + 1;
    }
    assert(src.take(src.len() as int) =~= src);
    out
}

/// The document with its includes replaced by the documents loaded for
/// them, as `spec_resolve` says: `loaded[k]` is what was loaded for the
/// item at `k` (`None` where nothing was).
pub fn resolve_includes(doc: &HoconInternal, loaded: &Vec<Option<HoconInternal>>) -> (r: Result<
    HoconInternal,
    HoconError,
>)
    ensures
        internal_result(r) == spec_resolve(doc@, loaded_models(loaded@)),
        r matches Ok(x) ==> (ids_are_uuids(doc.internal@) ==> ids_are_uuids(x.internal@)),
        r matches Ok(x) ==> forall|k: int|
            0 <= k < x.internal@.len() ==> (#[trigger] item_tag(x.internal@[k]) matches Some(u)
                ==> exists|j: int| 0 <= j < doc.internal@.len() && item_tag(doc.internal@[j]) == Some(u)),
{
    let ghost ms = doc@;
    let ghost lm = loaded_models(loaded@);
    let mut out: Vec<Item> = Vec::new();
    let mut k: usize = 0;
    assert(ms.take(0) =~= Seq::<ItemModel>::empty());
    assert(item_models(Seq::<Item>::empty()) =~= Seq::<ItemModel>::empty());
    while k < doc.internal.len()
        invariant
            0 <= k <= doc.internal@.len(),
            ms == doc@,
            ms.len() == doc.internal@.len(),
            lm == loaded_models(loaded@),
            lm.len() == loaded@.len(),
            spec_resolve(ms.take(k as int), lm) == Ok::<Seq<ItemModel>, HoconError>(item_models(out@)),
            ids_are_uuids(doc.internal@) ==> ids_are_uuids(out@),
            forall|m: int|
                0 <= m < out@.len() ==> (#[trigger] item_tag(out@[m]) matches Some(u) ==> exists|j: int|
                    0 <= j < doc.internal@.len() && item_tag(doc.internal@[j]) == Some(u)),
        decreases doc.internal@.len() - k,
    {
        assert(ms.take(k + 1).drop_last() =~= ms.take(k as int));
        assert(ms.take(k + 1).last() == item_model(doc.internal@[k as int]));
        match &doc.internal[k] {
            Item::Entry(p, v) => {
                let x = Item::Entry(duplicate_all(p), v.duplicate());
                proof { lemma_item_models_push(out@, x); }
                assert(item_tag(x) == item_tag(doc.internal@[k as int]));
                let ghost before = out@;
                out.push(x);
                proof {
                    assert(out@ =~= before + seq![x]);
                    if ids_are_uuids(doc.internal@) {
                        assert(doc.internal@[k as int] matches Item::Entry(_, HoconValue::ToConcatToArray { item_id: id, .. })
                            ==> is_hyphenated_v4_uuid(id@));
                        assert(ids_are_uuids(seq![x]));
                        lemma_ids_add(before, seq![x]);
                    }
                    assert forall|m: int| 0 <= m < out@.len() implies (#[trigger] item_tag(out@[m]) matches Some(u)
                        ==> exists|j: int| 0 <= j < doc.internal@.len() && item_tag(doc.internal@[j]) == Some(u)) by {
                        if m < before.len() {
                            assert(out@[m] == before[m]);
                        } else {
                            assert(out@[m] == x);
                        }
                    }
                }
            },
            Item::Include(p, inc) => {
                let found: Option<&HoconInternal> = if k < loaded.len() {
                    match &loaded[k] {
                        Some(d) => Some(d),
                        None => None,
                    }
                } else {
                    None
                };
                assert(loaded_at(lm, k as int) == match found {
                    Some(d) => Some(d@),
                    None => None::<Seq<ItemModel>>,
                });
                match found {
                    Some(d) => {
                        let mut placed = place_included(d, p);
                        proof { lemma_item_models_add(out@, placed@); }
                        let ghost before = out@;
                        let ghost pl = placed@;
                        out.append(&mut placed);
                        proof {
                            assert(out@ =~= before + pl);
                            assert forall|m: int| 0 <= m < pl.len() implies !(#[trigger] pl[m] matches Item::Entry(
                                _,
                                HoconValue::ToConcatToArray { .. },
                            )) by {
                                assert(item_tag(pl[m]) is None);
                            }
                            assert(ids_are_uuids(pl));
                            lemma_ids_add(before, pl);
                            assert forall|m: int| 0 <= m < out@.len() implies (#[trigger] item_tag(out@[m]) matches Some(u)
                                ==> exists|j: int| 0 <= j < doc.internal@.len() && item_tag(doc.internal@[j]) == Some(u)) by {
                                if m < before.len() {
                                    assert(out@[m] == before[m]);
                                } else {
                                    assert(out@[m] == pl[m - before.len()]);
                                }
                            }
                        }
                    },
                    None => {
                        if inc.required {
                            proof {
                                lemma_resolve_err(ms, lm, k + 1, ms.len() as int, HoconError::Include);
                            }
                            assert(ms.take(ms.len() as int) =~= ms);
                            return Err(HoconError::Include);
                        }
                    },
                }
            },
        }
        k = k + 1;
    }
    assert(ms.take(k as int) =~= ms);
    Ok(HoconInternal { internal: out })
}

} // verus!
