//! Phase 2: Key template derivation from subscription XPath.
//!
//! Each branch of a subscription XPath is resolved to its target schema
//! node; the chain of that node's ancestors is walked from root to
//! target, and a key template is built with `%s` placeholders for open
//! list keys and literal values for statically-pinned keys.
//!
//! Schema resolution belongs to the schema library (libyang), which the
//! caller hands in: [`derive_templates_with`] asks it, branch by branch in
//! the order [`split_union`] gives them, for the inclusive ancestor chain
//! of the target schema node, target first, as [`SchemaNodeInfo`] values;
//! [`derive_templates`] takes those chains directly.
//!
//! # Prefix convention
//!
//! The key template uses minimal-prefix style: the YANG module name
//! appears only when it differs from the previous segment.
//!
//! # Predicate handling
//!
//! | Predicate in subscription | Template output |
//! |---------------------------|-----------------|
//! | None (bare path) | `[key='%s']` + extraction |
//! | `[key='value']` | `[key='value']` (literal) |
//! | `[mod:key='value']` | `[key='value']` (prefix stripped) |
//! | `[key="value"]` | `[key='value']` (normalized) |
//! | `[N]` (positional) | `[key='%s']` (treated as open) |
use vstd::prelude::*;

use crate::text::{copy_str, push_char, push_str, views};
use crate::types::{
    dot, has_placeholder, list_key_extraction, pairs_with, placeholder_at, placeholders_from,
    BranchTemplate, DerivationResult, ExtractionSpec, ExtractionView,
    TargetType,
};
use crate::xpath::{
    depth_before, escape_xpath_value, escaped, lemma_escaped_no_brackets, lemma_stripped_concat,
    lemma_stripped_plain, lemma_stripped_pred, no_brackets, parse_xpath_steps, split_union,
    split_pieces, step_views, stripped, union_branches, xpath_steps, StepView, XPathStep,
};

verus! {

/// Kind of a compiled schema node, as far as key derivation needs it.
#[derive(Debug, Clone, Copy, PartialEq, Eq, Structural)]
pub enum SchemaKind {
    Container,
    List,
    Leaf,
    LeafList,
    /// A `choice`: not a data node, skipped in paths.
    Choice,
    /// A `case`: not a data node, skipped in paths.
    Case,
    /// Any other kind of node (RPC, notification, anydata, ...).
    Other,
}

/// One compiled schema node: its module, name, kind and (for lists) the
/// names of its key leaves in schema order.
#[derive(Debug, Clone)]
pub struct SchemaNodeInfo {
    /// Name of the module that defines the node.
    pub module: String,
    /// Local name of the node.
    pub name: String,
    /// Kind of the node.
    pub kind: SchemaKind,
    /// Key leaf names, in schema order (lists only).
    pub keys: Vec<String>,
}

/// The view of a schema node: module, name, kind, key names.
pub type NodeView = (Seq<char>, Seq<char>, SchemaKind, Seq<Seq<char>>);

impl View for SchemaNodeInfo {
    type V = NodeView;

    open spec fn view(&self) -> NodeView {
        (self.module@, self.name@, self.kind, views(self.keys@))
    }
}

/// The views of a chain of schema nodes.
pub open spec fn node_views(v: Seq<SchemaNodeInfo>) -> Seq<NodeView> {
    v.map_values(|n: SchemaNodeInfo| n@)
}

/// Whether a schema node is a data node that appears in paths.
pub open spec fn in_path(k: SchemaKind) -> bool {
    k != SchemaKind::Choice && k != SchemaKind::Case
}

/// The path nodes of an ancestor chain given target first: choice and
/// case nodes dropped, root first.
pub open spec fn path_nodes(chain: Seq<NodeView>) -> Seq<NodeView>
    decreases chain.len(),
{
    if chain.len() == 0 {
        Seq::empty()
    } else {
        let rest = path_nodes(chain.drop_first());
        if in_path(chain[0].2) {
            rest.push(chain[0])
        } else {
            rest
        }
    }
}

/// The target type for a schema node kind.
pub open spec fn target_of(k: SchemaKind) -> TargetType {
    match k {
        SchemaKind::List => TargetType::List,
        SchemaKind::Leaf => TargetType::Leaf,
        SchemaKind::LeafList => TargetType::LeafList,
        _ => TargetType::Container,
    }
}

/// Map a schema node kind to the target-type enum.
pub fn classify_target(k: SchemaKind) -> (res: TargetType)
    ensures
        res == target_of(k),
{
    match k {
        SchemaKind::List => TargetType::List,
        SchemaKind::Leaf => TargetType::Leaf,
        SchemaKind::LeafList => TargetType::LeafList,
        _ => TargetType::Container,
    }
}

/// The first step at or after `cursor` named `name` (its index), and the
/// cursor after the search.
pub open spec fn match_step(name: Seq<char>, steps: Seq<StepView>, cursor: int) -> (
    Option<int>,
    int,
)
    decreases steps.len() - cursor,
{
    if cursor >= steps.len() || cursor < 0 {
        (None, cursor)
    } else if steps[cursor].0 == name {
        (Some(cursor), cursor + 1)
    } else {
        match_step(name, steps, cursor + 1)
    }
}

pub proof fn lemma_match_step(name: Seq<char>, steps: Seq<StepView>, cursor: int)
    requires
        0 <= cursor <= steps.len(),
    ensures
        cursor <= match_step(name, steps, cursor).1 <= steps.len(),
        match_step(name, steps, cursor).0 matches Some(j) ==> cursor <= j < steps.len() && steps[j].0
            == name,
    decreases steps.len() - cursor,
{
    if cursor < steps.len() && steps[cursor].0 != name {
        lemma_match_step(name, steps, cursor + 1);
    }
}

/// Find the xpath step whose local name matches `node_name`.
///
/// Steps are consumed in order via `cursor`; this ensures each schema
/// node maps to the correct positional step even when names repeat.
pub fn find_matching_step<'a>(
    node_name: &str,
    steps: &'a [XPathStep],
    cursor: &mut usize,
) -> (res: Option<&'a XPathStep>)
    requires
        *old(cursor) <= steps@.len(),
    ensures
        *final(cursor) == match_step(node_name@, step_views(steps@), *old(cursor) as int).1,
        match match_step(node_name@, step_views(steps@), *old(cursor) as int).0 {
            Some(j) => res matches Some(st) && st@ == steps@[j]@,
            None => res is None,
        },
{
    let ghost sv = step_views(steps@);
    let start = *cursor;
    let mut c = start;
    while c < steps.len()
        invariant
            start <= c <= steps@.len(),
            start == *old(cursor),
            sv == step_views(steps@),
            match_step(node_name@, sv, c as int) == match_step(node_name@, sv, start as int),
        decreases steps@.len() - c,
    {
        assert(sv[c as int] == steps@[c as int]@);
        if str_eq(steps[c].local_name.as_str(), node_name) {
            *cursor = c + 1;
            return Some(&steps[c]);
        }
        c = c + 1;
    }
    *cursor = c;
    None
}

/// Whether two strings hold the same characters.
pub fn str_eq(a: &str, b: &str) -> (res: bool)
    ensures
        res == (a@ == b@),
{
    let x = copy_str(a);
    let y = copy_str(b);
    x == y
}

/// The value of the first pair with key `key`.
pub open spec fn kv_lookup(kvs: Seq<(Seq<char>, Seq<char>)>, key: Seq<char>) -> Option<Seq<char>>
    decreases kvs.len(),
{
    if kvs.len() == 0 {
        None
    } else if kvs[0].0 == key {
        Some(kvs[0].1)
    } else {
        kv_lookup(kvs.drop_first(), key)
    }
}

/// The value a list key is pinned to by the matched step: none when no
/// step matched or the step has a positional predicate.
pub open spec fn pinned(step: Option<StepView>, key: Seq<char>) -> Option<Seq<char>> {
    match step {
        Some(st) => if st.2 {
            None
        } else {
            kv_lookup(st.1, key)
        },
        None => None,
    }
}

/// The value a leaf-list target is pinned to by `[.='value']`.
pub open spec fn pinned_dot(step: Option<StepView>) -> Option<Seq<char>> {
    match step {
        Some(st) => kv_lookup(st.1, dot()),
        None => None,
    }
}

/// The placeholder predicate tail `='%s']`.
pub open spec fn open_tail() -> Seq<char> {
    seq!['=', '\'', '%', 's', '\'', ']']
}

/// Template and extractions after the first `k` keys of a list node.
pub open spec fn keys_apply(
    t: Seq<char>,
    ex: Seq<ExtractionView>,
    keys: Seq<Seq<char>>,
    k: int,
    module: Seq<char>,
    name: Seq<char>,
    step: Option<StepView>,
) -> (Seq<char>, Seq<ExtractionView>)
    decreases k,
{
    if k <= 0 {
        (t, ex)
    } else {
        let (t1, e1) = keys_apply(t, ex, keys, k - 1, module, name, step);
        let key = keys[k - 1];
        match pinned(step, key) {
            Some(v) => (t1 + seq!['['] + key + seq!['='] + escaped(v) + seq![']'], e1),
            None => {
                let t2 = t1 + seq!['['] + key + open_tail();
                (t2, e1.push(list_key_extraction(key, module, name, t2)))
            },
        }
    }
}

/// Builder state: template so far, extractions so far, module of the
/// previous segment, step cursor.
pub type TemplateState = (Seq<char>, Seq<ExtractionView>, Option<Seq<char>>, int);

/// The path segment for a node: `/module:name` when the module differs
/// from the previous segment's, else `/name`.
pub open spec fn segment(prev: Option<Seq<char>>, module: Seq<char>, name: Seq<char>) -> Seq<char> {
    if prev != Some(module) {
        seq!['/'] + module + seq![':'] + name
    } else {
        seq!['/'] + name
    }
}

/// The builder state after one more node.
pub open spec fn node_apply(
    st: TemplateState,
    node: NodeView,
    steps: Seq<StepView>,
    is_last: bool,
) -> TemplateState {
    let (t, ex, prev, cur) = st;
    let (module, name, kind, keys) = node;
    let t1 = t + segment(prev, module, name);
    let (j, cur2) = match_step(name, steps, cur);
    let step = match j {
        Some(j) => Some(steps[j]),
        None => None,
    };
    let (t2, ex2) = if kind == SchemaKind::List {
        keys_apply(t1, ex, keys, keys.len() as int, module, name, step)
    } else {
        (t1, ex)
    };
    let (t3, ex3) = if is_last && kind == SchemaKind::LeafList {
        match pinned_dot(step) {
            Some(v) => (t2 + seq!['[', '.', '='] + escaped(v) + seq![']'], ex2),
            None => (t2 + seq!['[', '.'] + open_tail(), ex2.push((dot(), dot(), Seq::empty(), Seq::empty()))),
        }
    } else {
        (t2, ex2)
    };
    (t3, ex3, Some(module), cur2)
}

/// The builder state after the first `n` path nodes.
pub open spec fn template_upto(nodes: Seq<NodeView>, steps: Seq<StepView>, n: int) -> TemplateState
    decreases n,
{
    if n <= 0 {
        (Seq::empty(), Seq::empty(), None, 0)
    } else {
        node_apply(template_upto(nodes, steps, n - 1), nodes[n - 1], steps, n - 1 == nodes.len() - 1)
    }
}

/// The key template, extractions and target type for a branch whose
/// target has the ancestor chain `chain` (target first).
pub open spec fn template_for(chain: Seq<NodeView>, branch: Seq<char>) -> (
    Seq<char>,
    Seq<ExtractionView>,
    TargetType,
) {
    let nodes = path_nodes(chain);
    let st = template_upto(nodes, xpath_steps(branch), nodes.len() as int);
    (st.0, st.1, target_of(chain[0].2))
}

/// The views of a sequence of extractions.
pub open spec fn ext_views(v: Seq<ExtractionSpec>) -> Seq<ExtractionView> {
    v.map_values(|e: ExtractionSpec| e@)
}

pub proof fn lemma_template_cursor(nodes: Seq<NodeView>, steps: Seq<StepView>, n: int)
    requires
        0 <= n,
    ensures
        0 <= template_upto(nodes, steps, n).3 <= steps.len(),
    decreases n,
{
    if n > 0 {
        lemma_template_cursor(nodes, steps, n - 1);
        let st = template_upto(nodes, steps, n - 1);
        lemma_match_step(nodes[n - 1].1, steps, st.3);
    }
}

/// Appends the predicates of the keys of a list node.
fn apply_keys(
    template: &mut String,
    extractions: &mut Vec<ExtractionSpec>,
    node: &SchemaNodeInfo,
    step: Option<&XPathStep>,
)
    ensures
        ({
            let sv = match step {
                Some(s) => Some(s@),
                None => None,
            };
            let (t, e) = keys_apply(
                old(template)@,
                ext_views(old(extractions)@),
                views(node.keys@),
                node.keys@.len() as int,
                node.module@,
                node.name@,
                sv,
            );
            final(template)@ == t && ext_views(final(extractions)@) == e
        }),
{
    let ghost sv = match step {
        Some(s) => Some(s@),
        None => None,
    };
    let ghost t0 = template@;
    let ghost e0 = ext_views(extractions@);
    let mut k: usize = 0;
    while k < node.keys.len()
        invariant
            0 <= k <= node.keys@.len(),
            sv == match step {
                Some(s) => Some(s@),
                None => None::<StepView>,
            },
            ({
                let (t, e) = keys_apply(
                    t0,
                    e0,
                    views(node.keys@),
                    k as int,
                    node.module@,
                    node.name@,
                    sv,
                );
                template@ == t && ext_views(extractions@) == e
            }),
        decreases node.keys@.len() - k,
    {
        let key_name = &node.keys[k];
        let ghost (t1, e1) = keys_apply(
            t0,
            e0,
            views(node.keys@),
            k as int,
            node.module@,
            node.name@,
            sv,
        );
        assert(views(node.keys@)[k as int] == key_name@);
        let pin = pinned_value(step, key_name.as_str());
        match pin {
            Some(val) => {
                push_char(template, '[');
                push_str(template, key_name.as_str());
                push_char(template, '=');
                let q = escape_xpath_value(val.as_str());
                push_str(template, q.as_str());
                push_char(template, ']');
                assert(template@ =~= t1 + seq!['['] + key_name@ + seq!['='] + escaped(val@) + seq![
                    ']',
                ]);
            },
            None => {
                push_char(template, '[');
                push_str(template, key_name.as_str());
                push_open_tail(template);
                assert(template@ =~= t1 + seq!['['] + key_name@ + open_tail());
                let e = ExtractionSpec::for_list_key(
                    key_name.as_str(),
                    node.module.as_str(),
                    node.name.as_str(),
                    template.as_str(),
                );
                let ghost before = extractions@;
                extractions.push(e);
                assert(ext_views(extractions@) =~= ext_views(before).push(e@));
            },
        }
        k = k + 1;
    }
}

/// Appends `='%s']`.
fn push_open_tail(s: &mut String)
    ensures
        final(s)@ == old(s)@ + open_tail(),
{
    push_char(s, '=');
    push_char(s, '\'');
    push_char(s, '%');
    push_char(s, 's');
    push_char(s, '\'');
    push_char(s, ']');
    assert(s@ =~= old(s)@ + open_tail());
}

/// The first value for `key` among the pairs of a step.
fn lookup_value(step: &XPathStep, key: &str) -> (res: Option<String>)
    ensures
        match res {
            Some(v) => kv_lookup(step@.1, key@) == Some(v@),
            None => kv_lookup(step@.1, key@).is_none(),
        },
{
    let ghost kvs = step@.1;
    let mut i: usize = 0;
    assert(kvs.subrange(0, kvs.len() as int) =~= kvs);
    while i < step.kvs.len()
        invariant
            0 <= i <= step.kvs@.len(),
            kvs == step@.1,
            kvs.len() == step.kvs@.len(),
            kv_lookup(kvs, key@) == kv_lookup(kvs.subrange(i as int, kvs.len() as int), key@),
        decreases step.kvs@.len() - i,
    {
        let ghost rest = kvs.subrange(i as int, kvs.len() as int);
        if str_eq(step.kvs[i].key.as_str(), key) {
            return Some(copy_str(step.kvs[i].value.as_str()));
        }
        assert(rest.drop_first() =~= kvs.subrange(i + 1, kvs.len() as int));
        i = i + 1;
    }
    None
}

/// The value a list key is pinned to by the matched step, if any.
fn pinned_value(step: Option<&XPathStep>, key: &str) -> (res: Option<String>)
    ensures
        ({
            let sv = match step {
                Some(s) => Some(s@),
                None => None,
            };
            match res {
                Some(v) => pinned(sv, key@) == Some(v@),
                None => pinned(sv, key@).is_none(),
            }
        }),
{
    match step {
        Some(s) => {
            if s.has_positional {
                None
            } else {
                lookup_value(s, key)
            }
        },
        None => None,
    }
}

/// The path nodes of a chain (target first): choice and case nodes
/// dropped, root first.
fn collect_path_nodes(chain: &Vec<SchemaNodeInfo>) -> (res: Vec<&SchemaNodeInfo>)
    ensures
        res@.map_values(|n: &SchemaNodeInfo| n@) == path_nodes(node_views(chain@)),
{
    let ghost cv = node_views(chain@);
    let mut nodes: Vec<&SchemaNodeInfo> = Vec::new();
    let mut i = chain.len();
    assert(cv.subrange(cv.len() as int, cv.len() as int) =~= Seq::<NodeView>::empty());
    while i > 0
        invariant
            0 <= i <= chain@.len(),
            cv == node_views(chain@),
            cv.len() == chain@.len(),
            nodes@.map_values(|n: &SchemaNodeInfo| n@) == path_nodes(
                cv.subrange(i as int, cv.len() as int),
            ),
        decreases i,
    {
        let ghost before = nodes@;
        let node = &chain[i - 1];
        let ghost sub = cv.subrange(i - 1, cv.len() as int);
        assert(sub.drop_first() =~= cv.subrange(i as int, cv.len() as int));
        assert(sub[0] == node@);
        if node.kind != SchemaKind::Choice && node.kind != SchemaKind::Case {
            nodes.push(node);
            assert(nodes@.map_values(|n: &SchemaNodeInfo| n@) =~= before.map_values(
                |n: &SchemaNodeInfo| n@,
            ).push(node@));
        }
        i = i - 1;
    }
    assert(cv.subrange(0, cv.len() as int) =~= cv);
    nodes
}

/// Build the key template string and extraction specs for one branch.
///
/// 1. Take the ancestor chain (target first), drop choice/case nodes,
///    and put it in root-to-target order.
/// 2. For each node, emit a path segment with a minimal prefix.
/// 3. At each list node, check the matching xpath step for pinned keys
///    and emit literal or `%s` predicates accordingly.
/// 4. At a leaf-list target, emit `[.='%s']` or a literal.
pub fn build_template(chain: &Vec<SchemaNodeInfo>, branch_xpath: &str) -> (res: (
    String,
    Vec<ExtractionSpec>,
    TargetType,
))
    requires
        chain@.len() >= 1,
    ensures
        (res.0@, ext_views(res.1@), res.2) == template_for(node_views(chain@), branch_xpath@),
{
    let nodes = collect_path_nodes(chain);
    let ghost nv = nodes@.map_values(|n: &SchemaNodeInfo| n@);
    let xsteps = parse_xpath_steps(branch_xpath);
    let ghost sv = step_views(xsteps@);
    let mut template = String::new();
    let mut extractions: Vec<ExtractionSpec> = Vec::new();
    let mut prev_mod: Option<String> = None;
    let mut xcursor: usize = 0;
    let mut i: usize = 0;
    assert(ext_views(extractions@) =~= Seq::<ExtractionView>::empty());
    while i < nodes.len()
        invariant
            0 <= i <= nodes@.len(),
            nv == nodes@.map_values(|n: &SchemaNodeInfo| n@),
            nv == path_nodes(node_views(chain@)),
            sv == step_views(xsteps@),
            sv == xpath_steps(branch_xpath@),
            ({
                let st = template_upto(nv, sv, i as int);
                &&& template@ == st.0
                &&& ext_views(extractions@) == st.1
                &&& match prev_mod {
                    Some(m) => st.2 == Some(m@),
                    None => st.2.is_none(),
                }
                &&& xcursor == st.3
            }),
            xcursor <= xsteps@.len(),
        decreases nodes@.len() - i,
    {
        let node = nodes[i];
        assert(nv[i as int] == node@);
        let ghost st = template_upto(nv, sv, i as int);
        let ghost t1 = st.0 + segment(st.2, node.module@, node.name@);
        let ghost ms = match_step(node.name@, sv, st.3);
        let ghost stepv = match ms.0 {
            Some(j) => Some(sv[j]),
            None => None,
        };
        let same = match &prev_mod {
            Some(m) => str_eq(m.as_str(), node.module.as_str()),
            None => false,
        };
        push_char(&mut template, '/');
        if !same {
            push_str(&mut template, node.module.as_str());
            push_char(&mut template, ':');
        }
        push_str(&mut template, node.name.as_str());
        assert(template@ =~= t1);
        proof {
            lemma_match_step(node.name@, sv, xcursor as int);
        }
        let xstep = find_matching_step(node.name.as_str(), xsteps.as_slice(), &mut xcursor);
        assert(match xstep {
            Some(s) => Some(s@),
            None => None,
        } == stepv);
        if node.kind == SchemaKind::List {
            apply_keys(&mut template, &mut extractions, node, xstep);
        }
        let ghost t2 = template@;
        let ghost ex2 = ext_views(extractions@);
        assert((t2, ex2) == if node.kind == SchemaKind::List {
            keys_apply(t1, st.1, node@.3, node@.3.len() as int, node.module@, node.name@, stepv)
        } else {
            (t1, st.1)
        });
        if i == nodes.len() - 1 && node.kind == SchemaKind::LeafList {
            let mut dot_key = String::new();
            push_char(&mut dot_key, '.');
            assert(dot_key@ =~= dot());
            let pinned_dot_value = match xstep {
                Some(s) => lookup_value(s, dot_key.as_str()),
                None => None,
            };
            match pinned_dot_value {
                Some(val) => {
                    push_char(&mut template, '[');
                    push_char(&mut template, '.');
                    push_char(&mut template, '=');
                    let q = escape_xpath_value(val.as_str());
                    push_str(&mut template, q.as_str());
                    push_char(&mut template, ']');
                    assert(template@ =~= t2 + seq!['[', '.', '='] + escaped(val@) + seq![']']);
                },
                None => {
                    push_char(&mut template, '[');
                    push_char(&mut template, '.');
                    push_open_tail(&mut template);
                    assert(template@ =~= t2 + seq!['[', '.'] + open_tail());
                    let e = ExtractionSpec::for_leaf_list_value(
                        node.module.as_str(),
                        node.name.as_str(),
                    );
                    let ghost before = extractions@;
                    extractions.push(e);
                    assert(ext_views(extractions@) =~= ext_views(before).push(e@));
                },
            }
        }
        prev_mod = Some(copy_str(node.module.as_str()));
        proof {
            assert(same == (st.2 == Some(node.module@)));
            assert(template_upto(nv, sv, i + 1) == node_apply(st, nv[i as int], sv, i == nv.len() - 1));
        }
        i = i + 1;
    }
    let target = classify_target(chain[0].kind);
    assert(node_views(chain@)[0] == chain@[0]@);
    (template, extractions, target)
}

/// The view of one branch template: index, branch XPath, key template,
/// extractions, target type.
pub type BranchView = (int, Seq<char>, Seq<char>, Seq<ExtractionView>, TargetType);

/// The views of a sequence of branch templates.
pub open spec fn branch_views(v: Seq<BranchTemplate>) -> Seq<BranchView> {
    v.map_values(
        |b: BranchTemplate|
            (
                b.branch_index as int,
                b.branch_xpath@,
                b.key_template@,
                ext_views(b.extractions@),
                b.target_type,
            ),
    )
}

/// The views of the resolved ancestor chains.
pub open spec fn resolution_views(v: Seq<Option<Vec<SchemaNodeInfo>>>) -> Seq<
    Option<Seq<NodeView>>,
> {
    v.map_values(
        |o: Option<Vec<SchemaNodeInfo>>|
            match o {
                Some(c) => Some(node_views(c@)),
                None => None,
            },
    )
}

/// The ancestor chain resolved for branch `i`, if there is a non-empty one.
pub open spec fn chain_at(res: Seq<Option<Seq<NodeView>>>, i: int) -> Option<Seq<NodeView>> {
    if 0 <= i < res.len() {
        match res[i] {
            Some(c) => if c.len() > 0 {
                Some(c)
            } else {
                None
            },
            None => None,
        }
    } else {
        None
    }
}

/// The message of the error for a branch that did not resolve.
pub open spec fn unresolved_message(branch: Seq<char>) -> Seq<char> {
    "cannot resolve schema for '"@ + branch + "'"@
}

/// The branch templates of the first `n` branches, or the first error.
pub open spec fn derive_upto(
    bs: Seq<Seq<char>>,
    res: Seq<Option<Seq<NodeView>>>,
    n: int,
) -> Result<Seq<BranchView>, Seq<char>>
    decreases n,
{
    if n <= 0 {
        Ok(Seq::empty())
    } else {
        match derive_upto(bs, res, n - 1) {
            Err(e) => Err(e),
            Ok(r) => match chain_at(res, n - 1) {
                None => Err(unresolved_message(bs[n - 1])),
                Some(c) => {
                    let (t, e, tt) = template_for(c, bs[n - 1]);
                    Ok(r.push((n - 1, bs[n - 1], t, e, tt)))
                },
            },
        }
    }
}

/// An error among the first `i` branches is the error for all `n`.
proof fn lemma_derive_err(bs: Seq<Seq<char>>, res: Seq<Option<Seq<NodeView>>>, i: int, n: int)
    requires
        0 <= i <= n,
        derive_upto(bs, res, i) is Err,
    ensures
        derive_upto(bs, res, n) == derive_upto(bs, res, i),
    decreases n - i,
{
    if n > i {
        lemma_derive_err(bs, res, i, n - 1);
    }
}

/// Derive key templates from a subscription XPath.
///
/// The XPath may be a single path or multiple paths joined by `|`; each
/// branch is templated independently.  `resolved[i]` is the ancestor
/// chain (target first) of the schema node that branch `i` of
/// [`split_union`] resolves to, or `None` when it does not resolve.
///
/// Fails on the first branch with no resolved (non-empty) chain.
pub fn derive_templates(xpath: &str, resolved: &Vec<Option<Vec<SchemaNodeInfo>>>) -> (res: Result<
    DerivationResult,
    String,
>)
    ensures
        match res {
            Ok(d) => d.subscription_xpath@ == xpath@ && derive_upto(
                union_branches(xpath@),
                resolution_views(resolved@),
                union_branches(xpath@).len() as int,
            ) == Ok::<Seq<BranchView>, Seq<char>>(branch_views(d.branches@)),
            Err(e) => derive_upto(
                union_branches(xpath@),
                resolution_views(resolved@),
                union_branches(xpath@).len() as int,
            ) == Err::<Seq<BranchView>, Seq<char>>(e@),
        },
{
    let branch_xpaths = split_union(xpath);
    let ghost bs = union_branches(xpath@);
    let ghost rv = resolution_views(resolved@);
    let mut branches: Vec<BranchTemplate> = Vec::new();
    let mut i: usize = 0;
    assert(branch_views(branches@) =~= Seq::<BranchView>::empty());
    while i < branch_xpaths.len()
        invariant
            0 <= i <= branch_xpaths@.len(),
            views(branch_xpaths@) == bs,
            bs == union_branches(xpath@),
            rv == resolution_views(resolved@),
            derive_upto(bs, rv, i as int) == Ok::<Seq<BranchView>, Seq<char>>(
                branch_views(branches@),
            ),
        decreases branch_xpaths@.len() - i,
    {
        let bx = &branch_xpaths[i];
        assert(bs[i as int] == bx@);
        let chain: Option<&Vec<SchemaNodeInfo>> = if i < resolved.len() {
            match &resolved[i] {
                Some(c) => if c.len() > 0 {
                    Some(c)
                } else {
                    None
                },
                None => None,
            }
        } else {
            None
        };
        match chain {
            None => {
                let mut m = String::from_str("cannot resolve schema for '");
                push_str(&mut m, bx.as_str());
                push_str(&mut m, "'");
                proof {
                    lemma_derive_err(bs, rv, i + 1, bs.len() as int);
                }
                return Err(m);
            },
            Some(c) => {
                assert(chain_at(rv, i as int) == Some(node_views(c@)));
                let (key_template, extractions, target_type) = build_template(c, bx.as_str());
                let b = BranchTemplate {
                    branch_index: i,
                    branch_xpath: copy_str(bx.as_str()),
                    key_template,
                    extractions,
                    target_type,
                };
                let ghost before = branches@;
                branches.push(b);
                assert(branch_views(branches@) =~= branch_views(before).push(
                    (i as int, bx@, b.key_template@, ext_views(b.extractions@), b.target_type),
                ));
            },
        }
        i = i + 1;
    }
    Ok(DerivationResult { subscription_xpath: copy_str(xpath), branches })
}


// ------------------------------------------------------------------
//  Laws
// ------------------------------------------------------------------

/// What deriving the templates of `xpath` gives when its branches resolve
/// to `resolved` (one entry per branch, in order).
pub open spec fn derivation_outcome(
    xpath: Seq<char>,
    resolved: Seq<Option<Seq<NodeView>>>,
    res: Result<DerivationResult, String>,
) -> bool {
    let bs = union_branches(xpath);
    match res {
        Ok(d) => d.subscription_xpath@ == xpath && derive_upto(bs, resolved, bs.len() as int)
            == Ok::<Seq<BranchView>, Seq<char>>(branch_views(d.branches@)),
        Err(e) => derive_upto(bs, resolved, bs.len() as int) == Err::<Seq<BranchView>, Seq<char>>(
            e@,
        ),
    }
}

/// Whether `resolve` can answer `answer` when asked about the branch
/// `branch`.
pub open spec fn answers<F: Fn(&str) -> Option<Vec<SchemaNodeInfo>>>(
    resolve: F,
    branch: Seq<char>,
    answer: Option<Vec<SchemaNodeInfo>>,
) -> bool {
    exists|b: &str| #![trigger resolve.ensures((b,), answer)] b@ == branch && resolve.ensures((b,), answer)
}

/// Derive key templates for all branches of a subscription XPath, with
/// `resolve` answering, for one branch, the inclusive ancestor chain
/// (target first) of its target schema node, or `None` when the schema
/// has no such node.
///
/// The XPath is split into its union branches, `resolve` is asked once
/// per branch, in order, and the result is exactly what
/// [`derive_templates`] gives for those answers.
pub fn derive_templates_with<F: Fn(&str) -> Option<Vec<SchemaNodeInfo>>>(
    xpath: &str,
    resolve: F,
) -> (res: Result<DerivationResult, String>)
    requires
        forall|b: &str| #[trigger] resolve.requires((b,)),
    ensures
        exists|r: Seq<Option<Vec<SchemaNodeInfo>>>|
            #![trigger resolution_views(r)]
            r.len() == union_branches(xpath@).len() && (forall|i: int|
                0 <= i < r.len() ==> answers(resolve, union_branches(xpath@)[i], #[trigger] r[i]))
                && derivation_outcome(xpath@, resolution_views(r), res),
{
    let branches = split_union(xpath);
    let mut resolved: Vec<Option<Vec<SchemaNodeInfo>>> = Vec::new();
    let mut i: usize = 0;
    while i < branches.len()
        invariant
            0 <= i <= branches@.len(),
            views(branches@) == union_branches(xpath@),
            forall|b: &str| #[trigger] resolve.requires((b,)),
            resolved@.len() == i,
            forall|k: int|
                0 <= k < i ==> answers(resolve, union_branches(xpath@)[k], #[trigger] resolved@[k]),
        decreases branches@.len() - i,
    {
        let b = branches[i].as_str();
        assert(b@ == union_branches(xpath@)[i as int]);
        let r = resolve(b);
        assert(answers(resolve, union_branches(xpath@)[i as int], r));
        let ghost before = resolved@;
        resolved.push(r);
        proof {
            assert forall|k: int| 0 <= k < i + 1 implies answers(
                resolve,
                union_branches(xpath@)[k],
                #[trigger] resolved@[k],
            ) by {
                if k < i {
                    assert(resolved@[k] == before[k]);
                } else {
                    assert(resolved@[k] == r);
                }
            }
        }
        i = i + 1;
    }
    let res = derive_templates(xpath, &resolved);
    assert(derivation_outcome(xpath@, resolution_views(resolved@), res));
    res
}

/// The schema DATA path of the first `n` path nodes (root first):
/// `/module:name` on the first node and where the module changes,
/// `/name` elsewhere.
pub open spec fn data_path_upto(nodes: Seq<NodeView>, n: int) -> Seq<char>
    decreases n,
{
    if n <= 0 {
        Seq::empty()
    } else {
        data_path_upto(nodes, n - 1) + segment(
            if n - 1 > 0 {
                Some(nodes[n - 2].0)
            } else {
                None
            },
            nodes[n - 1].0,
            nodes[n - 1].1,
        )
    }
}

/// The schema DATA path of the target of an ancestor chain.
pub open spec fn data_path(chain: Seq<NodeView>) -> Seq<char> {
    let nodes = path_nodes(chain);
    data_path_upto(nodes, nodes.len() as int)
}

/// Whether a schema node's module, name and key names hold no bracket.
pub open spec fn node_bracket_free(n: NodeView) -> bool {
    &&& no_brackets(n.0)
    &&& no_brackets(n.1)
    &&& forall|k: int| 0 <= k < n.3.len() ==> no_brackets(#[trigger] n.3[k])
}

/// Whether the predicate values of path steps hold no bracket.
pub open spec fn steps_bracket_free(steps: Seq<StepView>) -> bool {
    forall|j: int, k: int|
        0 <= j < steps.len() && 0 <= k < steps[j].1.len() ==> no_brackets(
            #[trigger] steps[j].1[k].1,
        )
}

proof fn lemma_no_brackets_concat(a: Seq<char>, b: Seq<char>)
    requires
        no_brackets(a),
        no_brackets(b),
    ensures
        no_brackets(a + b),
{
    assert forall|m: int| 0 <= m < (a + b).len() implies (a + b)[m] != '[' && (a + b)[m] != ']' by {
        if m < a.len() {
            assert((a + b)[m] == a[m]);
        } else {
            assert((a + b)[m] == b[m - a.len()]);
        }
    }
}

proof fn lemma_no_brackets_lit(a: Seq<char>)
    requires
        forall|m: int| 0 <= m < a.len() ==> a[m] != '[' && a[m] != ']',
    ensures
        no_brackets(a),
{
}

proof fn lemma_path_nodes_bracket_free(chain: Seq<NodeView>)
    requires
        forall|i: int| 0 <= i < chain.len() ==> node_bracket_free(#[trigger] chain[i]),
    ensures
        forall|i: int|
            0 <= i < path_nodes(chain).len() ==> node_bracket_free(#[trigger] path_nodes(chain)[i]),
    decreases chain.len(),
{
    if chain.len() > 0 {
        let rest = chain.drop_first();
        assert forall|i: int| 0 <= i < rest.len() implies node_bracket_free(#[trigger] rest[i]) by {
            assert(rest[i] == chain[i + 1]);
        }
        lemma_path_nodes_bracket_free(rest);
        let pr = path_nodes(rest);
        if in_path(chain[0].2) {
            assert forall|i: int|
                0 <= i < path_nodes(chain).len() implies node_bracket_free(
                #[trigger] path_nodes(chain)[i],
            ) by {
                if i < pr.len() {
                    assert(path_nodes(chain)[i] == pr[i]);
                } else {
                    assert(path_nodes(chain)[i] == chain[0]);
                }
            }
        }
    }
}

proof fn lemma_kv_lookup_bracket_free(kvs: Seq<(Seq<char>, Seq<char>)>, key: Seq<char>)
    requires
        forall|k: int| 0 <= k < kvs.len() ==> no_brackets(#[trigger] kvs[k].1),
    ensures
        kv_lookup(kvs, key) matches Some(v) ==> no_brackets(v),
    decreases kvs.len(),
{
    if kvs.len() > 0 && kvs[0].0 != key {
        let rest = kvs.drop_first();
        assert forall|k: int| 0 <= k < rest.len() implies no_brackets(#[trigger] rest[k].1) by {
            assert(rest[k] == kvs[k + 1]);
        }
        lemma_kv_lookup_bracket_free(rest, key);
    } else if kvs.len() > 0 {
        assert(no_brackets(kvs[0].1));
    }
}

/// Appending a predicate `[x]` with a bracket-free `x` keeps the
/// stripped template and a zero bracket depth.
proof fn lemma_append_pred(t: Seq<char>, x: Seq<char>)
    requires
        depth_before(t, t.len() as int) == 0,
        no_brackets(x),
    ensures
        stripped(t + (seq!['['] + x + seq![']'])) == stripped(t),
        depth_before(t + (seq!['['] + x + seq![']']), (t + (seq!['['] + x + seq![']'])).len() as int)
            == 0,
{
    lemma_stripped_pred(x);
    lemma_stripped_concat(t, seq!['['] + x + seq![']']);
    assert(stripped(t) + Seq::<char>::empty() =~= stripped(t));
}

proof fn lemma_keys_apply_stripped(
    t: Seq<char>,
    ex: Seq<ExtractionView>,
    keys: Seq<Seq<char>>,
    k: int,
    module: Seq<char>,
    name: Seq<char>,
    step: Option<StepView>,
)
    requires
        0 <= k <= keys.len(),
        depth_before(t, t.len() as int) == 0,
        forall|i: int| 0 <= i < keys.len() ==> no_brackets(#[trigger] keys[i]),
        step matches Some(st) ==> forall|i: int|
            0 <= i < st.1.len() ==> no_brackets(#[trigger] st.1[i].1),
    ensures
        stripped(keys_apply(t, ex, keys, k, module, name, step).0) == stripped(t),
        depth_before(
            keys_apply(t, ex, keys, k, module, name, step).0,
            keys_apply(t, ex, keys, k, module, name, step).0.len() as int,
        ) == 0,
    decreases k,
{
    if k > 0 {
        lemma_keys_apply_stripped(t, ex, keys, k - 1, module, name, step);
        let t1 = keys_apply(t, ex, keys, k - 1, module, name, step).0;
        let key = keys[k - 1];
        assert(no_brackets(key));
        match pinned(step, key) {
            Some(v) => {
                let st = step->0;
                lemma_kv_lookup_bracket_free(st.1, key);
                lemma_escaped_no_brackets(v);
                lemma_no_brackets_lit(seq!['=']);
                lemma_no_brackets_concat(key, seq!['=']);
                lemma_no_brackets_concat(key + seq!['='], escaped(v));
                let x = key + seq!['='] + escaped(v);
                lemma_append_pred(t1, x);
                assert(t1 + seq!['['] + key + seq!['='] + escaped(v) + seq![']'] =~= t1 + (seq!['[']
                    + x + seq![']']));
            },
            None => {
                let tail = seq!['=', '\'', '%', 's', '\''];
                lemma_no_brackets_lit(tail);
                lemma_no_brackets_concat(key, tail);
                let x = key + tail;
                lemma_append_pred(t1, x);
                assert(t1 + seq!['['] + key + open_tail() =~= t1 + (seq!['['] + x + seq![']']));
            },
        }
    }
}

proof fn lemma_template_stripped(nodes: Seq<NodeView>, steps: Seq<StepView>, n: int)
    requires
        0 <= n <= nodes.len(),
        forall|i: int| 0 <= i < nodes.len() ==> node_bracket_free(#[trigger] nodes[i]),
        steps_bracket_free(steps),
    ensures
        stripped(template_upto(nodes, steps, n).0) == data_path_upto(nodes, n),
        depth_before(
            template_upto(nodes, steps, n).0,
            template_upto(nodes, steps, n).0.len() as int,
        ) == 0,
        template_upto(nodes, steps, n).2 == if n > 0 {
            Some(nodes[n - 1].0)
        } else {
            None
        },
    decreases n,
{
    if n == 0 {
        assert(depth_before(Seq::<char>::empty(), 0) == 0);
        assert(stripped(Seq::<char>::empty()) == Seq::<char>::empty());
    } else {
        lemma_template_stripped(nodes, steps, n - 1);
        lemma_template_cursor(nodes, steps, n - 1);
        let st = template_upto(nodes, steps, n - 1);
        let node = nodes[n - 1];
        let (module, name, kind, keys) = node;
        assert(node_bracket_free(node));
        let seg = segment(st.2, module, name);
        assert(no_brackets(seg)) by {
            lemma_no_brackets_lit(seq!['/']);
            lemma_no_brackets_lit(seq![':']);
            lemma_no_brackets_concat(seq!['/'], module);
            lemma_no_brackets_concat(seq!['/'] + module, seq![':']);
            lemma_no_brackets_concat(seq!['/'] + module + seq![':'], name);
            lemma_no_brackets_concat(seq!['/'], name);
        }
        lemma_stripped_plain(seg);
        lemma_stripped_concat(st.0, seg);
        let t1 = st.0 + seg;
        lemma_match_step(name, steps, st.3);
        let (j, cur2) = match_step(name, steps, st.3);
        let step = match j {
            Some(j) => Some(steps[j]),
            None => None,
        };
        if j is Some {
            let jj = j->0;
            assert forall|i: int| 0 <= i < steps[jj].1.len() implies no_brackets(
                #[trigger] steps[jj].1[i].1,
            ) by {}
        }
        let (t2, ex2) = if kind == SchemaKind::List {
            lemma_keys_apply_stripped(t1, st.1, keys, keys.len() as int, module, name, step);
            keys_apply(t1, st.1, keys, keys.len() as int, module, name, step)
        } else {
            (t1, st.1)
        };
        if n - 1 == nodes.len() - 1 && kind == SchemaKind::LeafList {
            match pinned_dot(step) {
                Some(v) => {
                    let st2 = step->0;
                    lemma_kv_lookup_bracket_free(st2.1, dot());
                    lemma_escaped_no_brackets(v);
                    lemma_no_brackets_lit(seq!['.', '=']);
                    lemma_no_brackets_concat(seq!['.', '='], escaped(v));
                    let x = seq!['.', '='] + escaped(v);
                    lemma_append_pred(t2, x);
                    assert(t2 + seq!['[', '.', '='] + escaped(v) + seq![']'] =~= t2 + (seq!['['] + x
                        + seq![']']));
                },
                None => {
                    let x = seq!['.', '=', '\'', '%', 's', '\''];
                    lemma_no_brackets_lit(x);
                    lemma_append_pred(t2, x);
                    assert(t2 + seq!['[', '.'] + open_tail() =~= t2 + (seq!['['] + x + seq![']']));
                },
            }
        }
    }
}

/// Stripping the predicates from a key template gives the schema DATA
/// path of the branch target: the template matches exactly the data
/// nodes of that schema node, whatever instance the branch pins.  This
/// holds when the schema names and the branch's predicate values hold
/// no bracket.
pub proof fn law_template_strips_to_schema_path(chain: Seq<NodeView>, branch: Seq<char>)
    requires
        forall|i: int| 0 <= i < chain.len() ==> node_bracket_free(#[trigger] chain[i]),
        steps_bracket_free(xpath_steps(branch)),
    ensures
        stripped(template_for(chain, branch).0) == data_path(chain),
{
    lemma_path_nodes_bracket_free(chain);
    let nodes = path_nodes(chain);
    lemma_template_stripped(nodes, xpath_steps(branch), nodes.len() as int);
}


// ------------------------------------------------------------------
//  Placeholders and extractions
// ------------------------------------------------------------------

/// Positions moved right by `d`.
pub open spec fn shifted(ps: Seq<int>, d: int) -> Seq<int> {
    ps.map_values(|p: int| p + d)
}

/// Whether a schema node's module, name and key names hold no
/// placeholder.
pub open spec fn node_placeholder_free(n: NodeView) -> bool {
    &&& !has_placeholder(n.0)
    &&& !has_placeholder(n.1)
    &&& forall|k: int| 0 <= k < n.3.len() ==> !has_placeholder(#[trigger] n.3[k])
}

/// Whether the predicate values of path steps, as written into a
/// template, hold no placeholder.
pub open spec fn steps_placeholder_free(steps: Seq<StepView>) -> bool {
    forall|j: int, k: int|
        0 <= j < steps.len() && 0 <= k < steps[j].1.len() ==> !has_placeholder(
            escaped(#[trigger] steps[j].1[k].1),
        )
}

proof fn lemma_placeholders_shift(t: Seq<char>, w: Seq<char>, k: int)
    requires
        0 <= k <= w.len(),
    ensures
        placeholders_from(t + w, t.len() + k) == shifted(placeholders_from(w, k), t.len() as int),
    decreases w.len() - k,
{
    let tw = t + w;
    let i = t.len() + k;
    if k == w.len() {
        assert(shifted(Seq::<int>::empty(), t.len() as int) =~= Seq::<int>::empty());
    } else {
        assert(tw[i] == w[k]);
        if k + 1 < w.len() {
            assert(tw[i + 1] == w[k + 1]);
        }
        assert(placeholder_at(tw, i) == placeholder_at(w, k));
        if placeholder_at(w, k) {
            lemma_placeholders_shift(t, w, k + 2);
            assert(shifted(seq![k] + placeholders_from(w, k + 2), t.len() as int) =~= seq![i]
                + shifted(placeholders_from(w, k + 2), t.len() as int));
        } else {
            lemma_placeholders_shift(t, w, k + 1);
        }
    }
}

/// The placeholders of `t + w` are those of `t`, then those of `w`,
/// when the join makes no new one.
proof fn lemma_placeholders_concat(t: Seq<char>, w: Seq<char>, i: int)
    requires
        0 <= i <= t.len(),
        w.len() > 0 ==> w[0] != 's',
    ensures
        placeholders_from(t + w, i) == placeholders_from(t, i) + shifted(
            placeholders_from(w, 0),
            t.len() as int,
        ),
    decreases t.len() - i,
{
    let tw = t + w;
    if i == t.len() {
        lemma_placeholders_shift(t, w, 0);
        assert(Seq::<int>::empty() + shifted(placeholders_from(w, 0), t.len() as int) =~= shifted(
            placeholders_from(w, 0),
            t.len() as int,
        ));
    } else {
        assert(tw[i] == t[i]);
        if i + 1 < t.len() {
            assert(tw[i + 1] == t[i + 1]);
        } else if w.len() > 0 {
            assert(tw[i + 1] == w[0]);
        }
        assert(placeholder_at(tw, i) == placeholder_at(t, i));
        let sw = shifted(placeholders_from(w, 0), t.len() as int);
        if placeholder_at(t, i) {
            lemma_placeholders_concat(t, w, i + 2);
            assert(seq![i] + placeholders_from(t, i + 2) + sw =~= seq![i] + (placeholders_from(
                t,
                i + 2,
            ) + sw));
        } else {
            lemma_placeholders_concat(t, w, i + 1);
        }
    }
}

proof fn lemma_no_placeholders(w: Seq<char>, k: int)
    requires
        0 <= k,
        !has_placeholder(w),
    ensures
        placeholders_from(w, k) == Seq::<int>::empty(),
    decreases w.len() - k,
{
    if k < w.len() {
        assert(!placeholder_at(w, k));
        lemma_no_placeholders(w, k + 1);
    }
}

/// Joining two pieces without placeholders makes none, unless the first
/// ends in `%` and the second starts with `s`.
proof fn lemma_no_placeholder_join(a: Seq<char>, b: Seq<char>)
    requires
        !has_placeholder(a),
        !has_placeholder(b),
        a.len() > 0 && b.len() > 0 ==> a.last() != '%' || b[0] != 's',
    ensures
        !has_placeholder(a + b),
{
    assert forall|i: int| !placeholder_at(a + b, i) by {
        if placeholder_at(a + b, i) {
            if i + 1 < a.len() {
                assert((a + b)[i] == a[i] && (a + b)[i + 1] == a[i + 1]);
                assert(placeholder_at(a, i));
            } else if i >= a.len() {
                assert((a + b)[i] == b[i - a.len()] && (a + b)[i + 1] == b[i + 1 - a.len()]);
                assert(placeholder_at(b, i - a.len()));
            } else {
                assert((a + b)[i] == a.last() && (a + b)[i + 1] == b[0]);
            }
        }
    }
}

/// Appending a piece without placeholders, which starts with neither
/// `s` nor nothing, keeps the placeholders and their pairing.
proof fn lemma_append_plain(t: Seq<char>, ex: Seq<ExtractionView>, w: Seq<char>)
    requires
        !has_placeholder(w),
        w.len() > 0 ==> w[0] != 's',
        placeholders_from(t, 0).len() == ex.len(),
        forall|j: int|
            0 <= j < ex.len() ==> pairs_with(t, #[trigger] placeholders_from(t, 0)[j], ex[j]),
    ensures
        placeholders_from(t + w, 0) == placeholders_from(t, 0),
        forall|j: int|
            0 <= j < ex.len() ==> pairs_with(t + w, #[trigger] placeholders_from(t + w, 0)[j], ex[j]),
{
    lemma_placeholders_concat(t, w, 0);
    lemma_no_placeholders(w, 0);
    assert(placeholders_from(t, 0) + shifted(Seq::<int>::empty(), t.len() as int) =~= placeholders_from(t, 0));
    assert forall|j: int| 0 <= j < ex.len() implies pairs_with(
        t + w,
        #[trigger] placeholders_from(t + w, 0)[j],
        ex[j],
    ) by {
        let pos = placeholders_from(t, 0)[j];
        assert(pairs_with(t, pos, ex[j]));
        lemma_pairs_extend(t, w, pos, ex[j]);
    }
}

proof fn lemma_pairs_extend(t: Seq<char>, w: Seq<char>, pos: int, e: ExtractionView)
    requires
        pairs_with(t, pos, e),
    ensures
        pairs_with(t + w, pos, e),
{
    let tw = t + w;
    assert(tw.subrange(pos, pos + 4) =~= t.subrange(pos, pos + 4));
    assert(tw.subrange(0, pos + 4) =~= t.subrange(0, pos + 4));
    if pos >= 4 {
        assert(tw.subrange(pos - 4, pos) =~= t.subrange(pos - 4, pos));
    }
    if pos >= e.1.len() + 3 {
        assert(tw.subrange(pos - e.1.len() - 3, pos) =~= t.subrange(pos - e.1.len() - 3, pos));
    }
}

/// Appending an open predicate `[k='%s']` adds one placeholder, paired
/// with the extraction that reads `k` below the template up to there.
#[verifier::rlimit(40)]
proof fn lemma_append_open(
    t: Seq<char>,
    ex: Seq<ExtractionView>,
    k: Seq<char>,
    e: ExtractionView,
)
    requires
        !has_placeholder(k),
        placeholders_from(t, 0).len() == ex.len(),
        forall|j: int|
            0 <= j < ex.len() ==> pairs_with(t, #[trigger] placeholders_from(t, 0)[j], ex[j]),
        ({
            let t2 = t + (seq!['['] + k + open_tail());
            ||| (k == dot() && e == (dot(), dot(), Seq::<char>::empty(), Seq::<char>::empty()))
            ||| (e.1 == k && e == list_key_extraction(k, e.2, e.3, t2))
        }),
    ensures
        ({
            let t2 = t + (seq!['['] + k + open_tail());
            &&& placeholders_from(t2, 0) == placeholders_from(t, 0).push(t.len() + k.len() + 3int)
            &&& placeholders_from(t2, 0).len() == ex.push(e).len()
            &&& forall|j: int|
                0 <= j < ex.push(e).len() ==> pairs_with(
                    t2,
                    #[trigger] placeholders_from(t2, 0)[j],
                    ex.push(e)[j],
                )
        }),
{
    let o = open_tail();
    let a = seq!['['] + k;
    let w = a + o;
    let t2 = t + w;
    // the placeholders of the open tail `='%s']`
    assert(placeholders_from(o, 6) == Seq::<int>::empty());
    assert(!placeholder_at(o, 5));
    assert(placeholders_from(o, 5) == Seq::<int>::empty());
    assert(!placeholder_at(o, 4));
    assert(placeholders_from(o, 4) == Seq::<int>::empty());
    assert(placeholder_at(o, 2));
    assert(placeholders_from(o, 2) =~= seq![2int]);
    assert(!placeholder_at(o, 1));
    assert(placeholders_from(o, 1) =~= seq![2int]);
    assert(!placeholder_at(o, 0));
    assert(placeholders_from(o, 0) =~= seq![2int]);
    // `[k` holds none
    assert(!has_placeholder(seq!['['])) by {
        assert forall|i: int| !placeholder_at(seq!['['], i) by {}
    }
    lemma_no_placeholder_join(seq!['['], k);
    lemma_no_placeholders(a, 0);
    lemma_placeholders_concat(a, o, 0);
    assert(shifted(seq![2int], a.len() as int) =~= seq![a.len() + 2int]);
    assert(placeholders_from(w, 0) =~= seq![a.len() + 2int]);
    lemma_placeholders_concat(t, w, 0);
    let pos = t.len() + k.len() + 3int;
    assert(shifted(seq![a.len() + 2int], t.len() as int) =~= seq![pos]);
    assert(placeholders_from(t2, 0) =~= placeholders_from(t, 0).push(pos));
    assert forall|j: int| 0 <= j < ex.push(e).len() implies pairs_with(
        t2,
        #[trigger] placeholders_from(t2, 0)[j],
        ex.push(e)[j],
    ) by {
        if j < ex.len() {
            let p = placeholders_from(t, 0)[j];
            assert(pairs_with(t, p, ex[j]));
            lemma_pairs_extend(t, w, p, ex[j]);
            assert(placeholders_from(t2, 0)[j] == p);
        } else {
            assert(placeholders_from(t2, 0)[j] == pos);
            assert(t2.len() == pos + 4);
            assert(t2.subrange(pos, pos + 4) =~= seq!['%', 's', '\'', ']']);
            assert(t2.subrange(0, pos + 4) =~= t2);
            if k == dot() && e == (dot(), dot(), Seq::<char>::empty(), Seq::<char>::empty()) {
                assert(t2.subrange(pos - 4, pos) =~= seq!['[', '.', '=', '\'']);
            } else {
                assert(t2.subrange(pos - e.1.len() - 3, pos) =~= seq!['['] + e.1 + seq!['=', '\'']);
            }
        }
    }
}


proof fn lemma_lit_plain(w: Seq<char>)
    requires
        forall|i: int| 0 <= i < w.len() ==> w[i] != '%',
    ensures
        !has_placeholder(w),
{
    assert forall|i: int| !placeholder_at(w, i) by {
        if 0 <= i < w.len() {
            assert(w[i] != '%');
        }
    }
}

proof fn lemma_kv_lookup_placeholder_free(kvs: Seq<(Seq<char>, Seq<char>)>, key: Seq<char>)
    requires
        forall|k: int| 0 <= k < kvs.len() ==> !has_placeholder(escaped(#[trigger] kvs[k].1)),
    ensures
        kv_lookup(kvs, key) matches Some(v) ==> !has_placeholder(escaped(v)),
    decreases kvs.len(),
{
    if kvs.len() > 0 && kvs[0].0 != key {
        let rest = kvs.drop_first();
        assert forall|k: int| 0 <= k < rest.len() implies !has_placeholder(
            escaped(#[trigger] rest[k].1),
        ) by {
            assert(rest[k] == kvs[k + 1]);
        }
        lemma_kv_lookup_placeholder_free(rest, key);
    } else if kvs.len() > 0 {
        assert(!has_placeholder(escaped(kvs[0].1)));
    }
}

proof fn lemma_path_nodes_placeholder_free(chain: Seq<NodeView>)
    requires
        forall|i: int| 0 <= i < chain.len() ==> node_placeholder_free(#[trigger] chain[i]),
    ensures
        forall|i: int|
            0 <= i < path_nodes(chain).len() ==> node_placeholder_free(
                #[trigger] path_nodes(chain)[i],
            ),
    decreases chain.len(),
{
    if chain.len() > 0 {
        let rest = chain.drop_first();
        assert forall|i: int| 0 <= i < rest.len() implies node_placeholder_free(
            #[trigger] rest[i],
        ) by {
            assert(rest[i] == chain[i + 1]);
        }
        lemma_path_nodes_placeholder_free(rest);
        let pr = path_nodes(rest);
        if in_path(chain[0].2) {
            assert forall|i: int|
                0 <= i < path_nodes(chain).len() implies node_placeholder_free(
                #[trigger] path_nodes(chain)[i],
            ) by {
                if i < pr.len() {
                    assert(path_nodes(chain)[i] == pr[i]);
                } else {
                    assert(path_nodes(chain)[i] == chain[0]);
                }
            }
        }
    }
}

/// The placeholders of a template and its extractions pair up, one to
/// one and in order.
pub open spec fn paired(t: Seq<char>, ex: Seq<ExtractionView>) -> bool {
    &&& placeholders_from(t, 0).len() == ex.len()
    &&& forall|j: int|
        0 <= j < ex.len() ==> pairs_with(t, #[trigger] placeholders_from(t, 0)[j], ex[j])
}

proof fn lemma_keys_apply_paired(
    t: Seq<char>,
    ex: Seq<ExtractionView>,
    keys: Seq<Seq<char>>,
    k: int,
    module: Seq<char>,
    name: Seq<char>,
    step: Option<StepView>,
)
    requires
        0 <= k <= keys.len(),
        paired(t, ex),
        forall|i: int| 0 <= i < keys.len() ==> !has_placeholder(#[trigger] keys[i]),
        step matches Some(st) ==> forall|i: int|
            0 <= i < st.1.len() ==> !has_placeholder(escaped(#[trigger] st.1[i].1)),
    ensures
        paired(
            keys_apply(t, ex, keys, k, module, name, step).0,
            keys_apply(t, ex, keys, k, module, name, step).1,
        ),
    decreases k,
{
    if k > 0 {
        lemma_keys_apply_paired(t, ex, keys, k - 1, module, name, step);
        let (t1, e1) = keys_apply(t, ex, keys, k - 1, module, name, step);
        let key = keys[k - 1];
        assert(!has_placeholder(key));
        match pinned(step, key) {
            Some(v) => {
                let st = step->0;
                lemma_kv_lookup_placeholder_free(st.1, key);
                lemma_lit_plain(seq!['[']);
                lemma_lit_plain(seq!['=']);
                lemma_lit_plain(seq![']']);
                lemma_no_placeholder_join(seq!['['], key);
                lemma_no_placeholder_join(seq!['['] + key, seq!['=']);
                lemma_no_placeholder_join(seq!['['] + key + seq!['='], escaped(v));
                lemma_no_placeholder_join(seq!['['] + key + seq!['='] + escaped(v), seq![']']);
                let w = seq!['['] + key + seq!['='] + escaped(v) + seq![']'];
                lemma_append_plain(t1, e1, w);
                assert(t1 + seq!['['] + key + seq!['='] + escaped(v) + seq![']'] =~= t1 + w);
            },
            None => {
                let t2 = t1 + seq!['['] + key + open_tail();
                assert(t2 =~= t1 + (seq!['['] + key + open_tail()));
                lemma_append_open(t1, e1, key, list_key_extraction(key, module, name, t2));
            },
        }
    }
}

proof fn lemma_template_paired(nodes: Seq<NodeView>, steps: Seq<StepView>, n: int)
    requires
        0 <= n <= nodes.len(),
        forall|i: int| 0 <= i < nodes.len() ==> node_placeholder_free(#[trigger] nodes[i]),
        steps_placeholder_free(steps),
    ensures
        paired(template_upto(nodes, steps, n).0, template_upto(nodes, steps, n).1),
    decreases n,
{
    if n == 0 {
        assert(placeholders_from(Seq::<char>::empty(), 0) == Seq::<int>::empty());
    } else {
        lemma_template_paired(nodes, steps, n - 1);
        lemma_template_cursor(nodes, steps, n - 1);
        let st = template_upto(nodes, steps, n - 1);
        let node = nodes[n - 1];
        let (module, name, kind, keys) = node;
        assert(node_placeholder_free(node));
        let seg = segment(st.2, module, name);
        assert(!has_placeholder(seg)) by {
            lemma_lit_plain(seq!['/']);
            lemma_lit_plain(seq![':']);
            lemma_no_placeholder_join(seq!['/'], module);
            lemma_no_placeholder_join(seq!['/'] + module, seq![':']);
            lemma_no_placeholder_join(seq!['/'] + module + seq![':'], name);
            lemma_no_placeholder_join(seq!['/'], name);
        }
        lemma_append_plain(st.0, st.1, seg);
        let t1 = st.0 + seg;
        lemma_match_step(name, steps, st.3);
        let (j, cur2) = match_step(name, steps, st.3);
        let step = match j {
            Some(j) => Some(steps[j]),
            None => None,
        };
        if j is Some {
            let jj = j->0;
            assert forall|i: int| 0 <= i < steps[jj].1.len() implies !has_placeholder(
                escaped(#[trigger] steps[jj].1[i].1),
            ) by {}
        }
        let (t2, ex2) = if kind == SchemaKind::List {
            lemma_keys_apply_paired(t1, st.1, keys, keys.len() as int, module, name, step);
            keys_apply(t1, st.1, keys, keys.len() as int, module, name, step)
        } else {
            (t1, st.1)
        };
        if n - 1 == nodes.len() - 1 && kind == SchemaKind::LeafList {
            match pinned_dot(step) {
                Some(v) => {
                    let st2 = step->0;
                    lemma_kv_lookup_placeholder_free(st2.1, dot());
                    lemma_lit_plain(seq!['[', '.', '=']);
                    lemma_lit_plain(seq![']']);
                    lemma_no_placeholder_join(seq!['[', '.', '='], escaped(v));
                    lemma_no_placeholder_join(seq!['[', '.', '='] + escaped(v), seq![']']);
                    let w = seq!['[', '.', '='] + escaped(v) + seq![']'];
                    lemma_append_plain(t2, ex2, w);
                    assert(t2 + seq!['[', '.', '='] + escaped(v) + seq![']'] =~= t2 + w);
                },
                None => {
                    lemma_lit_plain(dot());
                    assert(seq!['['] + dot() + open_tail() =~= seq!['[', '.'] + open_tail());
                    assert(t2 + seq!['[', '.'] + open_tail() =~= t2 + (seq!['['] + dot()
                        + open_tail()));
                    lemma_append_open(
                        t2,
                        ex2,
                        dot(),
                        (dot(), dot(), Seq::<char>::empty(), Seq::<char>::empty()),
                    );
                },
            }
        }
    }
}

/// Whether `s` is spelled like a YANG identifier: ASCII letters, digits,
/// `_`, `-` and `.` only.
pub open spec fn identifier_chars(s: Seq<char>) -> bool {
    forall|i: int|
        0 <= i < s.len() ==> {
            let c = #[trigger] s[i];
            ('a' <= c && c <= 'z') || ('A' <= c && c <= 'Z') || ('0' <= c && c <= '9') || c == '_'
                || c == '-' || c == '.'
        }
}

/// Whether a schema node's module, name and key names are spelled like
/// YANG identifiers, as libyang's names are.
pub open spec fn node_identifiers(n: NodeView) -> bool {
    &&& identifier_chars(n.0)
    &&& identifier_chars(n.1)
    &&& forall|k: int| 0 <= k < n.3.len() ==> identifier_chars(#[trigger] n.3[k])
}

/// Whether no predicate value of the path steps holds a placeholder.
pub open spec fn step_values_placeholder_free(steps: Seq<StepView>) -> bool {
    forall|j: int, k: int|
        0 <= j < steps.len() && 0 <= k < steps[j].1.len() ==> !has_placeholder(
            #[trigger] steps[j].1[k].1,
        )
}

proof fn lemma_identifier_plain(s: Seq<char>)
    requires
        identifier_chars(s),
    ensures
        !has_placeholder(s),
{
    assert forall|i: int| 0 <= i < s.len() implies s[i] != '%' by {
        let c = s[i];
    }
    lemma_lit_plain(s);
}

proof fn lemma_subrange_plain(s: Seq<char>, a: int, b: int)
    requires
        !has_placeholder(s),
        0 <= a <= b <= s.len(),
    ensures
        !has_placeholder(s.subrange(a, b)),
{
    let t = s.subrange(a, b);
    assert forall|i: int| !placeholder_at(t, i) by {
        if placeholder_at(t, i) {
            assert(t[i] == s[a + i] && t[i + 1] == s[a + i + 1]);
            assert(placeholder_at(s, a + i));
        }
    }
}

/// The pieces between the `c`s of a text without placeholders hold none;
/// the last one is a suffix of the text read so far.
proof fn lemma_split_pieces_plain(s: Seq<char>, c: char, i: int)
    requires
        !has_placeholder(s),
        0 <= i <= s.len(),
    ensures
        split_pieces(s, c, i).len() >= 1,
        forall|k: int|
            0 <= k < split_pieces(s, c, i).len() ==> !has_placeholder(
                #[trigger] split_pieces(s, c, i)[k],
            ),
        split_pieces(s, c, i).last().len() <= i,
        split_pieces(s, c, i).last() == s.subrange(i - split_pieces(s, c, i).last().len(), i),
    decreases i,
{
    crate::xpath::lemma_split_pieces_len(s, c, i);
    if i == 0 {
        lemma_lit_plain(Seq::<char>::empty());
        assert(split_pieces(s, c, 0)[0] == Seq::<char>::empty());
        assert(s.subrange(0, 0) =~= Seq::<char>::empty());
    } else {
        lemma_split_pieces_plain(s, c, i - 1);
        let p = split_pieces(s, c, i - 1);
        if s[i - 1] == c {
            lemma_lit_plain(Seq::<char>::empty());
            assert(s.subrange(i, i) =~= Seq::<char>::empty());
            assert forall|k: int| 0 <= k < split_pieces(s, c, i).len() implies !has_placeholder(
                #[trigger] split_pieces(s, c, i)[k],
            ) by {
                if k < p.len() {
                    assert(split_pieces(s, c, i)[k] == p[k]);
                }
            }
        } else {
            let n = p.last().len();
            let l = p.last().push(s[i - 1]);
            assert(l =~= s.subrange(i - 1 - n, i));
            lemma_subrange_plain(s, i - 1 - n, i);
            assert forall|k: int| 0 <= k < split_pieces(s, c, i).len() implies !has_placeholder(
                #[trigger] split_pieces(s, c, i)[k],
            ) by {
                if k < p.len() - 1 {
                    assert(split_pieces(s, c, i)[k] == p[k]);
                } else {
                    assert(split_pieces(s, c, i)[k] == l);
                }
            }
        }
    }
}

proof fn lemma_quoted_plain(q: char, v: Seq<char>)
    requires
        !has_placeholder(v),
        q != '%' && q != 's',
    ensures
        !has_placeholder(crate::xpath::quoted(q, v)),
{
    lemma_lit_plain(seq![q]);
    lemma_no_placeholder_join(seq![q], v);
    lemma_no_placeholder_join(seq![q] + v, seq![q]);
}

proof fn lemma_concat_parts_plain(ps: Seq<Seq<char>>, n: int)
    requires
        0 <= n <= ps.len(),
        forall|k: int| 0 <= k < ps.len() ==> !has_placeholder(#[trigger] ps[k]),
    ensures
        forall|k: int|
            0 <= k < crate::xpath::concat_parts(ps, n).len() ==> !has_placeholder(
                #[trigger] crate::xpath::concat_parts(ps, n)[k],
            ),
    decreases n,
{
    if n > 0 {
        lemma_concat_parts_plain(ps, n - 1);
        let r = crate::xpath::concat_parts(ps, n - 1);
        let ql = crate::xpath::quote_literal();
        lemma_lit_plain(ql);
        let r1 = if n - 1 > 0 {
            r.push(ql)
        } else {
            r
        };
        assert forall|k: int| 0 <= k < r1.len() implies !has_placeholder(#[trigger] r1[k]) by {
            if k < r.len() {
                assert(r1[k] == r[k]);
            }
        }
        let qp = crate::xpath::quoted('\'', ps[n - 1]);
        assert(!has_placeholder(ps[n - 1]));
        lemma_quoted_plain('\'', ps[n - 1]);
        if ps[n - 1].len() > 0 {
            assert forall|k: int| 0 <= k < r1.push(qp).len() implies !has_placeholder(
                #[trigger] r1.push(qp)[k],
            ) by {
                if k < r1.len() {
                    assert(r1.push(qp)[k] == r1[k]);
                }
            }
        }
    }
}

proof fn lemma_join_comma_plain(parts: Seq<Seq<char>>)
    requires
        forall|k: int| 0 <= k < parts.len() ==> !has_placeholder(#[trigger] parts[k]),
    ensures
        !has_placeholder(crate::text::join(parts, seq![','])),
    decreases parts.len(),
{
    if parts.len() == 0 {
        lemma_lit_plain(Seq::<char>::empty());
    } else if parts.len() > 1 {
        let q = parts.drop_last();
        assert forall|k: int| 0 <= k < q.len() implies !has_placeholder(#[trigger] q[k]) by {
            assert(q[k] == parts[k]);
        }
        lemma_join_comma_plain(q);
        lemma_lit_plain(seq![',']);
        let j = crate::text::join(q, seq![',']);
        lemma_no_placeholder_join(j, seq![',']);
        assert(!has_placeholder(parts[parts.len() - 1]));
        lemma_no_placeholder_join(j + seq![','], parts.last());
    } else {
        assert(!has_placeholder(parts[0]));
    }
}

/// Writing a predicate value into a template adds no placeholder.
proof fn lemma_escaped_plain(v: Seq<char>)
    requires
        !has_placeholder(v),
    ensures
        !has_placeholder(escaped(v)),
{
    if !crate::text::has_char(v, '\'') {
        lemma_quoted_plain('\'', v);
    } else if !crate::text::has_char(v, '"') {
        lemma_quoted_plain('"', v);
    } else {
        let ps = split_pieces(v, '\'', v.len() as int);
        lemma_split_pieces_plain(v, '\'', v.len() as int);
        lemma_concat_parts_plain(ps, ps.len() as int);
        let parts = crate::xpath::concat_parts(ps, ps.len() as int);
        lemma_join_comma_plain(parts);
        let h = seq!['c', 'o', 'n', 'c', 'a', 't', '('];
        lemma_lit_plain(h);
        lemma_lit_plain(seq![')']);
        let j = crate::text::join(parts, seq![',']);
        lemma_no_placeholder_join(h, j);
        lemma_no_placeholder_join(h + j, seq![')']);
        assert(escaped(v) == h + j + seq![')']);
    }
}

/// The extractions of a branch correspond one to one, left to right, to
/// the `%s` placeholders of its key template: there are as many of each,
/// and the `j`-th extraction belongs to the `j`-th placeholder, which is
/// either the leaf-list value `[.='%s']` of a `.` extraction or the key
/// predicate `[k='%s']` of an extraction that reads the key `k` below
/// the template up to that predicate.  This holds for schema names
/// spelled as YANG identifiers when no predicate value pinned by the
/// branch holds a `%s` of its own.
pub proof fn law_extractions_pair_with_placeholders(chain: Seq<NodeView>, branch: Seq<char>)
    requires
        forall|i: int| 0 <= i < chain.len() ==> node_identifiers(#[trigger] chain[i]),
        step_values_placeholder_free(xpath_steps(branch)),
    ensures
        paired(template_for(chain, branch).0, template_for(chain, branch).1),
{
    assert forall|i: int| 0 <= i < chain.len() implies node_placeholder_free(#[trigger] chain[i]) by {
        let n = chain[i];
        assert(node_identifiers(n));
        lemma_identifier_plain(n.0);
        lemma_identifier_plain(n.1);
        assert forall|k: int| 0 <= k < n.3.len() implies !has_placeholder(#[trigger] n.3[k]) by {
            lemma_identifier_plain(n.3[k]);
        }
    }
    let steps = xpath_steps(branch);
    assert forall|j: int, k: int|
        0 <= j < steps.len() && 0 <= k < steps[j].1.len() implies !has_placeholder(
        escaped(#[trigger] steps[j].1[k].1),
    ) by {
        lemma_escaped_plain(steps[j].1[k].1);
    }
    lemma_path_nodes_placeholder_free(chain);
    let nodes = path_nodes(chain);
    lemma_template_paired(nodes, steps, nodes.len() as int);
}

} // verus!
