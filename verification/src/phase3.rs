//! Phase 3: Runtime message key production.
//!
//! Given a notification data tree and a Phase 2 [`DerivationResult`],
//! walk the data tree, match instances to branch templates, extract key
//! leaf values, fill `%s` placeholders, and compose the final message
//! broker key.
//!
//! The key is a line-delimited UTF-8 string:
//!
//! ```text
//! router-nyc-01
//! 1042
//! /ietf-interfaces:interfaces/interface[name='eth0'] | /ietf-interfaces:interfaces/interface[name='eth1']
//! ```
//!
//! Line 1 is the managed node identifier, line 2 the YANG Push
//! subscription ID, line 3 the concrete XPaths joined by ` | `, sorted
//! and deduplicated, so that identical inputs give byte-identical keys.
//!
//! The data tree is read as [`DataNode`] values: for each data node its
//! schema name, kind and DATA-format schema path, its canonical value,
//! and its children.  [`produce_message_key_from`] takes the notification
//! XML and the data parser (libyang) that reads it into such trees;
//! [`produce_message_key`] takes the trees directly.
use vstd::prelude::*;

use crate::phase2::{ext_views, SchemaKind};
use crate::text::{chars_of, copy_str, push_char, push_str, trim, trimmed, views};
use crate::types::{
    dot, line_key, placeholder, placeholder_at, BranchTemplate, DerivationResult, ExtractionSpec, ExtractionView, MessageKey,
    MessageKeyResult,
};
use crate::xpath::{strip_predicates, stripped};

verus! {

/// One node of a notification data tree.
#[derive(Debug)]
pub struct DataNode {
    /// Local name of the node's schema node.
    pub name: String,
    /// Kind of the node's schema node.
    pub kind: SchemaKind,
    /// Schema path of the node in DATA format (no predicates), e.g.
    /// `/ietf-interfaces:interfaces/interface/name`.
    pub schema_path: String,
    /// Canonical value of the node (leaves and leaf-list entries).
    pub value: Option<String>,
    /// Child nodes, in document order.
    pub children: Vec<DataNode>,
}

/// The view of an optional string.
pub open spec fn value_view(o: Option<String>) -> Option<Seq<char>> {
    match o {
        Some(s) => Some(s@),
        None => None,
    }
}

// ------------------------------------------------------------------
//  Filling a template
// ------------------------------------------------------------------

/// `s[i..]` with its placeholders, taken from the left without overlap,
/// filled in turn by `vals[j]`, `vals[j + 1]`, ...; a placeholder beyond
/// the last value stays `%s`.
pub open spec fn subst_from(s: Seq<char>, i: int, vals: Seq<Seq<char>>, j: int) -> Seq<char>
    decreases s.len() - i,
{
    if i < 0 || i >= s.len() {
        Seq::empty()
    } else if placeholder_at(s, i) {
        (if 0 <= j < vals.len() {
            vals[j]
        } else {
            placeholder()
        }) + subst_from(s, i + 2, vals, j + 1)
    } else {
        seq![s[i]] + subst_from(s, i + 1, vals, j)
    }
}

/// Index (in `path`, root first) of the nearest list node named
/// `list_name` among the first `k` nodes, searching from node `k - 1`
/// up to the root.
pub open spec fn list_ancestor(path: Seq<DataNode>, list_name: Seq<char>, k: int) -> Option<int>
    decreases k,
{
    if k <= 0 {
        None
    } else if path[k - 1].kind == SchemaKind::List && path[k - 1].name@ == list_name {
        Some(k - 1)
    } else {
        list_ancestor(path, list_name, k - 1)
    }
}

/// The value of the first of the first `k` children of `n` named `key`.
pub open spec fn child_value_upto(n: DataNode, key: Seq<char>, k: int) -> Option<Option<Seq<char>>>
    decreases k,
{
    if k <= 0 {
        None
    } else {
        match child_value_upto(n, key, k - 1) {
            Some(v) => Some(v),
            None => if n.children@[k - 1].name@ == key {
                Some(value_view(n.children@[k - 1].value))
            } else {
                None
            },
        }
    }
}

/// The value of the first child of `n` named `key`, if there is such a
/// child and it has a value.
pub open spec fn child_value(n: DataNode, key: Seq<char>) -> Option<Seq<char>> {
    match child_value_upto(n, key, n.children@.len() as int) {
        Some(v) => v,
        None => None,
    }
}

/// The value an extraction reads for the last node of `path` (root first):
/// its own value for `.`, else the key leaf of the nearest ancestor list
/// with the extraction's list name.
pub open spec fn extraction_value(path: Seq<DataNode>, e: ExtractionView) -> Option<Seq<char>> {
    if e.1 == dot() {
        value_view(path.last().value)
    } else {
        match list_ancestor(path, e.3, path.len() as int) {
            None => None,
            Some(i) => child_value(path[i], e.1),
        }
    }
}

/// The values that the first `k` extractions read for the last node of
/// `path`, in order, or `None` when one of them has no value.
pub open spec fn values_upto(exts: Seq<ExtractionView>, path: Seq<DataNode>, k: int) -> Option<
    Seq<Seq<char>>,
>
    decreases k,
{
    if k <= 0 {
        Some(Seq::empty())
    } else {
        match values_upto(exts, path, k - 1) {
            None => None,
            Some(vs) => match extraction_value(path, exts[k - 1]) {
                None => None,
                Some(v) => Some(vs.push(v)),
            },
        }
    }
}

/// The concrete XPath of a branch for the last node of `path`: the
/// template with its `j`-th placeholder filled by the value of its `j`-th
/// extraction, or `None` when an extraction has no value.
pub open spec fn filled(b: BranchTemplate, path: Seq<DataNode>) -> Option<Seq<char>> {
    match values_upto(ext_views(b.extractions@), path, b.extractions@.len() as int) {
        None => None,
        Some(vals) => Some(subst_from(b.key_template@, 0, vals, 0)),
    }
}

/// `s` with its placeholders filled in order by `vals`.
fn substitute(s: &String, vals: &Vec<String>) -> (res: String)
    ensures
        res@ == subst_from(s@, 0, views(vals@), 0),
{
    let ghost vs = views(vals@);
    let cs = chars_of(s.as_str());
    let n = cs.len();
    let mut r = String::new();
    let mut i: usize = 0;
    let mut j: usize = 0;
    assert(r@ + subst_from(cs@, 0, vs, 0) =~= subst_from(cs@, 0, vs, 0));
    while i < n
        invariant
            0 <= j <= i <= n,
            n == cs@.len(),
            cs@ == s@,
            vs == views(vals@),
            r@ + subst_from(cs@, i as int, vs, j as int) == subst_from(cs@, 0, vs, 0),
        decreases n - i,
    {
        let ghost before = r@;
        if i + 1 < n && cs[i] == '%' && cs[i + 1] == 's' {
            let ghost piece = if j < vs.len() {
                vs[j as int]
            } else {
                placeholder()
            };
            if j < vals.len() {
                push_str(&mut r, vals[j].as_str());
            } else {
                push_char(&mut r, '%');
                push_char(&mut r, 's');
                assert(seq!['%'].push('s') =~= placeholder());
                assert(before.push('%').push('s') =~= before + placeholder());
            }
            assert(before + (piece + subst_from(cs@, i + 2, vs, j + 1)) =~= (before + piece)
                + subst_from(cs@, i + 2, vs, j + 1));
            i = i + 2;
            j = j + 1;
        } else {
            let c = cs[i];
            push_char(&mut r, c);
            assert(before + (seq![c] + subst_from(cs@, i + 1, vs, j as int)) =~= before.push(c)
                + subst_from(cs@, i + 1, vs, j as int));
            i = i + 1;
        }
    }
    assert(r@ + subst_from(cs@, n as int, vs, j as int) =~= r@);
    r
}

/// The nearest list ancestor (incl. the node itself) named `list_name`.
fn find_list_ancestor<'a>(path: &Vec<&'a DataNode>, list_name: &String) -> (res: Option<usize>)
    ensures
        ({
            let p = path@.map_values(|r: &DataNode| *r);
            match res {
                Some(i) => i < p.len() && list_ancestor(p, list_name@, p.len() as int) == Some(
                    i as int,
                ),
                None => list_ancestor(p, list_name@, p.len() as int).is_none(),
            }
        }),
{
    let ghost p = path@.map_values(|r: &DataNode| *r);
    let mut k = path.len();
    while k > 0
        invariant
            0 <= k <= path@.len(),
            p == path@.map_values(|r: &DataNode| *r),
            list_ancestor(p, list_name@, p.len() as int) == list_ancestor(p, list_name@, k as int),
        decreases k,
    {
        let node = path[k - 1];
        assert(p[k - 1] == *node);
        if node.kind == SchemaKind::List && node.name == *list_name {
            return Some(k - 1);
        }
        k = k - 1;
    }
    None
}

/// The value of the first child of `n` named `key`.
fn find_child_value(n: &DataNode, key: &String) -> (res: Option<String>)
    ensures
        value_view(res) == child_value(*n, key@),
{
    let mut k: usize = 0;
    while k < n.children.len()
        invariant
            0 <= k <= n.children@.len(),
            child_value_upto(*n, key@, k as int).is_none(),
        decreases n.children@.len() - k,
    {
        if n.children[k].name == *key {
            proof {
                lemma_child_value_found(*n, key@, k as int + 1, n.children@.len() as int);
            }
            return match &n.children[k].value {
                Some(v) => Some(copy_str(v.as_str())),
                None => None,
            };
        }
        k = k + 1;
    }
    None
}

proof fn lemma_child_value_found(n: DataNode, key: Seq<char>, k: int, m: int)
    requires
        0 <= k <= m,
        child_value_upto(n, key, k).is_some(),
    ensures
        child_value_upto(n, key, m) == child_value_upto(n, key, k),
    decreases m - k,
{
    if m > k {
        lemma_child_value_found(n, key, k, m - 1);
    }
}

/// Whether `s` is `.`.
fn is_dot_str(s: &String) -> (res: bool)
    ensures
        res == (s@ == dot()),
{
    let cs = chars_of(s.as_str());
    if cs.len() == 1 && cs[0] == '.' {
        assert(cs@ =~= dot());
        true
    } else {
        false
    }
}

/// The value an extraction reads for the last node of `path`.
fn read_extraction(path: &Vec<&DataNode>, ext: &ExtractionSpec) -> (res: Option<String>)
    requires
        path@.len() >= 1,
    ensures
        value_view(res) == extraction_value(path@.map_values(|r: &DataNode| *r), ext@),
{
    let ghost p = path@.map_values(|r: &DataNode| *r);
    if is_dot_str(&ext.key_leaf_name) {
        let last = path[path.len() - 1];
        assert(p.last() == *last);
        match &last.value {
            Some(v) => Some(copy_str(v.as_str())),
            None => None,
        }
    } else {
        match find_list_ancestor(path, &ext.list_name) {
            None => None,
            Some(i) => {
                assert(p[i as int] == *path@[i as int]);
                find_child_value(path[i], &ext.key_leaf_name)
            },
        }
    }
}

/// Fill the `%s` placeholders of a branch template with values from the
/// data tree, for the last node of `path` (root first): the `j`-th
/// placeholder takes the value of the `j`-th extraction.
///
/// For a `.` extraction (leaf-list) the node's own canonical value is
/// used; otherwise the nearest ancestor list with the extraction's list
/// name gives the value of its key leaf.
pub fn fill_template(path: &Vec<&DataNode>, branch: &BranchTemplate) -> (res: Option<String>)
    requires
        path@.len() >= 1,
    ensures
        value_view(res) == filled(*branch, path@.map_values(|r: &DataNode| *r)),
{
    let ghost p = path@.map_values(|r: &DataNode| *r);
    let ghost exts = ext_views(branch.extractions@);
    let mut vals: Vec<String> = Vec::new();
    let mut k: usize = 0;
    assert(views(vals@) =~= Seq::<Seq<char>>::empty());
    while k < branch.extractions.len()
        invariant
            0 <= k <= branch.extractions@.len(),
            p == path@.map_values(|r: &DataNode| *r),
            path@.len() >= 1,
            exts == ext_views(branch.extractions@),
            values_upto(exts, p, k as int) == Some(views(vals@)),
        decreases branch.extractions@.len() - k,
    {
        let ext = &branch.extractions[k];
        assert(exts[k as int] == ext@);
        match read_extraction(path, ext) {
            None => {
                proof {
                    lemma_values_none(exts, p, k as int + 1, exts.len() as int);
                }
                return None;
            },
            Some(v) => {
                let ghost before = vals@;
                vals.push(v);
                assert(views(vals@) =~= views(before).push(v@));
            },
        }
        k = k + 1;
    }
    Some(substitute(&branch.key_template, &vals))
}

proof fn lemma_values_none(exts: Seq<ExtractionView>, p: Seq<DataNode>, k: int, m: int)
    requires
        0 <= k <= m,
        values_upto(exts, p, k).is_none(),
    ensures
        values_upto(exts, p, m).is_none(),
    decreases m - k,
{
    if m > k {
        lemma_values_none(exts, p, k, m - 1);
    }
}

// ------------------------------------------------------------------
//  Ordering of concrete XPaths
// ------------------------------------------------------------------

/// Lexicographic order on strings, by code point (the order of their
/// UTF-8 bytes, in which `String`'s `Ord` compares them).
pub open spec fn lex_lt(a: Seq<char>, b: Seq<char>) -> bool
    decreases a.len(),
{
    if b.len() == 0 {
        false
    } else if a.len() == 0 {
        true
    } else if a[0] != b[0] {
        a[0] < b[0]
    } else {
        lex_lt(a.drop_first(), b.drop_first())
    }
}

/// Whether `xs` is strictly increasing (so sorted and free of duplicates).
pub open spec fn strictly_sorted(xs: Seq<Seq<char>>) -> bool {
    forall|i: int, j: int| 0 <= i < j < xs.len() ==> lex_lt(#[trigger] xs[i], #[trigger] xs[j])
}

pub proof fn lemma_lex_irreflexive(a: Seq<char>)
    ensures
        !lex_lt(a, a),
    decreases a.len(),
{
    if a.len() > 0 {
        lemma_lex_irreflexive(a.drop_first());
    }
}

pub proof fn lemma_lex_total(a: Seq<char>, b: Seq<char>)
    ensures
        a != b ==> lex_lt(a, b) || lex_lt(b, a),
        !(lex_lt(a, b) && lex_lt(b, a)),
    decreases a.len(),
{
    if a.len() > 0 && b.len() > 0 && a[0] == b[0] {
        lemma_lex_total(a.drop_first(), b.drop_first());
        if a != b {
            assert(a.drop_first() != b.drop_first()) by {
                if a.drop_first() == b.drop_first() {
                    assert(a =~= seq![a[0]] + a.drop_first());
                    assert(b =~= seq![b[0]] + b.drop_first());
                }
            }
        }
    } else if a.len() == 0 && b.len() == 0 {
        assert(a =~= b);
    }
}

pub proof fn lemma_lex_transitive(a: Seq<char>, b: Seq<char>, c: Seq<char>)
    requires
        lex_lt(a, b),
        lex_lt(b, c),
    ensures
        lex_lt(a, c),
    decreases a.len(),
{
    if a.len() > 0 && a[0] == b[0] && b[0] == c[0] {
        lemma_lex_transitive(a.drop_first(), b.drop_first(), c.drop_first());
    }
}

/// Whether `a` comes before `b` by code point, stated directly: `a` is a
/// proper prefix of `b`, or at the first place where they differ `a` has
/// the smaller character.  This is the order of `String`'s `Ord`, which
/// compares the UTF-8 bytes and so orders by code point.
pub open spec fn code_point_before(a: Seq<char>, b: Seq<char>) -> bool {
    ||| (a.len() < b.len() && b.take(a.len() as int) == a)
    ||| exists|k: int|
        0 <= k < a.len() && k < b.len() && a.take(k) == b.take(k) && #[trigger] a[k] < b[k]
}

/// The order in which message keys list their XPaths is the plain
/// code-point order: `lex_lt(a, b)` holds exactly when `a` is a proper
/// prefix of `b` or, at the first character where they differ, `a` has
/// the smaller one.  Length plays no other part.
pub proof fn law_lex_order_is_code_point_order(a: Seq<char>, b: Seq<char>)
    ensures
        lex_lt(a, b) == code_point_before(a, b),
    decreases a.len(),
{
    if b.len() == 0 {
    } else if a.len() == 0 {
        assert(b.take(0) =~= a);
    } else if a[0] != b[0] {
        if a.len() < b.len() && b.take(a.len() as int) == a {
            assert(b.take(a.len() as int)[0] == a[0]);
        }
        if exists|k: int| 0 <= k < a.len() && k < b.len() && a.take(k) == b.take(k) && #[trigger] a[k] < b[k] {
            let k = choose|k: int|
                0 <= k < a.len() && k < b.len() && a.take(k) == b.take(k) && #[trigger] a[k] < b[k];
            if k > 0 {
                assert(a.take(k)[0] == b.take(k)[0]);
            }
        }
        if a[0] < b[0] {
            assert(a.take(0) =~= b.take(0));
            assert(a[0] < b[0]);
        }
    } else {
        let a1 = a.drop_first();
        let b1 = b.drop_first();
        law_lex_order_is_code_point_order(a1, b1);
        // the prefix case
        if a.len() < b.len() && b.take(a.len() as int) == a {
            assert(b1.take(a1.len() as int) =~= a1) by {
                assert forall|i: int| 0 <= i < a1.len() implies b1.take(a1.len() as int)[i] == a1[i] by {
                    assert(b.take(a.len() as int)[i + 1] == a[i + 1]);
                }
            }
        }
        if a1.len() < b1.len() && b1.take(a1.len() as int) == a1 {
            assert(b.take(a.len() as int) =~= a) by {
                assert forall|i: int| 0 <= i < a.len() implies b.take(a.len() as int)[i] == a[i] by {
                    if i > 0 {
                        assert(b1.take(a1.len() as int)[i - 1] == a1[i - 1]);
                    }
                }
            }
        }
        // the differing-character case
        if exists|k: int| 0 <= k < a.len() && k < b.len() && a.take(k) == b.take(k) && #[trigger] a[k] < b[k] {
            let k = choose|k: int|
                0 <= k < a.len() && k < b.len() && a.take(k) == b.take(k) && #[trigger] a[k] < b[k];
            assert(k > 0);
            assert(a1.take(k - 1) =~= b1.take(k - 1)) by {
                assert forall|i: int| #![trigger a1.take(k - 1)[i]] 0 <= i < k - 1 implies a1.take(k - 1)[i] == b1.take(k - 1)[i] by {
                    assert(a.take(k)[i + 1] == b.take(k)[i + 1]);
                }
            }
            assert(a1[k - 1] < b1[k - 1]);
        }
        if exists|k: int| 0 <= k < a1.len() && k < b1.len() && a1.take(k) == b1.take(k) && #[trigger] a1[k] < b1[k] {
            let k = choose|k: int|
                0 <= k < a1.len() && k < b1.len() && a1.take(k) == b1.take(k) && #[trigger] a1[k] < b1[k];
            assert(a.take(k + 1) =~= b.take(k + 1)) by {
                assert forall|i: int| #![trigger a.take(k + 1)[i]] 0 <= i < k + 1 implies a.take(k + 1)[i] == b.take(k + 1)[i] by {
                    if i > 0 {
                        assert(a1.take(k)[i - 1] == b1.take(k)[i - 1]);
                    }
                }
            }
            assert(a[k + 1] < b[k + 1]);
        }
    }
}

/// A string sorts before every longer string that extends it.
pub proof fn law_prefix_sorts_first(a: Seq<char>, s: Seq<char>)
    requires
        s.len() > 0,
    ensures
        lex_lt(a, a + s),
{
    law_lex_order_is_code_point_order(a, a + s);
    assert((a + s).take(a.len() as int) =~= a);
}

/// The XPaths of a message key come in code-point order, each before
/// the next: for any two of them, the earlier is a proper prefix of the
/// later or has the smaller character where they first differ.
pub proof fn law_message_key_xpaths_in_code_point_order(
    derivation: DerivationResult,
    roots: Seq<DataNode>,
    node_name: Seq<char>,
    subscription_id: Seq<char>,
    res: Result<MessageKeyResult, String>,
    i: int,
    j: int,
)
    requires
        message_key_outcome(derivation, roots, node_name, subscription_id, res),
        res is Ok,
        0 <= i < j < res->Ok_0.key.xpaths@.len(),
    ensures
        code_point_before(res->Ok_0.key.xpaths@[i]@, res->Ok_0.key.xpaths@[j]@),
{
    let xs = views(res->Ok_0.key.xpaths@);
    assert(xs[i] == res->Ok_0.key.xpaths@[i]@ && xs[j] == res->Ok_0.key.xpaths@[j]@);
    assert(lex_lt(xs[i], xs[j]));
    law_lex_order_is_code_point_order(xs[i], xs[j]);
}

/// Whether `a` comes before `b` in lexicographic order.
pub fn lex_less(a: &String, b: &String) -> (res: bool)
    ensures
        res == lex_lt(a@, b@),
        res == code_point_before(a@, b@),
{
    proof {
        law_lex_order_is_code_point_order(a@, b@);
    }
    let x = chars_of(a.as_str());
    let y = chars_of(b.as_str());
    let mut k: usize = 0;
    assert(x@.subrange(0, x@.len() as int) =~= x@);
    assert(y@.subrange(0, y@.len() as int) =~= y@);
    while k < x.len() && k < y.len() && x[k] == y[k]
        invariant
            0 <= k <= x@.len(),
            k <= y@.len(),
            lex_lt(x@, y@) == lex_lt(
                x@.subrange(k as int, x@.len() as int),
                y@.subrange(k as int, y@.len() as int),
            ),
        decreases x@.len() - k,
    {
        let ghost xs = x@.subrange(k as int, x@.len() as int);
        let ghost ys = y@.subrange(k as int, y@.len() as int);
        assert(xs.drop_first() =~= x@.subrange(k + 1, x@.len() as int));
        assert(ys.drop_first() =~= y@.subrange(k + 1, y@.len() as int));
        k = k + 1;
    }
    let ghost xs = x@.subrange(k as int, x@.len() as int);
    let ghost ys = y@.subrange(k as int, y@.len() as int);
    if k == y.len() {
        false
    } else if k == x.len() {
        true
    } else {
        assert(xs[0] == x@[k as int] && ys[0] == y@[k as int]);
        x[k] < y[k]
    }
}

/// Inserts `x` into the strictly sorted `xs`, unless it is there already.
pub fn sorted_insert(xs: &mut Vec<String>, x: String)
    requires
        strictly_sorted(views(old(xs)@)),
    ensures
        strictly_sorted(views(final(xs)@)),
        views(final(xs)@).to_set() == views(old(xs)@).to_set().insert(x@),
{
    let ghost v = views(xs@);
    let mut p: usize = 0;
    while p < xs.len() && lex_less(&xs[p], &x)
        invariant
            0 <= p <= xs@.len(),
            v == views(xs@),
            strictly_sorted(v),
            forall|i: int| 0 <= i < p ==> lex_lt(#[trigger] v[i], x@),
        decreases xs@.len() - p,
    {
        p = p + 1;
    }
    if p < xs.len() && xs[p] == x {
        assert(v.to_set().insert(x@) =~= v.to_set()) by {
            assert(v[p as int] == x@);
        }
        return;
    }
    proof {
        if p < v.len() {
            lemma_lex_total(v[p as int], x@);
        }
        assert forall|i: int| p <= i < v.len() implies lex_lt(x@, #[trigger] v[i]) by {
            lemma_lex_total(v[p as int], x@);
            if i > p {
                lemma_lex_transitive(x@, v[p as int], v[i]);
            }
        }
    }
    xs.insert(p, x);
    proof {
        let nv = views(xs@);
        assert(nv =~= v.insert(p as int, x@));
        assert forall|i: int, j: int| 0 <= i < j < nv.len() implies lex_lt(
            #[trigger] nv[i],
            #[trigger] nv[j],
        ) by {
            if j < p {
                assert(nv[i] == v[i] && nv[j] == v[j]);
            } else if j == p {
                assert(nv[i] == v[i]);
            } else if i < p {
                assert(nv[i] == v[i] && nv[j] == v[j - 1]);
                lemma_lex_transitive(v[i], x@, v[j - 1]);
            } else if i == p {
                assert(nv[j] == v[j - 1]);
            } else {
                assert(nv[i] == v[i - 1] && nv[j] == v[j - 1]);
            }
        }
        assert(nv.to_set() =~= v.to_set().insert(x@)) by {
            assert forall|y: Seq<char>| nv.to_set().contains(y) implies v.to_set().insert(
                x@,
            ).contains(y) by {
                let k = choose|k: int| 0 <= k < nv.len() && nv[k] == y;
                if k < p {
                    assert(v[k] == y);
                } else if k > p {
                    assert(v[k - 1] == y);
                }
            }
            assert forall|y: Seq<char>| v.to_set().insert(x@).contains(y) implies nv.to_set().contains(
                y,
            ) by {
                if y == x@ {
                    assert(nv[p as int] == y);
                } else {
                    let k = choose|k: int| 0 <= k < v.len() && v[k] == y;
                    if k < p {
                        assert(nv[k] == y);
                    } else {
                        assert(nv[k + 1] == y);
                    }
                }
            }
        }
    }
}

/// Two strictly sorted sequences with the same elements are equal.
pub proof fn lemma_sorted_unique(a: Seq<Seq<char>>, b: Seq<Seq<char>>)
    requires
        strictly_sorted(a),
        strictly_sorted(b),
        a.to_set() == b.to_set(),
    ensures
        a == b,
    decreases a.len(),
{
    if a.len() == 0 {
        if b.len() > 0 {
            assert(b.to_set().contains(b[0]));
        }
        assert(a =~= b);
    } else if b.len() == 0 {
        assert(a.to_set().contains(a[0]));
    } else {
        // both minima are the same element
        assert(b.to_set().contains(a[0]));
        assert(a.to_set().contains(b[0]));
        let ia = choose|k: int| 0 <= k < b.len() && b[k] == a[0];
        let ib = choose|k: int| 0 <= k < a.len() && a[k] == b[0];
        if a[0] != b[0] {
            assert(ia > 0 && ib > 0);
            assert(lex_lt(b[0], b[ia]));
            assert(lex_lt(a[0], a[ib]));
            lemma_lex_total(a[0], b[0]);
        }
        let a1 = a.drop_first();
        let b1 = b.drop_first();
        assert forall|y: Seq<char>| a1.to_set().contains(y) implies b1.to_set().contains(y) by {
            let k = choose|k: int| 0 <= k < a1.len() && a1[k] == y;
            assert(a[k + 1] == y);
            assert(b.to_set().contains(y));
            let m = choose|m: int| 0 <= m < b.len() && b[m] == y;
            assert(lex_lt(a[0], a[k + 1]));
            if m == 0 {
                lemma_lex_irreflexive(y);
            }
            assert(b1[m - 1] == y);
        }
        assert forall|y: Seq<char>| b1.to_set().contains(y) implies a1.to_set().contains(y) by {
            let k = choose|k: int| 0 <= k < b1.len() && b1[k] == y;
            assert(b[k + 1] == y);
            assert(a.to_set().contains(y));
            let m = choose|m: int| 0 <= m < a.len() && a[m] == y;
            assert(lex_lt(b[0], b[k + 1]));
            if m == 0 {
                lemma_lex_irreflexive(y);
            }
            assert(a1[m - 1] == y);
        }
        assert(a1.to_set() =~= b1.to_set());
        lemma_sorted_unique(a1, b1);
        assert(a =~= seq![a[0]] + a1);
        assert(b =~= seq![b[0]] + b1);
    }
}

// ------------------------------------------------------------------
//  Walking the data tree
// ------------------------------------------------------------------

/// The concrete XPaths that the branches give for the last node of
/// `path` (root first): those of the branches whose key template, with
/// predicates stripped, is the node's schema path, and whose
/// placeholders all get a value.
pub open spec fn own_keys(path: Seq<DataNode>, bs: Seq<BranchTemplate>) -> Set<Seq<char>> {
    Set::new(
        |k: Seq<char>|
            exists|j: int|
                0 <= j < bs.len() && stripped(#[trigger] bs[j].key_template@) == path.last().schema_path@
                    && filled(bs[j], path) == Some(k),
    )
}

/// The concrete XPaths of node `n` (below the ancestors `anc`, root
/// first) and of all its descendants.
pub open spec fn node_keys(n: DataNode, anc: Seq<DataNode>, bs: Seq<BranchTemplate>) -> Set<
    Seq<char>,
>
    decreases n, 0int,
{
    own_keys(anc.push(n), bs).union(
        forest_keys(n.children@, anc.push(n), bs, n.children@.len() as int),
    )
}

/// The concrete XPaths of the first `i` trees of `nodes` (below `anc`).
pub open spec fn forest_keys(
    nodes: Seq<DataNode>,
    anc: Seq<DataNode>,
    bs: Seq<BranchTemplate>,
    i: int,
) -> Set<Seq<char>>
    decreases nodes, i,
{
    if i <= 0 || i > nodes.len() {
        Set::empty()
    } else {
        forest_keys(nodes, anc, bs, i - 1).union(node_keys(nodes[i - 1], anc, bs))
    }
}

/// Whether `s` holds the same characters as `t`.
fn string_eq(s: &String, t: &String) -> (res: bool)
    ensures
        res == (s@ == t@),
{
    *s == *t
}

/// Adds the concrete XPaths the branches give for the last node of `path`.
fn collect_own(path: &Vec<&DataNode>, branches: &Vec<BranchTemplate>, keys: &mut Vec<String>)
    requires
        path@.len() >= 1,
        strictly_sorted(views(old(keys)@)),
    ensures
        strictly_sorted(views(final(keys)@)),
        views(final(keys)@).to_set() == views(old(keys)@).to_set().union(
            own_keys(path@.map_values(|r: &DataNode| *r), branches@),
        ),
{
    let ghost p = path@.map_values(|r: &DataNode| *r);
    let ghost bs = branches@;
    let node = path[path.len() - 1];
    assert(p.last() == *node);
    let ghost start = views(keys@).to_set();
    let mut j: usize = 0;
    while j < branches.len()
        invariant
            0 <= j <= branches@.len(),
            p == path@.map_values(|r: &DataNode| *r),
            path@.len() >= 1,
            bs == branches@,
            p.last() == *node,
            strictly_sorted(views(keys@)),
            views(keys@).to_set() == start.union(
                Set::new(
                    |k: Seq<char>|
                        exists|jj: int|
                            0 <= jj < j && stripped(#[trigger] bs[jj].key_template@)
                                == p.last().schema_path@ && filled(bs[jj], p) == Some(k),
                ),
            ),
        decreases branches@.len() - j,
    {
        let ghost before = views(keys@).to_set();
        let b = &branches[j];
        let sp = strip_predicates(b.key_template.as_str());
        let ghost mut added: Option<Seq<char>> = None;
        if string_eq(&sp, &node.schema_path) {
            match fill_template(path, b) {
                Some(ck) => {
                    proof {
                        added = Some(ck@);
                    }
                    sorted_insert(keys, ck);
                },
                None => {},
            }
        }
        proof {
            let old_set = Set::new(
                |k: Seq<char>|
                    exists|jj: int|
                        0 <= jj < j && stripped(#[trigger] bs[jj].key_template@)
                            == p.last().schema_path@ && filled(bs[jj], p) == Some(k),
            );
            let new_set = Set::new(
                |k: Seq<char>|
                    exists|jj: int|
                        0 <= jj < j + 1 && stripped(#[trigger] bs[jj].key_template@)
                            == p.last().schema_path@ && filled(bs[jj], p) == Some(k),
            );
            assert(new_set =~= match added {
                Some(x) => old_set.insert(x),
                None => old_set,
            }) by {
                assert(bs[j as int] == *b);
            }
            assert(views(keys@).to_set() =~= start.union(new_set));
        }
        j = j + 1;
    }
    proof {
        let s1 = Set::new(
            |k: Seq<char>|
                exists|jj: int|
                    0 <= jj < j && stripped(#[trigger] bs[jj].key_template@) == p.last().schema_path@
                        && filled(bs[jj], p) == Some(k),
        );
        assert(s1 =~= own_keys(p, bs));
    }
}

/// Adds the concrete XPaths of the trees `nodes` (below the ancestors in
/// `anc`, root first), visiting them depth first.
fn collect_keys<'a>(
    nodes: &'a Vec<DataNode>,
    anc: &mut Vec<&'a DataNode>,
    branches: &Vec<BranchTemplate>,
    keys: &mut Vec<String>,
)
    requires
        strictly_sorted(views(old(keys)@)),
    ensures
        final(anc)@ == old(anc)@,
        strictly_sorted(views(final(keys)@)),
        views(final(keys)@).to_set() == views(old(keys)@).to_set().union(
            forest_keys(
                nodes@,
                old(anc)@.map_values(|r: &DataNode| *r),
                branches@,
                nodes@.len() as int,
            ),
        ),
    decreases nodes@,
{
    let ghost a0 = anc@;
    let ghost av = anc@.map_values(|r: &DataNode| *r);
    let ghost start = views(keys@).to_set();
    let mut i: usize = 0;
    while i < nodes.len()
        invariant
            0 <= i <= nodes@.len(),
            anc@ == a0,
            av == a0.map_values(|r: &DataNode| *r),
            strictly_sorted(views(keys@)),
            views(keys@).to_set() == start.union(forest_keys(nodes@, av, branches@, i as int)),
        decreases nodes@.len() - i,
    {
        let node = &nodes[i];
        anc.push(node);
        proof {
            assert(anc@.map_values(|r: &DataNode| *r) =~= av.push(*node));
        }
        collect_own(anc, branches, keys);
        proof {
            assert(decreases_to!(nodes@ => nodes@[i as int]));
            assert(decreases_to!(nodes@[i as int] => nodes@[i as int].children));
            assert(decreases_to!(nodes@[i as int].children => nodes@[i as int].children@));
        }
        collect_keys(&node.children, anc, branches, keys);
        anc.pop();
        proof {
            assert(anc@ =~= a0);
            assert(nodes@[i as int] == *node);
            assert(forest_keys(nodes@, av, branches@, i + 1) == forest_keys(
                nodes@,
                av,
                branches@,
                i as int,
            ).union(node_keys(*node, av, branches@)));
            assert(views(keys@).to_set() =~= start.union(
                forest_keys(nodes@, av, branches@, i + 1),
            ));
        }
        i = i + 1;
    }
}

// ------------------------------------------------------------------
//  Message key
// ------------------------------------------------------------------

/// The concrete XPaths of a notification: those of all its data nodes;
/// when there are none, a single branch without placeholders (a
/// container target) gives its template as is.
pub open spec fn concrete_keys(d: DerivationResult, roots: Seq<DataNode>) -> Set<Seq<char>> {
    let ks = forest_keys(roots, Seq::empty(), d.branches@, roots.len() as int);
    if ks == Set::<Seq<char>>::empty() && d.branches@.len() == 1
        && d.branches@[0].extractions@.len() == 0 {
        Set::<Seq<char>>::empty().insert(d.branches@[0].key_template@)
    } else {
        ks
    }
}

/// The message of the error for a notification with no matching instance.
pub open spec fn no_match_message() -> Seq<char> {
    "no matching instances in notification"@
}

proof fn lemma_empty_set_of_empty_seq(v: Seq<Seq<char>>)
    ensures
        (v.to_set() == Set::<Seq<char>>::empty()) <==> v.len() == 0,
{
    if v.len() > 0 {
        assert(v.to_set().contains(v[0]));
    } else {
        assert(v.to_set() =~= Set::<Seq<char>>::empty());
    }
}

/// What producing the message key for the data trees `roots` gives: the
/// sorted, deduplicated concrete XPaths of the nodes that match a branch,
/// in the three-line key with the node name and the subscription ID; or
/// the no-match error when no node matches.
pub open spec fn message_key_outcome(
    derivation: DerivationResult,
    roots: Seq<DataNode>,
    node_name: Seq<char>,
    subscription_id: Seq<char>,
    res: Result<MessageKeyResult, String>,
) -> bool {
    match res {
        Ok(r) => {
            &&& concrete_keys(derivation, roots) != Set::<Seq<char>>::empty()
            &&& strictly_sorted(views(r.key.xpaths@))
            &&& views(r.key.xpaths@).to_set() == concrete_keys(derivation, roots)
            &&& r.key.node_name@ == node_name
            &&& r.key.subscription_id@ == subscription_id
            &&& r.message_key@ == line_key(node_name, subscription_id, views(r.key.xpaths@))
        },
        Err(e) => concrete_keys(derivation, roots) == Set::<Seq<char>>::empty() && e@
            == no_match_message(),
    }
}

/// Produce the message broker key from a notification data tree.
///
/// * `derivation` - Phase 2 output.
/// * `roots` - the top-level nodes of the notification data tree.
/// * `node_name` - Managed node identifier (hostname, FQDN, etc.).
/// * `subscription_id` - YANG Push subscription ID (e.g. `"1042"`).
///
/// The concrete XPaths of all matching instances are collected,
/// deduplicated and sorted; the key holds the node name, the
/// subscription ID and the XPaths joined by ` | `, on three lines.
///
/// Fails when no instance matches, unless the subscription is a single
/// branch with no placeholders (a container target), whose template is
/// then the concrete XPath.
pub fn produce_message_key(
    derivation: &DerivationResult,
    roots: &Vec<DataNode>,
    node_name: &str,
    subscription_id: &str,
) -> (res: Result<MessageKeyResult, String>)
    ensures
        message_key_outcome(*derivation, roots@, node_name@, subscription_id@, res),
{
    let mut anc: Vec<&DataNode> = Vec::new();
    let mut keys: Vec<String> = Vec::new();
    assert(strictly_sorted(views(keys@)));
    assert(views(keys@).to_set() =~= Set::<Seq<char>>::empty());
    assert(anc@.map_values(|r: &DataNode| *r) =~= Seq::<DataNode>::empty());
    collect_keys(roots, &mut anc, &derivation.branches, &mut keys);
    let ghost ks = forest_keys(roots@, Seq::empty(), derivation.branches@, roots@.len() as int);
    proof {
        lemma_empty_set_of_empty_seq(views(keys@));
        assert(views(keys@).to_set() =~= ks);
    }
    if keys.len() == 0 && derivation.branches.len() == 1
        && derivation.branches[0].extractions.len() == 0 {
        let t = copy_str(derivation.branches[0].key_template.as_str());
        sorted_insert(&mut keys, t);
        proof {
            assert(views(keys@).to_set() =~= Set::<Seq<char>>::empty().insert(
                derivation.branches@[0].key_template@,
            ));
        }
    }
    proof {
        lemma_empty_set_of_empty_seq(views(keys@));
    }
    if keys.len() == 0 {
        return Err(String::from_str("no matching instances in notification"));
    }
    let key = MessageKey {
        node_name: copy_str(node_name),
        subscription_id: copy_str(subscription_id),
        xpaths: keys,
    };
    let message_key = key.to_line_delimited();
    Ok(MessageKeyResult { message_key, key })
}

// ------------------------------------------------------------------
//  Laws
// ------------------------------------------------------------------

/// The prefix of the error for notification data that cannot be parsed.
pub open spec fn parse_failure_prefix() -> Seq<char> {
    "failed to parse data XML: "@
}

/// What producing the message key from notification data gives when
/// `parse` answered `parsed` for the data trimmed of surrounding white
/// space: the parse error behind its prefix, or exactly what
/// [`produce_message_key`] gives for the parsed trees.
pub open spec fn data_key_outcome(
    derivation: DerivationResult,
    parsed: Result<Vec<DataNode>, String>,
    node_name: Seq<char>,
    subscription_id: Seq<char>,
    res: Result<MessageKeyResult, String>,
) -> bool {
    match parsed {
        Err(m) => res matches Err(e) && e@ == parse_failure_prefix() + m@,
        Ok(roots) => message_key_outcome(derivation, roots@, node_name, subscription_id, res),
    }
}

/// Produce the message key for a notification given as XML data, with
/// `parse` reading the data trimmed of surrounding white space into its
/// top-level data trees, or failing with a message.
///
/// A parse failure is reported behind the prefix
/// `failed to parse data XML: `; otherwise the result is exactly what
/// [`produce_message_key`] gives for the parsed trees.
pub fn produce_message_key_from<F: Fn(&str) -> Result<Vec<DataNode>, String>>(
    derivation: &DerivationResult,
    data_xml: &str,
    parse: F,
    node_name: &str,
    subscription_id: &str,
) -> (res: Result<MessageKeyResult, String>)
    requires
        forall|b: &str| #[trigger] parse.requires((b,)),
    ensures
        exists|b: &str, parsed: Result<Vec<DataNode>, String>|
            #![trigger parse.ensures((b,), parsed)]
            b@ == trim(data_xml@) && parse.ensures((b,), parsed) && data_key_outcome(
                *derivation,
                parsed,
                node_name@,
                subscription_id@,
                res,
            ),
{
    let cs = chars_of(data_xml);
    let body = trimmed(&cs, 0, cs.len());
    proof {
        assert(cs@.subrange(0, cs@.len() as int) == data_xml@);
    }
    let b = body.as_str();
    let parsed = parse(b);
    let res = match &parsed {
        Err(m) => {
            let mut e = String::new();
            push_str(&mut e, "failed to parse data XML: ");
            push_str(&mut e, m.as_str());
            proof {
                reveal_strlit("failed to parse data XML: ");
            }
            Err(e)
        },
        Ok(roots) => produce_message_key(derivation, roots, node_name, subscription_id),
    };
    assert(data_key_outcome(*derivation, parsed, node_name@, subscription_id@, res));
    res
}


/// The message key depends only on the set of concrete XPaths, not on
/// the order in which instances appear in the notification: two sorted
/// XPath lists with the same elements give the same key.
pub proof fn law_key_independent_of_instance_order(
    node_name: Seq<char>,
    subscription_id: Seq<char>,
    xs1: Seq<Seq<char>>,
    xs2: Seq<Seq<char>>,
)
    requires
        strictly_sorted(xs1),
        strictly_sorted(xs2),
        xs1.to_set() == xs2.to_set(),
    ensures
        line_key(node_name, subscription_id, xs1) == line_key(node_name, subscription_id, xs2),
{
    lemma_sorted_unique(xs1, xs2);
}

/// The concrete XPaths of a notification do not depend on the order of
/// its top-level nodes.
pub proof fn law_root_order_irrelevant(d: DerivationResult, r1: Seq<DataNode>, r2: Seq<DataNode>)
    requires
        r1.to_set() == r2.to_set(),
    ensures
        concrete_keys(d, r1) == concrete_keys(d, r2),
{
    lemma_forest_keys_members(r1, Seq::empty(), d.branches@, r1.len() as int);
    lemma_forest_keys_members(r2, Seq::empty(), d.branches@, r2.len() as int);
    let f1 = forest_keys(r1, Seq::empty(), d.branches@, r1.len() as int);
    let f2 = forest_keys(r2, Seq::empty(), d.branches@, r2.len() as int);
    assert forall|k: Seq<char>| f1.contains(k) implies f2.contains(k) by {
        let i = choose|i: int| 0 <= i < r1.len() && node_keys(r1[i], Seq::empty(), d.branches@).contains(k);
        assert(r1.to_set().contains(r1[i]));
        assert(r2.to_set().contains(r1[i]));
        let j = choose|j: int| 0 <= j < r2.len() && r2[j] == r1[i];
    }
    assert forall|k: Seq<char>| f2.contains(k) implies f1.contains(k) by {
        let i = choose|i: int| 0 <= i < r2.len() && node_keys(r2[i], Seq::empty(), d.branches@).contains(k);
        assert(r2.to_set().contains(r2[i]));
        assert(r1.to_set().contains(r2[i]));
        let j = choose|j: int| 0 <= j < r1.len() && r1[j] == r2[i];
    }
    assert(f1 =~= f2);
}

/// A forest's concrete XPaths are those of its trees.
proof fn lemma_forest_keys_members(
    nodes: Seq<DataNode>,
    anc: Seq<DataNode>,
    bs: Seq<BranchTemplate>,
    i: int,
)
    requires
        0 <= i <= nodes.len(),
    ensures
        forall|k: Seq<char>|
            forest_keys(nodes, anc, bs, i).contains(k) <==> exists|j: int|
                0 <= j < i && #[trigger] node_keys(nodes[j], anc, bs).contains(k),
    decreases i,
{
    if i > 0 {
        lemma_forest_keys_members(nodes, anc, bs, i - 1);
        assert(forest_keys(nodes, anc, bs, i) == forest_keys(nodes, anc, bs, i - 1).union(
            node_keys(nodes[i - 1], anc, bs),
        ));
        assert forall|k: Seq<char>|
            forest_keys(nodes, anc, bs, i).contains(k) implies exists|j: int|
                0 <= j < i && #[trigger] node_keys(nodes[j], anc, bs).contains(k) by {
            if node_keys(nodes[i - 1], anc, bs).contains(k) {
                assert(0 <= i - 1 < i && node_keys(nodes[i - 1], anc, bs).contains(k));
            } else {
                assert(forest_keys(nodes, anc, bs, i - 1).contains(k));
                let j = choose|j: int|
                    0 <= j < i - 1 && #[trigger] node_keys(nodes[j], anc, bs).contains(k);
                assert(0 <= j < i && node_keys(nodes[j], anc, bs).contains(k));
            }
        }
        assert forall|k: Seq<char>|
            (exists|j: int| 0 <= j < i && #[trigger] node_keys(nodes[j], anc, bs).contains(k))
                implies forest_keys(nodes, anc, bs, i).contains(k) by {
            let j = choose|j: int| 0 <= j < i && #[trigger] node_keys(nodes[j], anc, bs).contains(k);
            if j < i - 1 {
                assert(forest_keys(nodes, anc, bs, i - 1).contains(k));
            }
        }
    }
}

/// Two managed nodes with different names never share a message key:
/// with the same subscription ID and XPaths, different node names give
/// different keys.
pub proof fn law_distinct_nodes_distinct_keys(
    n1: Seq<char>,
    n2: Seq<char>,
    subscription_id: Seq<char>,
    xpaths: Seq<Seq<char>>,
)
    requires
        n1 != n2,
    ensures
        line_key(n1, subscription_id, xpaths) != line_key(n2, subscription_id, xpaths),
{
    let tail = seq!['\n'] + subscription_id + seq!['\n'] + crate::text::join(
        xpaths,
        crate::types::pipe_sep(),
    );
    assert(line_key(n1, subscription_id, xpaths) =~= n1 + tail);
    assert(line_key(n2, subscription_id, xpaths) =~= n2 + tail);
    if n1 + tail == n2 + tail {
        assert((n1 + tail).len() == (n2 + tail).len());
        assert(n1 =~= (n1 + tail).subrange(0, n1.len() as int));
        assert(n2 =~= (n2 + tail).subrange(0, n2.len() as int));
    }
}

/// Two subscriptions of one managed node never share a message key:
/// with the same node name and XPaths, different subscription IDs give
/// different keys.
pub proof fn law_distinct_subscriptions_distinct_keys(
    node_name: Seq<char>,
    s1: Seq<char>,
    s2: Seq<char>,
    xpaths: Seq<Seq<char>>,
)
    requires
        s1 != s2,
    ensures
        line_key(node_name, s1, xpaths) != line_key(node_name, s2, xpaths),
{
    let head = node_name + seq!['\n'];
    let tail = seq!['\n'] + crate::text::join(xpaths, crate::types::pipe_sep());
    assert(line_key(node_name, s1, xpaths) =~= head + s1 + tail);
    assert(line_key(node_name, s2, xpaths) =~= head + s2 + tail);
    if head + s1 + tail == head + s2 + tail {
        assert((head + s1 + tail).len() == (head + s2 + tail).len());
        assert(s1 =~= (head + s1 + tail).subrange(head.len() as int, (head.len() + s1.len()) as int));
        assert(s2 =~= (head + s2 + tail).subrange(head.len() as int, (head.len() + s2.len()) as int));
    }
}

} // verus!
