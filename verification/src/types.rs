//! Shared data structures for the YANG Push key derivation algorithm.
//!
//! These types are the interface between Phases 1, 2, and 3:
//!
//! - Phase 1 produces an XPath `String`.
//! - Phase 2 consumes that XPath and produces a [`DerivationResult`].
//! - Phase 3 consumes the [`DerivationResult`] plus a data tree and
//!   produces a [`MessageKeyResult`].
use vstd::prelude::*;

use crate::text::{
    chars_of, copy_str, find_char, find_from, join, join_strings, lemma_find_from_bounds,
    push_char, push_chars, push_str, string_of, views,
};
use crate::xpath::{depth_before, lemma_plain_upto, lemma_stripped_prefix, lemma_stripped_suffix, split_pieces};

verus! {

/// Classification of the subscription target schema node.
///
/// Determines how the key template is built and how instances are
/// matched at runtime.
#[derive(Debug, Clone, Copy, PartialEq, Eq, Structural)]
pub enum TargetType {
    /// A YANG `container`.  No list predicates at this level.
    Container,
    /// A YANG `list`.  Key predicates are appended for this node.
    List,
    /// A YANG `leaf` (inside a list or container).
    Leaf,
    /// A YANG `leaf-list`.  Value predicate `[.='%s']` is appended.
    LeafList,
}

/// Index of the last `c` in `s`, or `-1` if there is none.
pub open spec fn last_index(s: Seq<char>, c: char) -> int
    decreases s.len(),
{
    if s.len() == 0 {
        -1
    } else if s.last() == c {
        s.len() - 1
    } else {
        last_index(s.drop_last(), c)
    }
}

pub proof fn lemma_last_index_bounds(s: Seq<char>, c: char)
    ensures
        -1 <= last_index(s, c) < s.len(),
        last_index(s, c) >= 0 ==> s[last_index(s, c)] == c,
        forall|k: int| last_index(s, c) < k < s.len() ==> s[k] != c,
    decreases s.len(),
{
    if s.len() > 0 && s.last() != c {
        lemma_last_index_bounds(s.drop_last(), c);
        assert forall|k: int| last_index(s, c) < k < s.len() implies s[k] != c by {
            if k < s.len() - 1 {
                assert(s.drop_last()[k] == s[k]);
            }
        }
    }
}

/// Index of the last `c` in `cs`, if any.
pub fn rfind_char(cs: &Vec<char>, c: char) -> (res: Option<usize>)
    ensures
        match res {
            Some(i) => i == last_index(cs@, c),
            None => last_index(cs@, c) == -1,
        },
{
    let mut i = cs.len();
    assert(cs@.subrange(0, cs@.len() as int) == cs@);
    while i > 0
        invariant
            0 <= i <= cs@.len(),
            last_index(cs@, c) == last_index(cs@.subrange(0, i as int), c),
        decreases i,
    {
        let ghost sub = cs@.subrange(0, i as int);
        if cs[i - 1] == c {
            return Some(i - 1);
        }
        assert(sub.drop_last() == cs@.subrange(0, i - 1));
        i = i - 1;
    }
    None
}

/// The part of `s` before its first `c` (all of `s` if there is none).
pub open spec fn before_char(s: Seq<char>, c: char) -> Seq<char> {
    s.subrange(0, find_from(s, 0, c))
}

/// Index of the last `c` among the first `n` characters of `s` that
/// lies outside every predicate (at bracket depth 0), or `-1`.
pub open spec fn last_top(s: Seq<char>, c: char, n: int) -> int
    decreases n,
{
    if n <= 0 {
        -1
    } else if s[n - 1] == c && depth_before(s, n - 1) == 0 {
        n - 1
    } else {
        last_top(s, c, n - 1)
    }
}

pub proof fn lemma_last_top_bounds(s: Seq<char>, c: char, n: int)
    requires
        0 <= n <= s.len(),
    ensures
        -1 <= last_top(s, c, n) < n,
        last_top(s, c, n) >= 0 ==> s[last_top(s, c, n)] == c && depth_before(
            s,
            last_top(s, c, n),
        ) == 0,
    decreases n,
{
    if n > 0 {
        lemma_last_top_bounds(s, c, n - 1);
    }
}

/// The last `c` outside predicates, when `s[k]` is one and no `c`
/// follows it among the first `n` characters.
pub proof fn lemma_last_top_at(s: Seq<char>, c: char, k: int, n: int)
    requires
        0 <= k < n <= s.len(),
        s[k] == c,
        depth_before(s, k) == 0,
        forall|j: int| k < j < n ==> s[j] != c,
    ensures
        last_top(s, c, n) == k,
    decreases n,
{
    if n - 1 > k {
        lemma_last_top_at(s, c, k, n - 1);
    }
}

/// A `c` outside predicates at `k` means there is a last one at or
/// after `k`.
pub proof fn lemma_last_top_at_least(s: Seq<char>, c: char, k: int, n: int)
    requires
        0 <= k < n <= s.len(),
        s[k] == c,
        depth_before(s, k) == 0,
    ensures
        last_top(s, c, n) >= k,
    decreases n,
{
    if n - 1 > k {
        lemma_last_top_at_least(s, c, k, n - 1);
    }
}

/// Index of the last `c` outside predicates (exec).
pub fn rfind_top(cs: &Vec<char>, c: char) -> (res: Option<usize>)
    ensures
        match res {
            Some(i) => i == last_top(cs@, c, cs@.len() as int),
            None => last_top(cs@, c, cs@.len() as int) == -1,
        },
{
    let mut depth: i128 = 0;
    let mut last: Option<usize> = None;
    let mut i: usize = 0;
    while i < cs.len()
        invariant
            0 <= i <= cs@.len(),
            depth == depth_before(cs@, i as int),
            -(i as int) <= depth <= i,
            match last {
                Some(j) => j == last_top(cs@, c, i as int),
                None => last_top(cs@, c, i as int) == -1,
            },
        decreases cs@.len() - i,
    {
        let ch = cs[i];
        if ch == c && depth == 0 {
            last = Some(i);
        }
        if ch == '[' {
            depth = depth + 1;
        } else if ch == ']' {
            depth = depth - 1;
        }
        i = i + 1;
    }
    last
}

/// The pieces of `s[0..i]` between the `c`s that lie outside predicates
/// (the last one is still open).
pub open spec fn split_top(s: Seq<char>, c: char, i: int) -> Seq<Seq<char>>
    decreases i,
{
    if i <= 0 {
        seq![Seq::empty()]
    } else {
        let p = split_top(s, c, i - 1);
        if s[i - 1] == c && depth_before(s, i - 1) == 0 {
            p.push(Seq::empty())
        } else {
            p.update(p.len() - 1, p.last().push(s[i - 1]))
        }
    }
}

pub proof fn lemma_split_top_len(s: Seq<char>, c: char, i: int)
    ensures
        split_top(s, c, i).len() >= 1,
    decreases i,
{
    if i > 0 {
        lemma_split_top_len(s, c, i - 1);
    }
}

/// The pieces of `cs` between the `c`s outside predicates (exec).
pub fn split_top_on(cs: &Vec<char>, c: char) -> (res: Vec<String>)
    ensures
        views(res@) == split_top(cs@, c, cs@.len() as int),
{
    let mut pieces: Vec<String> = Vec::new();
    let mut start: usize = 0;
    let mut i: usize = 0;
    let mut depth: i128 = 0;
    proof {
        lemma_split_top_len(cs@, c, 0);
        assert(cs@.subrange(0, 0) == Seq::<char>::empty());
    }
    while i < cs.len()
        invariant
            0 <= start <= i <= cs@.len(),
            depth == depth_before(cs@, i as int),
            -(i as int) <= depth <= i,
            ({
                let p = split_top(cs@, c, i as int);
                &&& p.len() >= 1
                &&& p.last() == cs@.subrange(start as int, i as int)
                &&& views(pieces@) == p.drop_last()
            }),
        decreases cs@.len() - i,
    {
        let ghost p = split_top(cs@, c, i as int);
        proof {
            lemma_split_top_len(cs@, c, i + 1);
        }
        let ch = cs[i];
        if ch == c && depth == 0 {
            let piece = string_of(cs, start, i);
            let ghost before = pieces@;
            pieces.push(piece);
            proof {
                assert(views(pieces@) =~= views(before).push(piece@));
                assert(p == p.drop_last().push(p.last()));
                assert(cs@.subrange(i + 1, i + 1) == Seq::<char>::empty());
            }
            start = i + 1;
        } else {
            proof {
                let np = split_top(cs@, c, i + 1);
                assert(np.drop_last() =~= p.drop_last());
                assert(cs@.subrange(start as int, i + 1) == cs@.subrange(start as int, i as int).push(
                    cs@[i as int],
                ));
            }
        }
        if ch == '[' {
            depth = depth + 1;
        } else if ch == ']' {
            depth = depth - 1;
        }
        i = i + 1;
    }
    let piece = string_of(cs, start, cs.len());
    let ghost before = pieces@;
    pieces.push(piece);
    proof {
        let p = split_top(cs@, c, cs@.len() as int);
        assert(views(pieces@) =~= views(before).push(piece@));
        assert(p == p.drop_last().push(p.last()));
    }
    pieces
}

/// `path` with the predicates of its last step removed; the last step
/// starts after the last `/` outside predicates.
pub open spec fn strip_last_spec(path: Seq<char>) -> Seq<char> {
    let ls = last_top(path, '/', path.len() as int);
    if ls < 0 {
        path
    } else {
        path.subrange(0, ls + 1) + before_char(path.subrange(ls + 1, path.len() as int), '[')
    }
}

/// Strip predicates (`[...]`) from the last path segment only.
///
/// For example: `/a:x/y[name='%s'][id='%s']` becomes `/a:x/y`.
pub fn strip_last_predicates(path: &str) -> (res: String)
    ensures
        res@ == strip_last_spec(path@),
{
    let cs = chars_of(path);
    let n = cs.len();
    match rfind_top(&cs, '/') {
        Some(ls) => {
            proof {
                lemma_last_top_bounds(cs@, '/', cs@.len() as int);
            }
            let b = find_char(&cs, ls + 1, '[');
            let mut r = string_of(&cs, 0, ls + 1);
            push_chars(&mut r, &cs, ls + 1, b);
            proof {
                lemma_find_from_bounds(cs@, ls + 1, '[');
                let last = cs@.subrange(ls + 1, cs@.len() as int);
                lemma_find_offset(cs@, ls + 1, '[');
                assert(last.subrange(0, find_from(last, 0, '[')) == cs@.subrange(
                    ls + 1,
                    b as int,
                ));
            }
            r
        },
        None => {
            assert(cs@.subrange(0, cs@.len() as int) == cs@);
            string_of(&cs, 0, cs.len())
        },
    }
}

/// Searching a suffix finds the same position, shifted.
pub proof fn lemma_find_offset(s: Seq<char>, a: int, c: char)
    requires
        0 <= a <= s.len(),
    ensures
        find_from(s.subrange(a, s.len() as int), 0, c) == find_from(s, a, c) - a,
{
    lemma_find_offset_from(s, a, 0, c);
}

proof fn lemma_find_offset_from(s: Seq<char>, a: int, j: int, c: char)
    requires
        0 <= a <= s.len(),
        0 <= j <= s.len() - a,
    ensures
        find_from(s.subrange(a, s.len() as int), j, c) == find_from(s, a + j, c) - a,
    decreases s.len() - a - j,
{
    if j < s.len() - a {
        lemma_find_offset_from(s, a, j + 1, c);
    }
}

/// The view of an [`ExtractionSpec`]: extraction XPath, key leaf name,
/// list module, list name.
pub type ExtractionView = (Seq<char>, Seq<char>, Seq<char>, Seq<char>);

/// Describes how to fill one `%s` placeholder in a key template.
///
/// Each extraction is expressed as an absolute XPath that identifies
/// the key leaf in the data tree:
///
/// ```text
/// /MODULE:CONTAINER/.../LIST/KEY-LEAF-NAME
/// ```
///
/// The path mirrors the template path from the root to the owning
/// list (preserving any pinned predicates on ancestor lists) and
/// appends the key leaf name without a predicate.
///
/// For leaf-list targets the extraction XPath is `"."`.
#[derive(Debug, Clone, PartialEq, Eq)]
pub struct ExtractionSpec {
    /// Absolute XPath identifying the key leaf in the data tree.
    pub extraction_xpath: String,
    /// Key leaf local name (e.g. `"name"`, `"id"`); `"."` for leaf-list
    /// targets.
    pub key_leaf_name: String,
    /// YANG module name of the owning list (e.g. `"ietf-interfaces"`).
    pub list_module: String,
    /// Local name of the owning list (e.g. `"interface"`).
    pub list_name: String,
}

impl View for ExtractionSpec {
    type V = ExtractionView;

    open spec fn view(&self) -> ExtractionView {
        (self.extraction_xpath@, self.key_leaf_name@, self.list_module@, self.list_name@)
    }
}

/// The single character `.`.
pub open spec fn dot() -> Seq<char> {
    seq!['.']
}

/// The extraction for a list key leaf: the template built so far with the
/// list's own predicates removed, then `/` and the key leaf name.
pub open spec fn list_key_extraction(
    key_leaf_name: Seq<char>,
    list_module: Seq<char>,
    list_name: Seq<char>,
    template_prefix: Seq<char>,
) -> ExtractionView {
    (
        strip_last_spec(template_prefix) + seq!['/'] + key_leaf_name,
        key_leaf_name,
        list_module,
        list_name,
    )
}

/// The module prefix of the nearest segment, among the first `n`, that
/// carries one (looking from segment `n - 1` backwards); empty if none.
pub open spec fn module_in(ps: Seq<Seq<char>>, n: int) -> Seq<char>
    decreases n,
{
    if n <= 0 {
        Seq::empty()
    } else {
        let clean = before_char(ps[n - 1], '[');
        let c = find_from(clean, 0, ':');
        if c < clean.len() {
            clean.subrange(0, c)
        } else {
            module_in(ps, n - 1)
        }
    }
}

/// What an extraction XPath parses to, or `None` when it is neither `.`
/// nor absolute.
pub open spec fn parse_extraction(x: Seq<char>) -> Option<ExtractionView> {
    if x == dot() {
        Some((dot(), dot(), Seq::empty(), Seq::empty()))
    } else if !(x.len() > 0 && x[0] == '/') {
        None
    } else {
        let ls = last_top(x, '/', x.len() as int);
        let parent = x.subrange(0, ls);
        let key = x.subrange(ls + 1, x.len() as int);
        let pl = last_top(parent, '/', parent.len() as int);
        let list_seg = if pl >= 0 {
            parent.subrange(pl + 1, parent.len() as int)
        } else {
            parent
        };
        let list_local = before_char(list_seg, '[');
        let c = find_from(list_local, 0, ':');
        if c < list_local.len() {
            Some(
                (
                    x,
                    key,
                    list_local.subrange(0, c),
                    list_local.subrange(c + 1, list_local.len() as int),
                ),
            )
        } else {
            let ps = split_top(parent, '/', parent.len() as int);
            Some((x, key, module_in(ps, ps.len() as int), list_local))
        }
    }
}

/// The message of the error for a relative extraction XPath.
pub open spec fn not_absolute_message(x: Seq<char>) -> Seq<char> {
    "extraction xpath must be absolute: '"@ + x + "'"@
}

/// A new string holding `cs[lo..hi]`, and its characters.
fn sub_chars(cs: &Vec<char>, lo: usize, hi: usize) -> (res: Vec<char>)
    requires
        lo <= hi <= cs@.len(),
    ensures
        res@ == cs@.subrange(lo as int, hi as int),
{
    let s = string_of(cs, lo, hi);
    chars_of(s.as_str())
}

/// The module prefix searched by [`module_in`] over all of `ps`.
fn module_search(ps: &Vec<String>) -> (res: String)
    ensures
        res@ == module_in(views(ps@), ps@.len() as int),
{
    let mut k = ps.len();
    while k > 0
        invariant
            0 <= k <= ps@.len(),
            module_in(views(ps@), ps@.len() as int) == module_in(views(ps@), k as int),
        decreases k,
    {
        let pc = chars_of(ps[k - 1].as_str());
        let b = find_char(&pc, 0, '[');
        let cl = sub_chars(&pc, 0, b);
        let c = find_char(&cl, 0, ':');
        if c < cl.len() {
            return string_of(&cl, 0, c);
        }
        k = k - 1;
    }
    String::new()
}

impl ExtractionSpec {
    /// Create an extraction for a list key leaf.
    ///
    /// `template_prefix` is the key template built so far up to and
    /// including the owning list node (with any pinned predicates on
    /// ancestor lists). The extraction XPath is formed by stripping
    /// the list's own key predicates and appending `/key_leaf_name`.
    pub fn for_list_key(
        key_leaf_name: &str,
        list_module: &str,
        list_name: &str,
        template_prefix: &str,
    ) -> (res: Self)
        ensures
            res@ == list_key_extraction(key_leaf_name@, list_module@, list_name@, template_prefix@),
    {
        let mut extraction_xpath = strip_last_predicates(template_prefix);
        push_char(&mut extraction_xpath, '/');
        push_str(&mut extraction_xpath, key_leaf_name);
        Self {
            extraction_xpath,
            key_leaf_name: copy_str(key_leaf_name),
            list_module: copy_str(list_module),
            list_name: copy_str(list_name),
        }
    }

    /// Create an extraction for a leaf-list's own value.
    ///
    /// The XPath and the key leaf are both `.`; the list module and name
    /// are left empty, as for every leaf-list target.  The arguments name
    /// the leaf-list at the call site only.
    pub fn for_leaf_list_value(_list_module: &str, _list_name: &str) -> (res: Self)
        ensures
            res@ == (dot(), dot(), Seq::<char>::empty(), Seq::<char>::empty()),
    {
        let mut x = String::new();
        push_char(&mut x, '.');
        let mut k = String::new();
        push_char(&mut k, '.');
        Self {
            extraction_xpath: x,
            key_leaf_name: k,
            list_module: String::new(),
            list_name: String::new(),
        }
    }

    /// Parse an extraction XPath string and derive the optimized
    /// tree-walk fields.
    ///
    /// Accepts `"."` (leaf-list) or an absolute XPath like
    /// `"/a:containers/list/key_leaf"`: the key leaf is the last path
    /// segment, the list the one before it.  When the list segment has
    /// no module prefix, the nearest earlier segment that has one gives
    /// the module.
    pub fn from_xpath(xpath: &str) -> (res: Result<Self, String>)
        ensures
            match res {
                Ok(e) => parse_extraction(xpath@) == Some(e@),
                Err(m) => parse_extraction(xpath@).is_none() && m@ == not_absolute_message(
                    xpath@,
                ),
            },
    {
        let cs = chars_of(xpath);
        let n = cs.len();
        if n == 1 && cs[0] == '.' {
            assert(cs@ =~= dot());
            let mut x = String::new();
            push_char(&mut x, '.');
            let mut k = String::new();
            push_char(&mut k, '.');
            assert(x@ =~= dot());
            assert(k@ =~= dot());
            return Ok(
                Self {
                    extraction_xpath: x,
                    key_leaf_name: k,
                    list_module: String::new(),
                    list_name: String::new(),
                },
            );
        }
        if !(n > 0 && cs[0] == '/') {
            proof {
                if xpath@ == dot() {
                    assert(cs@.len() == 1 && cs@[0] == '.');
                }
            }
            let mut m = String::from_str("extraction xpath must be absolute: '");
            push_str(&mut m, xpath);
            push_str(&mut m, "'");
            return Err(m);
        }
        assert(xpath@ != dot()) by {
            if xpath@ == dot() {
                assert(cs@[0] == '.');
            }
        }
        proof {
            lemma_last_top_bounds(cs@, '/', cs@.len() as int);
            assert(depth_before(cs@, 0) == 0);
            if last_top(cs@, '/', cs@.len() as int) < 0 {
                lemma_last_top_at_least(cs@, '/', 0, cs@.len() as int);
            }
        }
        let ls = match rfind_top(&cs, '/') {
            Some(i) => i,
            None => {
                assert(false);
                0
            },
        };
        let key = string_of(&cs, ls + 1, n);
        let pcs = sub_chars(&cs, 0, ls);
        proof {
            lemma_last_top_bounds(pcs@, '/', pcs@.len() as int);
        }
        let lo = match rfind_top(&pcs, '/') {
            Some(i) => i + 1,
            None => 0,
        };
        let seg = sub_chars(&pcs, lo, pcs.len());
        proof {
            if lo == 0 {
                assert(pcs@.subrange(0, pcs@.len() as int) == pcs@);
            }
        }
        let lb = find_char(&seg, 0, '[');
        let ll = sub_chars(&seg, 0, lb);
        let c = find_char(&ll, 0, ':');
        if c < ll.len() {
            let module = string_of(&ll, 0, c);
            let name = string_of(&ll, c + 1, ll.len());
            Ok(
                Self {
                    extraction_xpath: copy_str(xpath),
                    key_leaf_name: key,
                    list_module: module,
                    list_name: name,
                },
            )
        } else {
            let pieces = split_top_on(&pcs, '/');
            let module = module_search(&pieces);
            assert(ll@.subrange(0, ll@.len() as int) == ll@);
            Ok(
                Self {
                    extraction_xpath: copy_str(xpath),
                    key_leaf_name: key,
                    list_module: module,
                    list_name: string_of(&ll, 0, ll.len()),
                },
            )
        }
    }
}

/// The placeholder that a key template holds for each extracted value.
pub open spec fn placeholder() -> Seq<char> {
    seq!['%', 's']
}

/// Whether a placeholder starts at `i` in `s`.
pub open spec fn placeholder_at(s: Seq<char>, i: int) -> bool {
    0 <= i && i + 1 < s.len() && s[i] == '%' && s[i + 1] == 's'
}

/// Whether `s` holds a placeholder.
pub open spec fn has_placeholder(s: Seq<char>) -> bool {
    exists|i: int| placeholder_at(s, i)
}

/// Start positions of the placeholders of `s[i..]`, taken from the left
/// without overlap.
pub open spec fn placeholders_from(s: Seq<char>, i: int) -> Seq<int>
    decreases s.len() - i,
{
    if i < 0 || i >= s.len() {
        Seq::empty()
    } else if placeholder_at(s, i) {
        seq![i] + placeholders_from(s, i + 2)
    } else {
        placeholders_from(s, i + 1)
    }
}

/// How an extraction belongs to the placeholder at `pos` of template
/// `t`: the placeholder closes a predicate `'%s']`, and either the
/// predicate is a leaf-list's own value `[.='%s']` and `e` is the `.`
/// extraction, or it is `[k='%s']` for the key leaf `k` of `e`, and `e`
/// reads `k` below the template up to the end of that predicate.
pub open spec fn pairs_with(t: Seq<char>, pos: int, e: ExtractionView) -> bool {
    &&& 0 <= pos
    &&& pos + 4 <= t.len()
    &&& t.subrange(pos, pos + 4) == seq!['%', 's', '\'', ']']
    &&& {
        ||| (e == (dot(), dot(), Seq::<char>::empty(), Seq::<char>::empty()) && pos >= 4
            && t.subrange(pos - 4, pos) == seq!['[', '.', '=', '\''])
        ||| (pos >= e.1.len() + 3 && t.subrange(pos - e.1.len() - 3, pos) == seq!['['] + e.1
            + seq!['=', '\''] && e == list_key_extraction(e.1, e.2, e.3, t.subrange(0, pos + 4)))
    }
}

/// Key template and extraction metadata for one branch of a
/// (possibly union) subscription XPath.
///
/// A subscription like `"/a:x/y | /b:p/q"` produces two branches.
#[derive(Debug, Clone, PartialEq, Eq)]
pub struct BranchTemplate {
    /// Zero-based position in the union.
    pub branch_index: usize,
    /// The XPath of this branch as subscribed (before template derivation).
    pub branch_xpath: String,
    /// The key template with `%s` placeholders for dynamic keys and
    /// literal values for statically-pinned keys.
    ///
    /// Example: `/ietf-interfaces:interfaces/interface[name='%s']`
    pub key_template: String,
    /// One entry per `%s` in `key_template`, in left-to-right order.
    pub extractions: Vec<ExtractionSpec>,
    /// What kind of schema node the subscription targets.
    pub target_type: TargetType,
}

/// Complete output of Phase 2 (key template derivation).
#[derive(Debug, Clone, PartialEq, Eq)]
pub struct DerivationResult {
    /// The full subscription XPath (as given, or normalized from Phase 1).
    pub subscription_xpath: String,
    /// One [`BranchTemplate`] per union branch.
    pub branches: Vec<BranchTemplate>,
}

/// Structured message key.
///
/// The message key uses a line-delimited format:
///
/// ```text
/// <node_name>\n<subscription_id>\n<xpath1> | <xpath2> | ...
/// ```
///
/// Field ordering is fixed and XPaths are sorted lexicographically,
/// which guarantees byte-identical keys for identical inputs, as topic
/// compaction requires.
#[derive(Debug, Clone, PartialEq, Eq)]
pub struct MessageKey {
    /// Administratively-assigned name identifying the managed node
    /// (e.g. hostname, FQDN).
    pub node_name: String,
    /// YANG Push subscription ID (e.g. `"1042"`).
    pub subscription_id: String,
    /// Sorted, deduplicated concrete XPaths extracted from the
    /// notification data tree.
    pub xpaths: Vec<String>,
}

/// The separator between XPaths on the third line: ` | `.
pub open spec fn pipe_sep() -> Seq<char> {
    seq![' ', '|', ' ']
}

/// The line-delimited key: node name, subscription ID and the XPaths
/// joined by ` | `, on three lines, with no trailing newline.
pub open spec fn line_key(
    node_name: Seq<char>,
    subscription_id: Seq<char>,
    xpaths: Seq<Seq<char>>,
) -> Seq<char> {
    node_name + seq!['\n'] + subscription_id + seq!['\n'] + join(xpaths, pipe_sep())
}

impl MessageKey {
    /// Serialize to the line-delimited message key format.
    ///
    /// Format: `node_name \n subscription_id \n xpath1 | xpath2 | ...`
    pub fn to_line_delimited(&self) -> (res: String)
        ensures
            res@ == line_key(self.node_name@, self.subscription_id@, views(self.xpaths@)),
    {
        let mut sep = String::new();
        push_char(&mut sep, ' ');
        push_char(&mut sep, '|');
        push_char(&mut sep, ' ');
        assert(sep@ =~= pipe_sep());
        let xpaths_line = join_strings(&self.xpaths, sep.as_str());
        let mut res = copy_str(self.node_name.as_str());
        push_char(&mut res, '\n');
        push_str(&mut res, self.subscription_id.as_str());
        push_char(&mut res, '\n');
        push_str(&mut res, xpaths_line.as_str());
        assert(res@ =~= line_key(self.node_name@, self.subscription_id@, views(self.xpaths@)));
        res
    }
}

/// Output of Phase 3 (runtime message key production).
#[derive(Debug, Clone, PartialEq, Eq)]
pub struct MessageKeyResult {
    /// Line-delimited string: the actual message broker key.
    pub message_key: String,
    /// Structured representation for programmatic access.
    pub key: MessageKey,
}


// ------------------------------------------------------------------
//  Laws
// ------------------------------------------------------------------

/// Splitting continues the open piece over a stretch without `c`.
proof fn lemma_split_no_sep(s: Seq<char>, c: char, lo: int, i: int)
    requires
        0 <= lo <= i <= s.len(),
        forall|k: int| lo <= k < i ==> s[k] != c,
    ensures
        split_pieces(s, c, i) == split_pieces(s, c, lo).drop_last().push(
            split_pieces(s, c, lo).last() + s.subrange(lo, i),
        ),
        split_pieces(s, c, i).len() == split_pieces(s, c, lo).len(),
    decreases i - lo,
{
    crate::xpath::lemma_split_pieces_len(s, c, lo);
    if i == lo {
        let p = split_pieces(s, c, lo);
        assert(p.last() + s.subrange(lo, lo) =~= p.last());
        assert(p.drop_last().push(p.last()) =~= p);
    } else {
        lemma_split_no_sep(s, c, lo, i - 1);
        let p = split_pieces(s, c, lo);
        let q = split_pieces(s, c, i - 1);
        assert(q.last() == p.last() + s.subrange(lo, i - 1));
        assert(p.last() + s.subrange(lo, i) =~= (p.last() + s.subrange(lo, i - 1)).push(s[i - 1]));
        assert(split_pieces(s, c, i) =~= p.drop_last().push(p.last() + s.subrange(lo, i)));
    }
}

/// The message key is exactly three lines: when the node name, the
/// subscription ID and the XPaths hold no newline, splitting the key at
/// its newlines gives back the node name, the subscription ID and the
/// XPaths joined by ` | `, with no trailing empty line.
pub proof fn law_message_key_three_lines(
    node_name: Seq<char>,
    subscription_id: Seq<char>,
    xpaths: Seq<Seq<char>>,
)
    requires
        !crate::text::has_char(node_name, '\n'),
        !crate::text::has_char(subscription_id, '\n'),
        forall|i: int| 0 <= i < xpaths.len() ==> !crate::text::has_char(#[trigger] xpaths[i], '\n'),
    ensures
        split_pieces(
            line_key(node_name, subscription_id, xpaths),
            '\n',
            line_key(node_name, subscription_id, xpaths).len() as int,
        ) == seq![node_name, subscription_id, join(xpaths, pipe_sep())],
{
    let line = join(xpaths, pipe_sep());
    assert(!crate::text::has_char(pipe_sep(), '\n')) by {
        assert forall|k: int| 0 <= k < pipe_sep().len() implies pipe_sep()[k] != '\n' by {}
    }
    crate::text::lemma_join_without(xpaths, pipe_sep(), '\n');
    let s = line_key(node_name, subscription_id, xpaths);
    let a = node_name.len() as int;
    let b = a + 1 + subscription_id.len();
    assert(s =~= node_name + seq!['\n'] + subscription_id + seq!['\n'] + line);
    assert forall|k: int| 0 <= k < a implies s[k] != '\n' by {
        assert(s[k] == node_name[k]);
    }
    assert forall|k: int| a + 1 <= k < b implies s[k] != '\n' by {
        assert(s[k] == subscription_id[k - a - 1]);
    }
    assert forall|k: int| b + 1 <= k < s.len() implies s[k] != '\n' by {
        assert(s[k] == line[k - b - 1]);
    }
    assert(split_pieces(s, '\n', 0) == seq![Seq::<char>::empty()]);
    lemma_split_no_sep(s, '\n', 0, a);
    assert(s.subrange(0, a) =~= node_name);
    assert(split_pieces(s, '\n', a) =~= seq![node_name]);
    assert(s[a] == '\n');
    assert(split_pieces(s, '\n', a + 1) =~= seq![node_name, Seq::<char>::empty()]);
    lemma_split_no_sep(s, '\n', a + 1, b);
    assert(s.subrange(a + 1, b) =~= subscription_id);
    assert(split_pieces(s, '\n', b) =~= seq![node_name, subscription_id]);
    assert(s[b] == '\n');
    assert(split_pieces(s, '\n', b + 1) =~= seq![node_name, subscription_id, Seq::<char>::empty()]);
    lemma_split_no_sep(s, '\n', b + 1, s.len() as int);
    assert(s.subrange(b + 1, s.len() as int) =~= line);
    assert(split_pieces(s, '\n', s.len() as int) =~= seq![node_name, subscription_id, line]);
}

/// Whether `s` holds no `c`.
pub open spec fn lacks(s: Seq<char>, c: char) -> bool {
    forall|i: int| 0 <= i < s.len() ==> s[i] != c
}

/// Whether `s` holds no bracket.
pub open spec fn bracket_free(s: Seq<char>) -> bool {
    lacks(s, '[') && lacks(s, ']')
}

/// Whether every predicate opened in `s` is closed again within it.
pub open spec fn balanced(s: Seq<char>) -> bool {
    depth_before(s, s.len() as int) == 0
}

/// After a balanced prefix, a stretch without brackets stays outside
/// every predicate.
proof fn lemma_depth_plain_after(a: Seq<char>, b: Seq<char>, j: int)
    requires
        balanced(a),
        bracket_free(b),
        0 <= j <= b.len(),
    ensures
        depth_before(a + b, a.len() + j) == 0,
{
    lemma_stripped_suffix(a, b, j);
    lemma_plain_upto(b, j);
}

/// Stripping the predicates of the last step of `p/seg r`.
proof fn lemma_strip_last_of_step(p: Seq<char>, seg: Seq<char>, r: Seq<char>)
    requires
        balanced(p),
        lacks(seg, '/') && bracket_free(seg),
        lacks(r, '/'),
        r.len() == 0 || r[0] == '[',
    ensures
        strip_last_spec(p + seq!['/'] + seg + r) == p + seq!['/'] + seg,
{
    let t = p + seq!['/'] + seg + r;
    let pl = p.len() as int;
    let tail = seg + r;
    assert(t =~= p + (seq!['/'] + tail));
    lemma_stripped_prefix(p, seq!['/'] + tail, pl);
    assert forall|j: int| pl < j < t.len() implies t[j] != '/' by {
        assert(t[j] == tail[j - pl - 1]);
        if j - pl - 1 < seg.len() {
            assert(tail[j - pl - 1] == seg[j - pl - 1]);
        } else {
            assert(tail[j - pl - 1] == r[j - pl - 1 - seg.len()]);
        }
    }
    assert(t[pl] == '/');
    lemma_last_top_at(t, '/', pl, t.len() as int);
    assert(t.subrange(pl + 1, t.len() as int) =~= tail);
    assert forall|j: int| 0 <= j < seg.len() implies tail[j] != '[' by {
        assert(tail[j] == seg[j]);
    }
    if r.len() > 0 {
        assert(tail[seg.len() as int] == '[');
        crate::xpath::lemma_find_at(tail, 0, seg.len() as int, '[');
    } else {
        assert(tail =~= seg);
        crate::xpath::lemma_find_none(tail, 0, '[');
    }
    assert(before_char(tail, '[') =~= seg);
    assert(t.subrange(0, pl + 1) =~= p + seq!['/']);
}

/// In `p/seg/key`, the last `/` outside predicates is the one before
/// `key`, and in `p/seg` it is the one before `seg`.
proof fn lemma_extraction_parts(p: Seq<char>, seg: Seq<char>, key: Seq<char>)
    requires
        balanced(p),
        lacks(seg, '/') && bracket_free(seg),
        lacks(key, '/'),
        p.len() == 0 || p[0] == '/',
    ensures
        ({
            let parent = p + seq!['/'] + seg;
            let x = parent + seq!['/'] + key;
            &&& x != dot()
            &&& x.len() > 0 && x[0] == '/'
            &&& last_top(x, '/', x.len() as int) == parent.len()
            &&& x.subrange(0, parent.len() as int) == parent
            &&& x.subrange(parent.len() + 1int, x.len() as int) == key
            &&& last_top(parent, '/', parent.len() as int) == p.len()
            &&& parent.subrange(p.len() + 1int, parent.len() as int) == seg
            &&& before_char(seg, '[') == seg
        }),
{
    let parent = p + seq!['/'] + seg;
    let x = parent + seq!['/'] + key;
    let pl = p.len() as int;
    assert(x[0] == '/');
    assert(x.len() >= 2);
    assert(x != dot()) by {
        assert(x.len() != dot().len());
    }
    // depth 0 at the `/` before `seg` and at the one before `key`
    assert(parent =~= p + (seq!['/'] + seg));
    assert(bracket_free(seq!['/'] + seg)) by {
        assert forall|j: int| 0 <= j < (seq!['/'] + seg).len() implies (seq!['/'] + seg)[j] != '['
            && (seq!['/'] + seg)[j] != ']' by {
            if j > 0 {
                assert((seq!['/'] + seg)[j] == seg[j - 1]);
            }
        }
    }
    lemma_depth_plain_after(p, seq!['/'] + seg, 0);
    lemma_depth_plain_after(p, seq!['/'] + seg, 1 + seg.len() as int);
    assert(x =~= parent + (seq!['/'] + key));
    lemma_stripped_prefix(parent, seq!['/'] + key, parent.len() as int);
    assert forall|j: int| parent.len() < j < x.len() implies x[j] != '/' by {
        assert(x[j] == key[j - parent.len() - 1]);
    }
    assert(x[parent.len() as int] == '/');
    lemma_last_top_at(x, '/', parent.len() as int, x.len() as int);
    assert(x.subrange(0, parent.len() as int) =~= parent);
    assert(x.subrange(parent.len() + 1int, x.len() as int) =~= key);
    assert forall|j: int| pl < j < parent.len() implies parent[j] != '/' by {
        assert(parent[j] == seg[j - pl - 1]);
    }
    assert(parent[pl] == '/');
    lemma_last_top_at(parent, '/', pl, parent.len() as int);
    assert(parent.subrange(pl + 1, parent.len() as int) =~= seg);
    crate::xpath::lemma_find_none(seg, 0, '[');
    assert(seg.subrange(0, seg.len() as int) =~= seg);
}

/// The module and local name of `module:name`.
proof fn lemma_prefixed_name(module: Seq<char>, name: Seq<char>)
    requires
        lacks(module, ':'),
    ensures
        ({
            let seg = module + seq![':'] + name;
            &&& find_from(seg, 0, ':') == module.len()
            &&& seg.subrange(0, module.len() as int) == module
            &&& seg.subrange(module.len() + 1int, seg.len() as int) == name
        }),
{
    let seg = module + seq![':'] + name;
    assert forall|j: int| 0 <= j < module.len() implies seg[j] != ':' by {
        assert(seg[j] == module[j]);
    }
    assert(seg[module.len() as int] == ':');
    crate::xpath::lemma_find_at(seg, 0, module.len() as int, ':');
    assert(seg.subrange(0, module.len() as int) =~= module);
    assert(seg.subrange(module.len() + 1int, seg.len() as int) =~= name);
}

/// The extraction of a key whose list step carries the list's module
/// (`.../module:name[...]`) reads back as what it was built from: for
/// names without `/`, `[`, `]` and `:`, list predicates without `/`, and
/// an absolute template whose earlier steps close every predicate they
/// open (their values may hold `/`), `from_xpath` gives back exactly the
/// extraction that `for_list_key` builds.
#[verifier::rlimit(40)]
pub proof fn law_from_xpath_reads_prefixed_list_key(
    key: Seq<char>,
    module: Seq<char>,
    name: Seq<char>,
    p: Seq<char>,
    r: Seq<char>,
)
    requires
        lacks(key, '/'),
        lacks(module, '/') && bracket_free(module) && lacks(module, ':'),
        lacks(name, '/') && bracket_free(name),
        lacks(r, '/'),
        r.len() == 0 || r[0] == '[',
        p.len() == 0 || p[0] == '/',
        balanced(p),
    ensures
        parse_extraction(
            list_key_extraction(key, module, name, p + seq!['/'] + module + seq![':'] + name + r).0,
        ) == Some(
            list_key_extraction(key, module, name, p + seq!['/'] + module + seq![':'] + name + r),
        ),
{
    let seg = module + seq![':'] + name;
    assert(p + seq!['/'] + module + seq![':'] + name + r =~= p + seq!['/'] + seg + r);
    assert forall|j: int| 0 <= j < seg.len() implies seg[j] != '/' && seg[j] != '[' && seg[j]
        != ']' by {
        if j < module.len() {
            assert(seg[j] == module[j]);
        } else if j > module.len() {
            assert(seg[j] == name[j - module.len() - 1]);
        }
    }
    lemma_strip_last_of_step(p, seg, r);
    lemma_extraction_parts(p, seg, key);
    lemma_prefixed_name(module, name);
}

/// Splitting a longer sequence agrees with splitting its prefix.
proof fn lemma_split_top_prefix(a: Seq<char>, b: Seq<char>, c: char, i: int)
    requires
        0 <= i <= a.len(),
    ensures
        split_top(a + b, c, i) == split_top(a, c, i),
    decreases i,
{
    if i > 0 {
        lemma_split_top_prefix(a, b, c, i - 1);
        lemma_stripped_prefix(a, b, i - 1);
        assert((a + b)[i - 1] == a[i - 1]);
    }
}

/// Splitting continues the open piece over a stretch without `c`.
proof fn lemma_split_top_no_sep(s: Seq<char>, c: char, lo: int, i: int)
    requires
        0 <= lo <= i <= s.len(),
        forall|k: int| lo <= k < i ==> s[k] != c,
    ensures
        split_top(s, c, i) == split_top(s, c, lo).drop_last().push(
            split_top(s, c, lo).last() + s.subrange(lo, i),
        ),
    decreases i - lo,
{
    lemma_split_top_len(s, c, lo);
    if i == lo {
        let p = split_top(s, c, lo);
        assert(p.last() + s.subrange(lo, lo) =~= p.last());
        assert(p.drop_last().push(p.last()) =~= p);
    } else {
        lemma_split_top_no_sep(s, c, lo, i - 1);
        let p = split_top(s, c, lo);
        assert(p.last() + s.subrange(lo, i) =~= (p.last() + s.subrange(lo, i - 1)).push(s[i - 1]));
        assert(split_top(s, c, i) =~= p.drop_last().push(p.last() + s.subrange(lo, i)));
    }
}

proof fn lemma_module_in_prefix(ps: Seq<Seq<char>>, qs: Seq<Seq<char>>, n: int)
    requires
        0 <= n <= ps.len(),
        n <= qs.len(),
        forall|k: int| 0 <= k < n ==> ps[k] == qs[k],
    ensures
        module_in(ps, n) == module_in(qs, n),
    decreases n,
{
    if n > 0 {
        lemma_module_in_prefix(ps, qs, n - 1);
    }
}

/// The steps of `p/name`, split at the `/`s outside predicates: those
/// of `p`, then `name`.
proof fn lemma_steps_of_parent(p: Seq<char>, name: Seq<char>)
    requires
        balanced(p),
        lacks(name, '/'),
    ensures
        split_top(p + seq!['/'] + name, '/', p.len() + 1 + name.len() as int) == split_top(
            p,
            '/',
            p.len() as int,
        ).push(name),
{
    let parent = p + seq!['/'] + name;
    let pp = split_top(p, '/', p.len() as int);
    lemma_split_top_len(p, '/', p.len() as int);
    assert(parent =~= p + (seq!['/'] + name));
    lemma_split_top_prefix(p, seq!['/'] + name, '/', p.len() as int);
    lemma_stripped_prefix(p, seq!['/'] + name, p.len() as int);
    assert(parent[p.len() as int] == '/');
    let q = split_top(parent, '/', p.len() + 1int);
    assert(q == pp.push(Seq::<char>::empty()));
    assert forall|k: int| p.len() + 1 <= k < parent.len() implies parent[k] != '/' by {
        assert(parent[k] == name[k - p.len() - 1]);
    }
    lemma_split_top_no_sep(parent, '/', p.len() + 1int, parent.len() as int);
    assert(parent.subrange(p.len() + 1int, parent.len() as int) =~= name);
    assert(Seq::<char>::empty() + name =~= name);
    assert(q.drop_last() =~= pp);
}

/// The extraction of a key whose list step carries no module prefix
/// (`.../name[...]`, the list's module being the nearest one named
/// before it) reads back as what it was built from: for names without
/// `/`, `[`, `]` and `:`, list predicates without `/`, and an absolute
/// template whose earlier steps close every predicate they open and
/// whose nearest module prefix before the list step is the list's
/// module, `from_xpath` gives back exactly the extraction that
/// `for_list_key` builds.
#[verifier::rlimit(40)]
pub proof fn law_from_xpath_reads_inherited_list_key(
    key: Seq<char>,
    module: Seq<char>,
    name: Seq<char>,
    p: Seq<char>,
    r: Seq<char>,
)
    requires
        lacks(key, '/'),
        lacks(name, '/') && bracket_free(name) && lacks(name, ':'),
        lacks(r, '/'),
        r.len() == 0 || r[0] == '[',
        p.len() == 0 || p[0] == '/',
        balanced(p),
        module_in(split_top(p, '/', p.len() as int), split_top(p, '/', p.len() as int).len() as int)
            == module,
    ensures
        parse_extraction(list_key_extraction(key, module, name, p + seq!['/'] + name + r).0) == Some(
            list_key_extraction(key, module, name, p + seq!['/'] + name + r),
        ),
{
    lemma_strip_last_of_step(p, name, r);
    lemma_extraction_parts(p, name, key);
    crate::xpath::lemma_find_none(name, 0, ':');
    lemma_steps_of_parent(p, name);
    let pp = split_top(p, '/', p.len() as int);
    let ps = pp.push(name);
    assert(ps[ps.len() - 1] == name);
    lemma_module_in_prefix(ps, pp, pp.len() as int);
}

} // verus!
