//! XPath parsing utilities shared across phases.
//!
//! Splitting union XPaths, parsing predicates, quoting values for XPath
//! string literals, and stripping predicates from paths.  Each function
//! is specified over the `Seq<char>` view of its input.
use vstd::prelude::*;

use crate::text::{
    chars_of, find_char, find_from, has_char, is_digit, is_whitespace, is_ws, join, join_strings,
    lemma_find_from_bounds, push_char, push_chars, push_str, string_of, trim, trim_start, trimmed,
    views,
};

verus! {

// ------------------------------------------------------------------
//  strip_predicates
// ------------------------------------------------------------------

/// Bracket depth before position `i` (`[` opens, `]` closes).
pub open spec fn depth_before(s: Seq<char>, i: int) -> int
    decreases i,
{
    if i <= 0 {
        0
    } else {
        let d = depth_before(s, i - 1);
        if s[i - 1] == '[' {
            d + 1
        } else if s[i - 1] == ']' {
            d - 1
        } else {
            d
        }
    }
}

/// Whether the character at `i` lies outside every predicate.
pub open spec fn outside_predicates(s: Seq<char>, i: int) -> bool {
    s[i] != '[' && s[i] != ']' && depth_before(s, i) == 0
}

/// The characters of `s[0..i]` that lie outside every predicate.
pub open spec fn stripped_upto(s: Seq<char>, i: int) -> Seq<char>
    decreases i,
{
    if i <= 0 {
        Seq::empty()
    } else if outside_predicates(s, i - 1) {
        stripped_upto(s, i - 1).push(s[i - 1])
    } else {
        stripped_upto(s, i - 1)
    }
}

/// `path` with every `[...]` removed.
pub open spec fn stripped(path: Seq<char>) -> Seq<char> {
    stripped_upto(path, path.len() as int)
}

/// Remove all predicates from an XPath, returning only the path steps.
///
/// Example: `/a:x/y[k='v']/z` becomes `/a:x/y/z`.
pub fn strip_predicates(path: &str) -> (res: String)
    ensures
        res@ == stripped(path@),
{
    let cs = chars_of(path);
    let mut result = String::new();
    let mut depth: i128 = 0;
    let mut i: usize = 0;
    while i < cs.len()
        invariant
            0 <= i <= cs@.len(),
            cs@ == path@,
            depth == depth_before(cs@, i as int),
            -(i as int) <= depth <= i,
            result@ == stripped_upto(cs@, i as int),
        decreases cs@.len() - i,
    {
        let ch = cs[i];
        if ch == '[' {
            depth = depth + 1;
        } else if ch == ']' {
            depth = depth - 1;
        } else if depth == 0 {
            push_char(&mut result, ch);
        }
        i = i + 1;
    }
    result
}

// ------------------------------------------------------------------
//  split_union
// ------------------------------------------------------------------

/// Scanner state for union splitting: bracket depth, parenthesis depth,
/// inside a single-quoted literal, inside a double-quoted literal.
pub type UnionState = (int, int, bool, bool);

/// One step of the union scanner.
pub open spec fn union_step(st: UnionState, ch: char) -> UnionState {
    let (bd, pd, sq, dq) = st;
    if sq {
        (bd, pd, ch != '\'', dq)
    } else if dq {
        (bd, pd, sq, ch != '"')
    } else if ch == '\'' {
        (bd, pd, true, dq)
    } else if ch == '"' {
        (bd, pd, sq, true)
    } else if ch == '[' {
        (bd + 1, pd, sq, dq)
    } else if ch == ']' {
        (bd - 1, pd, sq, dq)
    } else if ch == '(' {
        (bd, pd + 1, sq, dq)
    } else if ch == ')' {
        (bd, pd - 1, sq, dq)
    } else {
        st
    }
}

/// Scanner state before position `i`.
pub open spec fn union_state(s: Seq<char>, i: int) -> UnionState
    decreases i,
{
    if i <= 0 {
        (0, 0, false, false)
    } else {
        union_step(union_state(s, i - 1), s[i - 1])
    }
}

/// Whether position `i` holds a top-level `|`: outside brackets,
/// parentheses and quoted literals.
pub open spec fn is_union_sep(s: Seq<char>, i: int) -> bool {
    let (bd, pd, sq, dq) = union_state(s, i);
    s[i] == '|' && !sq && !dq && bd == 0 && pd == 0
}

/// The pieces of `s[0..i]` between top-level `|` separators (untrimmed;
/// the last one is still open).
pub open spec fn union_pieces(s: Seq<char>, i: int) -> Seq<Seq<char>>
    decreases i,
{
    if i <= 0 {
        seq![Seq::empty()]
    } else {
        let p = union_pieces(s, i - 1);
        if is_union_sep(s, i - 1) {
            p.push(Seq::empty())
        } else {
            p.update(p.len() - 1, p.last().push(s[i - 1]))
        }
    }
}

pub proof fn lemma_union_pieces_len(s: Seq<char>, i: int)
    ensures
        union_pieces(s, i).len() >= 1,
    decreases i,
{
    if i > 0 {
        lemma_union_pieces_len(s, i - 1);
    }
}

/// The trimmed pieces that are not empty, in order.
pub open spec fn keep_trimmed(ps: Seq<Seq<char>>) -> Seq<Seq<char>>
    decreases ps.len(),
{
    if ps.len() == 0 {
        Seq::empty()
    } else {
        let r = keep_trimmed(ps.drop_last());
        let t = trim(ps.last());
        if t.len() > 0 {
            r.push(t)
        } else {
            r
        }
    }
}

/// The branches of a union XPath: the pieces between top-level `|`,
/// trimmed, empty ones dropped.
pub open spec fn union_branches(s: Seq<char>) -> Seq<Seq<char>> {
    keep_trimmed(union_pieces(s, s.len() as int))
}

/// Split an XPath expression on top-level `|` operators.
///
/// A `|` inside square brackets, parentheses, or quoted strings is
/// not a union separator.  Each branch is trimmed of surrounding white
/// space, and empty branches are dropped.
pub fn split_union(xpath: &str) -> (res: Vec<String>)
    ensures
        views(res@) == union_branches(xpath@),
{
    let cs = chars_of(xpath);
    let mut branches: Vec<String> = Vec::new();
    let mut current: Vec<char> = Vec::new();
    let mut bracket_depth: i128 = 0;
    let mut paren_depth: i128 = 0;
    let mut in_squote = false;
    let mut in_dquote = false;
    let mut i: usize = 0;
    proof {
        lemma_union_pieces_len(cs@, 0);
    }
    while i < cs.len()
        invariant
            0 <= i <= cs@.len(),
            cs@ == xpath@,
            union_state(cs@, i as int) == (
                bracket_depth as int,
                paren_depth as int,
                in_squote,
                in_dquote,
            ),
            -(i as int) <= bracket_depth <= i,
            -(i as int) <= paren_depth <= i,
            union_pieces(cs@, i as int).len() >= 1,
            current@ == union_pieces(cs@, i as int).last(),
            views(branches@) == keep_trimmed(union_pieces(cs@, i as int).drop_last()),
        decreases cs@.len() - i,
    {
        let ch = cs[i];
        let ghost p = union_pieces(cs@, i as int);
        proof {
            lemma_union_pieces_len(cs@, i + 1);
        }
        if in_squote {
            if ch == '\'' {
                in_squote = false;
            }
            current.push(ch);
        } else if in_dquote {
            if ch == '"' {
                in_dquote = false;
            }
            current.push(ch);
        } else if ch == '\'' {
            in_squote = true;
            current.push(ch);
        } else if ch == '"' {
            in_dquote = true;
            current.push(ch);
        } else if ch == '[' {
            bracket_depth = bracket_depth + 1;
            current.push(ch);
        } else if ch == ']' {
            bracket_depth = bracket_depth - 1;
            current.push(ch);
        } else if ch == '(' {
            paren_depth = paren_depth + 1;
            current.push(ch);
        } else if ch == ')' {
            paren_depth = paren_depth - 1;
            current.push(ch);
        } else if ch == '|' && bracket_depth == 0 && paren_depth == 0 {
            let t = trimmed(&current, 0, current.len());
            proof {
                assert(current@.subrange(0, current@.len() as int) == current@);
                let np = union_pieces(cs@, i + 1);
                assert(np == p.push(Seq::empty()));
                assert(np.drop_last() == p);
                assert(p == p.drop_last().push(p.last()));
            }
            if !t.as_str().is_empty() {
                let ghost before = branches@;
                branches.push(t);
                proof {
                    assert(views(branches@) =~= views(before).push(t@));
                }
            }
            current = Vec::new();
        } else {
            current.push(ch);
        }
        proof {
            let np = union_pieces(cs@, i + 1);
            if !is_union_sep(cs@, i as int) {
                assert(np.drop_last() == p.drop_last());
            }
        }
        i = i + 1;
    }
    let t = trimmed(&current, 0, current.len());
    proof {
        assert(current@.subrange(0, current@.len() as int) == current@);
        let p = union_pieces(cs@, i as int);
        assert(p == p.drop_last().push(p.last()));
    }
    if !t.as_str().is_empty() {
        let ghost before = branches@;
        branches.push(t);
        proof {
            assert(views(branches@) =~= views(before).push(t@));
        }
    }
    branches
}

// ------------------------------------------------------------------
//  escape_xpath_value
// ------------------------------------------------------------------

/// `v` between two `q` characters.
pub open spec fn quoted(q: char, v: Seq<char>) -> Seq<char> {
    seq![q] + v + seq![q]
}

/// The pieces of `s[0..i]` between occurrences of `c` (the last one is
/// still open); `split_pieces(s, c, s.len())` is what `str::split(c)`
/// yields.
pub open spec fn split_pieces(s: Seq<char>, c: char, i: int) -> Seq<Seq<char>>
    decreases i,
{
    if i <= 0 {
        seq![Seq::empty()]
    } else {
        let p = split_pieces(s, c, i - 1);
        if s[i - 1] == c {
            p.push(Seq::empty())
        } else {
            p.update(p.len() - 1, p.last().push(s[i - 1]))
        }
    }
}

pub proof fn lemma_split_pieces_len(s: Seq<char>, c: char, i: int)
    ensures
        split_pieces(s, c, i).len() >= 1,
    decreases i,
{
    if i > 0 {
        lemma_split_pieces_len(s, c, i - 1);
    }
}

/// The pieces of `cs` between occurrences of `c`, like `str::split`.
pub fn split_on(cs: &Vec<char>, c: char) -> (res: Vec<String>)
    ensures
        views(res@) == split_pieces(cs@, c, cs@.len() as int),
{
    let mut pieces: Vec<String> = Vec::new();
    let mut start: usize = 0;
    let mut i: usize = 0;
    proof {
        lemma_split_pieces_len(cs@, c, 0);
        assert(cs@.subrange(0, 0) == Seq::<char>::empty());
    }
    while i < cs.len()
        invariant
            0 <= start <= i <= cs@.len(),
            ({
                let p = split_pieces(cs@, c, i as int);
                &&& p.len() >= 1
                &&& p.last() == cs@.subrange(start as int, i as int)
                &&& views(pieces@) == p.drop_last()
            }),
        decreases cs@.len() - i,
    {
        let ghost p = split_pieces(cs@, c, i as int);
        proof {
            lemma_split_pieces_len(cs@, c, i + 1);
        }
        if cs[i] == c {
            let piece = string_of(cs, start, i);
            let ghost before = pieces@;
            pieces.push(piece);
            proof {
                assert(views(pieces@) =~= views(before).push(piece@));
                assert(p == p.drop_last().push(p.last()));
                assert(cs@.subrange(i + 1, i + 1) == Seq::<char>::empty());
            }
            start = i + 1;
        } else {
            proof {
                let np = split_pieces(cs@, c, i + 1);
                assert(np.drop_last() =~= p.drop_last());
                assert(cs@.subrange(start as int, i + 1) == cs@.subrange(start as int, i as int).push(
                    cs@[i as int],
                ));
            }
        }
        i = i + 1;
    }
    let piece = string_of(cs, start, cs.len());
    let ghost before = pieces@;
    pieces.push(piece);
    proof {
        let p = split_pieces(cs@, c, cs@.len() as int);
        assert(views(pieces@) =~= views(before).push(piece@));
        assert(p == p.drop_last().push(p.last()));
    }
    pieces
}

/// The three characters `"'"`: a single quote as a double-quoted literal.
pub open spec fn quote_literal() -> Seq<char> {
    seq!['"', '\'', '"']
}

/// The arguments of the `concat(...)` form for the first `n` pieces of a
/// value split at its single quotes: between two pieces the literal
/// `"'"`, and each non-empty piece single-quoted.
pub open spec fn concat_parts(ps: Seq<Seq<char>>, n: int) -> Seq<Seq<char>>
    decreases n,
{
    if n <= 0 {
        Seq::empty()
    } else {
        let r = concat_parts(ps, n - 1);
        let r1 = if n - 1 > 0 {
            r.push(quote_literal())
        } else {
            r
        };
        if ps[n - 1].len() > 0 {
            r1.push(quoted('\'', ps[n - 1]))
        } else {
            r1
        }
    }
}

pub proof fn lemma_concat_parts_prefix(ps: Seq<Seq<char>>, qs: Seq<Seq<char>>, n: int)
    requires
        0 <= n <= ps.len(),
        n <= qs.len(),
        forall|k: int| 0 <= k < n ==> ps[k] == qs[k],
    ensures
        concat_parts(ps, n) == concat_parts(qs, n),
    decreases n,
{
    if n > 0 {
        lemma_concat_parts_prefix(ps, qs, n - 1);
    }
}

/// The XPath string literal for `v`: single quotes when `v` holds no
/// single quote, else double quotes when it holds no double quote, else
/// a `concat(...)` of its pieces.
pub open spec fn escaped(v: Seq<char>) -> Seq<char> {
    if !has_char(v, '\'') {
        quoted('\'', v)
    } else if !has_char(v, '"') {
        quoted('"', v)
    } else {
        let ps = split_pieces(v, '\'', v.len() as int);
        seq!['c', 'o', 'n', 'c', 'a', 't', '('] + join(concat_parts(ps, ps.len() as int), seq![','])
            + seq![')']
    }
}

/// `cs[lo..hi]` between two `q` characters.
fn quote(q: char, cs: &Vec<char>, lo: usize, hi: usize) -> (res: String)
    requires
        lo <= hi <= cs@.len(),
    ensures
        res@ == quoted(q, cs@.subrange(lo as int, hi as int)),
{
    let mut s = String::new();
    push_char(&mut s, q);
    push_chars(&mut s, cs, lo, hi);
    push_char(&mut s, q);
    s
}

/// Appends the `concat(...)` arguments of piece number `k`, which is
/// `cs[lo..hi]`.
fn finish_piece(parts: &mut Vec<String>, k: usize, cs: &Vec<char>, lo: usize, hi: usize)
    requires
        lo <= hi <= cs@.len(),
    ensures
        ({
            let r1 = if k > 0 {
                views(old(parts)@).push(quote_literal())
            } else {
                views(old(parts)@)
            };
            let piece = cs@.subrange(lo as int, hi as int);
            views(final(parts)@) == if piece.len() > 0 {
                r1.push(quoted('\'', piece))
            } else {
                r1
            }
        }),
{
    let ghost before = parts@;
    if k > 0 {
        let mut lit = String::new();
        push_char(&mut lit, '"');
        push_char(&mut lit, '\'');
        push_char(&mut lit, '"');
        assert(lit@ =~= quote_literal());
        parts.push(lit);
        assert(views(parts@) =~= views(before).push(quote_literal()));
    }
    let ghost mid = parts@;
    if lo < hi {
        let q = quote('\'', cs, lo, hi);
        parts.push(q);
        assert(views(parts@) =~= views(mid).push(q@));
    }
}

/// Escape a string value for use inside an XPath predicate.
///
/// - No single quotes: wrap in `'...'`.
/// - Single quotes but no double quotes: wrap in `"..."`.
/// - Both: use the `concat(...)` function.
pub fn escape_xpath_value(value: &str) -> (res: String)
    ensures
        res@ == escaped(value@),
{
    let cs = chars_of(value);
    let n = cs.len();
    let sq = find_char(&cs, 0, '\'');
    proof {
        lemma_find_from_bounds(cs@, 0, '\'');
    }
    if sq == n {
        assert(!has_char(value@, '\''));
        return quote('\'', &cs, 0, n);
    }
    let dq = find_char(&cs, 0, '"');
    proof {
        lemma_find_from_bounds(cs@, 0, '"');
    }
    if dq == n {
        assert(!has_char(value@, '"'));
        return quote('"', &cs, 0, n);
    }
    assert(has_char(value@, '\'') && has_char(value@, '"'));
    let mut parts: Vec<String> = Vec::new();
    let mut cur_start: usize = 0;
    let mut k: usize = 0;
    let mut i: usize = 0;
    proof {
        lemma_split_pieces_len(cs@, '\'', 0);
        assert(cs@.subrange(0, 0) == Seq::<char>::empty());
    }
    while i < n
        invariant
            0 <= cur_start <= i <= n,
            k <= i,
            n == cs@.len(),
            cs@ == value@,
            ({
                let p = split_pieces(cs@, '\'', i as int);
                &&& p.len() >= 1
                &&& k == p.len() - 1
                &&& p.last() == cs@.subrange(cur_start as int, i as int)
                &&& views(parts@) == concat_parts(p, p.len() - 1)
            }),
        decreases n - i,
    {
        let ghost p = split_pieces(cs@, '\'', i as int);
        proof {
            lemma_split_pieces_len(cs@, '\'', i + 1);
        }
        if cs[i] == '\'' {
            finish_piece(&mut parts, k, &cs, cur_start, i);
            proof {
                let np = split_pieces(cs@, '\'', i + 1);
                assert(np == p.push(Seq::empty()));
                lemma_concat_parts_prefix(p, np, p.len() as int);
                assert(cs@.subrange(i + 1, i + 1) == Seq::<char>::empty());
            }
            k = k + 1;
            cur_start = i + 1;
        } else {
            proof {
                let np = split_pieces(cs@, '\'', i + 1);
                assert(np == p.update(p.len() - 1, p.last().push(cs@[i as int])));
                lemma_concat_parts_prefix(p, np, p.len() - 1);
                assert(cs@.subrange(cur_start as int, i + 1) == cs@.subrange(
                    cur_start as int,
                    i as int,
                ).push(cs@[i as int]));
            }
        }
        i = i + 1;
    }
    finish_piece(&mut parts, k, &cs, cur_start, n);
    let mut res = String::new();
    push_char(&mut res, 'c');
    push_char(&mut res, 'o');
    push_char(&mut res, 'n');
    push_char(&mut res, 'c');
    push_char(&mut res, 'a');
    push_char(&mut res, 't');
    push_char(&mut res, '(');
    let mut comma = String::new();
    push_char(&mut comma, ',');
    let joined = join_strings(&parts, comma.as_str());
    push_str(&mut res, joined.as_str());
    push_char(&mut res, ')');
    assert(res@ =~= escaped(value@));
    res
}

// ------------------------------------------------------------------
//  parse_predicates
// ------------------------------------------------------------------

/// First index at or after `p` that does not hold white space
/// (`s.len()` if none).
pub open spec fn skip_ws_from(s: Seq<char>, p: int) -> int
    decreases s.len() - p,
{
    if p >= s.len() {
        s.len() as int
    } else if is_ws(s[p]) {
        skip_ws_from(s, p + 1)
    } else {
        p
    }
}

/// First index at or after `p` that ends a predicate key: `=`, `]` or
/// white space (`s.len()` if none).
pub open spec fn key_end_from(s: Seq<char>, p: int) -> int
    decreases s.len() - p,
{
    if p >= s.len() {
        s.len() as int
    } else if s[p] == '=' || s[p] == ']' || is_ws(s[p]) {
        p
    } else {
        key_end_from(s, p + 1)
    }
}

/// The position just past the next `]` at or after `p` (`s.len()` if
/// there is none).
pub open spec fn close_after(s: Seq<char>, p: int) -> int {
    let q = find_from(s, p, ']');
    if q < s.len() {
        q + 1
    } else {
        s.len() as int
    }
}

/// A predicate key with any `module:` prefix removed.
pub open spec fn local_key(k: Seq<char>) -> Seq<char> {
    let c = find_from(k, 0, ':');
    if c < k.len() {
        k.subrange(c + 1, k.len() as int)
    } else {
        k
    }
}

pub proof fn lemma_skip_ws_bounds(s: Seq<char>, p: int)
    requires
        0 <= p <= s.len(),
    ensures
        p <= skip_ws_from(s, p) <= s.len(),
        skip_ws_from(s, p) < s.len() ==> !is_ws(s[skip_ws_from(s, p)]),
        forall|k: int| p <= k < skip_ws_from(s, p) ==> is_ws(s[k]),
    decreases s.len() - p,
{
    if p < s.len() && is_ws(s[p]) {
        lemma_skip_ws_bounds(s, p + 1);
    }
}

pub proof fn lemma_key_end_bounds(s: Seq<char>, p: int)
    requires
        0 <= p <= s.len(),
    ensures
        p <= key_end_from(s, p) <= s.len(),
    decreases s.len() - p,
{
    if p < s.len() && !(s[p] == '=' || s[p] == ']' || is_ws(s[p])) {
        lemma_key_end_bounds(s, p + 1);
    }
}

pub proof fn lemma_close_after_bounds(s: Seq<char>, p: int)
    requires
        0 <= p <= s.len(),
    ensures
        p <= close_after(s, p) <= s.len(),
        p < s.len() ==> p < close_after(s, p),
{
    lemma_find_from_bounds(s, p, ']');
}

/// One predicate, read from just after its `[`: the key and value it
/// holds (if it is a `key=value` predicate), whether it is positional
/// (`[N]`), and the position after its `]`.
pub open spec fn pred_at(s: Seq<char>, p: int) -> (Option<(Seq<char>, Seq<char>)>, bool, int) {
    let n = s.len() as int;
    let a = skip_ws_from(s, p);
    if a < n && is_digit(s[a]) {
        (None, true, close_after(s, a))
    } else {
        let ke = key_end_from(s, a);
        let b = skip_ws_from(s, ke);
        if !(b < n && s[b] == '=') {
            (None, false, close_after(s, b))
        } else {
            let key = local_key(s.subrange(a, ke));
            let c = skip_ws_from(s, b + 1);
            if c < n && (s[c] == '\'' || s[c] == '"') {
                let ve = find_from(s, c + 1, s[c]);
                let after = if ve < n {
                    ve + 1
                } else {
                    n
                };
                (Some((key, s.subrange(c + 1, ve))), false, close_after(s, after))
            } else {
                let ve = find_from(s, c, ']');
                (Some((key, trim(s.subrange(c, ve)))), false, close_after(s, ve))
            }
        }
    }
}

pub proof fn lemma_pred_at_bounds(s: Seq<char>, p: int)
    requires
        0 <= p <= s.len(),
    ensures
        p <= pred_at(s, p).2 <= s.len(),
{
    let n = s.len() as int;
    lemma_skip_ws_bounds(s, p);
    let a = skip_ws_from(s, p);
    lemma_close_after_bounds(s, a);
    lemma_key_end_bounds(s, a);
    let ke = key_end_from(s, a);
    lemma_skip_ws_bounds(s, ke);
    let b = skip_ws_from(s, ke);
    lemma_close_after_bounds(s, b);
    if b < n && s[b] == '=' {
        lemma_skip_ws_bounds(s, b + 1);
        let c = skip_ws_from(s, b + 1);
        if c < n && (s[c] == '\'' || s[c] == '"') {
            lemma_find_from_bounds(s, c + 1, s[c]);
            let ve = find_from(s, c + 1, s[c]);
            let after = if ve < n {
                ve + 1
            } else {
                n
            };
            lemma_close_after_bounds(s, after);
        } else {
            lemma_find_from_bounds(s, c, ']');
            lemma_close_after_bounds(s, find_from(s, c, ']'));
        }
    }
}

/// The key/value pairs and the positional flag of the predicates in
/// `s[p..]`; characters outside `[...]` are skipped.
pub open spec fn preds_from(s: Seq<char>, p: int) -> (Seq<(Seq<char>, Seq<char>)>, bool)
    decreases s.len() - p,
{
    if p < 0 || p >= s.len() {
        (Seq::empty(), false)
    } else if s[p] != '[' {
        preds_from(s, p + 1)
    } else {
        let (kv, positional, next) = pred_at(s, p + 1);
        proof {
            lemma_pred_at_bounds(s, p + 1);
        }
        let (rest, rest_positional) = preds_from(s, next);
        let kvs = match kv {
            Some(x) => seq![x] + rest,
            None => rest,
        };
        (kvs, positional || rest_positional)
    }
}

/// A single key=value pair parsed from an XPath predicate.
#[derive(Debug)]
pub struct PredKv {
    /// Key leaf local name (module prefix stripped).
    pub key: String,
    /// The literal value from the predicate.
    pub value: String,
}

impl View for PredKv {
    type V = (Seq<char>, Seq<char>);

    open spec fn view(&self) -> (Seq<char>, Seq<char>) {
        (self.key@, self.value@)
    }
}

/// The views of a sequence of key/value pairs.
pub open spec fn kv_views(v: Seq<PredKv>) -> Seq<(Seq<char>, Seq<char>)> {
    v.map_values(|kv: PredKv| kv@)
}

/// Result of parsing predicates from one XPath step.
#[derive(Debug)]
pub struct ParsedPredicates {
    /// Key=value pairs in document order.
    pub kvs: Vec<PredKv>,
    /// Whether a positional predicate like `[1]` was found.
    /// Positional predicates do not pin key values.
    pub has_positional: bool,
}

fn skip_ws(cs: &Vec<char>, p: usize) -> (res: usize)
    requires
        p <= cs@.len(),
    ensures
        res == skip_ws_from(cs@, p as int),
{
    let mut i = p;
    while i < cs.len() && is_whitespace(cs[i])
        invariant
            p <= i <= cs@.len(),
            skip_ws_from(cs@, i as int) == skip_ws_from(cs@, p as int),
        decreases cs@.len() - i,
    {
        i = i + 1;
    }
    i
}

fn key_end(cs: &Vec<char>, p: usize) -> (res: usize)
    requires
        p <= cs@.len(),
    ensures
        res == key_end_from(cs@, p as int),
{
    let mut i = p;
    while i < cs.len() && !(cs[i] == '=' || cs[i] == ']' || is_whitespace(cs[i]))
        invariant
            p <= i <= cs@.len(),
            key_end_from(cs@, i as int) == key_end_from(cs@, p as int),
        decreases cs@.len() - i,
    {
        i = i + 1;
    }
    i
}

fn close_after_exec(cs: &Vec<char>, p: usize) -> (res: usize)
    requires
        p <= cs@.len(),
    ensures
        res == close_after(cs@, p as int),
{
    let q = find_char(cs, p, ']');
    if q < cs.len() {
        q + 1
    } else {
        cs.len()
    }
}

fn local_key_of(cs: &Vec<char>, a: usize, e: usize) -> (res: String)
    requires
        a <= e <= cs@.len(),
    ensures
        res@ == local_key(cs@.subrange(a as int, e as int)),
{
    let raw = string_of(cs, a, e);
    let kc = chars_of(raw.as_str());
    let c = find_char(&kc, 0, ':');
    if c < kc.len() {
        string_of(&kc, c + 1, kc.len())
    } else {
        assert(kc@.subrange(0, kc@.len() as int) == kc@);
        string_of(&kc, 0, kc.len())
    }
}

/// Reads one predicate from just after its `[`.
fn pred_at_exec(cs: &Vec<char>, p: usize) -> (res: (Option<PredKv>, bool, usize))
    requires
        p <= cs@.len(),
    ensures
        res.1 == pred_at(cs@, p as int).1,
        res.2 == pred_at(cs@, p as int).2,
        match res.0 {
            Some(kv) => pred_at(cs@, p as int).0 == Some(kv@),
            None => pred_at(cs@, p as int).0.is_none(),
        },
{
    let n = cs.len();
    proof {
        lemma_skip_ws_bounds(cs@, p as int);
    }
    let a = skip_ws(cs, p);
    if a < n && '0' <= cs[a] && cs[a] <= '9' {
        return (None, true, close_after_exec(cs, a));
    }
    proof {
        lemma_key_end_bounds(cs@, a as int);
    }
    let ke = key_end(cs, a);
    proof {
        lemma_skip_ws_bounds(cs@, ke as int);
    }
    let b = skip_ws(cs, ke);
    if !(b < n && cs[b] == '=') {
        return (None, false, close_after_exec(cs, b));
    }
    let key = local_key_of(cs, a, ke);
    proof {
        lemma_skip_ws_bounds(cs@, b + 1);
    }
    let c = skip_ws(cs, b + 1);
    if c < n && (cs[c] == '\'' || cs[c] == '"') {
        let q = cs[c];
        proof {
            lemma_find_from_bounds(cs@, c + 1, q);
        }
        let ve = find_char(cs, c + 1, q);
        let value = string_of(cs, c + 1, ve);
        let after = if ve < n {
            ve + 1
        } else {
            n
        };
        (Some(PredKv { key, value }), false, close_after_exec(cs, after))
    } else {
        proof {
            lemma_find_from_bounds(cs@, c as int, ']');
        }
        let ve = find_char(cs, c, ']');
        let value = trimmed(cs, c, ve);
        (Some(PredKv { key, value }), false, close_after_exec(cs, ve))
    }
}

/// Parse predicate expressions from a string like `[k1='v1'][mod:k2="v2"][3]`.
///
/// - `[key='value']` and `[key="value"]` give a key/value pair (prefix stripped).
/// - `[N]` (starting with a digit) is positional: flagged, not a key/value pair.
/// - `[.='value']` gives key `"."` (leaf-list self-value).
pub fn parse_predicates(preds: &str) -> (res: ParsedPredicates)
    ensures
        (kv_views(res.kvs@), res.has_positional) == preds_from(preds@, 0),
{
    let cs = chars_of(preds);
    let n = cs.len();
    let mut kvs: Vec<PredKv> = Vec::new();
    let mut has_positional = false;
    let mut pos: usize = 0;
    while pos < n
        invariant
            0 <= pos <= n,
            n == cs@.len(),
            cs@ == preds@,
            ({
                let (rest, rp) = preds_from(cs@, pos as int);
                (kv_views(kvs@) + rest, has_positional || rp) == preds_from(cs@, 0)
            }),
        decreases n - pos,
    {
        if cs[pos] != '[' {
            pos = pos + 1;
        } else {
            proof {
                lemma_pred_at_bounds(cs@, pos + 1);
            }
            let ghost before = kvs@;
            let (kv, positional, next) = pred_at_exec(&cs, pos + 1);
            match kv {
                Some(x) => {
                    kvs.push(x);
                    proof {
                        let (rest, rp) = preds_from(cs@, next as int);
                        assert(kv_views(kvs@) + rest =~= kv_views(before) + (seq![x@] + rest));
                    }
                },
                None => {},
            }
            if positional {
                has_positional = true;
            }
            pos = next;
        }
    }
    ParsedPredicates { kvs, has_positional }
}

// ------------------------------------------------------------------
//  parse_xpath_steps
// ------------------------------------------------------------------

/// End of the path step that starts at `p` with bracket depth `d`: the
/// first `/` at depth zero, or `s.len()`.
pub open spec fn seg_end(s: Seq<char>, p: int, d: int) -> int
    decreases s.len() - p,
{
    if p >= s.len() {
        s.len() as int
    } else if s[p] == '[' {
        seg_end(s, p + 1, d + 1)
    } else if s[p] == ']' {
        seg_end(s, p + 1, d - 1)
    } else if s[p] == '/' && d == 0 {
        p
    } else {
        seg_end(s, p + 1, d)
    }
}

pub proof fn lemma_seg_end_bounds(s: Seq<char>, p: int, d: int)
    requires
        0 <= p <= s.len(),
    ensures
        p <= seg_end(s, p, d) <= s.len(),
        seg_end(s, p, d) < s.len() ==> s[seg_end(s, p, d)] == '/',
    decreases s.len() - p,
{
    if p < s.len() {
        if s[p] == '[' {
            lemma_seg_end_bounds(s, p + 1, d + 1);
        } else if s[p] == ']' {
            lemma_seg_end_bounds(s, p + 1, d - 1);
        } else if !(s[p] == '/' && d == 0) {
            lemma_seg_end_bounds(s, p + 1, d);
        }
    }
}

/// The view of a path step: local name, key/value pairs, positional flag.
pub type StepView = (Seq<char>, Seq<(Seq<char>, Seq<char>)>, bool);

/// One path step, from its text: the name before the first `[` with any
/// module prefix removed, and the predicates from the first `[` on.
pub open spec fn step_of(seg: Seq<char>) -> StepView {
    let bp = find_from(seg, 0, '[');
    let preds = preds_from(seg.subrange(bp, seg.len() as int), 0);
    (local_key(seg.subrange(0, bp)), preds.0, preds.1)
}

/// The steps of `s[p..]`, split at `/` outside brackets.
pub open spec fn steps_from(s: Seq<char>, p: int) -> Seq<StepView>
    decreases s.len() - p,
{
    if p < 0 || p >= s.len() {
        Seq::empty()
    } else {
        let e = seg_end(s, p, 0);
        proof {
            lemma_seg_end_bounds(s, p, 0);
        }
        let next = if e < s.len() {
            e + 1
        } else {
            s.len() as int
        };
        seq![step_of(s.subrange(p, e))] + steps_from(s, next)
    }
}

/// The steps of an absolute (or relative) XPath; a leading `/` is skipped.
pub open spec fn xpath_steps(s: Seq<char>) -> Seq<StepView> {
    steps_from(
        s,
        if s.len() > 0 && s[0] == '/' {
            1
        } else {
            0
        },
    )
}

/// A parsed XPath path step: name plus optional predicates.
#[derive(Debug)]
pub struct XPathStep {
    /// Local name (module prefix stripped).
    pub local_name: String,
    /// Parsed predicate key-value pairs.
    pub kvs: Vec<PredKv>,
    /// Whether a positional predicate `[N]` was found.
    pub has_positional: bool,
}

impl View for XPathStep {
    type V = StepView;

    open spec fn view(&self) -> StepView {
        (self.local_name@, kv_views(self.kvs@), self.has_positional)
    }
}

/// The views of a sequence of steps.
pub open spec fn step_views(v: Seq<XPathStep>) -> Seq<StepView> {
    v.map_values(|st: XPathStep| st@)
}

fn seg_end_exec(cs: &Vec<char>, p: usize) -> (res: usize)
    requires
        p <= cs@.len(),
    ensures
        res == seg_end(cs@, p as int, 0),
{
    let mut i = p;
    let mut depth: i128 = 0;
    while i < cs.len()
        invariant
            p <= i <= cs@.len(),
            -(i - p) <= depth <= i - p,
            seg_end(cs@, i as int, depth as int) == seg_end(cs@, p as int, 0),
        decreases cs@.len() - i,
    {
        let c = cs[i];
        if c == '[' {
            depth = depth + 1;
        } else if c == ']' {
            depth = depth - 1;
        } else if c == '/' && depth == 0 {
            return i;
        }
        i = i + 1;
    }
    i
}

/// Parse one step from its text.
fn step_from_text(cs: &Vec<char>, p: usize, e: usize) -> (res: XPathStep)
    requires
        p <= e <= cs@.len(),
    ensures
        res@ == step_of(cs@.subrange(p as int, e as int)),
{
    let seg = string_of(cs, p, e);
    let sc = chars_of(seg.as_str());
    let bp = find_char(&sc, 0, '[');
    let local_name = local_key_of(&sc, 0, bp);
    let pred_part = string_of(&sc, bp, sc.len());
    let parsed = parse_predicates(pred_part.as_str());
    XPathStep { local_name, kvs: parsed.kvs, has_positional: parsed.has_positional }
}

/// Parse an absolute XPath into individual steps with their predicates.
///
/// Input `/mod:container/list[key='val']/leaf` gives three steps:
/// container, list (with one key/value pair), leaf.
pub fn parse_xpath_steps(branch: &str) -> (res: Vec<XPathStep>)
    ensures
        step_views(res@) == xpath_steps(branch@),
{
    let cs = chars_of(branch);
    let len = cs.len();
    let mut steps: Vec<XPathStep> = Vec::new();
    let mut pos: usize = 0;
    if pos < len && cs[pos] == '/' {
        pos = pos + 1;
    }
    while pos < len
        invariant
            0 <= pos <= len,
            len == cs@.len(),
            cs@ == branch@,
            step_views(steps@) + steps_from(cs@, pos as int) == xpath_steps(cs@),
        decreases len - pos,
    {
        proof {
            lemma_seg_end_bounds(cs@, pos as int, 0);
        }
        let e = seg_end_exec(&cs, pos);
        let step = step_from_text(&cs, pos, e);
        let ghost before = steps@;
        steps.push(step);
        let next = if e < len {
            e + 1
        } else {
            len
        };
        proof {
            assert(step_views(steps@) + steps_from(cs@, next as int) =~= step_views(before) + (
            seq![step@] + steps_from(cs@, next as int)));
        }
        pos = next;
    }
    assert(step_views(steps@) + steps_from(cs@, pos as int) =~= step_views(steps@));
    steps
}


// ------------------------------------------------------------------
//  Laws
// ------------------------------------------------------------------

/// The end of a key over a stretch of key characters.
proof fn lemma_key_end_at(s: Seq<char>, p: int, e: int)
    requires
        0 <= p <= e < s.len(),
        forall|k: int| p <= k < e ==> s[k] != '=' && s[k] != ']' && !is_ws(s[k]),
        s[e] == '=',
    ensures
        key_end_from(s, p) == e,
    decreases e - p,
{
    if p < e {
        lemma_key_end_at(s, p + 1, e);
    }
}

/// The first `c` at or after `from`, when `s[e]` is the first one.
pub proof fn lemma_find_at(s: Seq<char>, from: int, e: int, c: char)
    requires
        0 <= from <= e < s.len(),
        forall|k: int| from <= k < e ==> s[k] != c,
        s[e] == c,
    ensures
        find_from(s, from, c) == e,
    decreases e - from,
{
    if from < e {
        lemma_find_at(s, from + 1, e, c);
    }
}

/// A quoted predicate reads back as written: for a key that does not
/// start with a digit and holds no `=`, `]` or white space, a quote
/// character `q` and a value without `q`, the predicate
/// `[key=q value q]` parses to the one pair (key without its module
/// prefix, value), with no positional predicate.
pub proof fn law_quoted_predicate_reads_back(key: Seq<char>, value: Seq<char>, q: char)
    requires
        key.len() > 0,
        !is_digit(key[0]),
        forall|i: int|
            0 <= i < key.len() ==> #[trigger] key[i] != '=' && key[i] != ']' && !is_ws(key[i]),
        q == '\'' || q == '"',
        !has_char(value, q),
    ensures
        preds_from(seq!['['] + key + seq!['='] + quoted(q, value) + seq![']'], 0) == (
            seq![(local_key(key), value)],
            false,
        ),
{
    let s = seq!['['] + key + seq!['='] + quoted(q, value) + seq![']'];
    let kl = key.len() as int;
    let vl = value.len() as int;
    let n = s.len() as int;
    assert(n == kl + vl + 5);
    let ke = 1 + kl;
    let c = ke + 1;
    let ve = c + 1 + vl;
    assert(s[0] == '[');
    assert(s[1] == key[0]);
    assert(!is_ws(key[0]));
    assert(skip_ws_from(s, 1) == 1);
    assert forall|k: int| 1 <= k < ke implies s[k] != '=' && s[k] != ']' && !is_ws(s[k]) by {
        assert(s[k] == key[k - 1]);
    }
    assert(s[ke] == '=');
    lemma_key_end_at(s, 1, ke);
    assert(!is_ws('='));
    assert(skip_ws_from(s, ke) == ke);
    assert(s.subrange(1, ke) =~= key);
    assert(s[c] == q);
    assert(!is_ws(q));
    assert(skip_ws_from(s, c) == c);
    assert forall|k: int| c + 1 <= k < ve implies s[k] != q by {
        assert(s[k] == value[k - c - 1]);
    }
    assert(s[ve] == q);
    lemma_find_at(s, c + 1, ve, q);
    assert(s.subrange(c + 1, ve) =~= value);
    assert(s[ve + 1] == ']');
    lemma_find_at(s, ve + 1, ve + 1, ']');
    assert(ve + 2 == n);
    assert(pred_at(s, 1) == (Some((local_key(key), value)), false, n));
    assert(preds_from(s, n) == (Seq::<(Seq<char>, Seq<char>)>::empty(), false));
    assert(seq![(local_key(key), value)] + Seq::<(Seq<char>, Seq<char>)>::empty() =~= seq![
        (local_key(key), value),
    ]);
}

/// A predicate written with an escaped value reads back as written: for
/// a key as above and a value that does not hold both quote characters,
/// `[key=<escaped value>]` parses to the one pair (key without its
/// module prefix, value), with no positional predicate.
pub proof fn law_escaped_predicate_reads_back(key: Seq<char>, value: Seq<char>)
    requires
        key.len() > 0,
        !is_digit(key[0]),
        forall|i: int|
            0 <= i < key.len() ==> #[trigger] key[i] != '=' && key[i] != ']' && !is_ws(key[i]),
        !(has_char(value, '\'') && has_char(value, '"')),
    ensures
        preds_from(seq!['['] + key + seq!['='] + escaped(value) + seq![']'], 0) == (
            seq![(local_key(key), value)],
            false,
        ),
{
    let q = if !has_char(value, '\'') {
        '\''
    } else {
        '"'
    };
    assert(escaped(value) == quoted(q, value));
    law_quoted_predicate_reads_back(key, value, q);
}

pub proof fn lemma_find_none(s: Seq<char>, from: int, c: char)
    requires
        0 <= from <= s.len(),
        forall|k: int| from <= k < s.len() ==> s[k] != c,
    ensures
        find_from(s, from, c) == s.len(),
    decreases s.len() - from,
{
    if from < s.len() {
        lemma_find_none(s, from + 1, c);
    }
}

/// The predicate forms `[key='v']`, `[module:key='v']` and `[key="v"]`
/// all parse to the same pair (key, v): module prefixes on keys and the
/// choice of quotes do not matter.
pub proof fn law_predicate_forms_agree(module: Seq<char>, key: Seq<char>, value: Seq<char>)
    requires
        key.len() > 0,
        module.len() > 0,
        !is_digit(key[0]),
        !is_digit(module[0]),
        forall|i: int|
            0 <= i < key.len() ==> #[trigger] key[i] != '=' && key[i] != ']' && !is_ws(key[i])
                && key[i] != ':',
        forall|i: int|
            0 <= i < module.len() ==> #[trigger] module[i] != '=' && module[i] != ']' && !is_ws(
                module[i],
            ) && module[i] != ':',
        !has_char(value, '\''),
        !has_char(value, '"'),
    ensures
        preds_from(seq!['['] + key + seq!['='] + quoted('\'', value) + seq![']'], 0) == (
            seq![(key, value)],
            false,
        ),
        preds_from(
            seq!['['] + (module + seq![':'] + key) + seq!['='] + quoted('\'', value) + seq![']'],
            0,
        ) == (seq![(key, value)], false),
        preds_from(seq!['['] + key + seq!['='] + quoted('"', value) + seq![']'], 0) == (
            seq![(key, value)],
            false,
        ),
{
    law_quoted_predicate_reads_back(key, value, '\'');
    law_quoted_predicate_reads_back(key, value, '"');
    lemma_find_none(key, 0, ':');
    assert(local_key(key) == key);
    let mk = module + seq![':'] + key;
    assert forall|i: int| 0 <= i < mk.len() implies #[trigger] mk[i] != '=' && mk[i] != ']'
        && !is_ws(mk[i]) by {
        if i < module.len() {
            assert(mk[i] == module[i]);
        } else if i > module.len() {
            assert(mk[i] == key[i - module.len() - 1]);
        }
    }
    assert(mk[0] == module[0]);
    law_quoted_predicate_reads_back(mk, value, '\'');
    assert forall|k: int| 0 <= k < module.len() implies mk[k] != ':' by {
        assert(mk[k] == module[k]);
    }
    assert(mk[module.len() as int] == ':');
    lemma_find_at(mk, 0, module.len() as int, ':');
    assert(mk.subrange(module.len() + 1int, mk.len() as int) =~= key);
}

// ------------------------------------------------------------------
//  Stripping predicates, piece by piece
// ------------------------------------------------------------------

/// Whether `s` holds no bracket.
pub open spec fn no_brackets(s: Seq<char>) -> bool {
    !has_char(s, '[') && !has_char(s, ']')
}

pub proof fn lemma_stripped_prefix(a: Seq<char>, b: Seq<char>, i: int)
    requires
        0 <= i <= a.len(),
    ensures
        depth_before(a + b, i) == depth_before(a, i),
        stripped_upto(a + b, i) == stripped_upto(a, i),
    decreases i,
{
    if i > 0 {
        lemma_stripped_prefix(a, b, i - 1);
        assert((a + b)[i - 1] == a[i - 1]);
    }
}

pub proof fn lemma_stripped_suffix(a: Seq<char>, b: Seq<char>, j: int)
    requires
        0 <= j <= b.len(),
        depth_before(a, a.len() as int) == 0,
    ensures
        depth_before(a + b, a.len() + j) == depth_before(b, j),
        stripped_upto(a + b, a.len() + j) == stripped(a) + stripped_upto(b, j),
    decreases j,
{
    if j == 0 {
        lemma_stripped_prefix(a, b, a.len() as int);
        assert(stripped(a) + stripped_upto(b, 0) =~= stripped(a));
    } else {
        lemma_stripped_suffix(a, b, j - 1);
        assert((a + b)[a.len() + j - 1] == b[j - 1]);
        if outside_predicates(b, j - 1) {
            assert(stripped(a) + stripped_upto(b, j) =~= (stripped(a) + stripped_upto(b, j - 1)).push(
                b[j - 1],
            ));
        }
    }
}

/// Stripping a concatenation whose first part closes all its brackets
/// strips each part.
pub proof fn lemma_stripped_concat(a: Seq<char>, b: Seq<char>)
    requires
        depth_before(a, a.len() as int) == 0,
    ensures
        stripped(a + b) == stripped(a) + stripped(b),
        depth_before(a + b, (a + b).len() as int) == depth_before(b, b.len() as int),
{
    lemma_stripped_suffix(a, b, b.len() as int);
}

pub proof fn lemma_plain_upto(p: Seq<char>, i: int)
    requires
        no_brackets(p),
        0 <= i <= p.len(),
    ensures
        stripped_upto(p, i) == p.subrange(0, i),
        depth_before(p, i) == 0,
    decreases i,
{
    if i > 0 {
        lemma_plain_upto(p, i - 1);
        assert(p[i - 1] != '[' && p[i - 1] != ']');
        assert(p.subrange(0, i) =~= p.subrange(0, i - 1).push(p[i - 1]));
    } else {
        assert(p.subrange(0, 0) =~= Seq::<char>::empty());
    }
}

/// A bracket-free string strips to itself.
pub proof fn lemma_stripped_plain(p: Seq<char>)
    requires
        no_brackets(p),
    ensures
        stripped(p) == p,
        depth_before(p, p.len() as int) == 0,
{
    lemma_plain_upto(p, p.len() as int);
    assert(p.subrange(0, p.len() as int) =~= p);
}

proof fn lemma_pred_upto(x: Seq<char>, i: int)
    requires
        no_brackets(x),
        1 <= i <= x.len() + 1,
    ensures
        depth_before(seq!['['] + x + seq![']'], i) == 1,
        stripped_upto(seq!['['] + x + seq![']'], i) == Seq::<char>::empty(),
    decreases i,
{
    let s = seq!['['] + x + seq![']'];
    if i == 1 {
        assert(s[0] == '[');
        assert(depth_before(s, 0) == 0);
        assert(stripped_upto(s, 0) == Seq::<char>::empty());
        assert(!outside_predicates(s, 0));
    } else {
        lemma_pred_upto(x, i - 1);
        assert(s[i - 1] == x[i - 2]);
        assert(x[i - 2] != '[' && x[i - 2] != ']');
        assert(depth_before(s, i - 1) == 1);
        assert(!outside_predicates(s, i - 1));
    }
}

/// A predicate `[x]` with a bracket-free `x` strips to nothing.
pub proof fn lemma_stripped_pred(x: Seq<char>)
    requires
        no_brackets(x),
    ensures
        stripped(seq!['['] + x + seq![']']) == Seq::<char>::empty(),
        depth_before(seq!['['] + x + seq![']'], x.len() + 2int) == 0,
{
    let s = seq!['['] + x + seq![']'];
    lemma_pred_upto(x, x.len() + 1int);
    assert(s[x.len() + 1int] == ']');
    assert(s.len() == x.len() + 2);
}

proof fn lemma_split_pieces_without(s: Seq<char>, c: char, i: int, x: char)
    requires
        0 <= i <= s.len(),
        !has_char(s, x),
    ensures
        forall|k: int|
            0 <= k < split_pieces(s, c, i).len() ==> !has_char(#[trigger] split_pieces(s, c, i)[k], x),
    decreases i,
{
    if i > 0 {
        lemma_split_pieces_without(s, c, i - 1, x);
        lemma_split_pieces_len(s, c, i - 1);
        let p = split_pieces(s, c, i - 1);
        assert(s[i - 1] != x);
        if s[i - 1] != c {
            let l = p.last().push(s[i - 1]);
            assert(!has_char(p[p.len() - 1], x));
            assert forall|m: int| 0 <= m < l.len() implies l[m] != x by {
                if m < l.len() - 1 {
                    assert(l[m] == p[p.len() - 1][m]);
                }
            }
            assert forall|k: int| 0 <= k < split_pieces(s, c, i).len() implies !has_char(
                #[trigger] split_pieces(s, c, i)[k],
                x,
            ) by {
                if k < p.len() - 1 {
                    assert(split_pieces(s, c, i)[k] == p[k]);
                } else {
                    assert(split_pieces(s, c, i)[k] == l);
                }
            }
        } else {
            assert forall|k: int| 0 <= k < split_pieces(s, c, i).len() implies !has_char(
                #[trigger] split_pieces(s, c, i)[k],
                x,
            ) by {
                if k < p.len() {
                    assert(split_pieces(s, c, i)[k] == p[k]);
                } else {
                    assert(split_pieces(s, c, i)[k] == Seq::<char>::empty());
                }
            }
        }
    } else {
        assert forall|k: int| 0 <= k < split_pieces(s, c, i).len() implies !has_char(
            #[trigger] split_pieces(s, c, i)[k],
            x,
        ) by {
            assert(split_pieces(s, c, i)[k] == Seq::<char>::empty());
        }
    }
}

proof fn lemma_concat_parts_without(ps: Seq<Seq<char>>, n: int, x: char)
    requires
        0 <= n <= ps.len(),
        x != '"',
        x != '\'',
        forall|k: int| 0 <= k < ps.len() ==> !has_char(#[trigger] ps[k], x),
    ensures
        forall|k: int|
            0 <= k < concat_parts(ps, n).len() ==> !has_char(#[trigger] concat_parts(ps, n)[k], x),
    decreases n,
{
    if n > 0 {
        lemma_concat_parts_without(ps, n - 1, x);
        let r = concat_parts(ps, n - 1);
        let r1 = if n - 1 > 0 {
            r.push(quote_literal())
        } else {
            r
        };
        assert(!has_char(quote_literal(), x)) by {
            assert forall|m: int| 0 <= m < quote_literal().len() implies quote_literal()[m] != x by {}
        }
        assert forall|k: int| 0 <= k < r1.len() implies !has_char(#[trigger] r1[k], x) by {
            if k < r.len() {
                assert(r1[k] == r[k]);
            }
        }
        let qp = quoted('\'', ps[n - 1]);
        assert(!has_char(ps[n - 1], x));
        assert(!has_char(qp, x)) by {
            assert forall|m: int| 0 <= m < qp.len() implies qp[m] != x by {
                if 0 < m < qp.len() - 1 {
                    assert(qp[m] == ps[n - 1][m - 1]);
                }
            }
        }
        if ps[n - 1].len() > 0 {
            assert forall|k: int| 0 <= k < r1.push(qp).len() implies !has_char(
                #[trigger] r1.push(qp)[k],
                x,
            ) by {
                if k < r1.len() {
                    assert(r1.push(qp)[k] == r1[k]);
                }
            }
        }
    }
}

proof fn lemma_escaped_without(v: Seq<char>, x: char)
    requires
        !has_char(v, x),
        x != '"',
        x != '\'',
        x != ',',
        x != ')',
        x != '(',
        x != 'c',
        x != 'o',
        x != 'n',
        x != 'a',
        x != 't',
    ensures
        !has_char(escaped(v), x),
{
    if !has_char(v, '\'') || !has_char(v, '"') {
        let q = if !has_char(v, '\'') {
            '\''
        } else {
            '"'
        };
        let e = quoted(q, v);
        assert(escaped(v) == e);
        assert forall|m: int| 0 <= m < e.len() implies e[m] != x by {
            if 0 < m < e.len() - 1 {
                assert(e[m] == v[m - 1]);
            }
        }
    } else {
        let ps = split_pieces(v, '\'', v.len() as int);
        lemma_split_pieces_without(v, '\'', v.len() as int, x);
        lemma_concat_parts_without(ps, ps.len() as int, x);
        let parts = concat_parts(ps, ps.len() as int);
        assert(!has_char(seq![','], x)) by {
            assert forall|m: int| 0 <= m < seq![','].len() implies seq![','][m] != x by {}
        }
        crate::text::lemma_join_without(parts, seq![','], x);
        let j = join(parts, seq![',']);
        let h = seq!['c', 'o', 'n', 'c', 'a', 't', '('];
        let e = h + j + seq![')'];
        assert(escaped(v) == e);
        assert forall|m: int| 0 <= m < e.len() implies e[m] != x by {
            if m < h.len() {
                assert(e[m] == h[m]);
            } else if m < h.len() + j.len() {
                assert(e[m] == j[m - h.len()]);
            } else {
                assert(e[m] == ')');
            }
        }
    }
}

/// The XPath literal of a bracket-free value is bracket-free.
pub proof fn lemma_escaped_no_brackets(v: Seq<char>)
    requires
        no_brackets(v),
    ensures
        no_brackets(escaped(v)),
{
    lemma_escaped_without(v, '[');
    lemma_escaped_without(v, ']');
}


// ------------------------------------------------------------------
//  Splitting a joined union
// ------------------------------------------------------------------

/// The scanner's initial state: outside brackets, parentheses and
/// quoted literals.
pub open spec fn scan_top() -> UnionState {
    (0, 0, false, false)
}

/// Whether `b` can stand as one branch of a union: non-empty, without
/// surrounding white space, with no top-level `|`, and leaving the
/// scanner at top level (brackets, parentheses and quotes closed).
pub open spec fn union_branch_ok(b: Seq<char>) -> bool {
    &&& b.len() > 0
    &&& trim(b) == b
    &&& union_state(b, b.len() as int) == scan_top()
    &&& forall|i: int| 0 <= i < b.len() ==> !is_union_sep(b, i)
}

proof fn lemma_union_state_prefix(a: Seq<char>, b: Seq<char>, i: int)
    requires
        0 <= i <= a.len(),
    ensures
        union_state(a + b, i) == union_state(a, i),
        union_pieces(a + b, i) == union_pieces(a, i),
    decreases i,
{
    if i > 0 {
        lemma_union_state_prefix(a, b, i - 1);
        assert((a + b)[i - 1] == a[i - 1]);
    }
}

proof fn lemma_union_state_suffix(a: Seq<char>, b: Seq<char>, j: int)
    requires
        0 <= j <= b.len(),
        union_state(a, a.len() as int) == scan_top(),
    ensures
        union_state(a + b, a.len() + j) == union_state(b, j),
        j < b.len() ==> is_union_sep(a + b, a.len() + j) == is_union_sep(b, j),
    decreases j,
{
    if j == 0 {
        lemma_union_state_prefix(a, b, a.len() as int);
    } else {
        lemma_union_state_suffix(a, b, j - 1);
        assert((a + b)[a.len() + j - 1] == b[j - 1]);
    }
    if j < b.len() {
        assert((a + b)[a.len() + j] == b[j]);
    }
}

/// The union pieces of a concatenation whose first part leaves the
/// scanner at top level: the last piece of the first part runs on into
/// the first piece of the second.
proof fn lemma_union_pieces_concat(a: Seq<char>, b: Seq<char>, j: int)
    requires
        0 <= j <= b.len(),
        union_state(a, a.len() as int) == scan_top(),
    ensures
        union_pieces(a + b, a.len() + j) == union_pieces(a, a.len() as int).drop_last() + seq![
            union_pieces(a, a.len() as int).last() + union_pieces(b, j)[0],
        ] + union_pieces(b, j).drop_first(),
    decreases j,
{
    let p = union_pieces(a, a.len() as int);
    lemma_union_pieces_len(a, a.len() as int);
    if j == 0 {
        lemma_union_state_prefix(a, b, a.len() as int);
        assert(union_pieces(b, 0) == seq![Seq::<char>::empty()]);
        assert(p.last() + Seq::<char>::empty() =~= p.last());
        assert(p.drop_last() + seq![p.last()] + seq![Seq::<char>::empty()].drop_first() =~= p);
    } else {
        lemma_union_pieces_concat(a, b, j - 1);
        lemma_union_state_suffix(a, b, j - 1);
        lemma_union_pieces_len(b, j - 1);
        let q = union_pieces(b, j - 1);
        let r = p.drop_last() + seq![p.last() + q[0]] + q.drop_first();
        assert((a + b)[a.len() + j - 1] == b[j - 1]);
        if is_union_sep(b, j - 1) {
            let q2 = q.push(Seq::empty());
            assert(q2[0] == q[0]);
            assert(r.push(Seq::empty()) =~= p.drop_last() + seq![p.last() + q2[0]]
                + q2.drop_first());
        } else {
            let c = b[j - 1];
            let q2 = q.update(q.len() - 1, q.last().push(c));
            if q.len() == 1 {
                assert(q2[0] == q[0].push(c));
                assert((p.last() + q[0]).push(c) =~= p.last() + q[0].push(c));
                assert(r.update(r.len() - 1, r.last().push(c)) =~= p.drop_last() + seq![
                    p.last() + q2[0],
                ] + q2.drop_first());
            } else {
                assert(q2[0] == q[0]);
                assert(r.update(r.len() - 1, r.last().push(c)) =~= p.drop_last() + seq![
                    p.last() + q2[0],
                ] + q2.drop_first());
            }
        }
    }
}

proof fn lemma_union_pieces_plain(b: Seq<char>, i: int)
    requires
        0 <= i <= b.len(),
        forall|k: int| 0 <= k < b.len() ==> !is_union_sep(b, k),
    ensures
        union_pieces(b, i) == seq![b.subrange(0, i)],
    decreases i,
{
    if i > 0 {
        lemma_union_pieces_plain(b, i - 1);
        assert(b.subrange(0, i) =~= b.subrange(0, i - 1).push(b[i - 1]));
    } else {
        assert(b.subrange(0, 0) =~= Seq::<char>::empty());
    }
}

proof fn lemma_trim_start_push(x: Seq<char>, c: char)
    ensures
        (exists|k: int| 0 <= k < x.len() && !is_ws(x[k])) ==> trim_start(x.push(c)) == trim_start(
            x,
        ).push(c),
        (forall|k: int| 0 <= k < x.len() ==> is_ws(x[k])) ==> trim_start(x.push(c)) == trim_start(
            seq![c],
        ) && trim_start(x) == Seq::<char>::empty(),
    decreases x.len(),
{
    if x.len() > 0 {
        lemma_trim_start_push(x.drop_first(), c);
        assert(x.push(c).drop_first() =~= x.drop_first().push(c));
        if !is_ws(x[0]) {
            assert(trim_start(x.push(c)) == x.push(c));
        } else {
            if exists|k: int| 0 <= k < x.len() && !is_ws(x[k]) {
                let k = choose|k: int| 0 <= k < x.len() && !is_ws(x[k]);
                assert(x.drop_first()[k - 1] == x[k]);
            }
            if forall|k: int| 0 <= k < x.len() ==> is_ws(x[k]) {
                assert forall|k: int| 0 <= k < x.drop_first().len() implies is_ws(
                    x.drop_first()[k],
                ) by {
                    assert(x.drop_first()[k] == x[k + 1]);
                }
            }
        }
    } else {
        assert(x.push(c) =~= seq![c]);
    }
}

/// Trailing white space does not change the trimmed string.
proof fn lemma_trim_push_ws(x: Seq<char>, c: char)
    requires
        is_ws(c),
    ensures
        trim(x.push(c)) == trim(x),
{
    lemma_trim_start_push(x, c);
    if exists|k: int| 0 <= k < x.len() && !is_ws(x[k]) {
        assert(trim_start(x.push(c)).drop_last() =~= trim_start(x));
    } else {
        assert(seq![c].drop_first() =~= Seq::<char>::empty());
        assert(trim_start(seq![c]) == trim_start(Seq::<char>::empty()));
    }
}

/// Leading white space does not change the trimmed string.
proof fn lemma_trim_ws_prefix(c: char, b: Seq<char>)
    requires
        is_ws(c),
    ensures
        trim(seq![c] + b) == trim(b),
{
    let s = seq![c] + b;
    crate::text::lemma_trim_start_skip(s, 1);
    assert(s.subrange(1, s.len() as int) =~= b);
}

/// The union pieces of the first `n` branches joined by ` | `.
proof fn lemma_join_pieces(bs: Seq<Seq<char>>, n: int)
    requires
        1 <= n <= bs.len(),
        forall|i: int| 0 <= i < bs.len() ==> union_branch_ok(#[trigger] bs[i]),
    ensures
        union_state(join(bs.take(n), seq![' ', '|', ' ']), join(bs.take(n), seq![' ', '|', ' ']).len() as int)
            == scan_top(),
        union_pieces(join(bs.take(n), seq![' ', '|', ' ']), join(bs.take(n), seq![' ', '|', ' ']).len() as int).len()
            == n,
        keep_trimmed(
            union_pieces(join(bs.take(n), seq![' ', '|', ' ']), join(bs.take(n), seq![' ', '|', ' ']).len() as int),
        ) == bs.take(n),
        trim(
            union_pieces(join(bs.take(n), seq![' ', '|', ' ']), join(bs.take(n), seq![' ', '|', ' ']).len() as int).last(),
        ) == bs[n - 1],
    decreases n,
{
    let sep = seq![' ', '|', ' '];
    let b = bs[n - 1];
    assert(union_branch_ok(b));
    if n == 1 {
        assert(bs.take(1) =~= seq![b]);
        assert(join(bs.take(1), sep) == b);
        lemma_union_pieces_plain(b, b.len() as int);
        assert(b.subrange(0, b.len() as int) =~= b);
        let p = union_pieces(b, b.len() as int);
        assert(p == seq![b]);
        assert(p.drop_last() =~= Seq::<Seq<char>>::empty());
        assert(keep_trimmed(p.drop_last()) == Seq::<Seq<char>>::empty());
        assert(keep_trimmed(p) =~= seq![b]);
    } else {
        lemma_join_pieces(bs, n - 1);
        let a = join(bs.take(n - 1), sep);
        let pa = union_pieces(a, a.len() as int);
        assert(bs.take(n).drop_last() =~= bs.take(n - 1));
        assert(bs.take(n).last() == b);
        let c = sep + b;
        assert(join(bs.take(n), sep) =~= a + c);
        // The pieces and state of ` | ` followed by the branch.
        assert(union_state(sep, 0) == scan_top());
        assert(union_pieces(sep, 0) == seq![Seq::<char>::empty()]);
        assert(sep[0] == ' ' && sep[1] == '|' && sep[2] == ' ');
        assert(union_state(sep, 1) == scan_top());
        assert(union_state(sep, 2) == scan_top());
        assert(union_state(sep, 3) == scan_top());
        assert(is_union_sep(sep, 1));
        assert(!is_union_sep(sep, 0));
        assert(!is_union_sep(sep, 2));
        assert(union_pieces(sep, 1) =~= seq![seq![' ']]);
        assert(union_pieces(sep, 2) =~= seq![seq![' '], Seq::<char>::empty()]);
        assert(union_pieces(sep, 3) =~= seq![seq![' '], seq![' ']]);
        lemma_union_pieces_plain(b, b.len() as int);
        assert(b.subrange(0, b.len() as int) =~= b);
        lemma_union_pieces_concat(sep, b, b.len() as int);
        lemma_union_state_suffix(sep, b, b.len() as int);
        let pc = union_pieces(c, c.len() as int);
        assert(seq![' '] + b =~= seq![' '] + union_pieces(b, b.len() as int)[0]);
        assert(pc =~= seq![seq![' '], seq![' '] + b]);
        assert(union_state(c, c.len() as int) == scan_top());
        lemma_union_pieces_concat(a, c, c.len() as int);
        lemma_union_state_suffix(a, c, c.len() as int);
        let p = union_pieces(a + c, (a + c).len() as int);
        assert(p =~= pa.drop_last() + seq![pa.last() + seq![' ']] + seq![seq![' '] + b]);
        // Trimming.
        lemma_trim_ws_prefix(' ', b);
        assert(trim(p.last()) == b);
        assert(pa.last() + seq![' '] =~= pa.last().push(' '));
        lemma_trim_push_ws(pa.last(), ' ');
        let pd = p.drop_last();
        assert(pd =~= pa.drop_last().push(pa.last().push(' ')));
        assert(pd.drop_last() =~= pa.drop_last());
        assert(keep_trimmed(pd) == keep_trimmed(pa));
        assert(keep_trimmed(p) =~= bs.take(n - 1).push(b));
        assert(bs.take(n - 1).push(b) =~= bs.take(n));
    }
}

/// Splitting branches joined by ` | ` gives the branches back: the
/// union that Phase 1 emits is read by Phase 2 branch for branch.
pub proof fn law_split_union_of_join(bs: Seq<Seq<char>>)
    requires
        forall|i: int| 0 <= i < bs.len() ==> union_branch_ok(#[trigger] bs[i]),
    ensures
        union_branches(join(bs, seq![' ', '|', ' '])) == bs,
{
    if bs.len() == 0 {
        assert(join(bs, seq![' ', '|', ' ']) == Seq::<char>::empty());
        assert(union_pieces(Seq::<char>::empty(), 0) == seq![Seq::<char>::empty()]);
        assert(seq![Seq::<char>::empty()].drop_last() =~= Seq::<Seq<char>>::empty());
        assert(trim(Seq::<char>::empty()) == Seq::<char>::empty());
        assert(seq![Seq::<char>::empty()].last() == Seq::<char>::empty());
        assert(keep_trimmed(Seq::<Seq<char>>::empty()) == Seq::<Seq<char>>::empty());
        assert(keep_trimmed(seq![Seq::<char>::empty()]) =~= bs);
    } else {
        lemma_join_pieces(bs, bs.len() as int);
        assert(bs.take(bs.len() as int) =~= bs);
    }
}


// ------------------------------------------------------------------
//  Scanning pieces of a union
// ------------------------------------------------------------------

/// The scanner state after `s[0..i]`, starting from `st`.
pub open spec fn scan_from(st: UnionState, s: Seq<char>, i: int) -> UnionState
    decreases i,
{
    if i <= 0 {
        st
    } else {
        union_step(scan_from(st, s, i - 1), s[i - 1])
    }
}

/// Whether the scanner keeps the bracket depth of `st` all along `s`.
pub open spec fn keeps_depth(st: UnionState, s: Seq<char>) -> bool {
    forall|k: int| 0 <= k <= s.len() ==> (#[trigger] scan_from(st, s, k)).0 == st.0
}

/// Whether `c` is one of the characters the scanner reacts to.
pub open spec fn scan_special(c: char) -> bool {
    c == '[' || c == ']' || c == '(' || c == ')' || c == '\'' || c == '"' || c == '|'
}

/// Whether `s` holds none of the characters the scanner reacts to.
pub open spec fn scan_inert(s: Seq<char>) -> bool {
    forall|i: int| 0 <= i < s.len() ==> !scan_special(#[trigger] s[i])
}

pub proof fn lemma_union_state_is_scan(s: Seq<char>, i: int)
    ensures
        union_state(s, i) == scan_from(scan_top(), s, i),
    decreases i,
{
    if i > 0 {
        lemma_union_state_is_scan(s, i - 1);
    }
}

/// Scanning a concatenation scans its parts in turn.
pub proof fn lemma_scan_concat(st: UnionState, a: Seq<char>, b: Seq<char>, j: int)
    requires
        0 <= j <= b.len(),
    ensures
        scan_from(st, a + b, a.len() + j) == scan_from(scan_from(st, a, a.len() as int), b, j),
    decreases j,
{
    if j == 0 {
        lemma_scan_prefix(st, a, b, a.len() as int);
    } else {
        lemma_scan_concat(st, a, b, j - 1);
        assert((a + b)[a.len() + j - 1] == b[j - 1]);
    }
}

pub proof fn lemma_scan_prefix(st: UnionState, a: Seq<char>, b: Seq<char>, i: int)
    requires
        0 <= i <= a.len(),
    ensures
        scan_from(st, a + b, i) == scan_from(st, a, i),
    decreases i,
{
    if i > 0 {
        lemma_scan_prefix(st, a, b, i - 1);
        assert((a + b)[i - 1] == a[i - 1]);
    }
}

/// The depth is kept along a concatenation when it is kept along each
/// part and the first part ends at the same depth.
pub proof fn lemma_keeps_depth_concat(st: UnionState, a: Seq<char>, b: Seq<char>)
    requires
        keeps_depth(st, a),
        keeps_depth(scan_from(st, a, a.len() as int), b),
    ensures
        keeps_depth(st, a + b),
        scan_from(st, a + b, (a + b).len() as int) == scan_from(
            scan_from(st, a, a.len() as int),
            b,
            b.len() as int,
        ),
{
    let m = scan_from(st, a, a.len() as int);
    assert(m.0 == st.0);
    assert forall|k: int| 0 <= k <= (a + b).len() implies (#[trigger] scan_from(st, a + b, k)).0
        == st.0 by {
        if k <= a.len() {
            lemma_scan_prefix(st, a, b, k);
            assert(scan_from(st, a, k).0 == st.0);
        } else {
            lemma_scan_concat(st, a, b, k - a.len());
            assert(scan_from(m, b, k - a.len()).0 == m.0);
        }
    }
    lemma_scan_concat(st, a, b, b.len() as int);
}

/// A string without scanner characters leaves every state as it is.
pub proof fn lemma_scan_inert(st: UnionState, s: Seq<char>, k: int)
    requires
        scan_inert(s),
        0 <= k <= s.len(),
    ensures
        scan_from(st, s, k) == st,
    decreases k,
{
    if k > 0 {
        lemma_scan_inert(st, s, k - 1);
        assert(!scan_special(s[k - 1]));
    }
}

pub proof fn lemma_keeps_depth_inert(st: UnionState, s: Seq<char>)
    requires
        scan_inert(s),
    ensures
        keeps_depth(st, s),
        scan_from(st, s, s.len() as int) == st,
{
    assert forall|k: int| 0 <= k <= s.len() implies (#[trigger] scan_from(st, s, k)).0 == st.0 by {
        lemma_scan_inert(st, s, k);
    }
    lemma_scan_inert(st, s, s.len() as int);
}

proof fn lemma_scan_in_quote(st: UnionState, s: Seq<char>, q: char, k: int)
    requires
        q == '\'' || q == '"',
        (q == '\'' ==> st.2 && !st.3) && (q == '"' ==> !st.2 && st.3),
        !has_char(s, q),
        0 <= k <= s.len(),
    ensures
        scan_from(st, s, k) == st,
    decreases k,
{
    if k > 0 {
        lemma_scan_in_quote(st, s, q, k - 1);
        assert(s[k - 1] != q);
    }
}

/// A quoted literal, from a state outside literals, keeps the depth and
/// comes back to the state it started from.
pub proof fn lemma_keeps_depth_quoted(st: UnionState, q: char, v: Seq<char>)
    requires
        q == '\'' || q == '"',
        !st.2,
        !st.3,
        !has_char(v, q),
    ensures
        keeps_depth(st, quoted(q, v)),
        scan_from(st, quoted(q, v), quoted(q, v).len() as int) == st,
{
    let s = quoted(q, v);
    let inq: UnionState = (st.0, st.1, q == '\'', q == '"');
    assert(s[0] == q);
    assert(scan_from(st, s, 0) == st);
    assert(scan_from(st, s, 1) == inq);
    assert forall|k: int| 1 <= k <= v.len() + 1 implies scan_from(st, s, k) == inq by {
        let a = seq![q];
        let b = v + seq![q];
        assert(s =~= a + b);
        lemma_scan_concat(st, a, b, k - 1);
        assert(scan_from(st, a, 1) == inq) by {
            assert(a[0] == q);
            assert(scan_from(st, a, 0) == st);
        }
        assert(!has_char(b.subrange(0, v.len() as int), q)) by {
            assert(b.subrange(0, v.len() as int) =~= v);
        }
        lemma_scan_prefix(inq, v, seq![q], k - 1);
        lemma_scan_in_quote(inq, v, q, k - 1);
    }
    assert forall|k: int| 0 <= k <= s.len() implies (#[trigger] scan_from(st, s, k)).0 == st.0 by {
        if k == s.len() {
            assert(scan_from(st, s, k - 1) == inq);
            assert(s[k - 1] == q);
        }
    }
    assert(scan_from(st, s, s.len() - 1) == inq);
    assert(s[s.len() - 1] == q);
}

proof fn lemma_keeps_depth_join(st: UnionState, parts: Seq<Seq<char>>, sep: Seq<char>)
    requires
        scan_inert(sep),
        forall|i: int|
            0 <= i < parts.len() ==> keeps_depth(st, #[trigger] parts[i]) && scan_from(
                st,
                parts[i],
                parts[i].len() as int,
            ) == st,
    ensures
        keeps_depth(st, join(parts, sep)),
        scan_from(st, join(parts, sep), join(parts, sep).len() as int) == st,
    decreases parts.len(),
{
    if parts.len() == 0 {
        lemma_keeps_depth_inert(st, Seq::<char>::empty());
    } else if parts.len() == 1 {
        assert(keeps_depth(st, parts[0]));
    } else {
        lemma_keeps_depth_join(st, parts.drop_last(), sep);
        let a = join(parts.drop_last(), sep);
        lemma_keeps_depth_inert(st, sep);
        lemma_keeps_depth_concat(st, a, sep);
        assert(keeps_depth(st, parts[parts.len() - 1]));
        lemma_keeps_depth_concat(st, a + sep, parts.last());
    }
}

proof fn lemma_split_pieces_no_sep(s: Seq<char>, c: char, i: int)
    requires
        0 <= i <= s.len(),
    ensures
        forall|k: int|
            0 <= k < split_pieces(s, c, i).len() ==> !has_char(#[trigger] split_pieces(s, c, i)[k], c),
    decreases i,
{
    if i > 0 {
        lemma_split_pieces_no_sep(s, c, i - 1);
        lemma_split_pieces_len(s, c, i - 1);
        let p = split_pieces(s, c, i - 1);
        let np = split_pieces(s, c, i);
        if s[i - 1] != c {
            let l = p.last().push(s[i - 1]);
            assert(!has_char(p[p.len() - 1], c));
            assert(!has_char(l, c)) by {
                assert forall|m: int| 0 <= m < l.len() implies l[m] != c by {
                    if m < l.len() - 1 {
                        assert(l[m] == p[p.len() - 1][m]);
                    }
                }
            }
            assert forall|k: int| 0 <= k < np.len() implies !has_char(#[trigger] np[k], c) by {
                if k < p.len() - 1 {
                    assert(np[k] == p[k]);
                } else {
                    assert(np[k] == l);
                }
            }
        } else {
            assert forall|k: int| 0 <= k < np.len() implies !has_char(#[trigger] np[k], c) by {
                if k < p.len() {
                    assert(np[k] == p[k]);
                } else {
                    assert(np[k] == Seq::<char>::empty());
                }
            }
        }
    } else {
        assert forall|k: int| 0 <= k < split_pieces(s, c, i).len() implies !has_char(
            #[trigger] split_pieces(s, c, i)[k],
            c,
        ) by {
            assert(split_pieces(s, c, i)[k] == Seq::<char>::empty());
        }
    }
}

proof fn lemma_concat_parts_quoted(ps: Seq<Seq<char>>, n: int, st: UnionState)
    requires
        0 <= n <= ps.len(),
        !st.2,
        !st.3,
        forall|k: int| 0 <= k < ps.len() ==> !has_char(#[trigger] ps[k], '\''),
    ensures
        forall|k: int|
            0 <= k < concat_parts(ps, n).len() ==> keeps_depth(st, #[trigger] concat_parts(ps, n)[k])
                && scan_from(st, concat_parts(ps, n)[k], concat_parts(ps, n)[k].len() as int) == st,
    decreases n,
{
    if n > 0 {
        lemma_concat_parts_quoted(ps, n - 1, st);
        let r = concat_parts(ps, n - 1);
        let r1 = if n - 1 > 0 {
            r.push(quote_literal())
        } else {
            r
        };
        assert(quote_literal() == quoted('"', seq!['\'']));
        assert(!has_char(seq!['\''], '"'));
        lemma_keeps_depth_quoted(st, '"', seq!['\'']);
        let qp = quoted('\'', ps[n - 1]);
        assert(!has_char(ps[n - 1], '\''));
        lemma_keeps_depth_quoted(st, '\'', ps[n - 1]);
        let r2 = if ps[n - 1].len() > 0 {
            r1.push(qp)
        } else {
            r1
        };
        assert(concat_parts(ps, n) == r2);
        assert forall|k: int| 0 <= k < r2.len() implies keeps_depth(st, #[trigger] r2[k])
            && scan_from(st, r2[k], r2[k].len() as int) == st by {
            if k < r.len() {
                assert(r2[k] == r[k]);
            } else if k < r1.len() {
                assert(r2[k] == quote_literal());
            } else {
                assert(r2[k] == qp);
            }
        }
    }
}

/// An XPath literal, from a state outside literals, keeps the bracket
/// depth and comes back to the state it started from.
pub proof fn lemma_keeps_depth_escaped(st: UnionState, v: Seq<char>)
    requires
        !st.2,
        !st.3,
    ensures
        keeps_depth(st, escaped(v)),
        scan_from(st, escaped(v), escaped(v).len() as int) == st,
{
    if !has_char(v, '\'') {
        lemma_keeps_depth_quoted(st, '\'', v);
    } else if !has_char(v, '"') {
        lemma_keeps_depth_quoted(st, '"', v);
    } else {
        let ps = split_pieces(v, '\'', v.len() as int);
        lemma_split_pieces_no_sep(v, '\'', v.len() as int);
        let st2: UnionState = (st.0, st.1 + 1, false, false);
        lemma_concat_parts_quoted(ps, ps.len() as int, st2);
        let parts = concat_parts(ps, ps.len() as int);
        assert(scan_inert(seq![',']));
        lemma_keeps_depth_join(st2, parts, seq![',']);
        let j = join(parts, seq![',']);
        let h = seq!['c', 'o', 'n', 'c', 'a', 't'];
        assert(scan_inert(h));
        lemma_keeps_depth_inert(st, h);
        let open = seq!['('];
        assert(scan_from(st, open, 0) == st);
        assert(scan_from(st, open, 1) == st2);
        assert(keeps_depth(st, open)) by {
            assert(scan_from(st, open, 0) == st);
        }
        lemma_keeps_depth_concat(st, h, open);
        lemma_keeps_depth_concat(st, h + open, j);
        let close = seq![')'];
        assert(scan_from(st2, close, 0) == st2);
        assert(scan_from(st2, close, 1) == st);
        assert(keeps_depth(st2, close)) by {
            assert(scan_from(st2, close, 0) == st2);
        }
        lemma_keeps_depth_concat(st, h + open + j, close);
        assert(escaped(v) =~= h + open + j + close);
    }
}

} // verus!
