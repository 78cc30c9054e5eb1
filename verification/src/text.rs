//! Character-level helpers shared by the path, key and topic code.
//!
//! Everything here works on the `Seq<char>` view of strings.
use vstd::prelude::*;

verus! {

/// Unicode `White_Space`, the set that `char::is_whitespace` and
/// `str::trim` use.
pub open spec fn is_ws(c: char) -> bool {
    ||| ('\u{9}' <= c && c <= '\u{d}')
    ||| c == ' '
    ||| c == '\u{85}'
    ||| c == '\u{a0}'
    ||| c == '\u{1680}'
    ||| ('\u{2000}' <= c && c <= '\u{200a}')
    ||| c == '\u{2028}'
    ||| c == '\u{2029}'
    ||| c == '\u{202f}'
    ||| c == '\u{205f}'
    ||| c == '\u{3000}'
}

/// Executable form of [`is_ws`].
pub fn is_whitespace(c: char) -> (res: bool)
    ensures
        res == is_ws(c),
{
    ('\u{9}' <= c && c <= '\u{d}') || c == ' ' || c == '\u{85}' || c == '\u{a0}' || c == '\u{1680}'
        || ('\u{2000}' <= c && c <= '\u{200a}') || c == '\u{2028}' || c == '\u{2029}' || c
        == '\u{202f}' || c == '\u{205f}' || c == '\u{3000}'
}

pub open spec fn is_digit(c: char) -> bool {
    '0' <= c && c <= '9'
}

/// Drop leading white space.
pub open spec fn trim_start(s: Seq<char>) -> Seq<char>
    decreases s.len(),
{
    if s.len() > 0 && is_ws(s[0]) {
        trim_start(s.drop_first())
    } else {
        s
    }
}

/// Drop trailing white space.
pub open spec fn trim_end(s: Seq<char>) -> Seq<char>
    decreases s.len(),
{
    if s.len() > 0 && is_ws(s.last()) {
        trim_end(s.drop_last())
    } else {
        s
    }
}

/// What `str::trim` gives back.
pub open spec fn trim(s: Seq<char>) -> Seq<char> {
    trim_end(trim_start(s))
}

/// Whether `c` occurs in `s`.
pub open spec fn has_char(s: Seq<char>, c: char) -> bool {
    exists|i: int| 0 <= i < s.len() && s[i] == c
}

/// Index of the first `c` in `s` at or after `from`, or `s.len()` if none.
pub open spec fn find_from(s: Seq<char>, from: int, c: char) -> int
    decreases s.len() - from,
{
    if from >= s.len() {
        s.len() as int
    } else if s[from] == c {
        from
    } else {
        find_from(s, from + 1, c)
    }
}

pub proof fn lemma_find_from_bounds(s: Seq<char>, from: int, c: char)
    requires
        0 <= from,
    ensures
        from <= find_from(s, from, c) <= s.len() || (from > s.len() && find_from(s, from, c)
            == s.len()),
        find_from(s, from, c) < s.len() ==> s[find_from(s, from, c)] == c,
        forall|k: int| from <= k < find_from(s, from, c) ==> s[k] != c,
    decreases s.len() - from,
{
    if from < s.len() && s[from] != c {
        lemma_find_from_bounds(s, from + 1, c);
    }
}

/// Index of the first `c` in `s` at or after `from`, or `s.len()` if none.
pub fn find_char(s: &Vec<char>, from: usize, c: char) -> (res: usize)
    requires
        from <= s@.len(),
    ensures
        res == find_from(s@, from as int, c),
        from <= res <= s@.len(),
{
    proof {
        lemma_find_from_bounds(s@, from as int, c);
    }
    let mut i = from;
    while i < s.len()
        invariant
            from <= i <= s@.len(),
            find_from(s@, i as int, c) == find_from(s@, from as int, c),
        decreases s@.len() - i,
    {
        if s[i] == c {
            return i;
        }
        i = i + 1;
    }
    i
}

/// The characters of `s`, in order.
pub fn chars_of(s: &str) -> (res: Vec<char>)
    ensures
        res@ == s@,
{
    let mut res: Vec<char> = Vec::new();
    for c in it: s.chars()
        invariant
            res@ == it.seq().take(it.index() as int),
    {
        res.push(c);
    }
    res
}

/// `String::push`: appends one character.
#[verifier::external_body]
pub fn push_char(s: &mut String, c: char)
    ensures
        final(s)@ == old(s)@.push(c),
{
    s.push(c);
}

/// Appends all of `t` to `s`.
pub fn push_str(s: &mut String, t: &str)
    ensures
        final(s)@ == old(s)@ + t@,
{
    let cs = chars_of(t);
    push_chars(s, &cs, 0, cs.len());
}

/// Appends `cs[lo..hi]` to `s`.
pub fn push_chars(s: &mut String, cs: &Vec<char>, lo: usize, hi: usize)
    requires
        lo <= hi <= cs@.len(),
    ensures
        final(s)@ == old(s)@ + cs@.subrange(lo as int, hi as int),
{
    let ghost start = s@;
    let mut i = lo;
    while i < hi
        invariant
            lo <= i <= hi <= cs@.len(),
            s@ == start + cs@.subrange(lo as int, i as int),
        decreases hi - i,
    {
        push_char(s, cs[i]);
        assert(cs@.subrange(lo as int, i + 1) == cs@.subrange(lo as int, i as int).push(cs@[i as int]));
        i = i + 1;
    }
}

/// A new string holding `cs[lo..hi]`.
pub fn string_of(cs: &Vec<char>, lo: usize, hi: usize) -> (res: String)
    requires
        lo <= hi <= cs@.len(),
    ensures
        res@ == cs@.subrange(lo as int, hi as int),
{
    let mut s = String::new();
    push_chars(&mut s, cs, lo, hi);
    s
}

/// A copy of `s` as an owned string.
pub fn copy_str(s: &str) -> (res: String)
    ensures
        res@ == s@,
{
    let mut r = String::new();
    push_str(&mut r, s);
    r
}

pub proof fn lemma_trim_start_skip(s: Seq<char>, i: int)
    requires
        0 <= i <= s.len(),
        forall|k: int| 0 <= k < i ==> is_ws(s[k]),
    ensures
        trim_start(s) == trim_start(s.subrange(i, s.len() as int)),
    decreases i,
{
    if i > 0 {
        assert(s.drop_first().subrange(i - 1, s.drop_first().len() as int) == s.subrange(
            i,
            s.len() as int,
        ));
        lemma_trim_start_skip(s.drop_first(), i - 1);
    } else {
        assert(s.subrange(0, s.len() as int) == s);
    }
}

pub proof fn lemma_trim_end_skip(s: Seq<char>, j: int)
    requires
        0 <= j <= s.len(),
        forall|k: int| j <= k < s.len() ==> is_ws(s[k]),
    ensures
        trim_end(s) == trim_end(s.subrange(0, j)),
    decreases s.len() - j,
{
    if j < s.len() {
        assert(s.drop_last().subrange(0, j) == s.subrange(0, j));
        lemma_trim_end_skip(s.drop_last(), j);
    } else {
        assert(s.subrange(0, j) == s);
    }
}

/// `cs[lo..hi]` without leading and trailing white space.
pub fn trimmed(cs: &Vec<char>, lo: usize, hi: usize) -> (res: String)
    requires
        lo <= hi <= cs@.len(),
    ensures
        res@ == trim(cs@.subrange(lo as int, hi as int)),
{
    let ghost sub = cs@.subrange(lo as int, hi as int);
    let mut a = lo;
    while a < hi && is_whitespace(cs[a])
        invariant
            lo <= a <= hi <= cs@.len(),
            forall|k: int| lo <= k < a ==> is_ws(cs@[k]),
        decreases hi - a,
    {
        a = a + 1;
    }
    proof {
        lemma_trim_start_skip(sub, a - lo);
        assert(sub.subrange(a - lo, sub.len() as int) == cs@.subrange(a as int, hi as int));
    }
    let mut b = hi;
    while b > a && is_whitespace(cs[b - 1])
        invariant
            lo <= a <= b <= hi <= cs@.len(),
            forall|k: int| b <= k < hi ==> is_ws(cs@[k]),
        decreases b - a,
    {
        b = b - 1;
    }
    proof {
        let mid = cs@.subrange(a as int, hi as int);
        if a < hi && !is_ws(cs@[a as int]) {
            assert(trim_start(mid) == mid);
        } else {
            assert(a == hi);
            assert(trim_start(mid) == mid);
        }
        lemma_trim_end_skip(mid, b - a);
        assert(mid.subrange(0, b - a) == cs@.subrange(a as int, b as int));
    }
    string_of(cs, a, b)
}

} // verus!

verus! {

/// The views of a sequence of strings.
pub open spec fn views(v: Seq<String>) -> Seq<Seq<char>> {
    v.map_values(|s: String| s@)
}

/// `parts[0] + sep + parts[1] + sep + ... + parts[n-1]`.
pub open spec fn join(parts: Seq<Seq<char>>, sep: Seq<char>) -> Seq<char>
    decreases parts.len(),
{
    if parts.len() == 0 {
        Seq::empty()
    } else if parts.len() == 1 {
        parts[0]
    } else {
        join(parts.drop_last(), sep) + sep + parts.last()
    }
}

/// A joined sequence of strings without `c`, joined by a separator
/// without `c`, has no `c`.
pub proof fn lemma_join_without(parts: Seq<Seq<char>>, sep: Seq<char>, c: char)
    requires
        !has_char(sep, c),
        forall|i: int| 0 <= i < parts.len() ==> !has_char(#[trigger] parts[i], c),
    ensures
        !has_char(join(parts, sep), c),
    decreases parts.len(),
{
    if parts.len() > 1 {
        lemma_join_without(parts.drop_last(), sep, c);
        let a = join(parts.drop_last(), sep);
        let l = parts.last();
        assert(!has_char(l, c));
        assert forall|k: int| 0 <= k < (a + sep + l).len() implies (a + sep + l)[k] != c by {
            if k < a.len() {
                assert((a + sep + l)[k] == a[k]);
            } else if k < a.len() + sep.len() {
                assert((a + sep + l)[k] == sep[k - a.len()]);
            } else {
                assert((a + sep + l)[k] == l[k - a.len() - sep.len()]);
            }
        }
    } else if parts.len() == 1 {
        assert(!has_char(parts[0], c));
    }
}

/// Joins `parts` with `sep` between neighbours, like `[String]::join`.
pub fn join_strings(parts: &Vec<String>, sep: &str) -> (res: String)
    ensures
        res@ == join(views(parts@), sep@),
{
    let mut res = String::new();
    let mut i: usize = 0;
    while i < parts.len()
        invariant
            0 <= i <= parts@.len(),
            res@ == join(views(parts@).take(i as int), sep@),
        decreases parts@.len() - i,
    {
        let ghost prev = views(parts@).take(i as int);
        if i > 0 {
            push_str(&mut res, sep);
        }
        push_str(&mut res, parts[i].as_str());
        proof {
            let next = views(parts@).take(i + 1);
            assert(next.drop_last() == prev);
            assert(next.last() == parts@[i as int]@);
            if i == 0 {
                assert(res@ == parts@[0]@);
            }
        }
        i = i + 1;
    }
    assert(views(parts@).take(parts@.len() as int) == views(parts@));
    res
}

} // verus!

verus! {

/// The decimal digit for `d < 10`.
pub open spec fn digit_char(d: nat) -> char {
    if d == 0 { '0' }
    else if d == 1 { '1' }
    else if d == 2 { '2' }
    else if d == 3 { '3' }
    else if d == 4 { '4' }
    else if d == 5 { '5' }
    else if d == 6 { '6' }
    else if d == 7 { '7' }
    else if d == 8 { '8' }
    else { '9' }
}

/// The decimal representation of `n`, as `usize`'s `Display` writes it.
pub open spec fn decimal(n: nat) -> Seq<char>
    decreases n,
{
    if n < 10 {
        seq![digit_char(n)]
    } else {
        decimal(n / 10).push(digit_char(n % 10))
    }
}

fn digit_of(d: usize) -> (c: char)
    requires
        d < 10,
    ensures
        c == digit_char(d as nat),
{
    if d == 0 { '0' }
    else if d == 1 { '1' }
    else if d == 2 { '2' }
    else if d == 3 { '3' }
    else if d == 4 { '4' }
    else if d == 5 { '5' }
    else if d == 6 { '6' }
    else if d == 7 { '7' }
    else if d == 8 { '8' }
    else { '9' }
}

/// Appends the decimal representation of `n` to `s`.
pub fn push_decimal(s: &mut String, n: usize)
    ensures
        final(s)@ == old(s)@ + decimal(n as nat),
    decreases n,
{
    if n >= 10 {
        push_decimal(s, n / 10);
    }
    push_char(s, digit_of(n % 10));
    proof {
        if n >= 10 {
            assert(old(s)@ + decimal(n as nat) =~= (old(s)@ + decimal((n / 10) as nat)).push(
                digit_char((n % 10) as nat),
            ));
        } else {
            assert(old(s)@ + decimal(n as nat) =~= old(s)@.push(digit_char(n as nat)));
        }
    }
}

} // verus!
