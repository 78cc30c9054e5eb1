//! Topic name derivation from YANG Push subscriptions.
//!
//! Converts a Phase 2 key template into a deterministic, human-readable
//! topic name by replacing YANG module names with their short `prefix`
//! statements and flattening the path into a `-`-separated string.
//!
//! A [`TopicConfig`] can carry an optional prefix (team name, org name,
//! project code, etc.) that is prepended to every topic name, separated
//! by `-`, and counted in the maximum length.
//!
//! If the resulting name exceeds the configured maximum length (default
//! 255), it is truncated at a `-` boundary and an FNV-1a hash suffix is
//! appended for uniqueness.
//!
//! The module prefixes come from a table of [`ModulePrefix`] entries,
//! one per YANG module of the schema context.
use vstd::prelude::*;
use vstd::utf8::{encode_utf8, is_ascii_chars};

use crate::text::{
    chars_of, copy_str, decimal, find_char, find_from, join, join_strings, push_char, push_chars,
    push_decimal, push_str, string_of, views,
};
use crate::types::{last_index, rfind_char, lemma_last_index_bounds, DerivationResult};
use crate::xpath::{split_on, split_pieces, strip_predicates, stripped};

verus! {

/// Default maximum topic name length.
pub const DEFAULT_MAX_TOPIC_LEN: usize = 255;

/// Length of the hex hash suffix used when truncating.
pub const HASH_SUFFIX_LEN: usize = 8;

/// Configuration for topic name derivation.
#[derive(Debug, Clone)]
pub struct TopicConfig {
    /// Optional prefix prepended to every topic name (e.g. `"netops"`,
    /// `"platform-team"`, `"acme-corp"`).
    ///
    /// When set, the topic name becomes `<prefix>-<schema-derived-name>`.
    /// Must contain only topic-safe characters: `[a-zA-Z0-9._-]`.
    pub prefix: Option<String>,
    /// Maximum allowed topic name length, prefix and separator included.
    pub max_length: usize,
}

/// The view of an optional string.
pub open spec fn opt_view(o: Option<String>) -> Option<Seq<char>> {
    match o {
        Some(s) => Some(s@),
        None => None,
    }
}

/// The length available for the schema-derived part of a topic name:
/// the maximum length less the prefix and its `-` separator (never
/// below zero).  Lengths are counted in UTF-8 bytes.
pub open spec fn budget_of(prefix: Option<Seq<char>>, max_length: usize) -> int {
    match prefix {
        Some(p) => if max_length >= encode_utf8(p).len() + 1 {
            max_length - encode_utf8(p).len() - 1
        } else {
            0
        },
        None => max_length as int,
    }
}

impl Default for TopicConfig {
    fn default() -> (res: Self)
        ensures
            res.prefix.is_none(),
            res.max_length == DEFAULT_MAX_TOPIC_LEN,
    {
        TopicConfig { prefix: None, max_length: DEFAULT_MAX_TOPIC_LEN }
    }
}

impl TopicConfig {
    /// Create a config with no prefix and the default max length.
    pub fn new() -> (res: Self)
        ensures
            res.prefix.is_none(),
            res.max_length == DEFAULT_MAX_TOPIC_LEN,
    {
        TopicConfig { prefix: None, max_length: DEFAULT_MAX_TOPIC_LEN }
    }

    /// Set the organization/team prefix; an empty prefix means none.
    pub fn with_prefix(self, prefix: &str) -> (res: Self)
        ensures
            res.max_length == self.max_length,
            opt_view(res.prefix) == if prefix@.len() == 0 {
                None
            } else {
                Some(prefix@)
            },
    {
        let p = if prefix.is_empty() {
            None
        } else {
            Some(copy_str(prefix))
        };
        TopicConfig { prefix: p, max_length: self.max_length }
    }

    /// Set the maximum topic name length.
    pub fn with_max_length(self, max_length: usize) -> (res: Self)
        ensures
            res.max_length == max_length,
            opt_view(res.prefix) == opt_view(self.prefix),
    {
        TopicConfig { prefix: self.prefix, max_length }
    }

    /// The budget available for the schema-derived portion of the topic
    /// name, after accounting for the prefix and its `-` separator.
    pub fn schema_budget(&self) -> (res: usize)
        ensures
            res == budget_of(opt_view(self.prefix), self.max_length),
    {
        match &self.prefix {
            Some(p) => {
                let pl = p.as_str().as_bytes().len();
                if self.max_length >= pl && self.max_length - pl >= 1 {
                    self.max_length - pl - 1
                } else {
                    0
                }
            },
            None => self.max_length,
        }
    }
}

/// Result of topic name derivation for one subscription.
#[derive(Debug, Clone, PartialEq, Eq)]
pub struct TopicNameResult {
    /// One topic name per union branch, in branch order.
    pub topic_names: Vec<String>,
}

/// The YANG `prefix` statement of one module.
#[derive(Debug, Clone, PartialEq, Eq)]
pub struct ModulePrefix {
    /// Module name (e.g. `"ietf-interfaces"`).
    pub module: String,
    /// The module's prefix (e.g. `"if"`).
    pub prefix: String,
}

/// The views of a prefix table: (module, prefix) pairs.
pub open spec fn table_view(t: Seq<ModulePrefix>) -> Seq<(Seq<char>, Seq<char>)> {
    t.map_values(|e: ModulePrefix| (e.module@, e.prefix@))
}

/// The prefix of `module` in the table: the first entry for it.
pub open spec fn prefix_of(tab: Seq<(Seq<char>, Seq<char>)>, module: Seq<char>) -> Option<
    Seq<char>,
>
    decreases tab.len(),
{
    if tab.len() == 0 {
        None
    } else if tab[0].0 == module {
        Some(tab[0].1)
    } else {
        prefix_of(tab.drop_first(), module)
    }
}

/// Whether every prefix in the table is ASCII.
pub open spec fn ascii_table(tab: Seq<(Seq<char>, Seq<char>)>) -> bool {
    forall|i: int| 0 <= i < tab.len() ==> is_ascii_chars(#[trigger] tab[i].1)
}

// ------------------------------------------------------------------
//  FNV-1a
// ------------------------------------------------------------------

pub open spec fn fnv_offset() -> u64 {
    0xcbf29ce484222325
}

pub open spec fn fnv_prime() -> u64 {
    0x100000001b3
}

/// FNV-1a (64-bit) of `bytes[0..i]`.
pub open spec fn fnv1a_upto(bytes: Seq<u8>, i: int) -> u64
    decreases i,
{
    if i <= 0 {
        fnv_offset()
    } else {
        let h = fnv1a_upto(bytes, i - 1) ^ (bytes[i - 1] as u64);
        ((h as nat * fnv_prime() as nat) % 0x1_0000_0000_0000_0000nat) as u64
    }
}

/// FNV-1a (64-bit) of the UTF-8 bytes of `s`.
pub open spec fn fnv1a(s: Seq<char>) -> u64 {
    fnv1a_upto(encode_utf8(s), encode_utf8(s).len() as int)
}

/// FNV-1a (64-bit) hash for topic name disambiguation.
///
/// Not for security: it only needs to distinguish paths that truncate
/// to the same prefix.
pub fn simple_hash(input: &str) -> (res: u64)
    ensures
        res == fnv1a(input@),
{
    let bytes = input.as_bytes();
    let mut hash: u64 = 0xcbf29ce484222325;
    let mut i: usize = 0;
    while i < bytes.len()
        invariant
            0 <= i <= bytes@.len(),
            bytes@ == encode_utf8(input@),
            hash == fnv1a_upto(bytes@, i as int),
        decreases bytes@.len() - i,
    {
        hash = hash ^ (bytes[i] as u64);
        hash = hash.wrapping_mul(0x100000001b3);
        i = i + 1;
    }
    hash
}

/// The lower-case hexadecimal digit for `d < 16`.
pub open spec fn hex_char(d: nat) -> char {
    if d < 10 {
        (('0' as nat) + d) as char
    } else {
        (('a' as nat) + d - 10) as char
    }
}

/// The last `n` hexadecimal digits of `x`, zero-padded: what
/// `format!("{:0nx}", x)` writes when `x < 16^n`.
pub open spec fn hex_digits(x: nat, n: nat) -> Seq<char>
    decreases n,
{
    if n == 0 {
        Seq::empty()
    } else {
        hex_digits(x / 16, (n - 1) as nat).push(hex_char(x % 16))
    }
}

fn hex_char_of(d: u64) -> (c: char)
    requires
        d < 16,
    ensures
        c == hex_char(d as nat),
{
    if d == 0 { '0' }
    else if d == 1 { '1' }
    else if d == 2 { '2' }
    else if d == 3 { '3' }
    else if d == 4 { '4' }
    else if d == 5 { '5' }
    else if d == 6 { '6' }
    else if d == 7 { '7' }
    else if d == 8 { '8' }
    else if d == 9 { '9' }
    else if d == 10 { 'a' }
    else if d == 11 { 'b' }
    else if d == 12 { 'c' }
    else if d == 13 { 'd' }
    else if d == 14 { 'e' }
    else { 'f' }
}

pub proof fn lemma_hex_digits_len(x: nat, n: nat)
    ensures
        hex_digits(x, n).len() == n,
    decreases n,
{
    if n > 0 {
        lemma_hex_digits_len(x / 16, (n - 1) as nat);
    }
}

/// The 16 hexadecimal digits of `h`, as `format!("{:016x}", h)` writes them.
fn hex16(h: u64) -> (res: Vec<char>)
    ensures
        res@ == hex_digits(h as nat, 16),
{
    let mut d: Vec<char> = Vec::new();
    let mut k: usize = 0;
    while k < 16
        invariant
            k <= 16,
            d@.len() == k,
        decreases 16 - k,
    {
        d.push('0');
        k = k + 1;
    }
    let mut v: u64 = h;
    let mut k: usize = 0;
    assert(d@.subrange(16, 16) == Seq::<char>::empty());
    while k < 16
        invariant
            k <= 16,
            d@.len() == 16,
            hex_digits(h as nat, 16) == hex_digits(v as nat, (16 - k) as nat) + d@.subrange(
                16 - k,
                16,
            ),
        decreases 16 - k,
    {
        let c = hex_char_of(v % 16);
        let ghost old_d = d@;
        d.set(15 - k, c);
        proof {
            assert(d@.subrange(15 - k, 16) =~= seq![c] + old_d.subrange(16 - k, 16));
            assert(hex_digits(v as nat, (16 - k) as nat) == hex_digits(
                (v / 16) as nat,
                (15 - k) as nat,
            ).push(c));
        }
        v = v / 16;
        k = k + 1;
    }
    assert(d@.subrange(0, 16) == d@);
    d
}

/// The hash suffix for a schema path: the first eight of the sixteen
/// hexadecimal digits of its FNV-1a hash.
pub open spec fn hash_suffix(schema_path: Seq<char>) -> Seq<char> {
    hex_digits(fnv1a(schema_path) as nat, 16).subrange(0, 8)
}

/// A topic name cut down to `budget`: cut at the last `-` that keeps at
/// most `budget - 9` characters before it (the first `budget - 9`
/// characters when there is none), then `-` and the hash suffix.
pub open spec fn truncated_topic(raw: Seq<char>, schema_path: Seq<char>, budget: int) -> Seq<
    char,
> {
    let max_prefix = if budget >= 9 {
        budget - 9
    } else {
        0
    };
    let keep = if max_prefix < raw.len() {
        max_prefix
    } else {
        raw.len() as int
    };
    let window = raw.subrange(
        0,
        if max_prefix < raw.len() {
            max_prefix + 1
        } else {
            raw.len() as int
        },
    );
    let dash = last_index(window, '-');
    let cut = if dash >= 0 {
        dash
    } else {
        keep
    };
    raw.subrange(0, cut) + seq!['-'] + hash_suffix(schema_path)
}

/// Truncate a topic name and append a hash suffix for uniqueness.
///
/// Truncates at the last `-` boundary that keeps the total at or below
/// `budget`, then appends `-` and an 8-character hex hash of the
/// full schema path.  The name must be ASCII: lengths and cut
/// positions are byte positions.
pub fn truncate_with_hash(raw_topic: &str, schema_path: &str, budget: usize) -> (res: String)
    requires
        is_ascii_chars(raw_topic@),
    ensures
        res@ == truncated_topic(raw_topic@, schema_path@, budget as int),
        budget >= 9 ==> res@.len() <= budget,
{
    let hash = simple_hash(schema_path);
    let hex = hex16(hash);
    proof {
        lemma_hex_digits_len(hash as nat, 16);
    }
    let max_prefix = budget.saturating_sub(1 + HASH_SUFFIX_LEN);
    let cs = chars_of(raw_topic);
    let keep = if max_prefix < cs.len() {
        max_prefix
    } else {
        cs.len()
    };
    let wl = if max_prefix < cs.len() {
        max_prefix + 1
    } else {
        cs.len()
    };
    let w = string_of(&cs, 0, wl);
    let wc = chars_of(w.as_str());
    proof {
        lemma_last_index_bounds(wc@, '-');
    }
    let cut = match rfind_char(&wc, '-') {
        Some(i) => i,
        None => keep,
    };
    let mut res = string_of(&cs, 0, cut);
    push_char(&mut res, '-');
    push_chars(&mut res, &hex, 0, 8);
    res
}

// ------------------------------------------------------------------
//  Schema path to topic name
// ------------------------------------------------------------------

/// The `-`-separated parts of a topic name for the path segments `segs`:
/// empty segments are skipped, `module:name` gives the module's prefix
/// and the name, a segment without `:` gives itself.  Modules missing
/// from the table contribute nothing (see [`missing_module`]).
pub open spec fn topic_parts(segs: Seq<Seq<char>>, tab: Seq<(Seq<char>, Seq<char>)>) -> Seq<
    Seq<char>,
>
    decreases segs.len(),
{
    if segs.len() == 0 {
        Seq::empty()
    } else {
        let r = topic_parts(segs.drop_last(), tab);
        let seg = segs.last();
        let c = find_from(seg, 0, ':');
        if seg.len() == 0 {
            r
        } else if c < seg.len() {
            match prefix_of(tab, seg.subrange(0, c)) {
                Some(p) => r.push(p).push(seg.subrange(c + 1, seg.len() as int)),
                None => r,
            }
        } else {
            r.push(seg)
        }
    }
}

/// The first module named in `segs` that the table lacks.
pub open spec fn missing_module(segs: Seq<Seq<char>>, tab: Seq<(Seq<char>, Seq<char>)>) -> Option<
    Seq<char>,
>
    decreases segs.len(),
{
    if segs.len() == 0 {
        None
    } else {
        match missing_module(segs.drop_last(), tab) {
            Some(m) => Some(m),
            None => {
                let seg = segs.last();
                let c = find_from(seg, 0, ':');
                if seg.len() > 0 && c < seg.len() && prefix_of(tab, seg.subrange(0, c)).is_none() {
                    Some(seg.subrange(0, c))
                } else {
                    None
                }
            },
        }
    }
}

/// The message of the error for a module missing from the table.
pub open spec fn missing_module_message(m: Seq<char>) -> Seq<char> {
    "cannot find module '"@ + m + "' for prefix lookup"@
}

/// The topic name for a schema DATA path, or the error message.
pub open spec fn schema_topic(
    tab: Seq<(Seq<char>, Seq<char>)>,
    schema_path: Seq<char>,
    prefix: Option<Seq<char>>,
    max_length: usize,
) -> Result<Seq<char>, Seq<char>> {
    let segs = split_pieces(schema_path, '/', schema_path.len() as int);
    match missing_module(segs, tab) {
        Some(m) => Err(missing_module_message(m)),
        None => {
            let portion = join(topic_parts(segs, tab), seq!['-']);
            let budget = budget_of(prefix, max_length);
            let fitted = if portion.len() <= budget {
                portion
            } else {
                truncated_topic(portion, schema_path, budget)
            };
            Ok(
                match prefix {
                    Some(p) => p + seq!['-'] + fitted,
                    None => fitted,
                },
            )
        },
    }
}

/// Look up a YANG module's `prefix` statement by module name (the first
/// entry for that name).
fn resolve_module_prefix(table: &Vec<ModulePrefix>, module_name: &String) -> (res: Option<String>)
    ensures
        opt_view(res) == prefix_of(table_view(table@), module_name@),
{
    let mut i: usize = 0;
    assert(table_view(table@).subrange(0, table@.len() as int) =~= table_view(table@));
    while i < table.len()
        invariant
            0 <= i <= table@.len(),
            prefix_of(table_view(table@), module_name@) == prefix_of(
                table_view(table@).subrange(i as int, table@.len() as int),
                module_name@,
            ),
        decreases table@.len() - i,
    {
        let ghost rest = table_view(table@).subrange(i as int, table@.len() as int);
        if table[i].module == *module_name {
            return Some(table[i].prefix.clone());
        }
        assert(rest.drop_first() =~= table_view(table@).subrange(i + 1, table@.len() as int));
        i = i + 1;
    }
    None
}

pub proof fn lemma_join_ascii(parts: Seq<Seq<char>>, sep: Seq<char>)
    requires
        is_ascii_chars(sep),
        forall|i: int| 0 <= i < parts.len() ==> is_ascii_chars(#[trigger] parts[i]),
    ensures
        is_ascii_chars(join(parts, sep)),
    decreases parts.len(),
{
    if parts.len() > 1 {
        lemma_join_ascii(parts.drop_last(), sep);
        let a = join(parts.drop_last(), sep);
        let j = a + sep + parts.last();
        assert forall|i: int| 0 <= i < j.len() implies '\0' <= #[trigger] j[i] <= '\u{7f}' by {
            if i < a.len() {
                assert(j[i] == a[i]);
            } else if i < a.len() + sep.len() {
                assert(j[i] == sep[i - a.len()]);
            } else {
                assert(j[i] == parts.last()[i - a.len() - sep.len()]);
            }
        }
    } else if parts.len() == 1 {
        assert(parts[0] == join(parts, sep));
    }
}

pub proof fn lemma_topic_parts_ascii(segs: Seq<Seq<char>>, tab: Seq<(Seq<char>, Seq<char>)>, path: Seq<char>)
    requires
        ascii_table(tab),
        is_ascii_chars(path),
        forall|i: int| 0 <= i < segs.len() ==> is_ascii_chars(#[trigger] segs[i]),
    ensures
        forall|i: int|
            0 <= i < topic_parts(segs, tab).len() ==> is_ascii_chars(
                #[trigger] topic_parts(segs, tab)[i],
            ),
    decreases segs.len(),
{
    if segs.len() > 0 {
        let r = topic_parts(segs.drop_last(), tab);
        lemma_topic_parts_ascii(segs.drop_last(), tab, path);
        let seg = segs.last();
        crate::text::lemma_find_from_bounds(seg, 0, ':');
        let c = find_from(seg, 0, ':');
        assert(is_ascii_chars(seg));
        if seg.len() > 0 && c < seg.len() {
            lemma_prefix_of_in_table(tab, seg.subrange(0, c));
            let sub = seg.subrange(c + 1, seg.len() as int);
            assert forall|i: int| 0 <= i < sub.len() implies '\0' <= #[trigger] sub[i] <= '\u{7f}' by {
                assert(sub[i] == seg[i + c + 1]);
            }
            match prefix_of(tab, seg.subrange(0, c)) {
                Some(p) => {
                    let i0 = choose|i: int| 0 <= i < tab.len() && tab[i].1 == p;
                    assert(is_ascii_chars(tab[i0].1));
                    let res = r.push(p).push(sub);
                    assert forall|k: int| 0 <= k < res.len() implies is_ascii_chars(#[trigger] res[k]) by {
                        if k < r.len() {
                            assert(res[k] == r[k]);
                        } else if k == r.len() {
                            assert(res[k] == p);
                        } else {
                            assert(res[k] == sub);
                        }
                    }
                },
                None => {},
            }
        } else if seg.len() > 0 {
            let res = r.push(seg);
            assert forall|k: int| 0 <= k < res.len() implies is_ascii_chars(#[trigger] res[k]) by {
                if k < r.len() {
                    assert(res[k] == r[k]);
                }
            }
        }
    }
}

pub proof fn lemma_prefix_of_in_table(tab: Seq<(Seq<char>, Seq<char>)>, m: Seq<char>)
    ensures
        prefix_of(tab, m) matches Some(p) ==> exists|i: int| 0 <= i < tab.len() && tab[i].1 == p,
    decreases tab.len(),
{
    if tab.len() > 0 && tab[0].0 != m {
        lemma_prefix_of_in_table(tab.drop_first(), m);
        if let Some(p) = prefix_of(tab, m) {
            let i = choose|i: int| 0 <= i < tab.drop_first().len() && tab.drop_first()[i].1 == p;
            assert(tab[i + 1].1 == p);
        }
    }
}

pub proof fn lemma_split_pieces_ascii(s: Seq<char>, c: char, i: int)
    requires
        is_ascii_chars(s),
        0 <= i <= s.len(),
    ensures
        forall|k: int|
            0 <= k < split_pieces(s, c, i).len() ==> is_ascii_chars(
                #[trigger] split_pieces(s, c, i)[k],
            ),
    decreases i,
{
    crate::xpath::lemma_split_pieces_len(s, c, i);
    if i > 0 {
        lemma_split_pieces_ascii(s, c, i - 1);
        crate::xpath::lemma_split_pieces_len(s, c, i - 1);
        let p = split_pieces(s, c, i - 1);
        if s[i - 1] != c {
            let np = p.update(p.len() - 1, p.last().push(s[i - 1]));
            assert forall|k: int| 0 <= k < np.len() implies is_ascii_chars(#[trigger] np[k]) by {
                if k == np.len() - 1 {
                    let l = p.last().push(s[i - 1]);
                    assert forall|j: int| 0 <= j < l.len() implies '\0' <= #[trigger] l[j]
                        <= '\u{7f}' by {
                        if j < p.last().len() {
                            assert(l[j] == p.last()[j]);
                        }
                    }
                }
            }
        } else {
            let np = p.push(Seq::empty());
            assert forall|k: int| 0 <= k < np.len() implies is_ascii_chars(#[trigger] np[k]) by {
                if k < p.len() {
                    assert(np[k] == p[k]);
                }
            }
        }
    }
}

/// Derive a topic name from a single schema DATA path.
///
/// 1. Split the path into segments.
/// 2. Replace module names with YANG prefixes (from `table`).
/// 3. Join with `-`.
/// 4. Truncate and hash if over the budget.
/// 5. Prepend the organization prefix (if configured).
///
/// Lengths are byte lengths; schema paths, YANG prefixes and the
/// organization prefix are ASCII.
///
/// `table` lists each module once, as libyang reports its latest
/// revision; where a module name occurs more than once, the first entry
/// gives the prefix.
pub fn schema_path_to_topic(
    table: &Vec<ModulePrefix>,
    schema_path: &str,
    config: &TopicConfig,
) -> (res: Result<String, String>)
    requires
        is_ascii_chars(schema_path@),
        ascii_table(table_view(table@)),
        opt_view(config.prefix) matches Some(p) ==> is_ascii_chars(p),
    ensures
        match res {
            Ok(t) => schema_topic(
                table_view(table@),
                schema_path@,
                opt_view(config.prefix),
                config.max_length,
            ) == Ok::<Seq<char>, Seq<char>>(t@),
            Err(e) => schema_topic(
                table_view(table@),
                schema_path@,
                opt_view(config.prefix),
                config.max_length,
            ) == Err::<Seq<char>, Seq<char>>(e@),
        },
        res matches Ok(t) ==> (budget_of(opt_view(config.prefix), config.max_length) >= 9
            ==> t@.len() <= config.max_length),
{
    let cs = chars_of(schema_path);
    let segments = split_on(&cs, '/');
    let ghost segs = split_pieces(cs@, '/', cs@.len() as int);
    let ghost tab = table_view(table@);
    let mut parts: Vec<String> = Vec::new();
    let mut i: usize = 0;
    while i < segments.len()
        invariant
            0 <= i <= segments@.len(),
            views(segments@) == segs,
            segs == split_pieces(schema_path@, '/', schema_path@.len() as int),
            tab == table_view(table@),
            missing_module(segs.take(i as int), tab).is_none(),
            views(parts@) == topic_parts(segs.take(i as int), tab),
        decreases segments@.len() - i,
    {
        let ghost prev = segs.take(i as int);
        assert(segs.take(i + 1).drop_last() == prev);
        let sc = chars_of(segments[i].as_str());
        if sc.len() > 0 {
            let c = find_char(&sc, 0, ':');
            if c < sc.len() {
                let module_name = string_of(&sc, 0, c);
                match resolve_module_prefix(table, &module_name) {
                    Some(p) => {
                        let ghost before = parts@;
                        let local = string_of(&sc, c + 1, sc.len());
                        parts.push(p);
                        parts.push(local);
                        assert(views(parts@) =~= views(before).push(p@).push(local@));
                    },
                    None => {
                        proof {
                            assert(missing_module(segs.take(i + 1), tab) == Some(module_name@));
                        }
                        let mut m = String::from_str("cannot find module '");
                        push_str(&mut m, module_name.as_str());
                        push_str(&mut m, "' for prefix lookup");
                        proof {
                            lemma_missing_prefix(segs, tab, i as int);
                        }
                        return Err(m);
                    },
                }
            } else {
                let ghost before = parts@;
                let seg = string_of(&sc, 0, sc.len());
                assert(sc@.subrange(0, sc@.len() as int) == sc@);
                parts.push(seg);
                assert(views(parts@) =~= views(before).push(seg@));
            }
        }
        i = i + 1;
    }
    assert(segs.take(segs.len() as int) == segs);
    let mut dash = String::new();
    push_char(&mut dash, '-');
    assert(dash@ =~= seq!['-']);
    let portion = join_strings(&parts, dash.as_str());
    let pc = chars_of(portion.as_str());
    let budget = config.schema_budget();
    proof {
        lemma_split_pieces_ascii(schema_path@, '/', schema_path@.len() as int);
        lemma_topic_parts_ascii(segs, tab, schema_path@);
        lemma_join_ascii(topic_parts(segs, tab), seq!['-']);
    }
    let ghost portion_v = join(topic_parts(segs, tab), seq!['-']);
    assert(portion@ == portion_v);
    let fitted = if pc.len() <= budget {
        portion
    } else {
        truncate_with_hash(portion.as_str(), schema_path, budget)
    };
    assert(fitted@ == if portion_v.len() <= budget_of(opt_view(config.prefix), config.max_length) {
        portion_v
    } else {
        truncated_topic(portion_v, schema_path@, budget as int)
    });
    assert(budget_of(opt_view(config.prefix), config.max_length) >= 9 ==> fitted@.len() <= budget);
    proof {
        match opt_view(config.prefix) {
            Some(p) => {
                vstd::utf8::is_ascii_chars_encode_utf8(p);
            },
            None => {},
        }
    }
    match &config.prefix {
        Some(pfx) => {
            let mut out = copy_str(pfx.as_str());
            push_char(&mut out, '-');
            push_str(&mut out, fitted.as_str());
            assert(out@ =~= pfx@ + seq!['-'] + fitted@);
            Ok(out)
        },
        None => Ok(fitted),
    }
}

/// A missing module ends the topic derivation with that module's name.
proof fn lemma_missing_prefix(segs: Seq<Seq<char>>, tab: Seq<(Seq<char>, Seq<char>)>, i: int)
    requires
        0 <= i < segs.len(),
        missing_module(segs.take(i + 1), tab).is_some(),
    ensures
        missing_module(segs, tab) == missing_module(segs.take(i + 1), tab),
    decreases segs.len(),
{
    if segs.len() > i + 1 {
        assert(segs.drop_last().take(i + 1) == segs.take(i + 1));
        lemma_missing_prefix(segs.drop_last(), tab, i);
    } else {
        assert(segs.take(i + 1) == segs);
    }
}

/// The topic names for the first `n` of the key templates `ts`, or the
/// first error.
pub open spec fn topics_upto(
    tab: Seq<(Seq<char>, Seq<char>)>,
    ts: Seq<Seq<char>>,
    prefix: Option<Seq<char>>,
    max_length: usize,
    n: int,
) -> Result<Seq<Seq<char>>, Seq<char>>
    decreases n,
{
    if n <= 0 {
        Ok(Seq::empty())
    } else {
        match topics_upto(tab, ts, prefix, max_length, n - 1) {
            Err(e) => Err(e),
            Ok(r) => match schema_topic(tab, stripped(ts[n - 1]), prefix, max_length) {
                Err(e) => Err(e),
                Ok(t) => Ok(r.push(t)),
            },
        }
    }
}

/// The message of the error for a prefix that leaves no room.
pub open spec fn prefix_too_long_message(prefix: Option<Seq<char>>, max_length: usize) -> Seq<
    char,
> {
    "prefix '"@ + (match prefix {
        Some(p) => p,
        None => Seq::empty(),
    }) + "' is too long for max_length "@ + decimal(max_length as nat)
        + " \u{2014} no room for schema path"@
}

/// The key templates of a derivation, in branch order.
pub open spec fn templates_of(d: DerivationResult) -> Seq<Seq<char>> {
    d.branches@.map_values(|b: crate::types::BranchTemplate| b.key_template@)
}

/// Derive topic names from a Phase 2 derivation result: one per union
/// branch, from the branch's key template with its predicates stripped.
///
/// Fails when the configured prefix leaves fewer than ten characters
/// for the schema-derived part, or when a module is not in `table`.
/// `table` lists each module once, as libyang reports its latest
/// revision; where a module name occurs more than once, the first entry
/// gives the prefix.
pub fn derive_topic_names(
    table: &Vec<ModulePrefix>,
    derivation: &DerivationResult,
    config: &TopicConfig,
) -> (res: Result<TopicNameResult, String>)
    requires
        budget_of(opt_view(config.prefix), config.max_length) >= HASH_SUFFIX_LEN + 2 ==> ({
            &&& forall|i: int|
                0 <= i < derivation.branches@.len() ==> is_ascii_chars(
                    stripped(#[trigger] derivation.branches@[i].key_template@),
                )
            &&& ascii_table(table_view(table@))
            &&& opt_view(config.prefix) matches Some(p) ==> is_ascii_chars(p)
        }),
    ensures
        budget_of(opt_view(config.prefix), config.max_length) < HASH_SUFFIX_LEN + 2 ==> (res
            matches Err(e) && e@ == prefix_too_long_message(
            opt_view(config.prefix),
            config.max_length,
        )),
        budget_of(opt_view(config.prefix), config.max_length) >= HASH_SUFFIX_LEN + 2 ==> match res {
            Ok(r) => topics_upto(
                table_view(table@),
                templates_of(*derivation),
                opt_view(config.prefix),
                config.max_length,
                derivation.branches@.len() as int,
            ) == Ok::<Seq<Seq<char>>, Seq<char>>(views(r.topic_names@)),
            Err(e) => topics_upto(
                table_view(table@),
                templates_of(*derivation),
                opt_view(config.prefix),
                config.max_length,
                derivation.branches@.len() as int,
            ) == Err::<Seq<Seq<char>>, Seq<char>>(e@),
        },
        res matches Ok(r) ==> forall|k: int|
            0 <= k < r.topic_names@.len() ==> (#[trigger] r.topic_names@[k])@.len()
                <= config.max_length,
{
    if config.schema_budget() < HASH_SUFFIX_LEN + 2 {
        let mut m = String::from_str("prefix '");
        match &config.prefix {
            Some(p) => push_str(&mut m, p.as_str()),
            None => {},
        }
        push_str(&mut m, "' is too long for max_length ");
        push_decimal(&mut m, config.max_length);
        push_str(&mut m, " \u{2014} no room for schema path");
        return Err(m);
    }
    let ghost ts = templates_of(*derivation);
    let ghost tab = table_view(table@);
    let mut topic_names: Vec<String> = Vec::new();
    let mut i: usize = 0;
    assert(views(topic_names@) =~= Seq::<Seq<char>>::empty());
    while i < derivation.branches.len()
        invariant
            0 <= i <= derivation.branches@.len(),
            budget_of(opt_view(config.prefix), config.max_length) >= HASH_SUFFIX_LEN + 2,
            ts == templates_of(*derivation),
            tab == table_view(table@),
            ascii_table(tab),
            opt_view(config.prefix) matches Some(p) ==> is_ascii_chars(p),
            forall|k: int|
                0 <= k < derivation.branches@.len() ==> is_ascii_chars(
                    stripped(#[trigger] derivation.branches@[k].key_template@),
                ),
            topics_upto(tab, ts, opt_view(config.prefix), config.max_length, i as int) == Ok::<
                Seq<Seq<char>>,
                Seq<char>,
            >(views(topic_names@)),
            forall|k: int|
                0 <= k < topic_names@.len() ==> (#[trigger] topic_names@[k])@.len()
                    <= config.max_length,
        decreases derivation.branches@.len() - i,
    {
        let schema_path = strip_predicates(derivation.branches[i].key_template.as_str());
        assert(ts[i as int] == derivation.branches@[i as int].key_template@);
        match schema_path_to_topic(table, schema_path.as_str(), config) {
            Ok(t) => {
                let ghost before = topic_names@;
                topic_names.push(t);
                assert(views(topic_names@) =~= views(before).push(t@));
            },
            Err(e) => {
                proof {
                    lemma_topics_err(tab, ts, opt_view(config.prefix), config.max_length, i + 1,
                        derivation.branches@.len() as int);
                }
                return Err(e);
            },
        }
        i = i + 1;
    }
    Ok(TopicNameResult { topic_names })
}

/// An error among the first `i` topics is the error for all `n`.
proof fn lemma_topics_err(
    tab: Seq<(Seq<char>, Seq<char>)>,
    ts: Seq<Seq<char>>,
    prefix: Option<Seq<char>>,
    max_length: usize,
    i: int,
    n: int,
)
    requires
        0 <= i <= n,
        topics_upto(tab, ts, prefix, max_length, i) is Err,
    ensures
        topics_upto(tab, ts, prefix, max_length, n) == topics_upto(tab, ts, prefix, max_length, i),
    decreases n - i,
{
    if n > i {
        lemma_topics_err(tab, ts, prefix, max_length, i, n - 1);
    }
}


// ------------------------------------------------------------------
//  Laws
// ------------------------------------------------------------------

/// Topic names depend only on the schema paths of the templates: two
/// derivations whose templates strip to the same schema paths (say, one
/// pinned to an instance and one open) get the same topic names.
pub proof fn law_topics_depend_on_schema_paths_only(
    tab: Seq<(Seq<char>, Seq<char>)>,
    ts1: Seq<Seq<char>>,
    ts2: Seq<Seq<char>>,
    prefix: Option<Seq<char>>,
    max_length: usize,
    n: int,
)
    requires
        0 <= n <= ts1.len(),
        n <= ts2.len(),
        forall|i: int| 0 <= i < n ==> stripped(#[trigger] ts1[i]) == stripped(ts2[i]),
    ensures
        topics_upto(tab, ts1, prefix, max_length, n) == topics_upto(tab, ts2, prefix, max_length, n),
    decreases n,
{
    if n > 0 {
        law_topics_depend_on_schema_paths_only(tab, ts1, ts2, prefix, max_length, n - 1);
        assert(stripped(ts1[n - 1]) == stripped(ts2[n - 1]));
    }
}

/// Looking a module up in a table with more entries appended finds the
/// same prefix when the shorter table already has the module.
proof fn lemma_prefix_of_extended(
    tab: Seq<(Seq<char>, Seq<char>)>,
    extra: Seq<(Seq<char>, Seq<char>)>,
    m: Seq<char>,
)
    requires
        prefix_of(tab, m).is_some(),
    ensures
        prefix_of(tab + extra, m) == prefix_of(tab, m),
    decreases tab.len(),
{
    if tab.len() > 0 && tab[0].0 != m {
        lemma_prefix_of_extended(tab.drop_first(), extra, m);
        assert((tab + extra).drop_first() =~= tab.drop_first() + extra);
    }
}

/// With every module of `segs` in `tab`, the parts of a topic name are
/// the same with more table entries appended.
proof fn lemma_topic_parts_extended(
    segs: Seq<Seq<char>>,
    tab: Seq<(Seq<char>, Seq<char>)>,
    extra: Seq<(Seq<char>, Seq<char>)>,
)
    requires
        missing_module(segs, tab).is_none(),
    ensures
        missing_module(segs, tab + extra).is_none(),
        topic_parts(segs, tab + extra) == topic_parts(segs, tab),
    decreases segs.len(),
{
    if segs.len() > 0 {
        lemma_topic_parts_extended(segs.drop_last(), tab, extra);
        let seg = segs.last();
        let c = find_from(seg, 0, ':');
        if seg.len() > 0 && c < seg.len() {
            lemma_prefix_of_extended(tab, extra, seg.subrange(0, c));
        }
    }
}

/// Topic names are stable when more modules are loaded: a schema path
/// whose modules all have prefixes in `tab` gets the same topic name
/// (or the same error) with further modules appended to the table.
pub proof fn law_topic_stable_under_more_modules(
    tab: Seq<(Seq<char>, Seq<char>)>,
    extra: Seq<(Seq<char>, Seq<char>)>,
    schema_path: Seq<char>,
    prefix: Option<Seq<char>>,
    max_length: usize,
)
    requires
        missing_module(split_pieces(schema_path, '/', schema_path.len() as int), tab).is_none(),
    ensures
        schema_topic(tab + extra, schema_path, prefix, max_length) == schema_topic(
            tab,
            schema_path,
            prefix,
            max_length,
        ),
{
    lemma_topic_parts_extended(split_pieces(schema_path, '/', schema_path.len() as int), tab, extra);
}

/// The topic name of a subscription target does not depend on how the
/// subscription was written: two branches that resolve to the same
/// schema node (one pinned to an instance, one open, one with module
/// prefixes or double quotes, ...) give the same topic name, when the
/// schema names and the branches' predicate values hold no bracket.
pub proof fn law_topic_independent_of_subscription_form(
    tab: Seq<(Seq<char>, Seq<char>)>,
    chain: Seq<crate::phase2::NodeView>,
    b1: Seq<char>,
    b2: Seq<char>,
    prefix: Option<Seq<char>>,
    max_length: usize,
)
    requires
        forall|i: int|
            0 <= i < chain.len() ==> crate::phase2::node_bracket_free(#[trigger] chain[i]),
        crate::phase2::steps_bracket_free(crate::xpath::xpath_steps(b1)),
        crate::phase2::steps_bracket_free(crate::xpath::xpath_steps(b2)),
    ensures
        schema_topic(
            tab,
            stripped(crate::phase2::template_for(chain, b1).0),
            prefix,
            max_length,
        ) == schema_topic(
            tab,
            stripped(crate::phase2::template_for(chain, b2).0),
            prefix,
            max_length,
        ),
{
    crate::phase2::law_template_strips_to_schema_path(chain, b1);
    crate::phase2::law_template_strips_to_schema_path(chain, b2);
}

// ------------------------------------------------------------------
//  Topic-safe characters
// ------------------------------------------------------------------

/// The characters a topic name may hold: `[a-zA-Z0-9._-]`.
pub open spec fn topic_char(c: char) -> bool {
    ||| ('a' <= c && c <= 'z')
    ||| ('A' <= c && c <= 'Z')
    ||| ('0' <= c && c <= '9')
    ||| c == '.'
    ||| c == '_'
    ||| c == '-'
}

/// Whether every character of `s` may stand in a topic name.
pub open spec fn topic_chars(s: Seq<char>) -> bool {
    forall|i: int| 0 <= i < s.len() ==> topic_char(#[trigger] s[i])
}

/// Whether a path segment names at most one module: no `:` after a `:`.
pub open spec fn one_module_prefix(seg: Seq<char>) -> bool {
    forall|i: int, j: int| #![trigger seg[i], seg[j]] 0 <= i < j < seg.len() && seg[i] == ':' ==> seg[j] != ':'
}

/// Whether `s` holds only topic characters and `:`.
pub open spec fn topic_chars_or_colon(s: Seq<char>) -> bool {
    forall|i: int| 0 <= i < s.len() ==> topic_char(#[trigger] s[i]) || s[i] == ':'
}

proof fn lemma_split_pieces_topic(s: Seq<char>, i: int)
    requires
        0 <= i <= s.len(),
        forall|j: int| 0 <= j < s.len() ==> topic_char(#[trigger] s[j]) || s[j] == ':' || s[j] == '/',
    ensures
        forall|k: int|
            0 <= k < split_pieces(s, '/', i).len() ==> topic_chars_or_colon(
                #[trigger] split_pieces(s, '/', i)[k],
            ),
    decreases i,
{
    crate::xpath::lemma_split_pieces_len(s, '/', i);
    if i > 0 {
        lemma_split_pieces_topic(s, i - 1);
        crate::xpath::lemma_split_pieces_len(s, '/', i - 1);
        let p = split_pieces(s, '/', i - 1);
        let np = split_pieces(s, '/', i);
        if s[i - 1] != '/' {
            let l = p.last().push(s[i - 1]);
            assert(topic_chars_or_colon(p[p.len() - 1]));
            assert forall|j: int| 0 <= j < l.len() implies topic_char(#[trigger] l[j]) || l[j]
                == ':' by {
                if j < l.len() - 1 {
                    assert(l[j] == p[p.len() - 1][j]);
                }
            }
            assert forall|k: int| 0 <= k < np.len() implies topic_chars_or_colon(#[trigger] np[k]) by {
                if k < p.len() - 1 {
                    assert(np[k] == p[k]);
                } else {
                    assert(np[k] == l);
                }
            }
        } else {
            assert forall|k: int| 0 <= k < np.len() implies topic_chars_or_colon(#[trigger] np[k]) by {
                if k < p.len() {
                    assert(np[k] == p[k]);
                } else {
                    assert(np[k] == Seq::<char>::empty());
                }
            }
        }
    } else {
        assert forall|k: int| 0 <= k < split_pieces(s, '/', i).len() implies topic_chars_or_colon(
            #[trigger] split_pieces(s, '/', i)[k],
        ) by {
            assert(split_pieces(s, '/', i)[k] == Seq::<char>::empty());
        }
    }
}

proof fn lemma_topic_parts_topic(segs: Seq<Seq<char>>, tab: Seq<(Seq<char>, Seq<char>)>)
    requires
        forall|k: int| 0 <= k < tab.len() ==> topic_chars(#[trigger] tab[k].1),
        forall|k: int|
            0 <= k < segs.len() ==> topic_chars_or_colon(#[trigger] segs[k]) && one_module_prefix(
                segs[k],
            ),
    ensures
        forall|i: int|
            0 <= i < topic_parts(segs, tab).len() ==> topic_chars(#[trigger] topic_parts(segs, tab)[i]),
    decreases segs.len(),
{
    if segs.len() > 0 {
        let r = topic_parts(segs.drop_last(), tab);
        lemma_topic_parts_topic(segs.drop_last(), tab);
        let seg = segs.last();
        assert(topic_chars_or_colon(seg) && one_module_prefix(seg));
        crate::text::lemma_find_from_bounds(seg, 0, ':');
        let c = find_from(seg, 0, ':');
        if seg.len() > 0 && c < seg.len() {
            lemma_prefix_of_in_table(tab, seg.subrange(0, c));
            let sub = seg.subrange(c + 1, seg.len() as int);
            assert forall|i: int| 0 <= i < sub.len() implies topic_char(#[trigger] sub[i]) by {
                assert(sub[i] == seg[i + c + 1]);
                assert(seg[c] == ':');
                assert(seg[i + c + 1] != ':');
            }
            match prefix_of(tab, seg.subrange(0, c)) {
                Some(p) => {
                    let i0 = choose|i: int| 0 <= i < tab.len() && tab[i].1 == p;
                    assert(topic_chars(tab[i0].1));
                    let res = r.push(p).push(sub);
                    assert forall|k: int| 0 <= k < res.len() implies topic_chars(#[trigger] res[k]) by {
                        if k < r.len() {
                            assert(res[k] == r[k]);
                        } else if k == r.len() {
                            assert(res[k] == p);
                        } else {
                            assert(res[k] == sub);
                        }
                    }
                },
                None => {},
            }
        } else if seg.len() > 0 {
            assert forall|i: int| 0 <= i < seg.len() implies topic_char(#[trigger] seg[i]) by {
                assert(seg[i] != ':');
            }
            let res = r.push(seg);
            assert forall|k: int| 0 <= k < res.len() implies topic_chars(#[trigger] res[k]) by {
                if k < r.len() {
                    assert(res[k] == r[k]);
                }
            }
        }
    }
}

proof fn lemma_concat_topic(a: Seq<char>, b: Seq<char>)
    requires
        topic_chars(a),
        topic_chars(b),
    ensures
        topic_chars(a + b),
{
    assert forall|i: int| 0 <= i < (a + b).len() implies topic_char(#[trigger] (a + b)[i]) by {
        if i < a.len() {
            assert((a + b)[i] == a[i]);
        } else {
            assert((a + b)[i] == b[i - a.len()]);
        }
    }
}

proof fn lemma_join_topic(parts: Seq<Seq<char>>)
    requires
        forall|i: int| 0 <= i < parts.len() ==> topic_chars(#[trigger] parts[i]),
    ensures
        topic_chars(join(parts, seq!['-'])),
    decreases parts.len(),
{
    if parts.len() > 1 {
        lemma_join_topic(parts.drop_last());
        assert(topic_chars(seq!['-']));
        assert(topic_chars(parts[parts.len() - 1]));
        lemma_concat_topic(join(parts.drop_last(), seq!['-']), seq!['-']);
        lemma_concat_topic(join(parts.drop_last(), seq!['-']) + seq!['-'], parts.last());
    } else if parts.len() == 1 {
        assert(topic_chars(parts[0]));
    } else {
        assert(join(parts, seq!['-']) == Seq::<char>::empty());
    }
}

proof fn lemma_hex_digits_topic(x: nat, n: nat)
    ensures
        topic_chars(hex_digits(x, n)),
    decreases n,
{
    if n > 0 {
        lemma_hex_digits_topic(x / 16, (n - 1) as nat);
        let d = x % 16;
        assert(d < 16);
        let c = hex_char(d);
        if d < 10 {
            assert('0' <= c && c <= '9');
        } else {
            assert('a' <= c && c <= 'f');
        }
        assert(topic_chars(seq![c]));
        lemma_concat_topic(hex_digits(x / 16, (n - 1) as nat), seq![c]);
        assert(hex_digits(x / 16, (n - 1) as nat).push(c) =~= hex_digits(x / 16, (n - 1) as nat)
            + seq![c]);
    }
}

/// Topic names hold only the characters a topic name may hold,
/// `[a-zA-Z0-9._-]`: for a schema path of topic characters, `/` and
/// `:` with at most one module prefix per segment, topic-character
/// module prefixes and organization prefix, the topic name (when there
/// is one) holds topic characters only.
pub proof fn law_topic_names_use_topic_chars(
    tab: Seq<(Seq<char>, Seq<char>)>,
    schema_path: Seq<char>,
    prefix: Option<Seq<char>>,
    max_length: usize,
)
    requires
        forall|i: int|
            0 <= i < schema_path.len() ==> topic_char(#[trigger] schema_path[i]) || schema_path[i]
                == ':' || schema_path[i] == '/',
        forall|k: int|
            0 <= k < split_pieces(schema_path, '/', schema_path.len() as int).len()
                ==> one_module_prefix(
                #[trigger] split_pieces(schema_path, '/', schema_path.len() as int)[k],
            ),
        forall|k: int| 0 <= k < tab.len() ==> topic_chars(#[trigger] tab[k].1),
        prefix matches Some(p) ==> topic_chars(p),
    ensures
        schema_topic(tab, schema_path, prefix, max_length) matches Ok(t) ==> topic_chars(t),
{
    let segs = split_pieces(schema_path, '/', schema_path.len() as int);
    lemma_split_pieces_topic(schema_path, schema_path.len() as int);
    lemma_topic_parts_topic(segs, tab);
    let portion = join(topic_parts(segs, tab), seq!['-']);
    lemma_join_topic(topic_parts(segs, tab));
    let budget = budget_of(prefix, max_length);
    let fitted = if portion.len() <= budget {
        portion
    } else {
        truncated_topic(portion, schema_path, budget)
    };
    if portion.len() > budget {
        let max_prefix = if budget >= 9 {
            budget - 9
        } else {
            0
        };
        let keep = if max_prefix < portion.len() {
            max_prefix
        } else {
            portion.len() as int
        };
        let t = portion.subrange(
            0,
            if max_prefix < portion.len() {
                max_prefix + 1
            } else {
                portion.len() as int
            },
        );
        lemma_last_index_bounds(t, '-');
        let dash = last_index(t, '-');
        let cut = if dash >= 0 {
            dash
        } else {
            keep
        };
        let head = portion.subrange(0, cut);
        assert forall|i: int| 0 <= i < head.len() implies topic_char(#[trigger] head[i]) by {
            assert(head[i] == portion[i]);
        }
        let h = fnv1a(schema_path) as nat;
        lemma_hex_digits_topic(h, 16);
        lemma_hex_digits_len(h, 16);
        let suffix = hash_suffix(schema_path);
        assert forall|i: int| 0 <= i < suffix.len() implies topic_char(#[trigger] suffix[i]) by {
            assert(suffix[i] == hex_digits(h, 16)[i]);
        }
        assert(topic_chars(seq!['-']));
        lemma_concat_topic(head, seq!['-']);
        lemma_concat_topic(head + seq!['-'], suffix);
    }
    assert(topic_chars(fitted));
    if let Some(p) = prefix {
        assert(topic_chars(seq!['-']));
        lemma_concat_topic(p, seq!['-']);
        lemma_concat_topic(p + seq!['-'], fitted);
    }
}

} // verus!
