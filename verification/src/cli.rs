//! Support for the command-line front end: YANG module specifications,
//! YANG Library formats, and the JSON shape of Phase 2 output.
use vstd::prelude::*;

use crate::phase2::{branch_views, BranchView};
use crate::text::{
    chars_of, copy_str, find_char, find_from, lemma_find_from_bounds, push_char, push_str, string_of,
    views,
};
use crate::types::{BranchTemplate, DerivationResult, ExtractionSpec, ExtractionView, TargetType};
use crate::xpath::{split_on, split_pieces};

verus! {

// ------------------------------------------------------------------
//  Target types
// ------------------------------------------------------------------

/// The name of a target type in Phase 2 output.
pub open spec fn target_type_name(tt: TargetType) -> Seq<char> {
    match tt {
        TargetType::Container => "container"@,
        TargetType::List => "list"@,
        TargetType::Leaf => "leaf"@,
        TargetType::LeafList => "leaf-list"@,
    }
}

/// The name of a target type in Phase 2 output.
pub fn target_type_str(tt: TargetType) -> (res: &'static str)
    ensures
        res@ == target_type_name(tt),
{
    match tt {
        TargetType::Container => "container",
        TargetType::List => "list",
        TargetType::Leaf => "leaf",
        TargetType::LeafList => "leaf-list",
    }
}

// ------------------------------------------------------------------
//  Phase 2 output
// ------------------------------------------------------------------

/// One extraction in Phase 2 output.
#[derive(Debug, Clone, PartialEq, Eq)]
pub struct ExtractionOutput {
    /// Position of the placeholder in the key template.
    pub placeholder_index: usize,
    pub extraction_xpath: String,
    pub key_leaf: String,
    pub list_module: String,
    pub list_name: String,
}

/// One branch in Phase 2 output.
#[derive(Debug, Clone, PartialEq, Eq)]
pub struct BranchOutput {
    pub branch_index: usize,
    pub branch_xpath: String,
    pub key_template: String,
    /// `container`, `list`, `leaf` or `leaf-list`.
    pub target_type: String,
    pub extractions: Vec<ExtractionOutput>,
}

/// Phase 2 output, as printed in JSON.
#[derive(Debug, Clone, PartialEq, Eq)]
pub struct Phase2Output {
    pub subscription_xpath: String,
    pub branches: Vec<BranchOutput>,
}

/// The view of an extraction in output: index, XPath, key leaf, list
/// module, list name.
pub type ExtractionOutputView = (int, Seq<char>, Seq<char>, Seq<char>, Seq<char>);

/// The view of a branch in output.
pub type BranchOutputView = (int, Seq<char>, Seq<char>, Seq<char>, Seq<ExtractionOutputView>);

impl View for ExtractionOutput {
    type V = ExtractionOutputView;

    open spec fn view(&self) -> ExtractionOutputView {
        (
            self.placeholder_index as int,
            self.extraction_xpath@,
            self.key_leaf@,
            self.list_module@,
            self.list_name@,
        )
    }
}

impl View for BranchOutput {
    type V = BranchOutputView;

    open spec fn view(&self) -> BranchOutputView {
        (
            self.branch_index as int,
            self.branch_xpath@,
            self.key_template@,
            self.target_type@,
            self.extractions@.map_values(|e: ExtractionOutput| e@),
        )
    }
}

impl View for Phase2Output {
    type V = (Seq<char>, Seq<BranchOutputView>);

    open spec fn view(&self) -> (Seq<char>, Seq<BranchOutputView>) {
        (self.subscription_xpath@, self.branches@.map_values(|b: BranchOutput| b@))
    }
}

/// The output of the extractions of a branch: each numbered by its
/// position.
pub open spec fn extractions_output(es: Seq<ExtractionView>) -> Seq<ExtractionOutputView> {
    Seq::new(es.len(), |i: int| (i, es[i].0, es[i].1, es[i].2, es[i].3))
}

/// The output of a branch.
pub open spec fn branch_output(b: BranchView) -> BranchOutputView {
    (b.0, b.1, b.2, target_type_name(b.4), extractions_output(b.3))
}

/// The output of a derivation.
pub open spec fn derivation_output(d: DerivationResult) -> (Seq<char>, Seq<BranchOutputView>) {
    let bs = branch_views(d.branches@);
    (d.subscription_xpath@, Seq::new(bs.len(), |i: int| branch_output(bs[i])))
}

fn extraction_output(i: usize, e: &ExtractionSpec) -> (res: ExtractionOutput)
    ensures
        res@ == (i as int, e@.0, e@.1, e@.2, e@.3),
{
    ExtractionOutput {
        placeholder_index: i,
        extraction_xpath: copy_str(e.extraction_xpath.as_str()),
        key_leaf: copy_str(e.key_leaf_name.as_str()),
        list_module: copy_str(e.list_module.as_str()),
        list_name: copy_str(e.list_name.as_str()),
    }
}

fn branch_output_of(b: &BranchTemplate) -> (res: BranchOutput)
    ensures
        res@ == branch_output(
            (
                b.branch_index as int,
                b.branch_xpath@,
                b.key_template@,
                crate::phase2::ext_views(b.extractions@),
                b.target_type,
            ),
        ),
{
    let ghost es = crate::phase2::ext_views(b.extractions@);
    let mut exts: Vec<ExtractionOutput> = Vec::new();
    let mut i: usize = 0;
    while i < b.extractions.len()
        invariant
            0 <= i <= b.extractions@.len(),
            es == crate::phase2::ext_views(b.extractions@),
            exts@.map_values(|e: ExtractionOutput| e@) == extractions_output(es).take(i as int),
        decreases b.extractions@.len() - i,
    {
        let ghost before = exts@;
        let e = extraction_output(i, &b.extractions[i]);
        assert(es[i as int] == b.extractions@[i as int]@);
        exts.push(e);
        assert(exts@.map_values(|e: ExtractionOutput| e@) =~= before.map_values(
            |e: ExtractionOutput| e@,
        ).push(e@));
        assert(exts@.map_values(|e: ExtractionOutput| e@) =~= extractions_output(es).take(i + 1));
        i = i + 1;
    }
    assert(extractions_output(es).take(es.len() as int) =~= extractions_output(es));
    let mut tt = String::new();
    push_str(&mut tt, target_type_str(b.target_type));
    BranchOutput {
        branch_index: b.branch_index,
        branch_xpath: copy_str(b.branch_xpath.as_str()),
        key_template: copy_str(b.key_template.as_str()),
        target_type: tt,
        extractions: exts,
    }
}

/// The JSON shape of a Phase 2 result: each branch with its target type
/// named and its extractions numbered by placeholder.
pub fn derivation_to_json(d: &DerivationResult) -> (res: Phase2Output)
    ensures
        res@ == derivation_output(*d),
{
    let ghost bs = branch_views(d.branches@);
    let mut branches: Vec<BranchOutput> = Vec::new();
    let mut i: usize = 0;
    while i < d.branches.len()
        invariant
            0 <= i <= d.branches@.len(),
            bs == branch_views(d.branches@),
            branches@.map_values(|b: BranchOutput| b@) == Seq::new(
                bs.len(),
                |k: int| branch_output(bs[k]),
            ).take(i as int),
        decreases d.branches@.len() - i,
    {
        let ghost before = branches@;
        let b = branch_output_of(&d.branches[i]);
        assert(bs[i as int] == (
            d.branches@[i as int].branch_index as int,
            d.branches@[i as int].branch_xpath@,
            d.branches@[i as int].key_template@,
            crate::phase2::ext_views(d.branches@[i as int].extractions@),
            d.branches@[i as int].target_type,
        ));
        branches.push(b);
        assert(branches@.map_values(|b: BranchOutput| b@) =~= before.map_values(
            |b: BranchOutput| b@,
        ).push(b@));
        assert(branches@.map_values(|b: BranchOutput| b@) =~= Seq::new(
            bs.len(),
            |k: int| branch_output(bs[k]),
        ).take(i + 1));
        i = i + 1;
    }
    assert(Seq::new(bs.len(), |k: int| branch_output(bs[k])).take(bs.len() as int) =~= Seq::new(
        bs.len(),
        |k: int| branch_output(bs[k]),
    ));
    Phase2Output { subscription_xpath: copy_str(d.subscription_xpath.as_str()), branches }
}

// ------------------------------------------------------------------
//  Module specifications
// ------------------------------------------------------------------

/// A module specification `name` or `name:feat1,feat2` as (name,
/// features).
pub open spec fn module_spec(s: Seq<char>) -> (Seq<char>, Seq<Seq<char>>) {
    let c = find_from(s, 0, ':');
    if c < s.len() {
        let feats = s.subrange(c + 1, s.len() as int);
        (s.subrange(0, c), split_pieces(feats, ',', feats.len() as int))
    } else {
        (s, Seq::empty())
    }
}

/// Parse a module spec `name` or `name:feat1,feat2` into (name, features).
pub fn parse_module_spec(spec: &str) -> (res: (String, Vec<String>))
    ensures
        (res.0@, views(res.1@)) == module_spec(spec@),
{
    let cs = chars_of(spec);
    let c = find_char(&cs, 0, ':');
    proof {
        lemma_find_from_bounds(cs@, 0, ':');
    }
    if c < cs.len() {
        let name = string_of(&cs, 0, c);
        let feats = string_of(&cs, c + 1, cs.len());
        let fcs = chars_of(feats.as_str());
        let features = split_on(&fcs, ',');
        (name, features)
    } else {
        let features: Vec<String> = Vec::new();
        assert(views(features@) =~= Seq::<Seq<char>>::empty());
        (copy_str(spec), features)
    }
}

// ------------------------------------------------------------------
//  YANG Library formats
// ------------------------------------------------------------------

/// Data format of a YANG Library file.
#[derive(Debug, Clone, Copy, PartialEq, Eq, Structural)]
pub enum LibraryFormat {
    Xml,
    Json,
}

/// `c` with ASCII upper case letters mapped to lower case.
pub open spec fn ascii_lower_char(c: char) -> char {
    if 'A' <= c && c <= 'Z' {
        ((c as u32) + 32) as char
    } else {
        c
    }
}

/// What `str::to_ascii_lowercase` gives back.
pub open spec fn ascii_lower(s: Seq<char>) -> Seq<char> {
    s.map_values(|c: char| ascii_lower_char(c))
}

/// `s` with ASCII letters `A` to `Z` turned into `a` to `z`, every other
/// character kept.
fn to_ascii_lower(s: &str) -> (res: String)
    ensures
        res@ == ascii_lower(s@),
{
    let cs = chars_of(s);
    let mut r = String::new();
    let mut i: usize = 0;
    while i < cs.len()
        invariant
            0 <= i <= cs@.len(),
            cs@ == s@,
            r@ == ascii_lower(cs@.subrange(0, i as int)),
        decreases cs@.len() - i,
    {
        let c = cs[i];
        let l = if 'A' <= c && c <= 'Z' {
            let b: u8 = (c as u8) + 32;
            b as char
        } else {
            c
        };
        assert(l == ascii_lower_char(c));
        push_char(&mut r, l);
        assert(ascii_lower(cs@.subrange(0, i + 1)) =~= ascii_lower(cs@.subrange(0, i as int)).push(
            ascii_lower_char(cs@[i as int]),
        ));
        i = i + 1;
    }
    assert(cs@.subrange(0, cs@.len() as int) =~= cs@);
    r
}

/// The format named `xml` or `json`, in any case.
pub open spec fn format_named(name: Seq<char>) -> Option<LibraryFormat> {
    if ascii_lower(name) == "xml"@ {
        Some(LibraryFormat::Xml)
    } else if ascii_lower(name) == "json"@ {
        Some(LibraryFormat::Json)
    } else {
        None
    }
}

fn format_of_lower(l: &String) -> (res: Option<LibraryFormat>)
    ensures
        (l@ == "xml"@ ==> res == Some(LibraryFormat::Xml)),
        (l@ == "json"@ ==> res == Some(LibraryFormat::Json)),
        (l@ != "xml"@ && l@ != "json"@ ==> res is None),
{
    let xml = String::from_str("xml");
    let json = String::from_str("json");
    proof {
        reveal_strlit("xml");
        reveal_strlit("json");
        assert("xml"@.len() == 3 && "json"@.len() == 4);
        assert("xml"@ != "json"@);
    }
    if *l == xml {
        Some(LibraryFormat::Xml)
    } else if *l == json {
        Some(LibraryFormat::Json)
    } else {
        None
    }
}

/// The message of the error for an unknown format name.
pub open spec fn unsupported_format_message(lower: Seq<char>) -> Seq<char> {
    "unsupported YANG library format '"@ + lower + "' (expected 'xml' or 'json')"@
}

/// Parse a data-format name (`xml` or `json`, in any case).
pub fn parse_data_format(s: &str) -> (res: Result<LibraryFormat, String>)
    ensures
        match format_named(s@) {
            Some(f) => res == Ok::<LibraryFormat, String>(f),
            None => res matches Err(e) && e@ == unsupported_format_message(ascii_lower(s@)),
        },
{
    let l = to_ascii_lower(s);
    match format_of_lower(&l) {
        Some(f) => Ok(f),
        None => {
            let mut m = String::from_str("unsupported YANG library format '");
            push_str(&mut m, l.as_str());
            push_str(&mut m, "' (expected 'xml' or 'json')");
            Err(m)
        },
    }
}

/// The message of the error for a file whose extension names no format.
pub open spec fn uninferable_format_message(path: Seq<char>) -> Seq<char> {
    "cannot infer YANG library format from '"@ + path
        + "'; use --yang-library-format xml|json"@
}

/// Infer the format of a YANG Library file from its extension
/// (`extension`, as `Path::extension` gives it); `path` is the file name
/// as shown in the error.
pub fn infer_library_format(extension: Option<&str>, path: &str) -> (res: Result<
    LibraryFormat,
    String,
>)
    ensures
        match extension {
            Some(x) => match format_named(x@) {
                Some(f) => res == Ok::<LibraryFormat, String>(f),
                None => res matches Err(e) && e@ == uninferable_format_message(path@),
            },
            None => res matches Err(e) && e@ == uninferable_format_message(path@),
        },
{
    let found = match extension {
        Some(x) => {
            let l = to_ascii_lower(x);
            format_of_lower(&l)
        },
        None => None,
    };
    match found {
        Some(f) => Ok(f),
        None => {
            let mut m = String::from_str("cannot infer YANG library format from '");
            push_str(&mut m, path);
            push_str(&mut m, "'; use --yang-library-format xml|json");
            Err(m)
        },
    }
}

} // verus!
