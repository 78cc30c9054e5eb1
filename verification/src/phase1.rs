//! Phase 1: Subtree filter normalization to XPath.
//!
//! Converts a YANG Push subtree filter (RFC 6241 §6) into one or more
//! equivalent XPath expressions joined by ` | `.
//!
//! # Element classification (RFC 6241 §6.2)
//!
//! | Kind | Has text? | Has children? | Treatment |
//! |------|-----------|---------------|-----------|
//! | Content match | yes | no | XPath equality predicate |
//! | Selection | no | no | Terminal branch leaf |
//! | Containment | — | yes | Path step, recurse |
//!
//! # Output format
//!
//! Every path segment carries the full YANG module-name prefix
//! (e.g. `/ietf-interfaces:interfaces/ietf-interfaces:interface`).
//! Phase 2 accepts this and normalizes to minimal-prefix style.
//!
//! The XML is tokenized by `quick_xml`; the element tree is built here
//! from its events.  XML namespaces are resolved to YANG module names
//! through a table of the implemented modules and their namespaces.
use quick_xml::events::Event;
use vstd::prelude::*;

use crate::text::{
    chars_of, copy_str, is_ws, join, join_strings, push_str, trim, trim_end, trim_start, trimmed,
    views,
};
use crate::xpath::{
    escape_xpath_value, escaped, lemma_keeps_depth_concat, lemma_keeps_depth_escaped,
    lemma_keeps_depth_inert, lemma_scan_concat, lemma_scan_prefix, lemma_union_state_is_scan,
    scan_from, scan_inert, scan_special, scan_top, union_branch_ok, union_branches, UnionState,
};

verus! {

// ------------------------------------------------------------------
//  XML events
// ------------------------------------------------------------------

/// One attribute of a start tag: its key and its unescaped value (`None`
/// when the value does not unescape).
#[derive(Debug, Clone)]
pub struct XmlAttr {
    pub key: String,
    pub value: Option<String>,
}

/// A start tag: its local name and its attributes in order (`None` for
/// an attribute that is not well-formed).
#[derive(Debug, Clone)]
pub struct XmlTag {
    pub local_name: String,
    pub attributes: Vec<Option<XmlAttr>>,
}

/// The XML events the tree builder reads.
#[derive(Debug, Clone)]
pub enum XmlEvent {
    /// `<tag ...>`
    Start(XmlTag),
    /// `<tag .../>`
    Empty(XmlTag),
    /// Character data, as written (entities not resolved).
    Text(String),
    /// An entity reference `&name;`, by name.
    GeneralRef(String),
    /// `</tag>`
    End,
    /// End of the document.
    Eof,
    /// A syntax error, with its message.
    Error(String),
    /// Comments, CDATA, declarations, processing instructions.
    Other,
}

/// The view of an attribute: its key and its unescaped value.
pub type AttrView = (Seq<char>, Option<Seq<char>>);

/// The view of a start tag: its local name and its attributes.
pub type TagView = (Seq<char>, Seq<Option<AttrView>>);

/// The view of an XML event.
pub enum XmlEventView {
    Start(TagView),
    Empty(TagView),
    Text(Seq<char>),
    GeneralRef(Seq<char>),
    End,
    Eof,
    Error(Seq<char>),
    Other,
}

impl View for XmlAttr {
    type V = AttrView;

    open spec fn view(&self) -> AttrView {
        (self.key@, opt_str(self.value))
    }
}

impl View for XmlTag {
    type V = TagView;

    open spec fn view(&self) -> TagView {
        (
            self.local_name@,
            self.attributes@.map_values(
                |a: Option<XmlAttr>|
                    match a {
                        Some(x) => Some(x@),
                        None => None,
                    },
            ),
        )
    }
}

impl View for XmlEvent {
    type V = XmlEventView;

    open spec fn view(&self) -> XmlEventView {
        match self {
            XmlEvent::Start(t) => XmlEventView::Start(t@),
            XmlEvent::Empty(t) => XmlEventView::Empty(t@),
            XmlEvent::Text(s) => XmlEventView::Text(s@),
            XmlEvent::GeneralRef(s) => XmlEventView::GeneralRef(s@),
            XmlEvent::End => XmlEventView::End,
            XmlEvent::Eof => XmlEventView::Eof,
            XmlEvent::Error(s) => XmlEventView::Error(s@),
            XmlEvent::Other => XmlEventView::Other,
        }
    }
}

/// The views of a sequence of events.
pub open spec fn event_views(v: Seq<XmlEvent>) -> Seq<XmlEventView> {
    v.map_values(|e: XmlEvent| e@)
}

/// Whether an event ends a stream: the end of the document or an error.
pub open spec fn is_stop(e: XmlEventView) -> bool {
    e is Eof || e is Error
}

/// The events `quick_xml` reads from `xml`, with white space around text
/// trimmed (`Config::trim_text(true)`), in order, up to and including
/// the end of the document or the first error.
pub uninterp spec fn xml_events_of(xml: Seq<char>) -> Seq<XmlEventView>;

#[verifier::external_type_specification]
#[verifier::external_body]
#[verifier::reject_recursive_types(R)]
pub struct ExXmlReader<R>(quick_xml::Reader<R>);

#[verifier::external_type_specification]
#[verifier::external_body]
pub struct ExBytesStart<'a>(quick_xml::events::BytesStart<'a>);

/// A `quick_xml` reader over `text`, with the byte position it had
/// reached after its last event and the events it has produced so far.
/// The fields are only set by [`open_xml`] and [`read_xml_event`].
pub struct XmlSource<'a> {
    text: &'a str,
    reader: quick_xml::Reader<&'a [u8]>,
    pos: u64,
    seen: Vec<XmlEvent>,
}

/// `quick_xml::Reader::from_str` on `xml`, configured with
/// `Config::trim_text(true)`, with the reader's `buffer_position`.
///
/// Claimed: the source reads `xml` and has produced no event yet.
#[verifier::external_body]
fn open_xml<'a>(xml: &'a str) -> (res: XmlSource<'a>)
    ensures
        res.text@ == xml@,
        res.seen@.len() == 0,
{
    let mut reader = quick_xml::Reader::from_str(xml);
    reader.config_mut().trim_text(true);
    let pos = reader.buffer_position();
    XmlSource { text: xml, reader, pos, seen: Vec::new() }
}

/// Converts a `quick_xml` start tag: `BytesStart::local_name` and each
/// item of `BytesStart::attributes` (key, and `Attribute::unescape_value`).
/// Nothing is claimed of the result.
#[verifier::external_body]
fn xml_tag(e: &quick_xml::events::BytesStart) -> (res: XmlTag) {
    XmlTag {
        local_name: String::from_utf8_lossy(e.local_name().as_ref()).to_string(),
        attributes: e.attributes().map(|a| a.ok().map(|a| XmlAttr {
            key: String::from_utf8_lossy(a.key.as_ref()).to_string(),
            value: a.unescape_value().ok().map(|v| v.to_string()),
        })).collect(),
    }
}

/// `quick_xml::Reader::read_event`, converted to an [`XmlEvent`], and
/// recorded among the events the source has produced.
///
/// Claimed, for a source that has not yet produced the end of the
/// document or an error:
/// - the events produced so far are the first ones of
///   [`xml_events_of`] for the source's text: the reader is
///   deterministic, so its `k`-th event is the `k`-th of that sequence;
/// - every event other than `Eof` and an error advances the reader's
///   byte position (`Reader::buffer_position`): in the source each such
///   event consumes at least one byte of input, and with
///   `expand_empty_elements` off (the default) no event is produced
///   without input.
#[verifier::external_body]
fn read_xml_event(src: &mut XmlSource) -> (ev: XmlEvent)
    requires
        old(src).seen@.len() == 0 || !is_stop(old(src).seen@.last()@),
    ensures
        final(src).text@ == old(src).text@,
        event_views(final(src).seen@) == event_views(old(src).seen@).push(ev@),
        final(src).seen@.len() <= xml_events_of(final(src).text@).len(),
        event_views(final(src).seen@) == xml_events_of(final(src).text@).take(
            final(src).seen@.len() as int,
        ),
        is_stop(ev@) || old(src).pos < final(src).pos,
{
    let ev = match src.reader.read_event() {
        Ok(Event::Start(e)) => XmlEvent::Start(xml_tag(&e)),
        Ok(Event::Empty(e)) => XmlEvent::Empty(xml_tag(&e)),
        Ok(Event::Text(e)) => XmlEvent::Text(String::from_utf8_lossy(&e).to_string()),
        Ok(Event::GeneralRef(e)) => XmlEvent::GeneralRef(String::from_utf8_lossy(&e).to_string()),
        Ok(Event::End(_)) => XmlEvent::End,
        Ok(Event::Eof) => XmlEvent::Eof,
        Ok(_) => XmlEvent::Other,
        Err(e) => XmlEvent::Error(e.to_string()),
    };
    src.pos = src.reader.buffer_position();
    src.seen.push(ev.clone());
    ev
}

/// Whether `evs` is the whole event stream of a document: it ends with
/// the end of the document or an error, and has neither before.
pub open spec fn complete_stream(evs: Seq<XmlEventView>) -> bool {
    &&& evs.len() >= 1
    &&& is_stop(evs.last())
    &&& forall|i: int| 0 <= i < evs.len() - 1 ==> !is_stop(#[trigger] evs[i])
}

/// Reads the events of `xml` up to and including the end of the
/// document or the first error.  White space around text is dropped,
/// so layout between elements produces no text.
pub fn read_xml_events(xml: &str) -> (res: Vec<XmlEvent>)
    ensures
        complete_stream(event_views(res@)),
        res@.len() <= xml_events_of(xml@).len(),
        event_views(res@) == xml_events_of(xml@).take(res@.len() as int),
{
    let mut src = open_xml(xml);
    let mut events: Vec<XmlEvent> = Vec::new();
    assert(event_views(events@) =~= event_views(src.seen@));
    loop
        invariant
            src.text@ == xml@,
            event_views(events@) == event_views(src.seen@),
            events@.len() == src.seen@.len(),
            forall|i: int| 0 <= i < events@.len() ==> !is_stop(#[trigger] event_views(events@)[i]),
        decreases u64::MAX - src.pos,
    {
        proof {
            if src.seen@.len() > 0 {
                assert(event_views(src.seen@)[src.seen@.len() - 1] == src.seen@.last()@);
                assert(event_views(events@)[events@.len() - 1] == src.seen@.last()@);
            }
        }
        let ev = read_xml_event(&mut src);
        let stop = match &ev {
            XmlEvent::Eof => true,
            XmlEvent::Error(_) => true,
            _ => false,
        };
        assert(stop == is_stop(ev@));
        let ghost before = events@;
        events.push(ev);
        assert(event_views(events@) =~= event_views(before).push(ev@));
        if stop {
            return events;
        }
    }
}

// ------------------------------------------------------------------
//  Element tree
// ------------------------------------------------------------------

/// An XML element, in a tree stored as a sequence of elements in
/// document order: each element names its parent by index.
#[derive(Debug, Clone)]
pub struct XmlElem {
    /// Local name (prefix removed).
    pub local_name: String,
    /// Default namespace (`xmlns`), declared or inherited.
    pub namespace: Option<String>,
    /// Non-blank text content, entities resolved.
    pub text: Option<String>,
    /// Index of the parent element; `None` for a top-level element.
    pub parent: Option<usize>,
    /// Whether the element was closed (or was an empty-element tag).
    pub closed: bool,
}

/// The elements of a subtree filter document, in document order.
#[derive(Debug, Clone)]
pub struct XmlTree {
    pub elems: Vec<XmlElem>,
}

/// The view of an optional string.
pub open spec fn opt_str(o: Option<String>) -> Option<Seq<char>> {
    match o {
        Some(s) => Some(s@),
        None => None,
    }
}

/// The view of an element: local name, namespace, text, parent, closed.
pub type ElemView = (Seq<char>, Option<Seq<char>>, Option<Seq<char>>, Option<int>, bool);

pub open spec fn elem_view(e: XmlElem) -> ElemView {
    (
        e.local_name@,
        opt_str(e.namespace),
        opt_str(e.text),
        match e.parent {
            Some(p) => Some(p as int),
            None => None,
        },
        e.closed,
    )
}

/// The views of the elements of a tree.
pub open spec fn elems_view(v: Seq<XmlElem>) -> Seq<ElemView> {
    v.map_values(|e: XmlElem| elem_view(e))
}

/// The attribute name `xmlns`.
pub open spec fn xmlns_name() -> Seq<char> {
    seq!['x', 'm', 'l', 'n', 's']
}

/// The default namespace a start tag declares: the value of its last
/// well-formed `xmlns` attribute among the first `n` (empty when that
/// value does not unescape).
pub open spec fn xmlns_upto(attrs: Seq<Option<AttrView>>, n: int) -> Option<Seq<char>>
    decreases n,
{
    if n <= 0 {
        None
    } else {
        match attrs[n - 1] {
            Some(a) => if a.0 == xmlns_name() {
                Some(
                    match a.1 {
                        Some(v) => v,
                        None => Seq::empty(),
                    },
                )
            } else {
                xmlns_upto(attrs, n - 1)
            },
            None => xmlns_upto(attrs, n - 1),
        }
    }
}

/// The text of one of the five predefined entities (empty for others).
pub open spec fn entity_text(name: Seq<char>) -> Seq<char> {
    if name == seq!['a', 'm', 'p'] {
        seq!['&']
    } else if name == seq!['l', 't'] {
        seq!['<']
    } else if name == seq!['g', 't'] {
        seq!['>']
    } else if name == seq!['q', 'u', 'o', 't'] {
        seq!['"']
    } else if name == seq!['a', 'p', 'o', 's'] {
        seq!['\'']
    } else {
        Seq::empty()
    }
}

/// Text appended to an element's text.
pub open spec fn with_text(text: Option<Seq<char>>, chunk: Seq<char>) -> Option<Seq<char>> {
    match text {
        Some(t) => Some(t + chunk),
        None => Some(chunk),
    }
}

/// Builder state: the elements so far and the stack of open elements.
pub type BuildState = (Seq<ElemView>, Seq<int>);

/// Adds text to the innermost open element (if any and if non-empty).
pub open spec fn add_text(st: BuildState, chunk: Seq<char>) -> BuildState {
    let (es, stack) = st;
    if stack.len() > 0 && chunk.len() > 0 {
        let top = stack.last();
        let e = es[top];
        (es.update(top, (e.0, e.1, with_text(e.2, chunk), e.3, e.4)), stack)
    } else {
        st
    }
}

/// A new element for a start tag (or empty-element tag) in state `st`.
pub open spec fn new_elem(st: BuildState, tag: TagView, closed: bool) -> ElemView {
    let (es, stack) = st;
    let declared = xmlns_upto(tag.1, tag.1.len() as int);
    let inherited = if stack.len() > 0 {
        es[stack.last()].1
    } else {
        None
    };
    (
        tag.0,
        match declared {
            Some(d) => Some(d),
            None => inherited,
        },
        None,
        if stack.len() > 0 {
            Some(stack.last())
        } else {
            None
        },
        closed,
    )
}

/// The builder state after one more event.
pub open spec fn build_step(st: BuildState, ev: XmlEventView) -> BuildState {
    let (es, stack) = st;
    match ev {
        XmlEventView::Start(tag) => (es.push(new_elem(st, tag, false)), stack.push(es.len() as int)),
        XmlEventView::Empty(tag) => (es.push(new_elem(st, tag, true)), stack),
        XmlEventView::Text(t) => add_text(st, trim(t)),
        XmlEventView::GeneralRef(name) => add_text(st, entity_text(name)),
        XmlEventView::End => if stack.len() > 0 {
            let top = stack.last();
            let e = es[top];
            (es.update(top, (e.0, e.1, e.2, e.3, true)), stack.drop_last())
        } else {
            st
        },
        _ => st,
    }
}

/// The builder state after the first `n` events.
pub open spec fn build_upto(evs: Seq<XmlEventView>, n: int) -> BuildState
    decreases n,
{
    if n <= 0 {
        (Seq::empty(), Seq::empty())
    } else {
        build_step(build_upto(evs, n - 1), evs[n - 1])
    }
}

/// Index of the first end-of-document or error event (`evs.len()` if none).
pub open spec fn stop_index(evs: Seq<XmlEventView>, i: int) -> int
    decreases evs.len() - i,
{
    if i < 0 || i >= evs.len() {
        evs.len() as int
    } else if is_stop(evs[i]) {
        i
    } else {
        stop_index(evs, i + 1)
    }
}

/// The message of the error for an XML syntax error.
pub open spec fn xml_error_message(m: Seq<char>) -> Seq<char> {
    "XML parse error: "@ + m
}

/// The element tree of an event stream, read up to its end or first
/// error; or the error's message.
pub open spec fn tree_of_events(evs: Seq<XmlEventView>) -> Result<Seq<ElemView>, Seq<char>> {
    let k = stop_index(evs, 0);
    if k < evs.len() && evs[k] is Error {
        Err(xml_error_message(evs[k]->Error_0))
    } else {
        Ok(build_upto(evs, k).0)
    }
}

/// Well-formedness of a builder state: parents come before children,
/// stacked elements exist and are increasing.
pub open spec fn build_wf(st: BuildState) -> bool {
    let (es, stack) = st;
    &&& forall|i: int| 0 <= i < es.len() ==> (#[trigger] es[i].3 matches Some(p) ==> 0 <= p < i)
    &&& forall|k: int| 0 <= k < stack.len() ==> 0 <= #[trigger] stack[k] < es.len()
}

fn copy_opt(o: &Option<String>) -> (res: Option<String>)
    ensures
        opt_str(res) == opt_str(*o),
{
    match o {
        Some(s) => Some(copy_str(s.as_str())),
        None => None,
    }
}

/// The namespace a start tag declares.
fn declared_ns(tag: &XmlTag) -> (res: Option<String>)
    ensures
        opt_str(res) == xmlns_upto(tag@.1, tag@.1.len() as int),
{
    let mut x = String::new();
    crate::text::push_char(&mut x, 'x');
    crate::text::push_char(&mut x, 'm');
    crate::text::push_char(&mut x, 'l');
    crate::text::push_char(&mut x, 'n');
    crate::text::push_char(&mut x, 's');
    assert(x@ =~= xmlns_name());
    let mut k = tag.attributes.len();
    while k > 0
        invariant
            0 <= k <= tag.attributes@.len(),
            x@ == xmlns_name(),
            xmlns_upto(tag@.1, tag@.1.len() as int) == xmlns_upto(tag@.1, k as int),
        decreases k,
    {
        assert(tag@.1[k - 1] == match tag.attributes@[k - 1] {
            Some(a) => Some(a@),
            None => None::<AttrView>,
        });
        match &tag.attributes[k - 1] {
            Some(a) => {
                if a.key == x {
                    return match &a.value {
                        Some(v) => Some(copy_str(v.as_str())),
                        None => Some(String::new()),
                    };
                }
            },
            None => {},
        }
        k = k - 1;
    }
    None
}

/// The text of an entity reference.
fn entity_text_of(name: &String) -> (res: String)
    ensures
        res@ == entity_text(name@),
{
    let cs = chars_of(name.as_str());
    let mut r = String::new();
    if cs.len() == 3 && cs[0] == 'a' && cs[1] == 'm' && cs[2] == 'p' {
        assert(cs@ =~= seq!['a', 'm', 'p']);
        crate::text::push_char(&mut r, '&');
    } else if cs.len() == 2 && cs[0] == 'l' && cs[1] == 't' {
        assert(cs@ =~= seq!['l', 't']);
        crate::text::push_char(&mut r, '<');
    } else if cs.len() == 2 && cs[0] == 'g' && cs[1] == 't' {
        assert(cs@ =~= seq!['g', 't']);
        crate::text::push_char(&mut r, '>');
    } else if cs.len() == 4 && cs[0] == 'q' && cs[1] == 'u' && cs[2] == 'o' && cs[3] == 't' {
        assert(cs@ =~= seq!['q', 'u', 'o', 't']);
        crate::text::push_char(&mut r, '"');
    } else if cs.len() == 4 && cs[0] == 'a' && cs[1] == 'p' && cs[2] == 'o' && cs[3] == 's' {
        assert(cs@ =~= seq!['a', 'p', 'o', 's']);
        crate::text::push_char(&mut r, '\'');
    } else {
        proof {
            if cs@ == seq!['a', 'm', 'p'] || cs@ == seq!['l', 't'] || cs@ == seq!['g', 't'] || cs@
                == seq!['q', 'u', 'o', 't'] || cs@ == seq!['a', 'p', 'o', 's'] {
                assert(cs@.len() >= 2);
                assert(cs@[0] == cs[0]);
            }
        }
    }
    assert(r@ =~= entity_text(name@));
    r
}

/// Adds `chunk` to the text of the innermost open element.
fn add_text_exec(elems: &mut Vec<XmlElem>, stack: &Vec<usize>, chunk: String)
    requires
        forall|k: int| 0 <= k < stack@.len() ==> #[trigger] stack@[k] < old(elems)@.len(),
    ensures
        elems_view(final(elems)@) == add_text(
            (elems_view(old(elems)@), stack@.map_values(|u: usize| u as int)),
            chunk@,
        ).0,
        final(elems)@.len() == old(elems)@.len(),
{
    let ghost sv = stack@.map_values(|u: usize| u as int);
    if stack.len() > 0 && !chunk.as_str().is_empty() {
        let top = stack[stack.len() - 1];
        assert(sv.last() == top as int);
        let e = &elems[top];
        let text = match &e.text {
            Some(t) => {
                let mut t2 = copy_str(t.as_str());
                push_str(&mut t2, chunk.as_str());
                t2
            },
            None => chunk,
        };
        let ne = XmlElem {
            local_name: copy_str(e.local_name.as_str()),
            namespace: copy_opt(&e.namespace),
            text: Some(text),
            parent: e.parent,
            closed: e.closed,
        };
        let ghost before = elems@;
        elems.set(top, ne);
        assert(elems_view(elems@) =~= elems_view(before).update(top as int, elem_view(ne)));
    }
}

fn is_eof(ev: &XmlEvent) -> (res: bool)
    ensures
        res == (*ev is Eof),
{
    match ev {
        XmlEvent::Eof => true,
        _ => false,
    }
}

/// Builds the element tree from an event stream, reading up to the end
/// of the document or the first error.
pub fn build_tree(events: &Vec<XmlEvent>) -> (res: Result<XmlTree, String>)
    ensures
        match res {
            Ok(t) => tree_of_events(event_views(events@)) == Ok::<Seq<ElemView>, Seq<char>>(
                elems_view(t.elems@),
            ),
            Err(e) => tree_of_events(event_views(events@)) == Err::<Seq<ElemView>, Seq<char>>(e@),
        },
        res matches Ok(t) ==> build_wf((elems_view(t.elems@), Seq::empty())),
{
    let mut elems: Vec<XmlElem> = Vec::new();
    let mut stack: Vec<usize> = Vec::new();
    let mut i: usize = 0;
    let ghost evs = event_views(events@);
    assert(elems_view(elems@) =~= Seq::<ElemView>::empty());
    assert(stack@.map_values(|u: usize| u as int) =~= Seq::<int>::empty());
    while i < events.len() && !is_eof(&events[i])
        invariant
            0 <= i <= events@.len(),
            forall|k: int| 0 <= k < stack@.len() ==> #[trigger] stack@[k] < elems@.len(),
            evs == event_views(events@),
            stop_index(evs, 0) == stop_index(evs, i as int),
            build_upto(evs, i as int) == (
                elems_view(elems@),
                stack@.map_values(|u: usize| u as int),
            ),
            build_wf(build_upto(evs, i as int)),
        decreases events@.len() - i,
    {
        let ghost st = build_upto(evs, i as int);
        let ghost sv = stack@.map_values(|u: usize| u as int);
        assert(evs[i as int] == events@[i as int]@);
        match &events[i] {
            XmlEvent::Eof => {},
            XmlEvent::Error(m) => {
                let mut msg = String::from_str("XML parse error: ");
                push_str(&mut msg, m.as_str());
                return Err(msg);
            },
            XmlEvent::Start(tag) => {
                let declared = declared_ns(tag);
                let ns = match declared {
                    Some(d) => Some(d),
                    None => if stack.len() > 0 {
                        copy_opt(&elems[stack[stack.len() - 1]].namespace)
                    } else {
                        None
                    },
                };
                let parent = if stack.len() > 0 {
                    Some(stack[stack.len() - 1])
                } else {
                    None
                };
                let idx = elems.len();
                let e = XmlElem {
                    local_name: copy_str(tag.local_name.as_str()),
                    namespace: ns,
                    text: None,
                    parent,
                    closed: false,
                };
                let ghost before = elems@;
                elems.push(e);
                stack.push(idx);
                proof {
                    assert(elems_view(elems@) =~= elems_view(before).push(elem_view(e)));
                    assert(stack@.map_values(|u: usize| u as int) =~= sv.push(idx as int));
                    assert(elem_view(e) == new_elem(st, tag@, false));
                }
            },
            XmlEvent::Empty(tag) => {
                let declared = declared_ns(tag);
                let ns = match declared {
                    Some(d) => Some(d),
                    None => if stack.len() > 0 {
                        copy_opt(&elems[stack[stack.len() - 1]].namespace)
                    } else {
                        None
                    },
                };
                let parent = if stack.len() > 0 {
                    Some(stack[stack.len() - 1])
                } else {
                    None
                };
                let e = XmlElem {
                    local_name: copy_str(tag.local_name.as_str()),
                    namespace: ns,
                    text: None,
                    parent,
                    closed: true,
                };
                let ghost before = elems@;
                elems.push(e);
                proof {
                    assert(elems_view(elems@) =~= elems_view(before).push(elem_view(e)));
                    assert(elem_view(e) == new_elem(st, tag@, true));
                }
            },
            XmlEvent::Text(t) => {
                let cs = chars_of(t.as_str());
                let chunk = trimmed(&cs, 0, cs.len());
                assert(cs@.subrange(0, cs@.len() as int) =~= cs@);
                add_text_exec(&mut elems, &stack, chunk);
            },
            XmlEvent::GeneralRef(name) => {
                let chunk = entity_text_of(name);
                add_text_exec(&mut elems, &stack, chunk);
            },
            XmlEvent::End => {
                if stack.len() > 0 {
                    let top = stack.pop().unwrap();
                    let e = &elems[top];
                    let ne = XmlElem {
                        local_name: copy_str(e.local_name.as_str()),
                        namespace: copy_opt(&e.namespace),
                        text: copy_opt(&e.text),
                        parent: e.parent,
                        closed: true,
                    };
                    let ghost before = elems@;
                    elems.set(top, ne);
                    proof {
                        assert(elems_view(elems@) =~= elems_view(before).update(
                            top as int,
                            elem_view(ne),
                        ));
                        assert(stack@.map_values(|u: usize| u as int) =~= sv.drop_last());
                    }
                }
            },
            XmlEvent::Other => {},
        }
        i = i + 1;
    }
    proof {
        if i < events.len() {
            assert(evs[i as int] == events@[i as int]@);
        }
        lemma_stop_index(evs, i as int);
    }
    Ok(XmlTree { elems })
}

proof fn lemma_stop_index(evs: Seq<XmlEventView>, i: int)
    requires
        0 <= i <= evs.len(),
        stop_index(evs, 0) == stop_index(evs, i),
        i < evs.len() ==> evs[i] is Eof,
    ensures
        stop_index(evs, 0) == i,
        !(i < evs.len() && evs[i] is Error),
{
}

// ------------------------------------------------------------------
//  Namespace resolution
// ------------------------------------------------------------------

/// An implemented YANG module and its XML namespace.
#[derive(Debug, Clone)]
pub struct NsModule {
    /// The module's namespace URI.
    pub namespace: String,
    /// The module's name.
    pub module: String,
}

/// The views of a namespace table: (namespace, module) pairs.
pub open spec fn ns_table_view(t: Seq<NsModule>) -> Seq<(Seq<char>, Seq<char>)> {
    t.map_values(|e: NsModule| (e.namespace@, e.module@))
}

/// The module of a namespace: the first entry for it.
pub open spec fn module_for_ns(tab: Seq<(Seq<char>, Seq<char>)>, ns: Seq<char>) -> Option<Seq<char>>
    decreases tab.len(),
{
    if tab.len() == 0 {
        None
    } else if tab[0].0 == ns {
        Some(tab[0].1)
    } else {
        module_for_ns(tab.drop_first(), ns)
    }
}

/// Resolve an XML namespace URI to its YANG module name.
fn resolve_ns(table: &Vec<NsModule>, ns_uri: &String) -> (res: Option<String>)
    ensures
        opt_str(res) == module_for_ns(ns_table_view(table@), ns_uri@),
{
    let ghost tv = ns_table_view(table@);
    let mut i: usize = 0;
    assert(tv.subrange(0, tv.len() as int) =~= tv);
    while i < table.len()
        invariant
            0 <= i <= table@.len(),
            tv == ns_table_view(table@),
            tv.len() == table@.len(),
            module_for_ns(tv, ns_uri@) == module_for_ns(tv.subrange(i as int, tv.len() as int), ns_uri@),
        decreases table@.len() - i,
    {
        let ghost rest = tv.subrange(i as int, tv.len() as int);
        if table[i].namespace == *ns_uri {
            return Some(copy_str(table[i].module.as_str()));
        }
        assert(rest.drop_first() =~= tv.subrange(i + 1, tv.len() as int));
        i = i + 1;
    }
    None
}

// ------------------------------------------------------------------
//  Subtree walk
// ------------------------------------------------------------------

/// Whether element `j` is a (closed) child of element `i`.
pub open spec fn is_child(es: Seq<ElemView>, j: int, i: int) -> bool {
    0 <= i < j < es.len() && es[j].3 == Some(i) && es[j].4
}

/// Whether element `i` has a child element.
pub open spec fn has_child(es: Seq<ElemView>, i: int) -> bool {
    exists|j: int| is_child(es, j, i)
}

/// Whether element `j` is a content-match node: non-blank text and no
/// child elements.
pub open spec fn is_content_match(es: Seq<ElemView>, j: int) -> bool {
    &&& es[j].2 matches Some(t) && trim(t).len() > 0
    &&& !has_child(es, j)
}

/// The message of the error for an element without namespace.
pub open spec fn no_ns_message(name: Seq<char>) -> Seq<char> {
    "no namespace for element '"@ + name + "'"@
}

/// The message of the error for a content-match child without namespace.
pub open spec fn no_ns_child_message(name: Seq<char>) -> Seq<char> {
    "no namespace for '"@ + name + "'"@
}

/// The message of the error for a namespace no module implements.
pub open spec fn unresolved_ns_message(ns: Seq<char>) -> Seq<char> {
    "cannot resolve namespace '"@ + ns + "'"@
}

/// The predicate for a content match: `[module:name=value]`.
pub open spec fn content_pred(module: Seq<char>, name: Seq<char>, value: Seq<char>) -> Seq<char> {
    seq!['['] + module + seq![':'] + name + seq!['='] + escaped(value) + seq![']']
}

/// The predicates of the content-match children of `i` among elements
/// `j..`, concatenated; or the first error.
pub open spec fn content_preds(
    es: Seq<ElemView>,
    tab: Seq<(Seq<char>, Seq<char>)>,
    i: int,
    j: int,
) -> Result<Seq<char>, Seq<char>>
    decreases es.len() - j,
{
    if j < 0 || j >= es.len() {
        Ok(Seq::empty())
    } else if is_child(es, j, i) && is_content_match(es, j) {
        match es[j].1 {
            None => Err(no_ns_child_message(es[j].0)),
            Some(ns) => match module_for_ns(tab, ns) {
                None => Err(unresolved_ns_message(ns)),
                Some(m) => match content_preds(es, tab, i, j + 1) {
                    Err(e) => Err(e),
                    Ok(r) => Ok(content_pred(m, es[j].0, es[j].2->0) + r),
                },
            },
        }
    } else {
        content_preds(es, tab, i, j + 1)
    }
}

/// Whether element `i` has a selection or containment child.
pub open spec fn has_selection(es: Seq<ElemView>, i: int) -> bool {
    exists|j: int| #[trigger] is_child(es, j, i) && !is_content_match(es, j)
}

/// The XPath branches of element `i` below `parent`; or the first error.
pub open spec fn walk(
    es: Seq<ElemView>,
    tab: Seq<(Seq<char>, Seq<char>)>,
    i: int,
    parent: Seq<char>,
) -> Result<Seq<Seq<char>>, Seq<char>>
    decreases es.len() - i, 1int, 0int,
{
    if i < 0 || i >= es.len() {
        Ok(Seq::empty())
    } else {
        match es[i].1 {
            None => Err(no_ns_message(es[i].0)),
            Some(ns) => match module_for_ns(tab, ns) {
                None => Err(unresolved_ns_message(ns)),
                Some(m) => {
                    let cur = parent + seq!['/'] + m + seq![':'] + es[i].0;
                    match content_preds(es, tab, i, i + 1) {
                        Err(e) => Err(e),
                        Ok(ps) => if !has_selection(es, i) {
                            Ok(seq![cur + ps])
                        } else {
                            walk_children(es, tab, i, cur + ps, i + 1)
                        },
                    }
                },
            },
        }
    }
}

/// The XPath branches of the selection and containment children of `i`
/// among elements `j..`, below `cur`; or the first error.
pub open spec fn walk_children(
    es: Seq<ElemView>,
    tab: Seq<(Seq<char>, Seq<char>)>,
    i: int,
    cur: Seq<char>,
    j: int,
) -> Result<Seq<Seq<char>>, Seq<char>>
    decreases es.len() - i, 0int, es.len() - j,
{
    if j <= i || j >= es.len() || i < 0 {
        Ok(Seq::empty())
    } else if is_child(es, j, i) && !is_content_match(es, j) {
        match walk(es, tab, j, cur) {
            Err(e) => Err(e),
            Ok(b) => match walk_children(es, tab, i, cur, j + 1) {
                Err(e) => Err(e),
                Ok(r) => Ok(b + r),
            },
        }
    } else {
        walk_children(es, tab, i, cur, j + 1)
    }
}

/// Whether element `j` has a child (exec).
fn has_child_exec(es: &Vec<XmlElem>, j: usize) -> (res: bool)
    requires
        j < es@.len(),
    ensures
        res == has_child(elems_view(es@), j as int),
{
    let ghost ev = elems_view(es@);
    let n = es.len();
    let mut k = j + 1;
    while k < es.len()
        invariant
            j < k <= es@.len(),
            ev == elems_view(es@),
            forall|m: int| j < m < k ==> !is_child(ev, m, j as int),
        decreases es@.len() - k,
    {
        assert(ev[k as int] == elem_view(es@[k as int]));
        if es[k].closed && es[k].parent == Some(j) {
            assert(is_child(ev, k as int, j as int));
            return true;
        }
        k = k + 1;
    }
    false
}

/// Whether element `j` is a content match (exec).
fn is_content_match_exec(es: &Vec<XmlElem>, j: usize) -> (res: bool)
    requires
        j < es@.len(),
    ensures
        res == is_content_match(elems_view(es@), j as int),
{
    let ghost ev = elems_view(es@);
    assert(ev[j as int] == elem_view(es@[j as int]));
    let has_text = match &es[j].text {
        Some(t) => {
            let cs = chars_of(t.as_str());
            let tt = trimmed(&cs, 0, cs.len());
            assert(cs@.subrange(0, cs@.len() as int) =~= cs@);
            !tt.as_str().is_empty()
        },
        None => false,
    };
    has_text && !has_child_exec(es, j)
}

/// Appends to `current` the predicates of the content-match children of
/// element `i`.
fn append_content_preds(
    es: &Vec<XmlElem>,
    table: &Vec<NsModule>,
    i: usize,
    current: &mut String,
) -> (res: Result<(), String>)
    requires
        i < es@.len(),
    ensures
        match content_preds(elems_view(es@), ns_table_view(table@), i as int, i + 1) {
            Ok(ps) => res is Ok && final(current)@ == old(current)@ + ps,
            Err(e) => res matches Err(m) && m@ == e,
        },
{
    let ghost ev = elems_view(es@);
    let ghost tab = ns_table_view(table@);
    let ghost start = current@;
    let mut preds = String::new();
    let n = es.len();
    let mut j = i + 1;
    while j < es.len()
        invariant
            i < j <= es@.len(),
            ev == elems_view(es@),
            tab == ns_table_view(table@),
            content_preds(ev, tab, i as int, i + 1) == match content_preds(ev, tab, i as int, j as int) {
                Ok(r) => Ok::<Seq<char>, Seq<char>>(preds@ + r),
                Err(e) => Err(e),
            },
        decreases es@.len() - j,
    {
        assert(ev[j as int] == elem_view(es@[j as int]));
        let child = &es[j];
        let is_cm = child.closed && child.parent == Some(i) && is_content_match_exec(es, j);
        assert(is_cm == (is_child(ev, j as int, i as int) && is_content_match(ev, j as int)));
        if is_cm {
            match &child.namespace {
                None => {
                    let mut m = String::from_str("no namespace for '");
                    push_str(&mut m, child.local_name.as_str());
                    push_str(&mut m, "'");
                    return Err(m);
                },
                Some(ns) => match resolve_ns(table, ns) {
                    None => {
                        let mut m = String::from_str("cannot resolve namespace '");
                        push_str(&mut m, ns.as_str());
                        push_str(&mut m, "'");
                        return Err(m);
                    },
                    Some(module) => {
                        let ghost before = preds@;
                        crate::text::push_char(&mut preds, '[');
                        push_str(&mut preds, module.as_str());
                        crate::text::push_char(&mut preds, ':');
                        push_str(&mut preds, child.local_name.as_str());
                        crate::text::push_char(&mut preds, '=');
                        let value = match &child.text {
                            Some(t) => copy_str(t.as_str()),
                            None => String::new(),
                        };
                        let q = escape_xpath_value(value.as_str());
                        push_str(&mut preds, q.as_str());
                        crate::text::push_char(&mut preds, ']');
                        assert(preds@ =~= before + content_pred(module@, child.local_name@, ev[j as int].2->0));
                        proof {
                            let r = content_preds(ev, tab, i as int, j + 1);
                            let pd = content_pred(module@, child.local_name@, ev[j as int].2->0);
                            assert(content_preds(ev, tab, i as int, j as int) == match r {
                                Err(e) => Err(e),
                                Ok(rr) => Ok::<Seq<char>, Seq<char>>(pd + rr),
                            });
                            match r {
                                Ok(rr) => {
                                    assert(before + (pd + rr) =~= preds@ + rr);
                                },
                                Err(_) => {},
                            }
                        }
                    },
                },
            }
        }
        j = j + 1;
    }
    push_str(current, preds.as_str());
    Ok(())
}

/// Whether element `i` has a selection or containment child (exec).
fn has_selection_exec(es: &Vec<XmlElem>, i: usize) -> (res: bool)
    requires
        i < es@.len(),
    ensures
        res == has_selection(elems_view(es@), i as int),
{
    let ghost ev = elems_view(es@);
    let n = es.len();
    let mut j = i + 1;
    while j < es.len()
        invariant
            i < j <= es@.len(),
            ev == elems_view(es@),
            forall|m: int| i < m < j ==> !(#[trigger] is_child(ev, m, i as int) && !is_content_match(ev, m)),
        decreases es@.len() - j,
    {
        assert(ev[j as int] == elem_view(es@[j as int]));
        if es[j].closed && es[j].parent == Some(i) && !is_content_match_exec(es, j) {
            assert(is_child(ev, j as int, i as int));
            return true;
        }
        j = j + 1;
    }
    false
}

/// Walk one XML element, appending its complete XPath branches.
fn walk_element(
    es: &Vec<XmlElem>,
    table: &Vec<NsModule>,
    i: usize,
    parent_xpath: &String,
    branches: &mut Vec<String>,
) -> (res: Result<(), String>)
    requires
        i < es@.len(),
    ensures
        match walk(elems_view(es@), ns_table_view(table@), i as int, parent_xpath@) {
            Ok(bs) => res is Ok && views(final(branches)@) == views(old(branches)@) + bs,
            Err(e) => res matches Err(m) && m@ == e,
        },
    decreases es@.len() - i,
{
    let ghost ev = elems_view(es@);
    let ghost tab = ns_table_view(table@);
    let elem = &es[i];
    assert(ev[i as int] == elem_view(es@[i as int]));
    let ns_uri = match &elem.namespace {
        Some(n) => n,
        None => {
            let mut m = String::from_str("no namespace for element '");
            push_str(&mut m, elem.local_name.as_str());
            push_str(&mut m, "'");
            return Err(m);
        },
    };
    let mod_name = match resolve_ns(table, ns_uri) {
        Some(m) => m,
        None => {
            let mut m = String::from_str("cannot resolve namespace '");
            push_str(&mut m, ns_uri.as_str());
            push_str(&mut m, "'");
            return Err(m);
        },
    };
    let mut current = copy_str(parent_xpath.as_str());
    crate::text::push_char(&mut current, '/');
    push_str(&mut current, mod_name.as_str());
    crate::text::push_char(&mut current, ':');
    push_str(&mut current, elem.local_name.as_str());
    let ghost cur = current@;
    assert(cur =~= parent_xpath@ + seq!['/'] + mod_name@ + seq![':'] + ev[i as int].0);
    match append_content_preds(es, table, i, &mut current) {
        Err(e) => {
            return Err(e);
        },
        Ok(()) => {},
    }
    if !has_selection_exec(es, i) {
        let ghost before = branches@;
        branches.push(current);
        assert(views(branches@) =~= views(before) + seq![current@]);
        return Ok(());
    }
    let ghost cur2 = current@;
    let ghost b0 = views(branches@);
    let n = es.len();
    let mut j = i + 1;
    proof {
        let cp = content_preds(ev, tab, i as int, i + 1);
        assert(cp matches Ok(ps) && cur2 == cur + ps);
        assert(has_selection(ev, i as int));
        assert(walk(ev, tab, i as int, parent_xpath@) == walk_children(ev, tab, i as int, cur2, i + 1));
    }
    assert(views(branches@) =~= b0 + Seq::<Seq<char>>::empty());
    while j < es.len()
        invariant
            i < j <= es@.len(),
            ev == elems_view(es@),
            tab == ns_table_view(table@),
            current@ == cur2,
            walk(ev, tab, i as int, parent_xpath@) == walk_children(ev, tab, i as int, cur2, i + 1),
            walk_children(ev, tab, i as int, cur2, i + 1) == match walk_children(
                ev,
                tab,
                i as int,
                cur2,
                j as int,
            ) {
                Ok(r) => Ok::<Seq<Seq<char>>, Seq<char>>(views(branches@).subrange(
                    b0.len() as int,
                    views(branches@).len() as int,
                ) + r),
                Err(e) => Err(e),
            },
            views(branches@).len() >= b0.len(),
            views(branches@).subrange(0, b0.len() as int) == b0,
        decreases es@.len() - j,
    {
        assert(ev[j as int] == elem_view(es@[j as int]));
        let ghost mid = views(branches@);
        let is_sel = es[j].closed && es[j].parent == Some(i) && !is_content_match_exec(es, j);
        assert(is_sel == (is_child(ev, j as int, i as int) && !is_content_match(ev, j as int)));
        if is_sel {
            proof {
                let w = walk(ev, tab, j as int, cur2);
                let r = walk_children(ev, tab, i as int, cur2, j + 1);
                assert(walk_children(ev, tab, i as int, cur2, j as int) == match w {
                    Err(e) => Err(e),
                    Ok(b) => match r {
                        Err(e) => Err(e),
                        Ok(rr) => Ok::<Seq<Seq<char>>, Seq<char>>(b + rr),
                    },
                });
            }
            match walk_element(es, table, j, &current, branches) {
                Err(e) => {
                    return Err(e);
                },
                Ok(()) => {
                    proof {
                        let nb = views(branches@);
                        assert(nb.subrange(0, b0.len() as int) =~= b0);
                        assert(nb.subrange(b0.len() as int, nb.len() as int) =~= mid.subrange(
                            b0.len() as int,
                            mid.len() as int,
                        ) + nb.subrange(mid.len() as int, nb.len() as int));
                        let w = walk(ev, tab, j as int, cur2);
                        let r = walk_children(ev, tab, i as int, cur2, j + 1);
                        assert(nb.subrange(mid.len() as int, nb.len() as int) =~= w->Ok_0);
                        match r {
                            Ok(rr) => {
                                assert(mid.subrange(b0.len() as int, mid.len() as int) + (w->Ok_0 + rr)
                                    =~= nb.subrange(b0.len() as int, nb.len() as int) + rr);
                            },
                            Err(_) => {},
                        }
                    }
                },
            }
        }
        j = j + 1;
    }
    proof {
        let nb = views(branches@);
        assert(nb =~= b0 + nb.subrange(b0.len() as int, nb.len() as int));
    }
    Ok(())
}


// ------------------------------------------------------------------
//  Normalization
// ------------------------------------------------------------------

/// The closed elements among the first `n` whose parent is `parent`, in
/// document order.
pub open spec fn members_upto(es: Seq<ElemView>, parent: Option<int>, n: int) -> Seq<int>
    decreases n,
{
    if n <= 0 {
        Seq::empty()
    } else if es[n - 1].3 == parent && es[n - 1].4 {
        members_upto(es, parent, n - 1).push(n - 1)
    } else {
        members_upto(es, parent, n - 1)
    }
}

/// The element name of the optional `<filter>` wrapper.
pub open spec fn filter_name() -> Seq<char> {
    seq!['f', 'i', 'l', 't', 'e', 'r']
}

/// The elements a filter selects from: the top-level elements, or, when
/// the only one is a `<filter>` wrapper, its children.
pub open spec fn top_elements(es: Seq<ElemView>) -> Seq<int> {
    let roots = members_upto(es, None, es.len() as int);
    if roots.len() == 1 && es[roots[0]].0 == filter_name() {
        members_upto(es, Some(roots[0]), es.len() as int)
    } else {
        roots
    }
}

/// The branches of the first `n` of `tops`, in order; or the first error.
pub open spec fn walk_all(
    es: Seq<ElemView>,
    tab: Seq<(Seq<char>, Seq<char>)>,
    tops: Seq<int>,
    n: int,
) -> Result<Seq<Seq<char>>, Seq<char>>
    decreases n,
{
    if n <= 0 {
        Ok(Seq::empty())
    } else {
        match walk_all(es, tab, tops, n - 1) {
            Err(e) => Err(e),
            Ok(r) => match walk(es, tab, tops[n - 1], Seq::empty()) {
                Err(e) => Err(e),
                Ok(b) => Ok(r + b),
            },
        }
    }
}

/// `s` with every repeated item removed, first occurrences kept in order.
pub open spec fn dedup(s: Seq<Seq<char>>) -> Seq<Seq<char>>
    decreases s.len(),
{
    if s.len() == 0 {
        s
    } else {
        let d = dedup(s.drop_last());
        if d.contains(s.last()) {
            d
        } else {
            d.push(s.last())
        }
    }
}

/// The separator between the XPath expressions of a union.
pub open spec fn union_sep() -> Seq<char> {
    seq![' ', '|', ' ']
}

/// The message of the error for a filter without data elements.
pub open spec fn no_elements_message() -> Seq<char> {
    "no data elements in subtree filter"@
}

/// The message of the error for a filter without branches.
pub open spec fn no_branches_message() -> Seq<char> {
    "subtree filter produced no branches"@
}

/// The XPath union a subtree filter tree normalizes to; or the error.
pub open spec fn normalized(es: Seq<ElemView>, tab: Seq<(Seq<char>, Seq<char>)>) -> Result<
    Seq<char>,
    Seq<char>,
> {
    let tops = top_elements(es);
    if tops.len() == 0 {
        Err(no_elements_message())
    } else {
        match walk_all(es, tab, tops, tops.len() as int) {
            Err(e) => Err(e),
            Ok(bs) => if dedup(bs).len() == 0 {
                Err(no_branches_message())
            } else {
                Ok(join(dedup(bs), union_sep()))
            },
        }
    }
}

/// The XPath union an XML event stream normalizes to; or the error.
pub open spec fn normalized_events(evs: Seq<XmlEventView>, tab: Seq<(Seq<char>, Seq<char>)>) -> Result<
    Seq<char>,
    Seq<char>,
> {
    match tree_of_events(evs) {
        Err(e) => Err(e),
        Ok(es) => normalized(es, tab),
    }
}

/// The ints of a sequence of indices.
pub open spec fn ints(v: Seq<usize>) -> Seq<int> {
    v.map_values(|u: usize| u as int)
}

/// The closed elements whose parent is `parent` (exec).
fn members(es: &Vec<XmlElem>, parent: Option<usize>) -> (res: Vec<usize>)
    ensures
        ints(res@) == members_upto(
            elems_view(es@),
            match parent {
                Some(p) => Some(p as int),
                None => None,
            },
            es@.len() as int,
        ),
        forall|k: int| 0 <= k < res@.len() ==> #[trigger] res@[k] < es@.len(),
{
    let ghost ev = elems_view(es@);
    let ghost pv = match parent {
        Some(p) => Some(p as int),
        None => None::<int>,
    };
    let mut res: Vec<usize> = Vec::new();
    let mut k: usize = 0;
    assert(ints(res@) =~= Seq::<int>::empty());
    while k < es.len()
        invariant
            0 <= k <= es@.len(),
            ev == elems_view(es@),
            pv == match parent {
                Some(p) => Some(p as int),
                None => None::<int>,
            },
            ints(res@) == members_upto(ev, pv, k as int),
            forall|m: int| 0 <= m < res@.len() ==> #[trigger] res@[m] < k,
        decreases es@.len() - k,
    {
        assert(ev[k as int] == elem_view(es@[k as int]));
        let same = match (es[k].parent, parent) {
            (Some(a), Some(b)) => a == b,
            (None, None) => true,
            _ => false,
        };
        assert(same == (ev[k as int].3 == pv));
        if same && es[k].closed {
            let ghost before = res@;
            res.push(k);
            assert(ints(res@) =~= ints(before).push(k as int));
        }
        k = k + 1;
    }
    res
}

/// Whether a name is `filter`.
fn is_filter_name(s: &String) -> (res: bool)
    ensures
        res == (s@ == filter_name()),
{
    let cs = chars_of(s.as_str());
    let r = cs.len() == 6 && cs[0] == 'f' && cs[1] == 'i' && cs[2] == 'l' && cs[3] == 't' && cs[4]
        == 'e' && cs[5] == 'r';
    proof {
        if r {
            assert(cs@ =~= filter_name());
        }
        if cs@ == filter_name() {
            assert(cs@[0] == 'f' && cs@[5] == 'r');
        }
    }
    r
}

/// The elements a filter selects from (exec).
fn top_elements_exec(es: &Vec<XmlElem>) -> (res: Vec<usize>)
    ensures
        ints(res@) == top_elements(elems_view(es@)),
        forall|k: int| 0 <= k < res@.len() ==> #[trigger] res@[k] < es@.len(),
{
    let roots = members(es, None);
    if roots.len() == 1 {
        assert(ints(roots@)[0] == roots@[0] as int);
        assert(elems_view(es@)[roots@[0] as int] == elem_view(es@[roots@[0] as int]));
        if is_filter_name(&es[roots[0]].local_name) {
            return members(es, Some(roots[0]));
        }
    }
    roots
}

proof fn lemma_walk_all_err(
    es: Seq<ElemView>,
    tab: Seq<(Seq<char>, Seq<char>)>,
    tops: Seq<int>,
    k: int,
    n: int,
)
    requires
        0 <= k <= n,
        walk_all(es, tab, tops, k) is Err,
    ensures
        walk_all(es, tab, tops, n) == walk_all(es, tab, tops, k),
    decreases n - k,
{
    if k < n {
        lemma_walk_all_err(es, tab, tops, k, n - 1);
    }
}

/// Whether `v` holds a string equal to `s`.
fn contains_string(v: &Vec<String>, s: &String) -> (res: bool)
    ensures
        res == views(v@).contains(s@),
{
    let mut k: usize = 0;
    while k < v.len()
        invariant
            0 <= k <= v@.len(),
            forall|m: int| 0 <= m < k ==> v@[m]@ != s@,
        decreases v@.len() - k,
    {
        if v[k] == *s {
            assert(views(v@)[k as int] == s@);
            return true;
        }
        k = k + 1;
    }
    proof {
        if views(v@).contains(s@) {
            let m = choose|m: int| 0 <= m < views(v@).len() && views(v@)[m] == s@;
            assert(v@[m]@ == s@);
        }
    }
    false
}

/// Removes repeated strings, keeping first occurrences in order.
fn dedup_strings(v: &Vec<String>) -> (res: Vec<String>)
    ensures
        views(res@) == dedup(views(v@)),
{
    let mut out: Vec<String> = Vec::new();
    let mut k: usize = 0;
    assert(views(v@).take(0) =~= Seq::<Seq<char>>::empty());
    assert(views(out@) =~= Seq::<Seq<char>>::empty());
    while k < v.len()
        invariant
            0 <= k <= v@.len(),
            views(out@) == dedup(views(v@).take(k as int)),
        decreases v@.len() - k,
    {
        let ghost prev = views(v@).take(k as int);
        let ghost next = views(v@).take(k + 1);
        assert(next.drop_last() =~= prev);
        assert(next.last() == v@[k as int]@);
        if !contains_string(&out, &v[k]) {
            let ghost before = out@;
            out.push(copy_str(v[k].as_str()));
            assert(views(out@) =~= views(before).push(v@[k as int]@));
        }
        k = k + 1;
    }
    assert(views(v@).take(v@.len() as int) =~= views(v@));
    out
}

/// Normalize a subtree filter, given as its element tree, to XPath.
///
/// Each top-level element (or, when the only one is a `<filter>`
/// wrapper, each of its children) is walked in turn; the branches are
/// deduplicated, keeping the first of equal ones, and joined by ` | `.
pub fn normalize_tree(table: &Vec<NsModule>, tree: &XmlTree) -> (res: Result<String, String>)
    ensures
        match normalized(elems_view(tree.elems@), ns_table_view(table@)) {
            Ok(x) => res matches Ok(s) && s@ == x,
            Err(e) => res matches Err(m) && m@ == e,
        },
{
    let es = &tree.elems;
    let ghost ev = elems_view(es@);
    let ghost tab = ns_table_view(table@);
    let tops = top_elements_exec(es);
    let ghost tv = ints(tops@);
    if tops.len() == 0 {
        return Err(String::from_str("no data elements in subtree filter"));
    }
    let empty = String::new();
    let mut branches: Vec<String> = Vec::new();
    let mut t: usize = 0;
    assert(views(branches@) =~= Seq::<Seq<char>>::empty());
    while t < tops.len()
        invariant
            0 <= t <= tops@.len(),
            ev == elems_view(es@),
            tab == ns_table_view(table@),
            tv == ints(tops@),
            tv == top_elements(ev),
            ev == elems_view(tree.elems@),
            empty@ == Seq::<char>::empty(),
            forall|k: int| 0 <= k < tops@.len() ==> #[trigger] tops@[k] < es@.len(),
            walk_all(ev, tab, tv, t as int) == Ok::<Seq<Seq<char>>, Seq<char>>(views(branches@)),
        decreases tops@.len() - t,
    {
        let ghost before = views(branches@);
        assert(tv[t as int] == tops@[t as int] as int);
        match walk_element(es, table, tops[t], &empty, &mut branches) {
            Err(e) => {
                proof {
                    assert(walk_all(ev, tab, tv, t + 1) == Err::<Seq<Seq<char>>, Seq<char>>(e@));
                    lemma_walk_all_err(ev, tab, tv, t + 1, tv.len() as int);
                    assert(top_elements(ev) == tv);
                    assert(walk_all(ev, tab, tv, tv.len() as int) == Err::<Seq<Seq<char>>, Seq<char>>(e@));
                    assert(normalized(ev, tab) == Err::<Seq<char>, Seq<char>>(e@));
                }
                return Err(e);
            },
            Ok(()) => {
                assert(views(branches@) =~= before + walk(ev, tab, tv[t as int], empty@)->Ok_0);
            },
        }
        t = t + 1;
    }
    let unique = dedup_strings(&branches);
    if unique.len() == 0 {
        return Err(String::from_str("subtree filter produced no branches"));
    }
    proof {
        reveal_strlit(" | ");
        assert(" | "@ =~= union_sep());
    }
    Ok(join_strings(&unique, " | "))
}

/// Normalize a subtree filter, given as its XML event stream, to XPath.
pub fn normalize_events(table: &Vec<NsModule>, events: &Vec<XmlEvent>) -> (res: Result<
    String,
    String,
>)
    ensures
        match normalized_events(event_views(events@), ns_table_view(table@)) {
            Ok(x) => res matches Ok(s) && s@ == x,
            Err(e) => res matches Err(m) && m@ == e,
        },
{
    match build_tree(events) {
        Err(e) => Err(e),
        Ok(tree) => normalize_tree(table, &tree),
    }
}

/// Normalize a YANG Push subtree filter (XML) to XPath expression(s).
///
/// `table` lists the implemented YANG modules with their namespaces.
/// The result is one or more absolute XPath expressions joined by
/// ` | `, each segment carrying the full module-name prefix.  It is an
/// error if the XML cannot be parsed, a namespace cannot be resolved,
/// or the filter has no data elements.
pub fn normalize_subtree(table: &Vec<NsModule>, subtree_xml: &str) -> (res: Result<String, String>)
    ensures
        match normalized_events(xml_events_of(subtree_xml@), ns_table_view(table@)) {
            Ok(x) => res matches Ok(s) && s@ == x,
            Err(e) => res matches Err(m) && m@ == e,
        },
{
    let events = read_xml_events(subtree_xml);
    let res = normalize_events(table, &events);
    proof {
        lemma_tree_of_stream_prefix(event_views(events@), xml_events_of(subtree_xml@));
    }
    res
}

proof fn lemma_stop_index_at(evs: Seq<XmlEventView>, i: int, k: int)
    requires
        0 <= i <= k < evs.len(),
        is_stop(evs[k]),
        forall|j: int| i <= j < k ==> !is_stop(#[trigger] evs[j]),
    ensures
        stop_index(evs, i) == k,
    decreases k - i,
{
    if i < k {
        lemma_stop_index_at(evs, i + 1, k);
    }
}

proof fn lemma_build_upto_prefix(a: Seq<XmlEventView>, b: Seq<XmlEventView>, n: int)
    requires
        0 <= n <= a.len(),
        n <= b.len(),
        forall|j: int| 0 <= j < n ==> a[j] == b[j],
    ensures
        build_upto(a, n) == build_upto(b, n),
    decreases n,
{
    if n > 0 {
        lemma_build_upto_prefix(a, b, n - 1);
    }
}

/// A complete stream that begins a longer one builds the same tree.
proof fn lemma_tree_of_stream_prefix(evs: Seq<XmlEventView>, all: Seq<XmlEventView>)
    requires
        complete_stream(evs),
        evs.len() <= all.len(),
        evs == all.take(evs.len() as int),
    ensures
        tree_of_events(evs) == tree_of_events(all),
{
    let k = evs.len() - 1;
    assert forall|j: int| 0 <= j < evs.len() implies evs[j] == all[j] by {
        assert(evs[j] == all.take(evs.len() as int)[j]);
    }
    assert(is_stop(evs[k]));
    lemma_stop_index_at(evs, 0, k);
    assert forall|j: int| 0 <= j < k implies !is_stop(#[trigger] all[j]) by {
        assert(all[j] == evs[j]);
        assert(!is_stop(evs[j]));
    }
    lemma_stop_index_at(all, 0, k);
    lemma_build_upto_prefix(evs, all, k);
}

// ------------------------------------------------------------------
//  Laws
// ------------------------------------------------------------------

/// Deduplication keeps exactly the branches it is given, each once: the
/// result holds the same strings as its input, and none of them twice.
pub proof fn law_dedup_same_branches_once(s: Seq<Seq<char>>)
    ensures
        forall|x: Seq<char>| dedup(s).contains(x) <==> s.contains(x),
        dedup(s).no_duplicates(),
    decreases s.len(),
{
    if s.len() > 0 {
        let p = s.drop_last();
        law_dedup_same_branches_once(p);
        let d = dedup(p);
        assert forall|x: Seq<char>| dedup(s).contains(x) <==> s.contains(x) by {
            if s.contains(x) {
                let i = choose|i: int| 0 <= i < s.len() && s[i] == x;
                if i < s.len() - 1 {
                    assert(p[i] == x);
                    assert(p.contains(x));
                }
            }
            if p.contains(x) {
                let i = choose|i: int| 0 <= i < p.len() && p[i] == x;
                assert(s[i] == x);
            }
            if dedup(s).contains(x) && !d.contains(x) {
                assert(dedup(s) == d.push(s.last()));
                let i = choose|i: int| 0 <= i < dedup(s).len() && dedup(s)[i] == x;
                if i < d.len() {
                    assert(d[i] == x);
                }
                assert(s[s.len() - 1] == x);
            }
            if d.contains(x) && !d.contains(s.last()) {
                let i = choose|i: int| 0 <= i < d.len() && d[i] == x;
                assert(d.push(s.last())[i] == x);
            }
            if x == s.last() && !d.contains(s.last()) {
                assert(d.push(s.last())[d.len() as int] == x);
            }
        }
    }
}

/// Whether a name is non-empty and holds neither white space nor any of
/// the characters that union splitting reacts to (brackets,
/// parentheses, quotes, `|`), as XML names and YANG module names do.
pub open spec fn plain_name(s: Seq<char>) -> bool {
    &&& s.len() > 0
    &&& forall|i: int| 0 <= i < s.len() ==> !scan_special(#[trigger] s[i]) && !is_ws(s[i])
}

/// Whether `s`, scanned from top level, comes back to top level and
/// holds no top-level `|`.
pub open spec fn branch_piece(s: Seq<char>) -> bool {
    &&& scan_from(scan_top(), s, s.len() as int) == scan_top()
    &&& forall|i: int|
        0 <= i < s.len() && s[i] == '|' ==> #[trigger] scan_from(scan_top(), s, i) != scan_top()
}

/// Whether `b` is `parent` followed by a branch piece that starts with
/// `/` and ends with a character other than white space.
pub open spec fn branch_below(parent: Seq<char>, b: Seq<char>) -> bool {
    &&& b.len() > parent.len()
    &&& b.subrange(0, parent.len() as int) == parent
    &&& b[parent.len() as int] == '/'
    &&& !is_ws(b.last())
    &&& branch_piece(b.subrange(parent.len() as int, b.len() as int))
}

proof fn lemma_branch_piece_concat(a: Seq<char>, b: Seq<char>)
    requires
        branch_piece(a),
        branch_piece(b),
    ensures
        branch_piece(a + b),
{
    let t = scan_top();
    lemma_scan_concat(t, a, b, b.len() as int);
    assert forall|i: int| 0 <= i < (a + b).len() && (a + b)[i] == '|' implies #[trigger] scan_from(
        t,
        a + b,
        i,
    ) != t by {
        if i < a.len() {
            lemma_scan_prefix(t, a, b, i);
            assert(a[i] == '|');
        } else {
            lemma_scan_concat(t, a, b, i - a.len());
            assert(b[i - a.len()] == '|');
        }
    }
}

proof fn lemma_branch_piece_inert(s: Seq<char>)
    requires
        scan_inert(s),
    ensures
        branch_piece(s),
{
    lemma_keeps_depth_inert(scan_top(), s);
    assert forall|i: int| 0 <= i < s.len() && s[i] == '|' implies #[trigger] scan_from(
        scan_top(),
        s,
        i,
    ) != scan_top() by {
        assert(!scan_special(s[i]));
    }
}

proof fn lemma_inert_concat(a: Seq<char>, b: Seq<char>)
    requires
        scan_inert(a),
        scan_inert(b),
    ensures
        scan_inert(a + b),
{
    assert forall|i: int| 0 <= i < (a + b).len() implies !scan_special(#[trigger] (a + b)[i]) by {
        if i < a.len() {
            assert((a + b)[i] == a[i]);
        } else {
            assert((a + b)[i] == b[i - a.len()]);
        }
    }
}

/// `module:name` between plain names is inert.
proof fn lemma_qname_inert(m: Seq<char>, name: Seq<char>)
    requires
        plain_name(m),
        plain_name(name),
    ensures
        scan_inert(m + seq![':'] + name),
{
    assert(scan_inert(m));
    assert(scan_inert(name));
    assert(scan_inert(seq![':']));
    lemma_inert_concat(m, seq![':']);
    lemma_inert_concat(m + seq![':'], name);
}

/// A content-match predicate is a branch piece that ends with `]`.
proof fn lemma_content_pred_piece(m: Seq<char>, name: Seq<char>, v: Seq<char>)
    requires
        plain_name(m),
        plain_name(name),
    ensures
        branch_piece(content_pred(m, name, v)),
        content_pred(m, name, v).last() == ']',
{
    let t = scan_top();
    let st1: UnionState = (1, 0, false, false);
    lemma_qname_inert(m, name);
    let q = m + seq![':'] + name;
    assert(scan_inert(seq!['=']));
    lemma_inert_concat(q, seq!['=']);
    let head = q + seq!['='];
    lemma_keeps_depth_inert(st1, head);
    lemma_keeps_depth_escaped(st1, v);
    lemma_keeps_depth_concat(st1, head, escaped(v));
    let inner = head + escaped(v);
    let s = content_pred(m, name, v);
    assert(s =~= seq!['['] + (inner + seq![']']));
    assert(scan_from(t, seq!['['], 0) == t);
    assert(scan_from(t, seq!['['], 1) == st1);
    assert forall|i: int| 0 <= i < s.len() && s[i] == '|' implies #[trigger] scan_from(t, s, i) != t by {
        if i == 0 {
            assert(s[0] == '[');
        } else if i < s.len() - 1 {
            lemma_scan_concat(t, seq!['['], inner + seq![']'], i - 1);
            lemma_scan_prefix(st1, inner, seq![']'], i - 1);
            assert(scan_from(st1, inner, i - 1).0 == 1);
        } else {
            assert(s[i] == ']');
        }
    }
    lemma_scan_concat(t, seq!['['], inner + seq![']'], inner.len() + 1int);
    lemma_scan_concat(st1, inner, seq![']'], 1);
    assert(scan_from(st1, inner, inner.len() as int) == st1);
    assert(scan_from(st1, seq![']'], 0) == st1);
    assert(scan_from(st1, seq![']'], 1) == t);
}

/// A table entry's module name, found for a namespace.
proof fn lemma_module_for_ns_in_table(tab: Seq<(Seq<char>, Seq<char>)>, ns: Seq<char>)
    ensures
        module_for_ns(tab, ns) matches Some(m) ==> exists|k: int| 0 <= k < tab.len() && tab[k].1 == m,
    decreases tab.len(),
{
    if tab.len() > 0 && tab[0].0 != ns {
        lemma_module_for_ns_in_table(tab.drop_first(), ns);
        if let Some(m) = module_for_ns(tab, ns) {
            let k = choose|k: int| 0 <= k < tab.drop_first().len() && tab.drop_first()[k].1 == m;
            assert(tab[k + 1].1 == m);
        }
    }
}

/// Whether the element names and the module names are plain names.
pub open spec fn names_plain(es: Seq<ElemView>, tab: Seq<(Seq<char>, Seq<char>)>) -> bool {
    &&& forall|i: int| 0 <= i < es.len() ==> plain_name(#[trigger] es[i].0)
    &&& forall|k: int| 0 <= k < tab.len() ==> plain_name(#[trigger] tab[k].1)
}

proof fn lemma_module_plain(tab: Seq<(Seq<char>, Seq<char>)>, ns: Seq<char>)
    requires
        forall|k: int| 0 <= k < tab.len() ==> plain_name(#[trigger] tab[k].1),
    ensures
        module_for_ns(tab, ns) matches Some(m) ==> plain_name(m),
{
    lemma_module_for_ns_in_table(tab, ns);
    if let Some(m) = module_for_ns(tab, ns) {
        let k = choose|k: int| 0 <= k < tab.len() && tab[k].1 == m;
        assert(plain_name(tab[k].1));
    }
}

proof fn lemma_content_preds_piece(
    es: Seq<ElemView>,
    tab: Seq<(Seq<char>, Seq<char>)>,
    i: int,
    j: int,
)
    requires
        names_plain(es, tab),
    ensures
        content_preds(es, tab, i, j) matches Ok(ps) ==> branch_piece(ps) && (ps.len() == 0
            || ps.last() == ']'),
    decreases es.len() - j,
{
    if 0 <= j < es.len() {
        lemma_content_preds_piece(es, tab, i, j + 1);
        if is_child(es, j, i) && is_content_match(es, j) {
            if let Some(ns) = es[j].1 {
                lemma_module_plain(tab, ns);
                if let Some(m) = module_for_ns(tab, ns) {
                    if let Ok(r) = content_preds(es, tab, i, j + 1) {
                        assert(plain_name(es[j].0));
                        lemma_content_pred_piece(m, es[j].0, es[j].2->0);
                        let pd = content_pred(m, es[j].0, es[j].2->0);
                        lemma_branch_piece_concat(pd, r);
                        if r.len() > 0 {
                            assert((pd + r).last() == r.last());
                        } else {
                            assert(pd + r =~= pd);
                        }
                    }
                }
            }
        }
    } else {
        lemma_branch_piece_inert(Seq::<char>::empty());
    }
}

/// Adding a branch piece that ends with a non-white-space character (or
/// nothing) to a branch below `parent` keeps it below `parent`.
proof fn lemma_branch_below_extend(parent: Seq<char>, a: Seq<char>, b: Seq<char>)
    requires
        branch_below(parent, a),
        branch_piece(b),
        b.len() > 0 ==> !is_ws(b.last()),
    ensures
        branch_below(parent, a + b),
{
    let s = a.subrange(parent.len() as int, a.len() as int);
    lemma_branch_piece_concat(s, b);
    assert((a + b).subrange(parent.len() as int, (a + b).len() as int) =~= s + b);
    assert((a + b).subrange(0, parent.len() as int) =~= a.subrange(0, parent.len() as int));
    if b.len() > 0 {
        assert((a + b).last() == b.last());
    } else {
        assert(a + b =~= a);
    }
}

proof fn lemma_walk_branches(
    es: Seq<ElemView>,
    tab: Seq<(Seq<char>, Seq<char>)>,
    i: int,
    parent: Seq<char>,
)
    requires
        names_plain(es, tab),
    ensures
        walk(es, tab, i, parent) matches Ok(bs) ==> forall|k: int|
            0 <= k < bs.len() ==> branch_below(parent, #[trigger] bs[k]),
    decreases es.len() - i, 1int, 0int,
{
    if 0 <= i < es.len() {
        if let Some(ns) = es[i].1 {
            lemma_module_plain(tab, ns);
            if let Some(m) = module_for_ns(tab, ns) {
                let seg = seq!['/'] + m + seq![':'] + es[i].0;
                let cur = parent + seq!['/'] + m + seq![':'] + es[i].0;
                assert(cur =~= parent + seg);
                assert(plain_name(es[i].0));
                lemma_qname_inert(m, es[i].0);
                assert(scan_inert(seq!['/']));
                lemma_inert_concat(seq!['/'], m + seq![':'] + es[i].0);
                assert(seg =~= seq!['/'] + (m + seq![':'] + es[i].0));
                lemma_branch_piece_inert(seg);
                assert(branch_below(parent, cur)) by {
                    assert(cur.subrange(0, parent.len() as int) =~= parent);
                    assert(cur.subrange(parent.len() as int, cur.len() as int) =~= seg);
                    assert(cur.last() == es[i].0.last());
                    assert(es[i].0.last() == es[i].0[es[i].0.len() - 1]);
                }
                lemma_content_preds_piece(es, tab, i, i + 1);
                if let Ok(ps) = content_preds(es, tab, i, i + 1) {
                    lemma_branch_below_extend(parent, cur, ps);
                    if has_selection(es, i) {
                        lemma_walk_children_branches(es, tab, i, cur + ps, i + 1);
                        if let Ok(bs) = walk_children(es, tab, i, cur + ps, i + 1) {
                            assert forall|k: int| 0 <= k < bs.len() implies branch_below(
                                parent,
                                #[trigger] bs[k],
                            ) by {
                                let b = bs[k];
                                let c = cur + ps;
                                assert(branch_below(c, b));
                                let rest = b.subrange(c.len() as int, b.len() as int);
                                assert(b =~= c + rest);
                                lemma_branch_below_extend(parent, c, rest);
                            }
                        }
                    } else {
                        assert(walk(es, tab, i, parent) == Ok::<Seq<Seq<char>>, Seq<char>>(
                            seq![cur + ps],
                        ));
                    }
                }
            }
        }
    }
}

proof fn lemma_walk_children_branches(
    es: Seq<ElemView>,
    tab: Seq<(Seq<char>, Seq<char>)>,
    i: int,
    cur: Seq<char>,
    j: int,
)
    requires
        names_plain(es, tab),
    ensures
        walk_children(es, tab, i, cur, j) matches Ok(bs) ==> forall|k: int|
            0 <= k < bs.len() ==> branch_below(cur, #[trigger] bs[k]),
    decreases es.len() - i, 0int, es.len() - j,
{
    if !(j <= i || j >= es.len() || i < 0) {
        lemma_walk_children_branches(es, tab, i, cur, j + 1);
        if is_child(es, j, i) && !is_content_match(es, j) {
            lemma_walk_branches(es, tab, j, cur);
            if let Ok(b) = walk(es, tab, j, cur) {
                if let Ok(r) = walk_children(es, tab, i, cur, j + 1) {
                    assert forall|k: int| 0 <= k < (b + r).len() implies branch_below(
                        cur,
                        #[trigger] (b + r)[k],
                    ) by {
                        if k < b.len() {
                            assert((b + r)[k] == b[k]);
                        } else {
                            assert((b + r)[k] == r[k - b.len()]);
                        }
                    }
                }
            }
        }
    }
}

proof fn lemma_walk_all_branches(
    es: Seq<ElemView>,
    tab: Seq<(Seq<char>, Seq<char>)>,
    tops: Seq<int>,
    n: int,
)
    requires
        names_plain(es, tab),
    ensures
        walk_all(es, tab, tops, n) matches Ok(bs) ==> forall|k: int|
            0 <= k < bs.len() ==> branch_below(Seq::empty(), #[trigger] bs[k]),
    decreases n,
{
    if n > 0 {
        lemma_walk_all_branches(es, tab, tops, n - 1);
        lemma_walk_branches(es, tab, tops[n - 1], Seq::empty());
        if let Ok(r) = walk_all(es, tab, tops, n - 1) {
            if let Ok(b) = walk(es, tab, tops[n - 1], Seq::empty()) {
                assert forall|k: int| 0 <= k < (r + b).len() implies branch_below(
                    Seq::empty(),
                    #[trigger] (r + b)[k],
                ) by {
                    if k < r.len() {
                        assert((r + b)[k] == r[k]);
                    } else {
                        assert((r + b)[k] == b[k - r.len()]);
                    }
                }
            }
        }
    }
}

/// A branch below the empty path can stand as a branch of a union.
proof fn lemma_branch_union_ok(b: Seq<char>)
    requires
        branch_below(Seq::empty(), b),
    ensures
        union_branch_ok(b),
{
    assert(b.subrange(0, b.len() as int) =~= b);
    assert(b[0] == '/');
    assert(!is_ws('/'));
    assert(trim_start(b) == b);
    assert(b.last() == b[b.len() - 1]);
    assert(trim_end(b) == b);
    lemma_union_state_is_scan(b, b.len() as int);
    assert forall|i: int| 0 <= i < b.len() implies !crate::xpath::is_union_sep(b, i) by {
        lemma_union_state_is_scan(b, i);
        if b[i] == '|' {
            assert(scan_from(scan_top(), b, i) != scan_top());
        }
    }
}

/// What Phase 1 emits, Phase 2 splits back into the same branches: for
/// element and module names that are plain names, splitting the
/// normalized union at its top-level `|` gives exactly the deduplicated
/// branches of the walk, content-match values with `|`, quotes or
/// brackets included.
pub proof fn law_normalized_union_splits_into_branches(
    es: Seq<ElemView>,
    tab: Seq<(Seq<char>, Seq<char>)>,
)
    requires
        names_plain(es, tab),
    ensures
        normalized(es, tab) matches Ok(x) ==> walk_all(
            es,
            tab,
            top_elements(es),
            top_elements(es).len() as int,
        ) matches Ok(bs) && union_branches(x) == dedup(bs),
{
    let tops = top_elements(es);
    lemma_walk_all_branches(es, tab, tops, tops.len() as int);
    if let Ok(bs) = walk_all(es, tab, tops, tops.len() as int) {
        law_dedup_same_branches_once(bs);
        let d = dedup(bs);
        assert forall|k: int| 0 <= k < d.len() implies union_branch_ok(#[trigger] d[k]) by {
            assert(d.contains(d[k]));
            assert(bs.contains(d[k]));
            let m = choose|m: int| 0 <= m < bs.len() && bs[m] == d[k];
            assert(branch_below(Seq::empty(), bs[m]));
            lemma_branch_union_ok(d[k]);
        }
        crate::xpath::law_split_union_of_join(d);
        assert(union_sep() == seq![' ', '|', ' ']);
    }
}

} // verus!
