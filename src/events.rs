//! The XML event list that the builders walk, and the two primitives they
//! are made of: finding the next child element and reading attributes.
use vstd::prelude::*;
use crate::error::{ErrorKind, TiledError};
use crate::text::text_is;
use xml::reader::XmlEvent as ReaderEvent;

verus! {

/// One attribute of an element: its local name and its text.
pub struct Attribute {
    pub name: String,
    pub value: String,
}

/// One event of the XML document, with names reduced to their local part.
pub enum XmlEvent {
    StartElement { name: String, attributes: Vec<Attribute> },
    EndElement { name: String },
    Characters(String),
    EndDocument,
    /// Whitespace, comments, declarations and the like.
    Other,
}

/// The events of the document in `b`, as the XML reader produces them; a
/// syntax error shows as the end of the document, and the list stops there.
pub uninterp spec fn xml_events_of(b: Seq<u8>) -> Seq<XmlEvent>;

/// Relies on xml::reader::EventReader: tokenises the bytes; each event is
/// moved into the library's own event type, and a reader error ends the list.
#[verifier::external_body]
pub(crate) fn read_events(b: &[u8]) -> (r: Vec<XmlEvent>)
    ensures
        r@ == xml_events_of(b@),
{
    let mut out = Vec::new();
    for ev in xml::reader::EventReader::new(b) {
        out.push(match ev {
            Ok(ReaderEvent::StartElement { name, attributes, .. }) => XmlEvent::StartElement {
                name: name.local_name,
                attributes: attributes.into_iter().map(|a| Attribute { name: a.name.local_name, value: a.value }).collect(),
            },
            Ok(ReaderEvent::EndElement { name }) => XmlEvent::EndElement { name: name.local_name },
            Ok(ReaderEvent::Characters(s)) => XmlEvent::Characters(s),
            Ok(ReaderEvent::EndDocument) | Err(_) => XmlEvent::EndDocument,
            Ok(_) => XmlEvent::Other,
        });
    }
    out
}

/// An event at which the search for the next child of the element `close`
/// stops: a start tag, the element's own end tag, or the end of the document.
pub open spec fn stops_at(e: XmlEvent, close: Seq<char>) -> bool {
    match e {
        XmlEvent::StartElement { .. } => true,
        XmlEvent::EndElement { name } => name@ == close,
        XmlEvent::EndDocument => true,
        _ => false,
    }
}

/// No event in `events[from..to]` stops the search.
pub open spec fn passes_over(events: Seq<XmlEvent>, from: int, to: int, close: Seq<char>) -> bool {
    forall|k: int| from <= k < to ==> !stops_at(#[trigger] events[k], close)
}

/// The document ends at `j`: the list runs out there, or holds its end.
pub open spec fn ends_at(events: Seq<XmlEvent>, j: int) -> bool {
    j == events.len() || (0 <= j < events.len() && events[j] is EndDocument)
}

/// Whether the event at `i` is a start tag named `tag`.
pub open spec fn is_start_of(events: Seq<XmlEvent>, i: int, tag: Seq<char>) -> bool {
    0 <= i < events.len() && match events[i] {
        XmlEvent::StartElement { name, .. } => name@ == tag,
        _ => false,
    }
}

/// What `next_child` does from `from`: the child start tag found (and the
/// cursor after it), the close tag (and the cursor after it), or the end.
pub open spec fn next_child_spec(
    events: Seq<XmlEvent>,
    from: int,
    close: Seq<char>,
    r: Result<Option<usize>, TiledError>,
    to: int,
) -> bool {
    match r {
        Ok(Some(i)) => {
            &&& i == to - 1
            &&& from <= i < events.len()
            &&& events[i as int] is StartElement
            &&& passes_over(events, from, i as int, close)
        },
        Ok(None) => {
            &&& from < to <= events.len()
            &&& events[to - 1] is EndElement
            &&& stops_at(events[to - 1], close)
            &&& passes_over(events, from, to - 1, close)
        },
        Err(e) => {
            &&& e is PrematureEnd
            &&& from <= to <= events.len()
            &&& ends_at(events, to)
            &&& passes_over(events, from, to, close)
        },
    }
}

/// Moves the cursor to the next child start tag inside the element `close`,
/// skipping any other event, and returns its index; or moves past the
/// element's end tag and returns none. Fails when the document ends first.
pub fn next_child(events: &Vec<XmlEvent>, pos: &mut usize, close: &str) -> (r: Result<
    Option<usize>,
    TiledError,
>)
    requires
        *old(pos) <= events@.len(),
    ensures
        *old(pos) <= *final(pos) <= events@.len(),
        next_child_spec(events@, *old(pos) as int, close@, r, *final(pos) as int),
{
    let ghost from = *pos as int;
    loop
        invariant
            from == *old(pos),
            from <= *pos <= events@.len(),
            passes_over(events@, from, *pos as int, close@),
        decreases events@.len() - *pos,
    {
        if *pos >= events.len() {
            return Err(TiledError::PrematureEnd("Document ended before we expected.".to_owned()));
        }
        let i = *pos;
        match &events[i] {
            XmlEvent::StartElement { .. } => {
                *pos = i + 1;
                return Ok(Some(i));
            },
            XmlEvent::EndElement { name } => {
                *pos = i + 1;
                if text_is(name.as_str(), close) {
                    return Ok(None);
                }
            },
            XmlEvent::EndDocument => {
                return Err(TiledError::PrematureEnd("Document ended before we expected.".to_owned()));
            },
            _ => {
                *pos = i + 1;
            },
        }
    }
}

/// How a builder consumes a child element: given the child's name, its
/// attributes and the index just after its start tag, the index just after
/// the child, or none when the child is malformed.
pub type ChildEnd = spec_fn(Seq<char>, Seq<Attribute>, int) -> Option<int>;

/// Where the body of the element `close`, read from `i`, ends: the index
/// just after its end tag, with each child start tag handed to `child`;
/// none when a child is malformed or the document ends first.
pub open spec fn body_end(events: Seq<XmlEvent>, i: int, close: Seq<char>, child: ChildEnd) -> Option<int>
    decreases events.len() - i,
{
    if i < 0 || i >= events.len() {
        None
    } else {
        match events[i] {
            XmlEvent::StartElement { name, attributes } => match child(name@, attributes@, i + 1) {
                Some(k) => if i < k <= events.len() {
                    body_end(events, k, close, child)
                } else {
                    None
                },
                None => None,
            },
            XmlEvent::EndElement { name } => if name@ == close {
                Some(i + 1)
            } else {
                body_end(events, i + 1, close, child)
            },
            XmlEvent::EndDocument => None,
            XmlEvent::Characters(_) => body_end(events, i + 1, close, child),
            XmlEvent::Other => body_end(events, i + 1, close, child),
        }
    }
}

/// The indices of the start tags named `tag` that the body of `close`, read
/// from `i`, hands to `child` as its own children, in document order.
pub open spec fn body_starts(events: Seq<XmlEvent>, i: int, close: Seq<char>, child: ChildEnd, tag: Seq<char>) -> Seq<int>
    decreases events.len() - i,
{
    if i < 0 || i >= events.len() {
        Seq::empty()
    } else {
        match events[i] {
            XmlEvent::StartElement { name, attributes } => match child(name@, attributes@, i + 1) {
                Some(k) => if i < k <= events.len() {
                    if name@ == tag {
                        seq![i] + body_starts(events, k, close, child, tag)
                    } else {
                        body_starts(events, k, close, child, tag)
                    }
                } else {
                    Seq::empty()
                },
                None => Seq::empty(),
            },
            XmlEvent::EndElement { name } => if name@ == close {
                Seq::empty()
            } else {
                body_starts(events, i + 1, close, child, tag)
            },
            XmlEvent::EndDocument => Seq::empty(),
            XmlEvent::Characters(_) => body_starts(events, i + 1, close, child, tag),
            XmlEvent::Other => body_starts(events, i + 1, close, child, tag),
        }
    }
}

/// Whether reading the body of `close` from `i` runs into the end of the
/// document before its end tag, with every child before that well formed.
pub open spec fn body_hits_end(events: Seq<XmlEvent>, i: int, close: Seq<char>, child: ChildEnd) -> bool
    decreases events.len() - i,
{
    if i < 0 || i >= events.len() {
        true
    } else {
        match events[i] {
            XmlEvent::StartElement { name, attributes } => match child(name@, attributes@, i + 1) {
                Some(k) => if i < k <= events.len() {
                    body_hits_end(events, k, close, child)
                } else {
                    false
                },
                None => false,
            },
            XmlEvent::EndElement { name } => if name@ == close {
                false
            } else {
                body_hits_end(events, i + 1, close, child)
            },
            XmlEvent::EndDocument => true,
            XmlEvent::Characters(_) => body_hits_end(events, i + 1, close, child),
            XmlEvent::Other => body_hits_end(events, i + 1, close, child),
        }
    }
}

proof fn lemma_hits_end_skip(events: Seq<XmlEvent>, a: int, b: int, close: Seq<char>, child: ChildEnd)
    requires
        0 <= a <= b <= events.len(),
        passes_over(events, a, b, close),
    ensures
        body_hits_end(events, a, close, child) == body_hits_end(events, b, close, child),
    decreases b - a,
{
    if a < b {
        assert(!stops_at(events[a], close));
        lemma_hits_end_skip(events, a + 1, b, close, child);
    }
}

/// One step of a builder's loop, for whether its body runs into the end of
/// the document.
pub proof fn lemma_hits_end_step(
    events: Seq<XmlEvent>,
    before: int,
    at: int,
    close: Seq<char>,
    child: ChildEnd,
    step: Result<Option<usize>, TiledError>,
)
    requires
        0 <= before <= at <= events.len(),
        next_child_spec(events, before, close, step, at),
    ensures
        step is Err ==> body_hits_end(events, before, close, child),
        step matches Ok(None) ==> !body_hits_end(events, before, close, child),
        step matches Ok(Some(i)) ==> body_hits_end(events, before, close, child) == body_hits_end(events, i as int, close, child),
{
    match step {
        Ok(Some(i)) => lemma_hits_end_skip(events, before, i as int, close, child),
        Ok(None) => lemma_hits_end_skip(events, before, at - 1, close, child),
        Err(_) => lemma_hits_end_skip(events, before, at, close, child),
    }
}

/// The first child start tag that the body of `close`, read from `i`,
/// cannot read, if the body fails there rather than at its end tag or at
/// the end of the document.
pub open spec fn body_fail(events: Seq<XmlEvent>, i: int, close: Seq<char>, child: ChildEnd) -> Option<int>
    decreases events.len() - i,
{
    if i < 0 || i >= events.len() {
        None
    } else {
        match events[i] {
            XmlEvent::StartElement { name, attributes } => match child(name@, attributes@, i + 1) {
                Some(k) => if i < k <= events.len() {
                    body_fail(events, k, close, child)
                } else {
                    Some(i)
                },
                None => Some(i),
            },
            XmlEvent::EndElement { name } => if name@ == close {
                None
            } else {
                body_fail(events, i + 1, close, child)
            },
            XmlEvent::EndDocument => None,
            XmlEvent::Characters(_) => body_fail(events, i + 1, close, child),
            XmlEvent::Other => body_fail(events, i + 1, close, child),
        }
    }
}

/// How a builder's error depends on a child that cannot be read: given the
/// child's name, attributes and the index after its start tag, the kind of
/// the child's error.
pub type ChildKind = spec_fn(Seq<char>, Seq<Attribute>, int) -> ErrorKind;

/// The kind of error of a body that cannot be read: that of its first
/// failing child, or a premature end.
pub open spec fn body_kind(events: Seq<XmlEvent>, i: int, close: Seq<char>, child: ChildEnd, kind: ChildKind) -> ErrorKind {
    match body_fail(events, i, close, child) {
        Some(k) => kind(events[k]->StartElement_name@, events[k]->StartElement_attributes@, k + 1),
        None => ErrorKind::PrematureEnd,
    }
}

proof fn lemma_fail_skip(events: Seq<XmlEvent>, a: int, b: int, close: Seq<char>, child: ChildEnd)
    requires
        0 <= a <= b <= events.len(),
        passes_over(events, a, b, close),
    ensures
        body_fail(events, a, close, child) == body_fail(events, b, close, child),
    decreases b - a,
{
    if a < b {
        assert(!stops_at(events[a], close));
        lemma_fail_skip(events, a + 1, b, close, child);
    }
}

/// One step of a builder's loop, for where its body first fails.
pub proof fn lemma_fail_step(
    events: Seq<XmlEvent>,
    before: int,
    at: int,
    close: Seq<char>,
    child: ChildEnd,
    step: Result<Option<usize>, TiledError>,
)
    requires
        0 <= before <= at <= events.len(),
        next_child_spec(events, before, close, step, at),
    ensures
        step is Err ==> body_fail(events, before, close, child) is None,
        step matches Ok(Some(i)) ==> body_fail(events, before, close, child) == body_fail(events, i as int, close, child),
{
    match step {
        Ok(Some(i)) => lemma_fail_skip(events, before, i as int, close, child),
        Ok(None) => {},
        Err(_) => lemma_fail_skip(events, before, at, close, child),
    }
}

/// Events that `next_child` passes over hold no child of the body.
pub proof fn lemma_starts_skip(events: Seq<XmlEvent>, a: int, b: int, close: Seq<char>, child: ChildEnd, tag: Seq<char>)
    requires
        0 <= a <= b <= events.len(),
        passes_over(events, a, b, close),
    ensures
        body_starts(events, a, close, child, tag) == body_starts(events, b, close, child, tag),
    decreases b - a,
{
    if a < b {
        assert(!stops_at(events[a], close));
        lemma_starts_skip(events, a + 1, b, close, child, tag);
    }
}

/// Events that `next_child` passes over do not change where a body ends.
pub proof fn lemma_body_skip(events: Seq<XmlEvent>, a: int, b: int, close: Seq<char>, child: ChildEnd)
    requires
        0 <= a <= b <= events.len(),
        passes_over(events, a, b, close),
    ensures
        body_end(events, a, close, child) == body_end(events, b, close, child),
    decreases b - a,
{
    if a < b {
        assert(!stops_at(events[a], close));
        lemma_body_skip(events, a + 1, b, close, child);
    }
}

/// One step of a builder's loop: from `before`, `next_child` gave `step`
/// and left the cursor at `at`. Where the body ends, it ends as seen from
/// `at`, past any start tag found; a failed step means the body has no end.
pub proof fn lemma_body_step(
    events: Seq<XmlEvent>,
    before: int,
    at: int,
    close: Seq<char>,
    child: ChildEnd,
    step: Result<Option<usize>, TiledError>,
)
    requires
        0 <= before <= at <= events.len(),
        next_child_spec(events, before, close, step, at),
    ensures
        step is Err ==> body_end(events, before, close, child) is None,
        step matches Ok(None) ==> body_end(events, before, close, child) == Some(at),
        step matches Ok(Some(i)) ==> body_end(events, before, close, child) == body_end(events, i as int, close, child),
{
    match step {
        Ok(Some(i)) => lemma_body_skip(events, before, i as int, close, child),
        Ok(None) => lemma_body_skip(events, before, at - 1, close, child),
        Err(_) => lemma_body_skip(events, before, at, close, child),
    }
}

/// One step of a builder's loop, for the children it collects: a start tag
/// found is the next place a child can stand; the close tag ends the list.
pub proof fn lemma_starts_step(
    events: Seq<XmlEvent>,
    before: int,
    at: int,
    close: Seq<char>,
    child: ChildEnd,
    tag: Seq<char>,
    step: Result<Option<usize>, TiledError>,
)
    requires
        0 <= before <= at <= events.len(),
        next_child_spec(events, before, close, step, at),
    ensures
        step matches Ok(None) ==> body_starts(events, before, close, child, tag) == Seq::<int>::empty(),
        step matches Ok(Some(i)) ==> body_starts(events, before, close, child, tag) == body_starts(events, i as int, close, child, tag),
{
    match step {
        Ok(Some(i)) => lemma_starts_skip(events, before, i as int, close, child, tag),
        Ok(None) => lemma_starts_skip(events, before, at - 1, close, child, tag),
        Err(_) => {},
    }
}

/// The value of the last attribute named `name`, if there is one.
pub open spec fn attr_value(attrs: Seq<Attribute>, name: Seq<char>) -> Option<Seq<char>>
    decreases attrs.len(),
{
    if attrs.len() == 0 {
        None
    } else if attrs.last().name@ == name {
        Some(attrs.last().value@)
    } else {
        attr_value(attrs.drop_last(), name)
    }
}

/// Looks up the attribute `name`; where it is given more than once, the last
/// one counts.
pub fn get_attr<'a>(attrs: &'a Vec<Attribute>, name: &str) -> (r: Option<&'a String>)
    ensures
        match r {
            Some(v) => attr_value(attrs@, name@) == Some(v@),
            None => attr_value(attrs@, name@) is None,
        },
{
    let mut found: Option<&'a String> = None;
    let mut i: usize = 0;
    while i < attrs.len()
        invariant
            i <= attrs@.len(),
            match found {
                Some(v) => attr_value(attrs@.subrange(0, i as int), name@) == Some(v@),
                None => attr_value(attrs@.subrange(0, i as int), name@) is None,
            },
        decreases attrs@.len() - i,
    {
        assert(attrs@.subrange(0, i + 1).drop_last() =~= attrs@.subrange(0, i as int));
        if text_is(attrs[i].name.as_str(), name) {
            found = Some(&attrs[i].value);
        }
        i = i + 1;
    }
    assert(attrs@.subrange(0, i as int) =~= attrs@);
    found
}

} // verus!
