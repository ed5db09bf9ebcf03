//! Reading XML documents event by event.

use vstd::prelude::*;
use vstd::string::*;
use vstd::utf8::*;
use quick_xml::events::{BytesStart, BytesText, Event};
use crate::bytes::copy_range;
use crate::text;
use crate::text::utf8_text;

verus! {

/// One event of an XML document.
pub enum XmlEvent {
    /// A start tag: its name and its attributes, each with key and value, or nothing for one
    /// that is not well formed.
    Start { name: Vec<u8>, attributes: Vec<Option<(Vec<u8>, Vec<u8>)>> },
    /// An end tag.
    End { name: Vec<u8> },
    /// Text with its escapes resolved, or nothing where they are not well formed.
    Text { text: Option<String> },
    /// Anything else: an empty-element tag, a comment, a declaration.
    Other,
}

/// An event as values.
#[verifier::ext_equal]
pub enum XmlEventView {
    Start { name: Seq<u8>, attributes: Seq<Option<(Seq<u8>, Seq<u8>)>> },
    End { name: Seq<u8> },
    Text { text: Option<Seq<char>> },
    Other,
}

/// Attributes as values.
pub open spec fn attribute_views(
    attributes: Seq<Option<(Vec<u8>, Vec<u8>)>>,
) -> Seq<Option<(Seq<u8>, Seq<u8>)>> {
    Seq::new(
        attributes.len(),
        |i: int|
            match attributes[i] {
                Some(pair) => Some((pair.0@, pair.1@)),
                None => None,
            },
    )
}

impl View for XmlEvent {
    type V = XmlEventView;

    open spec fn view(&self) -> XmlEventView {
        match self {
            XmlEvent::Start { name, attributes } => XmlEventView::Start {
                name: name@,
                attributes: attribute_views(attributes@),
            },
            XmlEvent::End { name } => XmlEventView::End { name: name@ },
            XmlEvent::Text { text } => XmlEventView::Text {
                text: match text {
                    Some(t) => Some(t@),
                    None => None,
                },
            },
            XmlEvent::Other => XmlEventView::Other,
        }
    }
}

/// Events as values.
pub open spec fn event_views(events: Seq<XmlEvent>) -> Seq<XmlEventView> {
    Seq::new(events.len(), |i: int| events[i]@)
}

// ---- what the reader gives ----

/// One event as it stands in the document.
pub enum RawEvent {
    /// A start tag: what stands between its brackets, and how many bytes of that are its name.
    Start { tag: Vec<u8>, name_len: usize },
    /// An end tag.
    End { name: Vec<u8> },
    /// Text with its escapes.
    Text { escaped: Vec<u8> },
    /// Anything else.
    Other,
}

/// An event as it stands in the document, as values.
#[verifier::ext_equal]
pub enum RawEventView {
    Start { tag: Seq<u8>, name_len: usize },
    End { name: Seq<u8> },
    Text { escaped: Seq<u8> },
    Other,
}

impl View for RawEvent {
    type V = RawEventView;

    open spec fn view(&self) -> RawEventView {
        match self {
            RawEvent::Start { tag, name_len } => RawEventView::Start { tag: tag@, name_len: *name_len },
            RawEvent::End { name } => RawEventView::End { name: name@ },
            RawEvent::Text { escaped } => RawEventView::Text { escaped: escaped@ },
            RawEvent::Other => RawEventView::Other,
        }
    }
}

/// The reader of the XML crate.
#[verifier::external_type_specification]
#[verifier::external_body]
#[verifier::reject_recursive_types(R)]
pub struct ExReader<R>(quick_xml::Reader<R>);

/// The events that a reader still gives, up to the end of its document or the first error.
pub uninterp spec fn pending_events(reader: quick_xml::Reader<&[u8]>) -> Seq<RawEventView>;

/// The events of a document, up to its end or the first error.
pub uninterp spec fn xml_events(content: Seq<char>) -> Seq<RawEventView>;

/// `quick_xml::Reader::from_str` makes a reader at the start of a document. Which events a
/// document has is left unsaid, but that they depend on its text alone.
#[verifier::external_body]
fn open_document(content: &str) -> (reader: quick_xml::Reader<&[u8]>)
    ensures
        pending_events(reader) == xml_events(content@),
{
    quick_xml::Reader::from_str(content)
}

/// `quick_xml::Reader::read_event_into` gives the next event of the document, or ends: at the
/// end of the document, or with an error. A start tag comes with the length of its name.
#[verifier::external_body]
fn next_event(reader: &mut quick_xml::Reader<&[u8]>) -> (event: Option<RawEvent>)
    ensures
        match event {
            Some(e) => {
                &&& pending_events(*old(reader)).len() > 0
                &&& e@ == pending_events(*old(reader))[0]
                &&& pending_events(*final(reader)) == pending_events(*old(reader)).skip(1)
            },
            None => pending_events(*old(reader)).len() == 0,
        },
{
    match reader.read_event_into(&mut Vec::new()) {
        Ok(Event::Start(e)) => Some(RawEvent::Start { tag: e.to_vec(), name_len: e.name().0.len() }),
        Ok(Event::End(e)) => Some(RawEvent::End { name: e.name().0.to_vec() }),
        Ok(Event::Text(e)) => Some(RawEvent::Text { escaped: e.to_vec() }),
        Ok(Event::Eof) | Err(_) => None,
        Ok(_) => Some(RawEvent::Other),
    }
}

// ---- resolving events ----

/// The attributes that `quick_xml`'s `BytesStart::attributes` gives of a tag whose first
/// `name_len` bytes are its name.
pub uninterp spec fn tag_attributes(tag: Seq<char>, name_len: nat) -> Seq<Option<(Seq<u8>, Seq<u8>)>>;

/// `quick_xml::events::BytesStart::attributes` gives the attributes of a tag in order, each as
/// key and value, or an error for one that is not well formed or whose key came before. Which
/// they are is left unsaid, but that they depend on the tag and the length of its name alone.
#[verifier::external_body]
fn attributes_in(tag: &str, name_len: usize) -> (attributes: Vec<Option<(Vec<u8>, Vec<u8>)>>)
    requires
        name_len <= encode_utf8(tag@).len(),
    ensures
        attribute_views(attributes@) == tag_attributes(tag@, name_len as nat),
{
    BytesStart::from_content(tag, name_len)
        .attributes()
        .map(|a| a.ok().map(|a| (a.key.0.to_vec(), a.value.to_vec())))
        .collect()
}

/// What `quick_xml`'s `BytesText::unescape` makes of text with an escape in it; nothing where an
/// escape is not one.
pub uninterp spec fn unescaped(escaped: Seq<char>) -> Option<Seq<char>>;

/// Text with its escapes resolved: text without an ampersand has none.
pub open spec fn plain_text(escaped: Seq<char>) -> Option<Seq<char>> {
    if escaped.contains('&') {
        unescaped(escaped)
    } else {
        Some(escaped)
    }
}

/// `quick_xml::events::BytesText::unescape` resolves the escapes in a text, or fails where one is
/// not well formed or not known. Text without an ampersand stays as it is. What is made of
/// other text is left unsaid, but that it depends on the text alone.
#[verifier::external_body]
fn unescape(escaped: &str) -> (plain: Option<String>)
    ensures
        match plain {
            Some(s) => (if escaped@.contains('&') { unescaped(escaped@) } else { Some(escaped@) })
                == Some(s@),
            None => escaped@.contains('&') && unescaped(escaped@) is None,
        },
{
    BytesText::from_escaped(escaped).unescape().ok().map(|s| s.to_string())
}

/// An event with its attributes taken apart and its escapes resolved.
pub open spec fn resolved(raw: RawEventView) -> XmlEventView {
    match raw {
        RawEventView::Start { tag, name_len } => {
            let tag_text = text::utf8_decoded(tag);
            XmlEventView::Start {
                name: if name_len <= tag.len() { tag.take(name_len as int) } else { tag },
                attributes: if name_len <= encode_utf8(tag_text).len() {
                    tag_attributes(tag_text, name_len as nat)
                } else {
                    Seq::empty()
                },
            }
        },
        RawEventView::End { name } => XmlEventView::End { name },
        RawEventView::Text { escaped } => XmlEventView::Text {
            text: plain_text(text::utf8_decoded(escaped)),
        },
        RawEventView::Other => XmlEventView::Other,
    }
}

/// The resolved events of a document.
pub open spec fn document_events(content: Seq<char>) -> Seq<XmlEventView> {
    xml_events(content).map_values(|raw: RawEventView| resolved(raw))
}

/// Takes the attributes of an event apart and resolves its escapes.
pub fn resolve(raw: RawEvent) -> (event: XmlEvent)
    ensures
        event@ == resolved(raw@),
{
    match raw {
        RawEvent::Start { tag, name_len } => {
            let end: usize = if name_len <= tag.len() {
                name_len
            } else {
                tag.len()
            };
            let name: Vec<u8> = copy_range(tag.as_slice(), 0, end);
            assert(name@ =~= if name_len <= tag@.len() { tag@.take(name_len as int) } else { tag@ });
            let tag_text: String = utf8_text(tag.as_slice());
            let attributes: Vec<Option<(Vec<u8>, Vec<u8>)>> = if name_len
                <= tag_text.as_str().as_bytes().len() {
                attributes_in(tag_text.as_str(), name_len)
            } else {
                Vec::new()
            };
            let event = XmlEvent::Start { name, attributes };
            assert(event@ =~= resolved(raw@));
            event
        },
        RawEvent::End { name } => XmlEvent::End { name },
        RawEvent::Text { escaped } => {
            let s: String = utf8_text(escaped.as_slice());
            XmlEvent::Text { text: unescape(s.as_str()) }
        },
        RawEvent::Other => XmlEvent::Other,
    }
}

/// Reads all events of a document, up to its end or the first error.
pub fn read_events(content: &str) -> (events: Vec<XmlEvent>)
    ensures
        event_views(events@) == document_events(content@),
{
    let mut reader = open_document(content);
    let mut events: Vec<XmlEvent> = Vec::new();
    let ghost all = xml_events(content@);
    let ghost done = document_events(content@);
    assert(all.skip(0) =~= all);
    loop
        invariant
            all == xml_events(content@),
            done == document_events(content@),
            events@.len() <= all.len(),
            event_views(events@) == done.take(events@.len() as int),
            pending_events(reader) == all.skip(events@.len() as int),
        decreases all.len() - events@.len(),
    {
        match next_event(&mut reader) {
            Some(raw) => {
                let ghost n = events@.len() as int;
                let event = resolve(raw);
                events.push(event);
                assert(event@ == done[n]);
                assert(event_views(events@) =~= done.take(n + 1));
                assert(all.skip(n).skip(1) =~= all.skip(n + 1));
            },
            None => {
                assert(event_views(events@) =~= done);
                return events;
            },
        }
    }
}

// ---- laws ----

/// Resolving keeps what an event is. The name of a start tag is the first bytes of what stands between
/// its brackets, an end tag keeps its name, and text without an ampersand is the text that its bytes
/// encode.
pub proof fn law_events_are_resolved(tag: Seq<u8>, name_len: usize, name: Seq<u8>, escaped: Seq<u8>)
    ensures
        ({
            let start = resolved(RawEventView::Start { tag, name_len });
            &&& start is Start
            &&& name_len <= tag.len() ==> start->Start_name == tag.subrange(0, name_len as int)
            &&& resolved(RawEventView::End { name }) == (XmlEventView::End { name })
            &&& !text::utf8_decoded(escaped).contains('&') ==> resolved(RawEventView::Text { escaped }) == (
            XmlEventView::Text { text: Some(text::utf8_decoded(escaped)) })
            &&& resolved(RawEventView::Other) == XmlEventView::Other
        }),
{
    if name_len <= tag.len() {
        assert(tag.take(name_len as int) =~= tag.subrange(0, name_len as int));
    }
}

/// A tag keeps the attributes that it has after its name, and text keeps what its escapes stand for.
pub proof fn law_attributes_and_escapes_are_kept(s: Seq<char>, name_len: usize)
    requires
        name_len <= encode_utf8(s).len(),
    ensures
        ({
            let bytes = encode_utf8(s);
            let start = resolved(RawEventView::Start { tag: bytes, name_len });
            let text = resolved(RawEventView::Text { escaped: bytes });
            &&& start->Start_attributes == tag_attributes(s, name_len as nat)
            &&& s.contains('&') ==> text->Text_text == unescaped(s)
            &&& !s.contains('&') ==> text->Text_text == Some(s)
        }),
{
    encode_utf8_valid_utf8(s);
    encode_utf8_decode_utf8(s);
}

/// A document has one resolved event for each event, in order.
pub proof fn law_documents_keep_their_events(content: Seq<char>, i: int)
    requires
        0 <= i < xml_events(content).len(),
    ensures
        document_events(content).len() == xml_events(content).len(),
        document_events(content)[i] == resolved(xml_events(content)[i]),
{
}

} // verus!
