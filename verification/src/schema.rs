//! Schemas: which services there are, which messages they have, and the fields of those.

use std::collections::HashMap;
use vstd::prelude::*;
use vstd::string::*;
use crate::text;
use crate::text::{contains_text, ends_with_text, parse_u8, same_text, text_of, trim, utf8_text};
use crate::xml;
use crate::xml::{read_events, XmlEvent};

verus! {

broadcast use vstd::std_specs::hash::group_hash_axioms;

/// A single DML field definition.
#[derive(Debug, Clone)]
pub struct DmlField {
    pub name: String,
    pub field_type: String,
}

/// A single DML message definition.
#[derive(Debug, Clone)]
pub struct DmlMessageDef {
    pub name: String,
    pub description: String,
    pub order: u8,
    pub fields: Vec<DmlField>,
}

/// A DML service (one XML file).
#[derive(Debug, Clone)]
pub struct DmlService {
    pub name: String,
    pub service_id: u8,
    pub messages: Vec<DmlMessageDef>,
}

/// Complete schema registry mapping (service_id, message_id) -> message definition.
#[derive(Debug, Clone)]
pub struct SchemaRegistry {
    pub services: HashMap<u8, DmlService>,
}

// ---- the model ----

/// A field definition as values.
#[verifier::ext_equal]
pub struct DmlFieldView {
    pub name: Seq<char>,
    pub field_type: Seq<char>,
}

/// A message definition as values.
#[verifier::ext_equal]
pub struct DmlMessageView {
    pub name: Seq<char>,
    pub description: Seq<char>,
    pub order: u8,
    pub fields: Seq<DmlFieldView>,
}

/// A service as values.
#[verifier::ext_equal]
pub struct DmlServiceView {
    pub name: Seq<char>,
    pub service_id: u8,
    pub messages: Seq<DmlMessageView>,
}

impl View for DmlField {
    type V = DmlFieldView;

    open spec fn view(&self) -> DmlFieldView {
        DmlFieldView { name: self.name@, field_type: self.field_type@ }
    }
}

/// Field definitions as values.
pub open spec fn field_views(fields: Seq<DmlField>) -> Seq<DmlFieldView> {
    Seq::new(fields.len(), |i: int| fields[i]@)
}

impl View for DmlMessageDef {
    type V = DmlMessageView;

    open spec fn view(&self) -> DmlMessageView {
        DmlMessageView {
            name: self.name@,
            description: self.description@,
            order: self.order,
            fields: field_views(self.fields@),
        }
    }
}

/// Message definitions as values.
pub open spec fn def_views(messages: Seq<DmlMessageDef>) -> Seq<DmlMessageView> {
    Seq::new(messages.len(), |i: int| messages[i]@)
}

impl View for DmlService {
    type V = DmlServiceView;

    open spec fn view(&self) -> DmlServiceView {
        DmlServiceView {
            name: self.name@,
            service_id: self.service_id,
            messages: def_views(self.messages@),
        }
    }
}

impl View for SchemaRegistry {
    type V = Map<u8, DmlServiceView>;

    open spec fn view(&self) -> Map<u8, DmlServiceView> {
        self.services@.map_values(|service: DmlService| service@)
    }
}

/// The first of these messages whose order is `message_id`.
pub open spec fn message_with_order(messages: Seq<DmlMessageView>, message_id: u8) -> Option<
    DmlMessageView,
>
    decreases messages.len(),
{
    if messages.len() == 0 {
        None
    } else if messages[0].order == message_id {
        Some(messages[0])
    } else {
        message_with_order(messages.skip(1), message_id)
    }
}

/// The definition of a message, if its service is known and has it.
pub open spec fn definition_in(
    services: Map<u8, DmlServiceView>,
    service_id: u8,
    message_id: u8,
) -> Option<DmlMessageView> {
    if services.dom().contains(service_id) {
        message_with_order(services[service_id].messages, message_id)
    } else {
        None
    }
}

// ---- looking things up ----

impl SchemaRegistry {
    /// A registry without services.
    pub fn new() -> (r: Self)
        ensures
            r@ == Map::<u8, DmlServiceView>::empty(),
    {
        let r = SchemaRegistry { services: HashMap::new() };
        assert(r@ =~= Map::<u8, DmlServiceView>::empty());
        r
    }

    /// Looks up a message name by service_id and message_id.
    pub fn get_message_name(&self, service_id: u8, message_id: u8) -> (r: Option<&str>)
        ensures
            match definition_in(self@, service_id, message_id) {
                Some(def) => r matches Some(name) && name@ == def.name,
                None => r is None,
            },
    {
        match self.get_message_def(service_id, message_id) {
            Some(def) => Some(def.name.as_str()),
            None => None,
        }
    }

    /// Looks up a service name by ID.
    pub fn get_service_name(&self, service_id: u8) -> (r: Option<&str>)
        ensures
            r is Some <==> self@.dom().contains(service_id),
            r matches Some(name) ==> name@ == self@[service_id].name,
    {
        match self.services.get(&service_id) {
            Some(service) => Some(service.name.as_str()),
            None => None,
        }
    }

    /// Gets the message definition for field-level decoding.
    pub fn get_message_def(&self, service_id: u8, message_id: u8) -> (r: Option<&DmlMessageDef>)
        ensures
            match definition_in(self@, service_id, message_id) {
                Some(def) => r matches Some(found) && found@ == def,
                None => r is None,
            },
    {
        match self.services.get(&service_id) {
            None => None,
            Some(service) => {
                let messages = &service.messages;
                let ghost views = def_views(messages@);
                assert(views == self@[service_id].messages);
                let mut i: usize = 0;
                assert(views.skip(0) =~= views);
                while i < messages.len()
                    invariant
                        i <= messages@.len(),
                        views == def_views(messages@),
                        definition_in(self@, service_id, message_id) == message_with_order(
                            views,
                            message_id,
                        ),
                        message_with_order(views, message_id) == message_with_order(
                            views.skip(i as int),
                            message_id,
                        ),
                    decreases messages@.len() - i,
                {
                    assert(views.skip(i as int)[0] == messages@[i as int]@);
                    if messages[i].order == message_id {
                        return Some(&messages[i]);
                    }
                    assert(views.skip(i as int).skip(1) =~= views.skip(i + 1));
                    i += 1;
                }
                None
            },
        }
    }

    /// Takes a service in, in place of one with the same number.
    pub fn insert(&mut self, service: DmlService)
        ensures
            final(self)@ == old(self)@.insert(service.service_id, service@),
    {
        let ghost key = service.service_id;
        let ghost value = service@;
        self.services.insert(service.service_id, service);
        assert(self@ =~= old(self)@.insert(key, value));
    }
}

// ---- reading a schema document ----

/// How far a schema document has been read.
#[verifier::ext_equal]
pub struct DocumentView {
    /// The service's name as the document gives it; empty while it gives none.
    pub service_name: Seq<char>,
    pub service_id: u8,
    /// The messages of the records that are closed.
    pub messages: Seq<DmlMessageView>,
    /// The message of the record that is open.
    pub record: Option<DmlMessageView>,
    /// The tag that started last.
    pub element: Seq<char>,
    /// The order of the next message that gives none itself.
    pub counter: u8,
}

/// Before the first event.
pub open spec fn document_start() -> DocumentView {
    DocumentView {
        service_name: Seq::empty(),
        service_id: 0,
        messages: Seq::empty(),
        record: None,
        element: Seq::empty(),
        counter: 1,
    }
}

/// The message of a record that has just been opened.
pub open spec fn empty_record() -> DmlMessageView {
    DmlMessageView { name: Seq::empty(), description: Seq::empty(), order: 0, fields: Seq::empty() }
}

/// Whether a tag inside a record describes the message itself and is not a field.
pub open spec fn is_message_tag(tag: Seq<char>) -> bool {
    ||| tag == "_MsgName"@
    ||| tag == "_MsgDescription"@
    ||| tag == "_MsgHandler"@
    ||| tag == "_MsgAccessLvl"@
    ||| tag == "_MsgOrder"@
}

/// The key of the attribute that gives a field's type.
pub open spec fn type_key() -> Seq<u8> {
    seq![0x54u8, 0x59u8, 0x50u8, 0x45u8]
}

/// The value of the last attribute `TYPE`, or the tag where there is none.
pub open spec fn field_type_of(
    tag: Seq<char>,
    attributes: Seq<Option<(Seq<u8>, Seq<u8>)>>,
) -> Seq<char>
    decreases attributes.len(),
{
    if attributes.len() == 0 {
        tag
    } else {
        match attributes.last() {
            Some(pair) if pair.0 == type_key() => text::utf8_decoded(pair.1),
            _ => field_type_of(tag, attributes.drop_last()),
        }
    }
}

/// The number in a text, white space round it aside, or zero where it holds none.
pub open spec fn number_or_zero(s: Seq<char>) -> u8 {
    match text::parsed_u8(text::trimmed(s)) {
        Some(n) => n,
        None => 0,
    }
}

/// After a start tag: `RECORD` opens a message; a tag inside a record is a field, unless it
/// describes the message itself.
pub open spec fn after_start(
    doc: DocumentView,
    name: Seq<u8>,
    attributes: Seq<Option<(Seq<u8>, Seq<u8>)>>,
) -> DocumentView {
    let tag = text::utf8_decoded(name);
    if tag == "RECORD"@ {
        DocumentView { element: tag, record: Some(empty_record()), ..doc }
    } else {
        match doc.record {
            Some(record) if !is_message_tag(tag) => DocumentView {
                element: tag,
                record: Some(
                    DmlMessageView {
                        fields: record.fields.push(
                            DmlFieldView { name: tag, field_type: field_type_of(tag, attributes) },
                        ),
                        ..record
                    },
                ),
                ..doc
            },
            _ => DocumentView { element: tag, ..doc },
        }
    }
}

/// After text: it belongs to the tag that started last.
pub open spec fn after_text(doc: DocumentView, s: Seq<char>) -> DocumentView {
    if doc.element == "_MsgName"@ {
        match doc.record {
            Some(record) => DocumentView {
                record: Some(DmlMessageView { name: s, ..record }),
                ..doc
            },
            None => doc,
        }
    } else if doc.element == "_MsgDescription"@ {
        match doc.record {
            Some(record) => DocumentView {
                record: Some(DmlMessageView { description: s, ..record }),
                ..doc
            },
            None => doc,
        }
    } else if doc.element == "_MsgOrder"@ {
        match doc.record {
            Some(record) => DocumentView {
                record: Some(DmlMessageView { order: number_or_zero(s), ..record }),
                ..doc
            },
            None => doc,
        }
    } else if doc.element == "ServiceID"@ || doc.element == "_ServiceID"@ {
        DocumentView { service_id: number_or_zero(s), ..doc }
    } else if doc.element == "ProtocolType"@ || doc.element == "_ProtocolType"@ {
        DocumentView { service_name: text::trimmed(s), ..doc }
    } else {
        doc
    }
}

/// After an end tag: the end of a record closes its message, which takes the next order where
/// it has none of its own.
pub open spec fn after_end(doc: DocumentView, name: Seq<u8>) -> DocumentView {
    match doc.record {
        Some(record) if text::utf8_decoded(name) == "RECORD"@ => DocumentView {
            messages: doc.messages.push(
                DmlMessageView {
                    order: if record.order == 0 { doc.counter } else { record.order },
                    ..record
                },
            ),
            record: None,
            counter: ((doc.counter + 1) % 0x100) as u8,
            ..doc
        },
        _ => doc,
    }
}

/// After one event.
pub open spec fn after_event(doc: DocumentView, event: xml::XmlEventView) -> DocumentView {
    match event {
        xml::XmlEventView::Start { name, attributes } => after_start(doc, name, attributes),
        xml::XmlEventView::Text { text } => after_text(
            doc,
            match text {
                Some(s) => s,
                None => Seq::empty(),
            },
        ),
        xml::XmlEventView::End { name } => after_end(doc, name),
        xml::XmlEventView::Other => doc,
    }
}

/// After these events, in order.
pub open spec fn after_events(events: Seq<xml::XmlEventView>) -> DocumentView
    decreases events.len(),
{
    if events.len() == 0 {
        document_start()
    } else {
        after_event(after_events(events.drop_last()), events.last())
    }
}

/// The service of a document with these events. Where the document does not name it, it has
/// the name of its file.
pub open spec fn service_of(events: Seq<xml::XmlEventView>, stem: Seq<char>) -> DmlServiceView {
    let doc = after_events(events);
    DmlServiceView {
        name: if doc.service_name.len() == 0 { stem } else { doc.service_name },
        service_id: doc.service_id,
        messages: doc.messages,
    }
}

/// How far a schema document has been read.
struct Document {
    service_name: String,
    service_id: u8,
    messages: Vec<DmlMessageDef>,
    record: Option<DmlMessageDef>,
    element: String,
    counter: u8,
}

impl View for Document {
    type V = DocumentView;

    closed spec fn view(&self) -> DocumentView {
        DocumentView {
            service_name: self.service_name@,
            service_id: self.service_id,
            messages: def_views(self.messages@),
            record: match self.record {
                Some(record) => Some(record@),
                None => None,
            },
            element: self.element@,
            counter: self.counter,
        }
    }
}

/// Whether a tag inside a record describes the message itself and is not a field.
fn message_tag(tag: &str) -> (r: bool)
    ensures
        r == is_message_tag(tag@),
{
    same_text(tag, "_MsgName") || same_text(tag, "_MsgDescription") || same_text(tag, "_MsgHandler")
        || same_text(tag, "_MsgAccessLvl") || same_text(tag, "_MsgOrder")
}

/// The value of the last attribute `TYPE`, or the tag where there is none.
fn field_type(tag: &String, attributes: &Vec<Option<(Vec<u8>, Vec<u8>)>>) -> (out: String)
    ensures
        out@ == field_type_of(tag@, xml::attribute_views(attributes@)),
{
    let key: [u8; 4] = [0x54u8, 0x59u8, 0x50u8, 0x45u8];
    assert(key@ =~= type_key());
    let ghost views = xml::attribute_views(attributes@);
    let mut i: usize = attributes.len();
    assert(views.take(i as int) =~= views);
    while i > 0
        invariant
            i <= attributes@.len(),
            key@ == type_key(),
            views == xml::attribute_views(attributes@),
            field_type_of(tag@, views) == field_type_of(tag@, views.take(i as int)),
        decreases i,
    {
        let ghost front = views.take(i as int);
        assert(front.last() == views[i - 1]);
        assert(front.drop_last() =~= views.take(i - 1));
        i -= 1;
        match &attributes[i] {
            Some(pair) => {
                if crate::bytes::same_bytes(pair.0.as_slice(), key.as_slice()) {
                    return utf8_text(pair.1.as_slice());
                }
            },
            None => {},
        }
    }
    tag.clone()
}

/// The number in a text, white space round it aside, or zero where it holds none.
fn order_number(s: &str) -> (n: u8)
    ensures
        n == number_or_zero(s@),
{
    match parse_u8(trim(s).as_slice()) {
        Some(n) => n,
        None => 0,
    }
}

impl Document {
    fn new() -> (doc: Self)
        ensures
            doc@ == document_start(),
    {
        let doc = Document {
            service_name: String::new(),
            service_id: 0,
            messages: Vec::new(),
            record: None,
            element: String::new(),
            counter: 1,
        };
        assert(doc@.messages =~= document_start().messages);
        doc
    }

    fn start_tag(&mut self, name: &Vec<u8>, attributes: &Vec<Option<(Vec<u8>, Vec<u8>)>>)
        ensures
            final(self)@ == after_start(old(self)@, name@, xml::attribute_views(attributes@)),
    {
        let tag: String = utf8_text(name.as_slice());
        if same_text(tag.as_str(), "RECORD") {
            let record = DmlMessageDef {
                name: String::new(),
                description: String::new(),
                order: 0,
                fields: Vec::new(),
            };
            assert(record@ =~= empty_record());
            self.record = Some(record);
        } else if !message_tag(tag.as_str()) {
            match self.record.take() {
                Some(mut record) => {
                    let ghost before = record@;
                    let field = DmlField { name: tag.clone(), field_type: field_type(&tag, attributes) };
                    record.fields.push(field);
                    assert(record@.fields =~= before.fields.push(field@));
                    self.record = Some(record);
                },
                None => {},
            }
        }
        self.element = tag;
    }

    fn text(&mut self, s: String)
        ensures
            final(self)@ == after_text(old(self)@, s@),
    {
        if same_text(self.element.as_str(), "_MsgName") {
            match self.record.take() {
                Some(mut record) => {
                    record.name = s;
                    self.record = Some(record);
                },
                None => {},
            }
        } else if same_text(self.element.as_str(), "_MsgDescription") {
            match self.record.take() {
                Some(mut record) => {
                    record.description = s;
                    self.record = Some(record);
                },
                None => {},
            }
        } else if same_text(self.element.as_str(), "_MsgOrder") {
            match self.record.take() {
                Some(mut record) => {
                    record.order = order_number(s.as_str());
                    self.record = Some(record);
                },
                None => {},
            }
        } else if same_text(self.element.as_str(), "ServiceID") || same_text(
            self.element.as_str(),
            "_ServiceID",
        ) {
            self.service_id = order_number(s.as_str());
        } else if same_text(self.element.as_str(), "ProtocolType") || same_text(
            self.element.as_str(),
            "_ProtocolType",
        ) {
            let inner: Vec<char> = trim(s.as_str());
            self.service_name = text_of(inner.as_slice(), 0, inner.len());
            assert(inner@.subrange(0, inner@.len() as int) =~= inner@);
        }
    }

    fn end_tag(&mut self, name: &Vec<u8>)
        ensures
            final(self)@ == after_end(old(self)@, name@),
    {
        let tag: String = utf8_text(name.as_slice());
        if same_text(tag.as_str(), "RECORD") {
            match self.record.take() {
                Some(mut record) => {
                    if record.order == 0 {
                        record.order = self.counter;
                    }
                    self.counter = self.counter.wrapping_add(1);
                    let ghost before = self.messages@;
                    self.messages.push(record);
                    assert(def_views(self.messages@) =~= def_views(before).push(record@));
                },
                None => {},
            }
        }
    }

    fn event(&mut self, event: &XmlEvent)
        ensures
            final(self)@ == after_event(old(self)@, event@),
    {
        match event {
            XmlEvent::Start { name, attributes } => self.start_tag(name, attributes),
            XmlEvent::Text { text } => match text {
                Some(s) => self.text(s.clone()),
                None => self.text(String::new()),
            },
            XmlEvent::End { name } => self.end_tag(name),
            XmlEvent::Other => {},
        }
    }
}

/// Builds the service of a schema document from its events. `stem` is the name of its file
/// without the extension.
pub fn build_service(events: &Vec<XmlEvent>, stem: &str) -> (service: DmlService)
    ensures
        service@ == service_of(xml::event_views(events@), stem@),
{
    let mut doc = Document::new();
    let ghost views = xml::event_views(events@);
    let mut i: usize = 0;
    assert(views.take(0) =~= Seq::<xml::XmlEventView>::empty());
    while i < events.len()
        invariant
            i <= events@.len(),
            views == xml::event_views(events@),
            doc@ == after_events(views.take(i as int)),
        decreases events@.len() - i,
    {
        doc.event(&events[i]);
        assert(views.take(i + 1).drop_last() =~= views.take(i as int));
        assert(views.take(i + 1).last() == events@[i as int]@);
        i += 1;
    }
    assert(views.take(i as int) =~= views);
    let name: String = if doc.service_name.as_str().is_empty() {
        stem.to_owned()
    } else {
        doc.service_name
    };
    DmlService { name, service_id: doc.service_id, messages: doc.messages }
}

/// Parses a schema document.
pub fn parse_message_xml(content: &str, stem: &str) -> (service: DmlService)
    ensures
        service@ == service_of(xml::document_events(content@), stem@),
{
    let events: Vec<XmlEvent> = read_events(content);
    build_service(&events, stem)
}

// ---- loading documents ----

/// Whether a file with this name is a schema document: `*Messages*.xml`.
pub open spec fn is_schema_file(name: Seq<char>) -> bool {
    text::occurs_in(name, "Messages"@) && text::occurs_at(name, ".xml"@, name.len() - ".xml"@.len())
}

/// The name of a schema document without its extension.
pub open spec fn schema_stem(name: Seq<char>) -> Seq<char> {
    name.take(name.len() - ".xml"@.len())
}

/// Whether a file with this name is a schema document: `*Messages*.xml`.
pub fn schema_file(name: &str) -> (r: bool)
    ensures
        r == is_schema_file(name@),
{
    contains_text(name, "Messages") && ends_with_text(name, ".xml")
}

/// The name of a schema document without its extension.
pub fn file_stem(name: &str) -> (stem: String)
    requires
        is_schema_file(name@),
    ensures
        stem@ == schema_stem(name@),
{
    let chars: Vec<char> = text::chars_of(name);
    proof {
        reveal_strlit(".xml");
    }
    let n: usize = chars.len() - 4;
    assert(chars@.subrange(0, n as int) =~= schema_stem(name@));
    text_of(chars.as_slice(), 0, n)
}

/// A file of a schema directory.
pub struct SchemaFile {
    pub name: String,
    /// The text of the file; nothing where it could not be read as text.
    pub content: Option<String>,
}

impl SchemaFile {
    /// Whether the file gives a service.
    pub open spec fn loads(self) -> bool {
        is_schema_file(self.name@) && self.content is Some
    }

    /// The service that the file gives.
    pub open spec fn service(self) -> DmlServiceView {
        service_of(xml::document_events(self.content->0@), schema_stem(self.name@))
    }
}

/// How many of these files give a service.
pub open spec fn loaded_count(files: Seq<SchemaFile>) -> nat
    decreases files.len(),
{
    if files.len() == 0 {
        0
    } else {
        loaded_count(files.drop_last()) + (if files.last().loads() { 1nat } else { 0nat })
    }
}

/// The services after these files were loaded in order. A later file takes the place of an
/// earlier one with the same service number.
pub open spec fn loaded_services(
    services: Map<u8, DmlServiceView>,
    files: Seq<SchemaFile>,
) -> Map<u8, DmlServiceView>
    decreases files.len(),
{
    if files.len() == 0 {
        services
    } else {
        let before = loaded_services(services, files.drop_last());
        if files.last().loads() {
            before.insert(files.last().service().service_id, files.last().service())
        } else {
            before
        }
    }
}

impl SchemaRegistry {
    /// Loads all `*Messages*.xml` files of a directory, and says how many there were.
    pub fn load_files(&mut self, files: &Vec<SchemaFile>) -> (count: usize)
        ensures
            count == loaded_count(files@),
            final(self)@ == loaded_services(old(self)@, files@),
    {
        let mut count: usize = 0;
        let mut i: usize = 0;
        assert(files@.take(0) =~= Seq::<SchemaFile>::empty());
        while i < files.len()
            invariant
                i <= files@.len(),
                count <= i,
                count == loaded_count(files@.take(i as int)),
                self@ == loaded_services(old(self)@, files@.take(i as int)),
            decreases files@.len() - i,
        {
            let file = &files[i];
            assert(files@.take(i + 1).drop_last() =~= files@.take(i as int));
            assert(files@.take(i + 1).last() == *file);
            if schema_file(file.name.as_str()) {
                match &file.content {
                    Some(content) => {
                        let stem: String = file_stem(file.name.as_str());
                        let service = parse_message_xml(content.as_str(), stem.as_str());
                        self.insert(service);
                        count += 1;
                    },
                    None => {},
                }
            }
            i += 1;
        }
        assert(files@.take(i as int) =~= files@);
        count
    }
}

// ---- laws ----

/// The running order counts the closed records, starting at one.
pub proof fn law_counter_counts_records(events: Seq<xml::XmlEventView>)
    ensures
        after_events(events).counter == (1 + after_events(events).messages.len()) % 0x100,
    decreases events.len(),
{
    if events.len() > 0 {
        law_counter_counts_records(events.drop_last());
    }
}

/// As long as a document has fewer than 255 messages, each of them has an order of its own,
/// which is not zero.
pub proof fn law_orders_are_given(events: Seq<xml::XmlEventView>, i: int)
    requires
        after_events(events).messages.len() < 0xFF,
        0 <= i < after_events(events).messages.len(),
    ensures
        after_events(events).messages[i].order != 0,
    decreases events.len(),
{
    if events.len() > 0 {
        let before = after_events(events.drop_last());
        law_counter_counts_records(events.drop_last());
        if i < before.messages.len() {
            law_orders_are_given(events.drop_last(), i);
        }
    }
}

/// A message that gives no order takes the place of its record in the document.
pub proof fn law_default_order(doc: DocumentView, name: Seq<u8>)
    requires
        text::utf8_decoded(name) == "RECORD"@,
        doc.record matches Some(record) && record.order == 0,
    ensures
        after_end(doc, name).messages.last().order == doc.counter,
        after_end(doc, name).messages.drop_last() == doc.messages,
{
    assert(after_end(doc, name).messages.drop_last() =~= doc.messages);
}

/// A service that was taken in is found under its number, and no other number is affected.
pub proof fn law_lookup_after_insert(
    services: Map<u8, DmlServiceView>,
    service: DmlServiceView,
    service_id: u8,
    message_id: u8,
)
    ensures
        definition_in(services.insert(service.service_id, service), service_id, message_id) == (
        if service_id == service.service_id {
            message_with_order(service.messages, message_id)
        } else {
            definition_in(services, service_id, message_id)
        }),
{
}

/// A definition that is found is one of the service's messages, it has the order that was
/// asked for, and no message before it has.
pub proof fn law_first_match_is_found(messages: Seq<DmlMessageView>, message_id: u8)
    ensures
        match message_with_order(messages, message_id) {
            Some(def) => exists|i: int|
                {
                    &&& 0 <= i < messages.len()
                    &&& #[trigger] messages[i] == def
                    &&& def.order == message_id
                    &&& forall|j: int| 0 <= j < i ==> (#[trigger] messages[j]).order != message_id
                },
            None => forall|i: int|
                0 <= i < messages.len() ==> (#[trigger] messages[i]).order != message_id,
        },
    decreases messages.len(),
{
    if messages.len() > 0 && messages[0].order != message_id {
        let rest = messages.skip(1);
        law_first_match_is_found(rest, message_id);
        match message_with_order(rest, message_id) {
            Some(def) => {
                let i = choose|i: int|
                    {
                        &&& 0 <= i < rest.len()
                        &&& #[trigger] rest[i] == def
                        &&& def.order == message_id
                        &&& forall|j: int| 0 <= j < i ==> (#[trigger] rest[j]).order != message_id
                    };
                assert(messages[i + 1] == rest[i]);
                assert forall|j: int| 0 <= j < i + 1 implies (#[trigger] messages[j]).order
                    != message_id by {
                    if j > 0 {
                        assert(rest[j - 1] == messages[j]);
                    }
                }
            },
            None => {
                assert forall|j: int| 0 <= j < messages.len() implies (#[trigger] messages[j]).order
                    != message_id by {
                    if j > 0 {
                        assert(rest[j - 1] == messages[j]);
                    }
                }
            },
        }
    } else if messages.len() > 0 {
        assert(messages[0] == message_with_order(messages, message_id)->0);
    }
}

// ---- laws on reading a document ----

/// When a record is closed whose order is not zero, the message that is added is the record as it
/// stands: its order, its name, its description and its fields.
pub proof fn law_given_order_is_kept(doc: DocumentView, name: Seq<u8>)
    requires
        text::utf8_decoded(name) == "RECORD"@,
        doc.record is Some,
    ensures
        ({
            let record = doc.record->0;
            let after = after_end(doc, name);
            let message = after.messages.last();
            &&& after.messages.len() == doc.messages.len() + 1
            &&& after.messages.drop_last() == doc.messages
            &&& record.order != 0 ==> message == record
            &&& record.order == 0 ==> message.order == doc.counter
            &&& message.name == record.name
            &&& message.description == record.description
            &&& message.fields == record.fields
        }),
{
    assert(after_end(doc, name).messages.drop_last() =~= doc.messages);
}

/// The end of a record closes it and moves the running order on by one, from 255 to zero; nothing
/// else of the document changes. Another end tag changes nothing, nor does the end of a record
/// where none is open.
pub proof fn law_end_tags(doc: DocumentView, name: Seq<u8>)
    ensures
        text::utf8_decoded(name) != "RECORD"@ || doc.record is None ==> after_end(doc, name) == doc,
        text::utf8_decoded(name) == "RECORD"@ && doc.record is Some ==> {
            let after = after_end(doc, name);
            &&& after.record is None
            &&& after.counter == (if doc.counter == 255 { 0 } else { doc.counter + 1 })
            &&& after.service_name == doc.service_name
            &&& after.service_id == doc.service_id
            &&& after.element == doc.element
        },
{
}

/// A start tag `RECORD` opens a record that holds nothing yet.
pub proof fn law_records_start_empty(
    doc: DocumentView,
    name: Seq<u8>,
    attributes: Seq<Option<(Seq<u8>, Seq<u8>)>>,
)
    requires
        text::utf8_decoded(name) == "RECORD"@,
    ensures
        ({
            let record = after_start(doc, name, attributes).record;
            &&& record is Some
            &&& record->0.name.len() == 0
            &&& record->0.description.len() == 0
            &&& record->0.order == 0
            &&& record->0.fields.len() == 0
        }),
{
}

/// Inside a record a start tag adds one field behind those that are there, named as the tag;
/// only the five tags that describe the message itself add none. Outside of records nothing is
/// added. What was there before stays.
pub proof fn law_fields_are_added(
    doc: DocumentView,
    name: Seq<u8>,
    attributes: Seq<Option<(Seq<u8>, Seq<u8>)>>,
)
    requires
        text::utf8_decoded(name) != "RECORD"@,
    ensures
        ({
            let tag = text::utf8_decoded(name);
            let after = after_start(doc, name, attributes);
            let describes = tag == "_MsgName"@ || tag == "_MsgDescription"@ || tag == "_MsgHandler"@ || tag
                == "_MsgAccessLvl"@ || tag == "_MsgOrder"@;
            &&& doc.record is None || describes ==> after.record == doc.record
            &&& doc.record is Some && !describes ==> {
                let fields = after.record->0.fields;
                &&& after.record is Some
                &&& fields.len() == doc.record->0.fields.len() + 1
                &&& fields.drop_last() == doc.record->0.fields
                &&& fields.last().name == tag
                &&& fields.last().field_type == field_type_of(tag, attributes)
                &&& after.record->0.name == doc.record->0.name
                &&& after.record->0.description == doc.record->0.description
                &&& after.record->0.order == doc.record->0.order
            }
        }),
{
    let after = after_start(doc, name, attributes);
    if after.record is Some && doc.record is Some && after.record != doc.record {
        assert(after.record->0.fields.drop_last() =~= doc.record->0.fields);
    }
}

/// A start tag is the one that the text behind it belongs to. It closes no record, and leaves the
/// service and its messages as they are.
pub proof fn law_start_tags(
    doc: DocumentView,
    name: Seq<u8>,
    attributes: Seq<Option<(Seq<u8>, Seq<u8>)>>,
)
    ensures
        ({
            let after = after_start(doc, name, attributes);
            &&& after.element == text::utf8_decoded(name)
            &&& after.service_name == doc.service_name
            &&& after.service_id == doc.service_id
            &&& after.messages == doc.messages
            &&& after.counter == doc.counter
            &&& doc.record is Some ==> after.record is Some
        }),
{
}

/// Whether an attribute has the key `TYPE`.
pub open spec fn gives_type(attribute: Option<(Seq<u8>, Seq<u8>)>) -> bool {
    attribute is Some && (attribute->0).0 == seq![0x54u8, 0x59u8, 0x50u8, 0x45u8]
}

/// A field has the type that the last attribute `TYPE` gives, and its own name for a type where
/// there is no such attribute.
pub proof fn law_last_type_counts(tag: Seq<char>, attributes: Seq<Option<(Seq<u8>, Seq<u8>)>>, i: int)
    ensures
        0 <= i < attributes.len() && gives_type(attributes[i]) && (forall|j: int|
            i < j < attributes.len() ==> !gives_type(#[trigger] attributes[j])) ==> field_type_of(
            tag,
            attributes,
        ) == text::utf8_decoded((attributes[i]->0).1),
        (forall|j: int| 0 <= j < attributes.len() ==> !gives_type(#[trigger] attributes[j]))
            ==> field_type_of(tag, attributes) == tag,
    decreases attributes.len(),
{
    assert(type_key() =~= seq![0x54u8, 0x59u8, 0x50u8, 0x45u8]);
    if attributes.len() > 0 {
        let front = attributes.drop_last();
        law_last_type_counts(tag, front, i);
        assert(attributes.last() == attributes[attributes.len() - 1]);
        if forall|j: int| 0 <= j < attributes.len() ==> !gives_type(#[trigger] attributes[j]) {
            assert forall|j: int| 0 <= j < front.len() implies !gives_type(#[trigger] front[j]) by {
                assert(front[j] == attributes[j]);
            }
        }
        if 0 <= i < attributes.len() - 1 && (forall|j: int|
            i < j < attributes.len() ==> !gives_type(#[trigger] attributes[j])) {
            assert forall|j: int| i < j < front.len() implies !gives_type(#[trigger] front[j]) by {
                assert(front[j] == attributes[j]);
            }
        }
    }
}

/// Text belongs to the tag that started last, and changes that one thing: the name, the
/// description or the order of the open record, or the number or the name of the service. Text of
/// other tags changes nothing.
pub proof fn law_text_belongs_to_its_tag(doc: DocumentView, s: Seq<char>)
    ensures
        ({
            let after = after_text(doc, s);
            let record = doc.record->0;
            let tag = doc.element;
            &&& after.messages == doc.messages
            &&& after.element == tag
            &&& after.counter == doc.counter
            &&& (after.record is Some <==> doc.record is Some)
            &&& doc.record is Some ==> {
                let changed = after.record->0;
                &&& changed.fields == record.fields
                &&& changed.name == (if tag == "_MsgName"@ { s } else { record.name })
                &&& changed.description == (if tag == "_MsgDescription"@ { s } else { record.description })
                &&& changed.order == (if tag == "_MsgOrder"@ { number_or_zero(s) } else { record.order })
            }
            &&& after.service_id == (if tag == "ServiceID"@ || tag == "_ServiceID"@ {
                number_or_zero(s)
            } else {
                doc.service_id
            })
            &&& after.service_name == (if tag == "ProtocolType"@ || tag == "_ProtocolType"@ {
                text::trimmed(s)
            } else {
                doc.service_name
            })
        }),
{
    reveal_strlit("_MsgName");
    reveal_strlit("_MsgDescription");
    reveal_strlit("_MsgOrder");
    reveal_strlit("ServiceID");
    reveal_strlit("_ServiceID");
    reveal_strlit("ProtocolType");
    reveal_strlit("_ProtocolType");
    assert("_MsgName"@.len() == 8 && "_MsgDescription"@.len() == 15 && "_MsgOrder"@.len() == 9
        && "ServiceID"@.len() == 9 && "_ServiceID"@.len() == 10 && "ProtocolType"@.len() == 12
        && "_ProtocolType"@.len() == 13);
    assert("_MsgOrder"@[0] == '_' && "ServiceID"@[0] == 'S');
}

proof fn lemma_number_is_read_back(n: u8)
    ensures
        number_or_zero(text::decimal(n as nat)) == n,
{
    let s = text::decimal(n as nat);
    text::law_decimal_is_the_number(n as nat);
    assert('0' <= s[0] <= '9' && '0' <= s[s.len() - 1] <= '9');
    text::law_trimmed_text_stays(s);
    text::law_decimal_is_read_back(n);
}

/// A number is read with white space round it, and what is no number from 0 to 255 is zero.
pub proof fn law_numbers_in_documents(n: u8, front: Seq<char>, back: Seq<char>, s: Seq<char>)
    requires
        forall|i: int| 0 <= i < front.len() ==> text::is_space(#[trigger] front[i]),
        forall|i: int| 0 <= i < back.len() ==> text::is_space(#[trigger] back[i]),
    ensures
        number_or_zero(front + text::decimal(n as nat) + back) == n,
        text::parsed_u8(text::trimmed(s)) is None ==> number_or_zero(s) == 0,
{
    let digits = text::decimal(n as nat);
    let whole = front + digits + back;
    text::law_decimal_is_the_number(n as nat);
    text::law_decimal_is_read_back(n);
    let a = front.len() as int;
    let b = a + digits.len();
    assert('0' <= digits[0] <= '9' && '0' <= digits[digits.len() - 1] <= '9');
    assert(whole[a] == digits[0] && whole[b - 1] == digits[digits.len() - 1]);
    let ends = text::law_trimming(whole);
    assert(ends.0 < ends.1);
    if ends.0 < a {
        assert(whole[ends.0] == front[ends.0]);
    }
    if ends.1 > b {
        assert(whole[ends.1 - 1] == back[ends.1 - 1 - b]);
    }
    assert(whole.subrange(a, b) =~= digits);
}

// ---- a document reads back ----

/// After more events.
pub open spec fn read_on(doc: DocumentView, events: Seq<xml::XmlEventView>) -> DocumentView
    decreases events.len(),
{
    if events.len() == 0 {
        doc
    } else {
        after_event(read_on(doc, events.drop_last()), events.last())
    }
}

/// Reading on where reading stopped is reading in one go.
pub proof fn law_events_in_two_goes(
    doc: DocumentView,
    first: Seq<xml::XmlEventView>,
    second: Seq<xml::XmlEventView>,
)
    ensures
        read_on(doc, first + second) == read_on(read_on(doc, first), second),
        after_events(first + second) == read_on(after_events(first), second),
    decreases second.len(),
{
    if second.len() == 0 {
        assert(first + second =~= first);
    } else {
        law_events_in_two_goes(doc, first, second.drop_last());
        assert((first + second).drop_last() =~= first + second.drop_last());
    }
}

/// A tag with text in it.
pub open spec fn leaf_events(tag: Seq<char>, s: Seq<char>) -> Seq<xml::XmlEventView> {
    let name = vstd::utf8::encode_utf8(tag);
    seq![
        xml::XmlEventView::Start { name, attributes: Seq::empty() },
        xml::XmlEventView::Text { text: Some(s) },
        xml::XmlEventView::End { name },
    ]
}

/// A field of a record.
pub open spec fn field_events(field: DmlFieldView) -> Seq<xml::XmlEventView> {
    let name = vstd::utf8::encode_utf8(field.name);
    let value = vstd::utf8::encode_utf8(field.field_type);
    seq![
        xml::XmlEventView::Start {
            name,
            attributes: seq![Some((seq![0x54u8, 0x59u8, 0x50u8, 0x45u8], value))],
        },
        xml::XmlEventView::End { name },
    ]
}

/// The fields of a record, in order.
pub open spec fn fields_events(fields: Seq<DmlFieldView>) -> Seq<xml::XmlEventView>
    decreases fields.len(),
{
    if fields.len() == 0 {
        Seq::empty()
    } else {
        fields_events(fields.drop_last()) + field_events(fields.last())
    }
}

/// A record.
pub open spec fn record_events(message: DmlMessageView) -> Seq<xml::XmlEventView> {
    let name = vstd::utf8::encode_utf8("RECORD"@);
    seq![xml::XmlEventView::Start { name, attributes: Seq::empty() }] + leaf_events(
        "_MsgName"@,
        message.name,
    ) + leaf_events("_MsgDescription"@, message.description) + leaf_events(
        "_MsgOrder"@,
        text::decimal(message.order as nat),
    ) + fields_events(message.fields) + seq![xml::XmlEventView::End { name }]
}

/// Records, in order.
pub open spec fn records_events(messages: Seq<DmlMessageView>) -> Seq<xml::XmlEventView>
    decreases messages.len(),
{
    if messages.len() == 0 {
        Seq::empty()
    } else {
        records_events(messages.drop_last()) + record_events(messages.last())
    }
}

/// A whole document.
pub open spec fn service_events(service: DmlServiceView) -> Seq<xml::XmlEventView> {
    leaf_events("ServiceID"@, text::decimal(service.service_id as nat)) + leaf_events(
        "ProtocolType"@,
        service.name,
    ) + records_events(service.messages)
}

/// Whether a tag of this name inside a record is a field.
pub open spec fn is_field_name(name: Seq<char>) -> bool {
    name != "RECORD"@ && name != "_MsgName"@ && name != "_MsgDescription"@ && name != "_MsgHandler"@
        && name != "_MsgAccessLvl"@ && name != "_MsgOrder"@
}

proof fn lemma_tag(tag: Seq<char>)
    ensures
        text::utf8_decoded(vstd::utf8::encode_utf8(tag)) == tag,
{
    vstd::utf8::encode_utf8_valid_utf8(tag);
    vstd::utf8::encode_utf8_decode_utf8(tag);
}

proof fn lemma_leaf(doc: DocumentView, tag: Seq<char>, s: Seq<char>)
    requires
        tag != "RECORD"@,
        doc.record is None || is_message_tag(tag),
    ensures
        read_on(doc, leaf_events(tag, s)) == after_text(DocumentView { element: tag, ..doc }, s),
{
    lemma_tag(tag);
    let events = leaf_events(tag, s);
    let one = events.drop_last().drop_last();
    assert(one.drop_last() =~= Seq::<xml::XmlEventView>::empty());
    assert(read_on(doc, one.drop_last()) == doc);
    assert(one.last() == events[0]);
    assert(read_on(doc, one) == (DocumentView { element: tag, ..doc }));
    assert(events.drop_last().last() == events[1]);
    assert(read_on(doc, events.drop_last()) == after_text(DocumentView { element: tag, ..doc }, s));
    assert(events.last() == events[2]);
}

proof fn lemma_field(doc: DocumentView, field: DmlFieldView)
    requires
        is_field_name(field.name),
        doc.record is Some,
    ensures
        read_on(doc, field_events(field)) == (DocumentView {
            element: field.name,
            record: Some(
                DmlMessageView { fields: doc.record->0.fields.push(field), ..doc.record->0 },
            ),
            ..doc
        }),
{
    lemma_tag(field.name);
    lemma_tag(field.field_type);
    let events = field_events(field);
    let one = events.drop_last();
    let attributes = seq![
        Some((seq![0x54u8, 0x59u8, 0x50u8, 0x45u8], vstd::utf8::encode_utf8(field.field_type))),
    ];
    assert(type_key() =~= seq![0x54u8, 0x59u8, 0x50u8, 0x45u8]);
    assert(attributes.last() == attributes[0]);
    assert(field_type_of(field.name, attributes) == field.field_type);
    assert(one.drop_last() =~= Seq::<xml::XmlEventView>::empty());
    assert(read_on(doc, one.drop_last()) == doc);
    let name = vstd::utf8::encode_utf8(field.name);
    assert(one.last() == (xml::XmlEventView::Start { name, attributes }));
    let after = after_start(doc, name, attributes);
    assert(read_on(doc, one) == after);
    assert(after.record->0.fields == doc.record->0.fields.push(field));
    assert(events.last() == (xml::XmlEventView::End { name }));
    assert(read_on(doc, events) == after);
}

proof fn lemma_fields(doc: DocumentView, fields: Seq<DmlFieldView>)
    requires
        doc.record is Some,
        forall|i: int| 0 <= i < fields.len() ==> is_field_name((#[trigger] fields[i]).name),
    ensures
        ({
            let after = read_on(doc, fields_events(fields));
            &&& after.record == Some(
                DmlMessageView { fields: doc.record->0.fields + fields, ..doc.record->0 },
            )
            &&& after.service_name == doc.service_name
            &&& after.service_id == doc.service_id
            &&& after.messages == doc.messages
            &&& after.counter == doc.counter
        }),
    decreases fields.len(),
{
    if fields.len() == 0 {
        assert(doc.record->0.fields + fields =~= doc.record->0.fields);
    } else {
        let front = fields.drop_last();
        assert forall|i: int| 0 <= i < front.len() implies is_field_name((#[trigger] front[i]).name) by {
            assert(front[i] == fields[i]);
        }
        lemma_fields(doc, front);
        law_events_in_two_goes(doc, fields_events(front), field_events(fields.last()));
        lemma_field(read_on(doc, fields_events(front)), fields.last());
        assert((doc.record->0.fields + front).push(fields.last()) =~= doc.record->0.fields + fields);
    }
}

proof fn lemma_tags_differ()
    ensures
        "RECORD"@ != "_MsgName"@,
        "RECORD"@ != "_MsgDescription"@,
        "RECORD"@ != "_MsgOrder"@,
        "RECORD"@ != "ServiceID"@,
        "RECORD"@ != "ProtocolType"@,
        "_MsgName"@ != "_MsgDescription"@,
        "_MsgName"@ != "_MsgOrder"@,
        "_MsgDescription"@ != "_MsgOrder"@,
        "ServiceID"@ != "_MsgName"@,
        "ServiceID"@ != "_MsgDescription"@,
        "ServiceID"@ != "_MsgOrder"@,
        "ProtocolType"@ != "_MsgName"@,
        "ProtocolType"@ != "_MsgDescription"@,
        "ProtocolType"@ != "_MsgOrder"@,
        "ProtocolType"@ != "ServiceID"@,
        "ProtocolType"@ != "_ServiceID"@,
{
    reveal_strlit("RECORD");
    reveal_strlit("_MsgName");
    reveal_strlit("_MsgDescription");
    reveal_strlit("_MsgOrder");
    reveal_strlit("ServiceID");
    reveal_strlit("_ServiceID");
    reveal_strlit("ProtocolType");
    assert("RECORD"@.len() == 6 && "_MsgName"@.len() == 8 && "_MsgDescription"@.len() == 15
        && "_MsgOrder"@.len() == 9 && "ServiceID"@.len() == 9 && "_ServiceID"@.len() == 10
        && "ProtocolType"@.len() == 12);
    assert("_MsgOrder"@[0] == '_' && "ServiceID"@[0] == 'S');
}

/// A record reads back: it adds one message behind those that are there, with the name, the
/// description, the fields and the order that were written, or the running order where zero was.
pub proof fn law_records_read_back(doc: DocumentView, message: DmlMessageView)
    requires
        forall|i: int|
            0 <= i < message.fields.len() ==> is_field_name((#[trigger] message.fields[i]).name),
    ensures
        ({
            let after = read_on(doc, record_events(message));
            &&& after.messages == doc.messages.push(
                DmlMessageView {
                    order: if message.order == 0 { doc.counter } else { message.order },
                    ..message
                },
            )
            &&& after.record is None
            &&& after.counter == (doc.counter + 1) % 0x100
            &&& after.service_name == doc.service_name
            &&& after.service_id == doc.service_id
        }),
{
    lemma_tags_differ();
    let name = vstd::utf8::encode_utf8("RECORD"@);
    lemma_tag("RECORD"@);
    let start = seq![xml::XmlEventView::Start { name, attributes: Seq::empty() }];
    let e1 = leaf_events("_MsgName"@, message.name);
    let e2 = leaf_events("_MsgDescription"@, message.description);
    let e3 = leaf_events("_MsgOrder"@, text::decimal(message.order as nat));
    let e4 = fields_events(message.fields);
    let end = seq![xml::XmlEventView::End { name }];
    law_events_in_two_goes(doc, start + e1 + e2 + e3 + e4, end);
    law_events_in_two_goes(doc, start + e1 + e2 + e3, e4);
    law_events_in_two_goes(doc, start + e1 + e2, e3);
    law_events_in_two_goes(doc, start + e1, e2);
    law_events_in_two_goes(doc, start, e1);
    assert(start.drop_last() =~= Seq::<xml::XmlEventView>::empty());
    assert(read_on(doc, start.drop_last()) == doc);
    let d0 = read_on(doc, start);
    assert(d0.record == Some(empty_record()));
    lemma_leaf(d0, "_MsgName"@, message.name);
    let d1 = read_on(d0, e1);
    lemma_leaf(d1, "_MsgDescription"@, message.description);
    let d2 = read_on(d1, e2);
    lemma_leaf(d2, "_MsgOrder"@, text::decimal(message.order as nat));
    lemma_number_is_read_back(message.order);
    let d3 = read_on(d2, e3);
    lemma_fields(d3, message.fields);
    assert(Seq::<DmlFieldView>::empty() + message.fields =~= message.fields);
    let d4 = read_on(d3, e4);
    assert(d4.record == Some(message));
    assert(end.drop_last() =~= Seq::<xml::XmlEventView>::empty());
    assert(read_on(d4, end.drop_last()) == d4);
}

/// A message with the order it was given, or with its place, counted from one, where it was given
/// zero. After 255 comes zero.
pub open spec fn with_order(message: DmlMessageView, place: int) -> DmlMessageView {
    DmlMessageView {
        order: if message.order == 0 { (place % 0x100) as u8 } else { message.order },
        ..message
    }
}

/// Whether all fields of these messages have names of fields.
pub open spec fn have_field_names(messages: Seq<DmlMessageView>) -> bool {
    forall|i: int, j: int|
        0 <= i < messages.len() && 0 <= j < messages[i].fields.len() ==> is_field_name(
            (#[trigger] messages[i].fields[j]).name,
        )
}

proof fn lemma_records(doc: DocumentView, messages: Seq<DmlMessageView>)
    requires
        doc.counter == (1 + doc.messages.len()) % 0x100,
        doc.record is None,
        have_field_names(messages),
    ensures
        ({
            let after = read_on(doc, records_events(messages));
            let first = 1 + doc.messages.len();
            &&& after.messages == doc.messages + Seq::new(
                messages.len(),
                |i: int| with_order(messages[i], first + i),
            )
            &&& after.counter == (1 + after.messages.len()) % 0x100
            &&& after.record is None
            &&& after.service_name == doc.service_name
            &&& after.service_id == doc.service_id
        }),
    decreases messages.len(),
{
    let first = 1 + doc.messages.len();
    let added = Seq::new(messages.len(), |i: int| with_order(messages[i], first + i));
    if messages.len() == 0 {
        assert(doc.messages + added =~= doc.messages);
    } else {
        let front = messages.drop_last();
        let message = messages.last();
        assert(have_field_names(front)) by {
            assert forall|i: int, j: int|
                0 <= i < front.len() && 0 <= j < front[i].fields.len() implies is_field_name(
                (#[trigger] front[i].fields[j]).name,
            ) by {
                assert(is_field_name(messages[i].fields[j].name));
            }
        }
        assert forall|j: int| 0 <= j < message.fields.len() implies is_field_name(
            (#[trigger] message.fields[j]).name,
        ) by {
            assert(is_field_name(messages[messages.len() - 1].fields[j].name));
        }
        let before = read_on(doc, records_events(front));
        lemma_records(doc, front);
        let earlier = Seq::new(front.len(), |i: int| with_order(front[i], first + i));
        assert(before.messages == doc.messages + earlier);
        law_events_in_two_goes(doc, records_events(front), record_events(message));
        lemma_one_more_record(before, message);
        assert(before.messages.push(with_order(message, 1int + before.messages.len())) =~= doc.messages
            + added);
    }
}

proof fn lemma_one_more_record(doc: DocumentView, message: DmlMessageView)
    requires
        doc.counter == (1 + doc.messages.len()) % 0x100,
        forall|i: int|
            0 <= i < message.fields.len() ==> is_field_name((#[trigger] message.fields[i]).name),
    ensures
        ({
            let after = read_on(doc, record_events(message));
            &&& after.messages == doc.messages.push(with_order(message, 1int + doc.messages.len()))
            &&& after.counter == (1 + after.messages.len()) % 0x100
            &&& after.record is None
            &&& after.service_name == doc.service_name
            &&& after.service_id == doc.service_id
        }),
{
    law_records_read_back(doc, message);
}

/// A document reads back: the service has the name, the number and the messages that were written,
/// in their order. A message written with order zero has its place among the messages for an
/// order, counted from one.
pub proof fn law_documents_read_back(service: DmlServiceView, stem: Seq<char>)
    requires
        service.name.len() > 0,
        !text::is_space(service.name[0]),
        !text::is_space(service.name[service.name.len() - 1]),
        have_field_names(service.messages),
    ensures
        ({
            let read = service_of(service_events(service), stem);
            &&& read.name == service.name
            &&& read.service_id == service.service_id
            &&& read.messages.len() == service.messages.len()
            &&& forall|i: int|
                0 <= i < read.messages.len() ==> #[trigger] read.messages[i] == with_order(
                    service.messages[i],
                    1 + i,
                )
        }),
{
    lemma_tags_differ();
    let e1 = leaf_events("ServiceID"@, text::decimal(service.service_id as nat));
    let e2 = leaf_events("ProtocolType"@, service.name);
    let e3 = records_events(service.messages);
    law_events_in_two_goes(document_start(), e1 + e2, e3);
    law_events_in_two_goes(document_start(), e1, e2);
    law_events_in_two_goes(document_start(), Seq::empty(), e1);
    assert(Seq::<xml::XmlEventView>::empty() + e1 =~= e1);
    assert(after_events(Seq::empty()) == document_start());
    lemma_leaf(document_start(), "ServiceID"@, text::decimal(service.service_id as nat));
    lemma_number_is_read_back(service.service_id);
    let d1 = read_on(document_start(), e1);
    lemma_leaf(d1, "ProtocolType"@, service.name);
    text::law_trimmed_text_stays(service.name);
    let d2 = read_on(d1, e2);
    lemma_records(d2, service.messages);
}

/// A document that does not name its service gives it the name of the file, and one that does
/// gives it that name.
pub proof fn law_services_have_a_name(events: Seq<xml::XmlEventView>, stem: Seq<char>)
    ensures
        after_events(events).service_name.len() == 0 ==> service_of(events, stem).name == stem,
        after_events(events).service_name.len() > 0 ==> service_of(events, stem).name == after_events(
            events,
        ).service_name,
        service_of(events, stem).service_id == after_events(events).service_id,
        service_of(events, stem).messages == after_events(events).messages,
{
}

// ---- laws on files ----

/// A schema document has `Messages` in its name and `.xml` at the end of it, and the name without
/// that end is its stem.
pub proof fn law_schema_file_names(
    name: Seq<char>,
    front: Seq<char>,
    back: Seq<char>,
    stem: Seq<char>,
)
    ensures
        name == front + "Messages"@ + back && name == stem + ".xml"@ ==> is_schema_file(name),
        is_schema_file(name) ==> name == schema_stem(name) + ".xml"@,
        name == stem + ".xml"@ ==> schema_stem(name) == stem,
        is_schema_file(name) ==> exists|f: Seq<char>, b: Seq<char>|
            name == #[trigger] (f + "Messages"@ + b),
{
    text::law_parts_occur(name, "Messages"@, front, back);
    let end = name.len() - ".xml"@.len();
    if name == stem + ".xml"@ {
        assert(name.subrange(end, name.len() as int) =~= ".xml"@);
        assert(schema_stem(name) =~= stem);
    }
    if is_schema_file(name) {
        assert(name =~= schema_stem(name) + name.subrange(end, name.len() as int));
    }
}

/// Files load one after the other: loading some and then others is loading them all.
pub proof fn law_files_in_two_goes(
    services: Map<u8, DmlServiceView>,
    first: Seq<SchemaFile>,
    second: Seq<SchemaFile>,
)
    ensures
        loaded_services(services, first + second) == loaded_services(
            loaded_services(services, first),
            second,
        ),
        loaded_count(first + second) == loaded_count(first) + loaded_count(second),
    decreases second.len(),
{
    if second.len() == 0 {
        assert(first + second =~= first);
    } else {
        law_files_in_two_goes(services, first, second.drop_last());
        assert((first + second).drop_last() =~= first + second.drop_last());
    }
}

/// The last file that gives a service of some number decides what that service is. A number that
/// no file gives keeps the service that it had.
pub proof fn law_last_file_counts(
    services: Map<u8, DmlServiceView>,
    files: Seq<SchemaFile>,
    service_id: u8,
    i: int,
)
    ensures
        0 <= i < files.len() && is_schema_file(files[i].name@) && files[i].content is Some
            && files[i].service().service_id == service_id && (forall|j: int|
            i < j < files.len() ==> !((#[trigger] files[j]).content is Some && is_schema_file(
                files[j].name@,
            ) && files[j].service().service_id == service_id)) ==> loaded_services(
            services,
            files,
        ).dom().contains(service_id) && loaded_services(services, files)[service_id] == service_of(
            xml::document_events(files[i].content->0@),
            schema_stem(files[i].name@),
        ),
        (forall|j: int|
            0 <= j < files.len() ==> !((#[trigger] files[j]).content is Some && is_schema_file(
                files[j].name@,
            ) && files[j].service().service_id == service_id)) ==> (loaded_services(
            services,
            files,
        ).dom().contains(service_id) <==> services.dom().contains(service_id)) && loaded_services(
            services,
            files,
        )[service_id] == services[service_id],
    decreases files.len(),
{
    if files.len() > 0 {
        let front = files.drop_last();
        law_last_file_counts(services, front, service_id, i);
        assert(files.last() == files[files.len() - 1]);
        assert forall|j: int| 0 <= j < front.len() implies #[trigger] front[j] == files[j] by {}
    }
}

/// The number of files that were loaded is the number of those that have the name of a schema
/// document and could be read.
pub proof fn law_loaded_files_are_counted(files: Seq<SchemaFile>)
    ensures
        loaded_count(files) == files.filter(
            |file: SchemaFile| is_schema_file(file.name@) && file.content is Some,
        ).len(),
    decreases files.len(),
{
    reveal(Seq::filter);
    if files.len() > 0 {
        law_loaded_files_are_counted(files.drop_last());
    }
}

/// Comments, declarations and the like change nothing, and text that cannot be resolved counts as
/// empty.
pub proof fn law_other_events(doc: DocumentView)
    ensures
        after_event(doc, xml::XmlEventView::Other) == doc,
        after_event(doc, xml::XmlEventView::Text { text: None }) == after_event(
            doc,
            xml::XmlEventView::Text { text: Some(Seq::empty()) },
        ),
{
}

/// A document starts without name, number, messages and open record, and with one for the first
/// order.
pub proof fn law_documents_start_empty()
    ensures
        ({
            let doc = after_events(Seq::empty());
            &&& doc.service_name.len() == 0
            &&& doc.service_id == 0
            &&& doc.messages.len() == 0
            &&& doc.record is None
            &&& doc.element.len() == 0
            &&& doc.counter == 1
        }),
{
}

/// The values of definitions are those of their fields.
pub proof fn law_definition_values(field: DmlField, def: DmlMessageDef, service: DmlService, i: int)
    ensures
        field@.name == field.name@,
        field@.field_type == field.field_type@,
        def@.name == def.name@,
        def@.description == def.description@,
        def@.order == def.order,
        def@.fields.len() == def.fields@.len(),
        0 <= i < def.fields@.len() ==> def@.fields[i] == def.fields@[i]@,
        service@.name == service.name@,
        service@.service_id == service.service_id,
        service@.messages.len() == service.messages@.len(),
        0 <= i < service.messages@.len() ==> service@.messages[i] == service.messages@[i]@,
{
}

} // verus!
