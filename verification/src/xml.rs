//! Reading and writing of XML as a row of events.

use quick_xml::events::{BytesDecl, BytesEnd, BytesStart, BytesText, Event};
use std::borrow::Cow;
use vstd::prelude::*;

verus! {

/// A reader of the `quick_xml` crate.
#[verifier::external_type_specification]
#[verifier::external_body]
#[verifier::reject_recursive_types(R)]
pub struct ExReader<R>(quick_xml::Reader<R>);

/// A writer of the `quick_xml` crate.
#[verifier::external_type_specification]
#[verifier::external_body]
#[verifier::reject_recursive_types(W)]
pub struct ExWriter<W>(quick_xml::Writer<W>);

/// A start tag of the `quick_xml` crate.
#[verifier::external_type_specification]
#[verifier::external_body]
pub struct ExBytesStart<'a>(quick_xml::events::BytesStart<'a>);

/// An attribute of a tag: its name as it stands and its value, or the reason why it
/// cannot be read.
pub type RawAttribute = Result<(Vec<u8>, Result<String, String>), String>;

/// One event of a document, with names as they stand in it.
pub enum XmlEvent {
    Start(Vec<u8>, Vec<RawAttribute>),
    Empty(Vec<u8>),
    Text(Result<String, String>),
    End(Vec<u8>),
    Other,
    Eof,
    Failed(String),
}

/// What an attribute is.
pub type AttributeView = Result<(Seq<u8>, Result<Seq<char>, Seq<char>>), Seq<char>>;

/// What an event is.
pub enum XmlEventView {
    Start(Seq<u8>, Seq<AttributeView>),
    Empty(Seq<u8>),
    Text(Result<Seq<char>, Seq<char>>),
    End(Seq<u8>),
    Other,
    Eof,
    Failed(Seq<char>),
}

pub open spec fn text_result(v: Result<String, String>) -> Result<Seq<char>, Seq<char>> {
    match v {
        Ok(s) => Ok(s@),
        Err(e) => Err(e@),
    }
}

pub open spec fn attribute_view(v: RawAttribute) -> AttributeView {
    match v {
        Ok((key, value)) => Ok((key@, text_result(value))),
        Err(e) => Err(e@),
    }
}

pub open spec fn attribute_views(v: Seq<RawAttribute>) -> Seq<AttributeView> {
    Seq::new(v.len(), |i: int| attribute_view(v[i]))
}

impl View for XmlEvent {
    type V = XmlEventView;

    open spec fn view(&self) -> XmlEventView {
        match self {
            XmlEvent::Start(name, attributes) => XmlEventView::Start(
                name@,
                attribute_views(attributes@),
            ),
            XmlEvent::Empty(name) => XmlEventView::Empty(name@),
            XmlEvent::Text(text) => XmlEventView::Text(text_result(*text)),
            XmlEvent::End(name) => XmlEventView::End(name@),
            XmlEvent::Other => XmlEventView::Other,
            XmlEvent::Eof => XmlEventView::Eof,
            XmlEvent::Failed(message) => XmlEventView::Failed(message@),
        }
    }
}

pub open spec fn event_views(v: Seq<XmlEvent>) -> Seq<XmlEventView> {
    Seq::new(v.len(), |i: int| v[i]@)
}

/// The events that `quick_xml` finds in a document before its end, with white space at
/// the ends of texts left out.
pub uninterp spec fn xml_events(bytes: Seq<u8>) -> Seq<XmlEventView>;

/// The events that a reader still has to give before it comes to the end.
pub uninterp spec fn events_left(reader: quick_xml::Reader<&[u8]>) -> Seq<XmlEventView>;

/// `Reader::from_reader` on bytes in memory, set to trim texts: all events of the
/// document are still to come, and they depend on its bytes alone.
#[verifier::external_body]
fn open<'a>(bytes: &'a [u8]) -> (r: quick_xml::Reader<&'a [u8]>)
    ensures
        events_left(r) == xml_events(bytes@),
{
    let mut reader = quick_xml::Reader::from_reader(bytes);
    reader.config_mut().trim_text(true);
    reader
}

/// The attributes that a start tag holds, in their order: each with its name as it
/// stands and its value with character references resolved.
pub uninterp spec fn attributes_in(tag: quick_xml::events::BytesStart<'_>) -> Seq<AttributeView>;

/// `BytesStart::attributes`, with no test for names that occur twice, walks the attributes
/// in their order.
#[verifier::external_body]
fn attributes(tag: &BytesStart<'_>) -> (r: Vec<RawAttribute>)
    ensures
        attribute_views(r@) == attributes_in(*tag),
{
    tag.attributes()
        .with_checks(false)
        .map(|a| a.map_err(|e| e.to_string()).map(|a| (a.key.0.to_vec(), a.unescape_value().map(|v| v.into_owned()).map_err(|e| e.to_string()))))
        .collect()
}

/// One event as the reader gives it, a start tag with its attributes still in it.
enum Piece<'a> {
    Start(Vec<u8>, BytesStart<'a>),
    Empty(Vec<u8>),
    Text(Result<String, String>),
    End(Vec<u8>),
    Other,
    Eof,
    Failed(String),
}

spec fn piece_view(piece: Piece<'_>) -> XmlEventView {
    match piece {
        Piece::Start(name, tag) => XmlEventView::Start(name@, attributes_in(tag)),
        Piece::Empty(name) => XmlEventView::Empty(name@),
        Piece::Text(text) => XmlEventView::Text(text_result(text)),
        Piece::End(name) => XmlEventView::End(name@),
        Piece::Other => XmlEventView::Other,
        Piece::Eof => XmlEventView::Eof,
        Piece::Failed(message) => XmlEventView::Failed(message@),
    }
}

/// `Reader::read_event` gives the next event, and at the end of the document says so
/// however often it is asked. A text is given as it reads with its character references
/// resolved.
#[verifier::external_body]
fn read<'a>(reader: &mut quick_xml::Reader<&'a [u8]>) -> (r: Piece<'a>)
    ensures
        events_left(*old(reader)).len() > 0 ==> piece_view(r) == events_left(*old(reader))[0]
            && r !is Eof && events_left(*final(reader)) == events_left(*old(reader)).skip(1),
        events_left(*old(reader)).len() == 0 ==> r is Eof && events_left(*final(reader)).len() == 0,
{
    match reader.read_event() {
        Err(e) => Piece::Failed(e.to_string()),
        Ok(event) => match event {
            Event::Start(e) => Piece::Start(e.name().0.to_vec(), e),
            Event::Empty(e) => Piece::Empty(e.name().0.to_vec()),
            Event::Text(e) => Piece::Text(e.unescape().map(Cow::into_owned).map_err(|x| x.to_string())),
            Event::CData(e) => Piece::Text(e.decode().map(Cow::into_owned).map_err(|x| x.to_string())),
            Event::End(e) => Piece::End(e.name().0.to_vec()),
            Event::Eof => Piece::Eof,
            _ => Piece::Other,
        },
    }
}

fn event_of(piece: Piece<'_>) -> (r: XmlEvent)
    ensures
        r@ == piece_view(piece),
{
    match piece {
        Piece::Start(name, tag) => XmlEvent::Start(name, attributes(&tag)),
        Piece::Empty(name) => XmlEvent::Empty(name),
        Piece::Text(text) => XmlEvent::Text(text),
        Piece::End(name) => XmlEvent::End(name),
        Piece::Other => XmlEvent::Other,
        Piece::Eof => XmlEvent::Eof,
        Piece::Failed(message) => XmlEvent::Failed(message),
    }
}

/// The events of a document before its end.
pub fn read_events(bytes: &[u8]) -> (r: Vec<XmlEvent>)
    ensures
        event_views(r@) == xml_events(bytes@),
{
    let mut reader = open(bytes);
    let mut r: Vec<XmlEvent> = Vec::new();
    assert(event_views(r@) + xml_events(bytes@) =~= xml_events(bytes@));
    let mut done = false;
    while !done
        invariant
            event_views(r@) + events_left(reader) == xml_events(bytes@),
            done ==> events_left(reader).len() == 0,
        decreases events_left(reader).len(), (if done { 0int } else { 1int }),
    {
        let ghost left = events_left(reader);
        let ghost before = event_views(r@);
        let event = event_of(read(&mut reader));
        match event {
            XmlEvent::Eof => {
                done = true;
                assert(events_left(reader) =~= left);
            },
            _ => {
                let ghost next = event@;
                r.push(event);
                assert(event_views(r@) =~= before.push(next));
                assert(before.push(next) + left.skip(1) =~= before + left);
            },
        }
    }
    assert(event_views(r@) + events_left(reader) =~= event_views(r@));
    r
}

/// One event of a document under construction.
pub enum XmlItem {
    Declaration,
    Start(String, Vec<(String, String)>),
    Text(String),
    End(String),
}

/// What such an event is.
#[verifier::ext_equal]
pub enum XmlItemView {
    Declaration,
    Start(Seq<char>, Seq<(Seq<char>, Seq<char>)>),
    Text(Seq<char>),
    End(Seq<char>),
}

pub open spec fn pairs(v: Seq<(String, String)>) -> Seq<(Seq<char>, Seq<char>)> {
    Seq::new(v.len(), |i: int| (v[i].0@, v[i].1@))
}

impl View for XmlItem {
    type V = XmlItemView;

    open spec fn view(&self) -> XmlItemView {
        match self {
            XmlItem::Declaration => XmlItemView::Declaration,
            XmlItem::Start(name, attributes) => XmlItemView::Start(name@, pairs(attributes@)),
            XmlItem::Text(text) => XmlItemView::Text(text@),
            XmlItem::End(name) => XmlItemView::End(name@),
        }
    }
}

/// The bytes that `quick_xml` writes for a row of events, indented by two blanks.
pub uninterp spec fn xml_bytes(items: Seq<XmlItemView>) -> Seq<u8>;

/// The events that have been given to a writer.
pub uninterp spec fn events_in(writer: quick_xml::Writer<Vec<u8>>) -> Seq<XmlItemView>;

/// A name of ASCII letters.
pub open spec fn plain_name(name: Seq<char>) -> bool {
    name.len() > 0 && forall|i: int|
        0 <= i < name.len() ==> 'A' <= #[trigger] name[i] <= 'Z' || 'a' <= name[i] <= 'z'
}

/// The elements that are open behind a row of events, if every name is plain, every end
/// belongs to the last start, and a text stands only right behind a start.
pub open spec fn open_behind(open: Seq<Seq<char>>, items: Seq<XmlItemView>) -> Option<
    Seq<Seq<char>>,
>
    decreases items.len(),
{
    if items.len() == 0 {
        Some(open)
    } else {
        match items[0] {
            XmlItemView::Declaration => if open.len() == 0 {
                open_behind(open, items.skip(1))
            } else {
                None
            },
            XmlItemView::Start(name, attributes) => if plain_name(name) && (forall|i: int|
                0 <= i < attributes.len() ==> plain_name((#[trigger] attributes[i]).0)) {
                if items.len() > 1 && items[1] is Text {
                    open_behind(open.push(name), items.skip(2))
                } else {
                    open_behind(open.push(name), items.skip(1))
                }
            } else {
                None
            },
            XmlItemView::Text(_) => None,
            XmlItemView::End(name) => if open.len() > 0 && open.last() == name {
                open_behind(open.drop_last(), items.skip(1))
            } else {
                None
            },
        }
    }
}

/// A text without blanks, tabs and line ends at its ends.
pub open spec fn without_blank_ends(s: Seq<char>) -> Seq<char>
    decreases s.len(),
{
    let blank = |c: char| c == ' ' || c == '\t' || c == '\r' || c == '\n';
    if s.len() > 0 && blank(s[0]) {
        without_blank_ends(s.skip(1))
    } else if s.len() > 0 && blank(s.last()) {
        without_blank_ends(s.drop_last())
    } else {
        s
    }
}

/// The attributes of a written start tag as they are read.
pub open spec fn read_attributes(attributes: Seq<(Seq<char>, Seq<char>)>) -> Seq<AttributeView> {
    Seq::new(
        attributes.len(),
        |i: int| Ok((vstd::utf8::encode_utf8(attributes[i].0), Ok(attributes[i].1))),
    )
}

/// What a written event is read as; a text that is blank is not read at all.
pub open spec fn reread_one(item: XmlItemView) -> Seq<XmlEventView> {
    match item {
        XmlItemView::Declaration => seq![XmlEventView::Other],
        XmlItemView::Start(name, attributes) => seq![
            XmlEventView::Start(vstd::utf8::encode_utf8(name), read_attributes(attributes)),
        ],
        XmlItemView::Text(text) => if without_blank_ends(text).len() > 0 {
            seq![XmlEventView::Text(Ok(without_blank_ends(text)))]
        } else {
            seq![]
        },
        XmlItemView::End(name) => seq![XmlEventView::End(vstd::utf8::encode_utf8(name))],
    }
}

/// What written events are read as.
pub open spec fn reread(items: Seq<XmlItemView>) -> Seq<XmlEventView>
    decreases items.len(),
{
    if items.len() == 0 {
        seq![]
    } else {
        reread_one(items[0]) + reread(items.skip(1))
    }
}

/// Whether bytes are read as events that were written.
pub open spec fn reads_as(bytes: Seq<u8>, items: Seq<XmlItemView>) -> bool {
    xml_events(bytes) == reread(items)
}

/// A document that is written event by event.
pub struct XmlOutput {
    writer: quick_xml::Writer<Vec<u8>>,
}

impl View for XmlOutput {
    type V = Seq<XmlItemView>;

    closed spec fn view(&self) -> Seq<XmlItemView> {
        events_in(self.writer)
    }
}

/// `Writer::new_with_indent` into memory, two blanks for each level: nothing has been
/// written yet.
#[verifier::external_body]
fn new_writer() -> (r: quick_xml::Writer<Vec<u8>>)
    ensures
        events_in(r) == Seq::<XmlItemView>::empty(),
{
    quick_xml::Writer::new_with_indent(Vec::new(), b' ', 2)
}

/// `Writer::write_event` appends the event to the bytes in memory.
#[verifier::external_body]
fn write(writer: &mut quick_xml::Writer<Vec<u8>>, item: &XmlItem)
    ensures
        events_in(*final(writer)) == events_in(*old(writer)).push(item@),
{
    let event = match item {
        XmlItem::Declaration => Event::Decl(BytesDecl::new("1.0", Some("UTF-8"), None)),
        XmlItem::Start(name, attributes) => Event::Start(BytesStart::new(name.as_str()).with_attributes(attributes.iter().map(|a| (a.0.as_str(), a.1.as_str())))),
        XmlItem::Text(text) => Event::Text(BytesText::new(text.as_str())),
        XmlItem::End(name) => Event::End(BytesEnd::new(name.as_str())),
    };
    writer.write_event(event).expect("memory takes every byte");
}

/// `Writer::into_inner` gives the bytes of all events that were written; they depend on
/// the events alone. Where every element is closed, a reader of the same crate that trims
/// texts reads the events back: the writer escapes what has a meaning of its own in names
/// and texts, and puts line ends and blanks only between two tags.
#[verifier::external_body]
fn into_bytes(writer: quick_xml::Writer<Vec<u8>>) -> (r: Vec<u8>)
    ensures
        r@ == xml_bytes(events_in(writer)),
        open_behind(seq![], events_in(writer)) == Some(Seq::<Seq<char>>::empty()) ==> reads_as(
            r@,
            events_in(writer),
        ),
{
    writer.into_inner()
}

impl XmlOutput {
    pub fn new() -> (r: XmlOutput)
        ensures
            r@ == Seq::<XmlItemView>::empty(),
    {
        XmlOutput { writer: new_writer() }
    }

    /// Appends one event.
    pub fn put(&mut self, item: XmlItem)
        ensures
            final(self)@ == old(self)@.push(item@),
    {
        write(&mut self.writer, &item);
    }

    /// The bytes of the document.
    pub fn finish(self) -> (r: Vec<u8>)
        ensures
            r@ == xml_bytes(self@),
            open_behind(seq![], self@) == Some(Seq::<Seq<char>>::empty()) ==> reads_as(r@, self@),
    {
        into_bytes(self.writer)
    }

    /// Appends a start tag without attributes.
    pub fn start(&mut self, name: &str)
        ensures
            final(self)@ == old(self)@.push(start_tag(name@)),
    {
        let attributes: Vec<(String, String)> = Vec::new();
        assert(pairs(attributes@) =~= Seq::<(Seq<char>, Seq<char>)>::empty());
        self.put(XmlItem::Start(name.to_owned(), attributes));
    }

    /// Appends an end tag.
    pub fn end(&mut self, name: &str)
        ensures
            final(self)@ == old(self)@.push(XmlItemView::End(name@)),
    {
        self.put(XmlItem::End(name.to_owned()));
    }

    /// Appends an element that holds a text.
    pub fn element(&mut self, name: &str, value: &str)
        ensures
            final(self)@ == old(self)@ + element(name@, value@),
    {
        let ghost before = self@;
        self.start(name);
        self.put(XmlItem::Text(value.to_owned()));
        self.end(name);
        assert(self@ =~= before + element(name@, value@));
    }
}

pub open spec fn start_tag(name: Seq<char>) -> XmlItemView {
    XmlItemView::Start(name, seq![])
}

/// The events of an element that holds a text.
pub open spec fn element(name: Seq<char>, value: Seq<char>) -> Seq<XmlItemView> {
    seq![start_tag(name), XmlItemView::Text(value), XmlItemView::End(name)]
}

} // verus!
