//! Text extraction: the character data of an XML document.
//!
//! Parsing is the work of the `xml` crate. Its events are mirrored here one
//! for one, and which of them count as text is decided in verified code: the
//! character data between tags, each run followed by one space.

use vstd::prelude::*;
use vstd::string::StringExecFns;
use xml::reader::XmlEvent;
use xml::EventReader;

verus! {

/// The parser's error, carried through as it is.
#[verifier::external_type_specification]
#[verifier::external_body]
pub struct ExXmlError(xml::reader::Error);

/// One event of an XML document, with the text that it carries, if any.
#[derive(Debug, PartialEq, Eq)]
pub enum Event<T> {
    StartDocument,
    EndDocument,
    ProcessingInstruction,
    StartElement,
    EndElement,
    CData(T),
    Comment(T),
    Characters(T),
    Whitespace(T),
}

impl DeepView for Event<String> {
    type V = Event<Seq<char>>;

    open spec fn deep_view(&self) -> Event<Seq<char>> {
        match *self {
            Event::StartDocument => Event::StartDocument,
            Event::EndDocument => Event::EndDocument,
            Event::ProcessingInstruction => Event::ProcessingInstruction,
            Event::StartElement => Event::StartElement,
            Event::EndElement => Event::EndElement,
            Event::CData(text) => Event::CData(text@),
            Event::Comment(text) => Event::Comment(text@),
            Event::Characters(text) => Event::Characters(text@),
            Event::Whitespace(text) => Event::Whitespace(text@),
        }
    }
}

/// The events that the parser reads from `source`, up to and including the
/// end of the document; `None` where it reports an error.
pub uninterp spec fn xml_events(source: Seq<u8>) -> Option<Seq<Event<Seq<char>>>>;

/// Why no text could be extracted from a document.
#[derive(Debug)]
pub struct ExtractionError {
    pub message: String,
}

/// `xml::EventReader::next`, called through the reader's iterator until it
/// ends: trusted to read the events of `source` in order, each mirrored by
/// its kind and text, and to stop at the first error, which is returned.
/// The events depend on `source` alone.
#[verifier::external_body]
fn read_events(source: &[u8]) -> (read: Result<Vec<Event<String>>, xml::reader::Error>)
    ensures
        match read {
            Ok(events) => xml_events(source@) == Some(events.deep_view()),
            Err(_) => xml_events(source@) is None,
        },
{
    EventReader::new(source).into_iter().map(|event| Ok(match event? {
        XmlEvent::StartDocument { .. } => Event::StartDocument,
        XmlEvent::EndDocument => Event::EndDocument,
        XmlEvent::ProcessingInstruction { .. } => Event::ProcessingInstruction,
        XmlEvent::StartElement { .. } => Event::StartElement,
        XmlEvent::EndElement { .. } => Event::EndElement,
        XmlEvent::CData(text) => Event::CData(text),
        XmlEvent::Comment(text) => Event::Comment(text),
        XmlEvent::Characters(text) => Event::Characters(text),
        XmlEvent::Whitespace(text) => Event::Whitespace(text),
    })).collect()
}

/// `Display` of `xml::reader::Error`: the parser's words for its error.
#[verifier::external_body]
fn xml_error_text(error: &xml::reader::Error) -> String {
    error.to_string()
}

/// The text of a document with the given events: its runs of character
/// data in order, each followed by one space.
pub open spec fn characters(events: Seq<Event<Seq<char>>>) -> Seq<char>
    decreases events.len(),
{
    if events.len() == 0 {
        Seq::empty()
    } else {
        characters(events.drop_last()) + match events.last() {
            Event::Characters(text) => text.push(' '),
            _ => Seq::empty(),
        }
    }
}

/// The text that is extracted from the XML document `source`; `None` where
/// the parser reports an error.
pub open spec fn extracted(source: Seq<u8>) -> Option<Seq<char>> {
    match xml_events(source) {
        Some(events) => Some(characters(events)),
        None => None,
    }
}

/// The text of a document with the given events.
pub fn text_of_events(events: &Vec<Event<String>>) -> (text: String)
    ensures
        text@ == characters(events.deep_view()),
{
    let ghost given = events.deep_view();
    let mut text = String::new();
    let mut i: usize = 0;
    assert(given.take(0) =~= Seq::empty());
    while i < events.len()
        invariant
            given == events.deep_view(),
            i <= events.len(),
            text@ == characters(given.take(i as int)),
        decreases events.len() - i,
    {
        assert(given.take(i + 1).drop_last() =~= given.take(i as int));
        assert(given.take(i + 1).last() == events[i as int].deep_view());
        match &events[i] {
            Event::Characters(run) => {
                text.append(run.as_str());
                text.push(' ');
            },
            _ => {
                assert(text@ + Seq::<char>::empty() =~= text@);
            },
        }
        i += 1;
    }
    assert(given.take(i as int) =~= given);
    text
}

/// The text of the XML document `source`, or the parser's error.
pub fn read_xml(source: &[u8]) -> (read: Result<String, ExtractionError>)
    ensures
        match read {
            Ok(text) => extracted(source@) == Some(text@),
            Err(_) => extracted(source@) is None,
        },
{
    match read_events(source) {
        Ok(events) => Ok(text_of_events(&events)),
        Err(error) => Err(ExtractionError { message: xml_error_text(&error) }),
    }
}

} // verus!
