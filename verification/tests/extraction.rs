use tfidx::extract::{read_xml, text_of_events, Event};

#[test]
fn character_data_is_joined_with_spaces() {
    let text = read_xml(b"<a><b>hello</b><c>big world</c></a>").unwrap();
    assert_eq!(text, "hello big world ");
}

#[test]
fn markup_comments_and_attributes_are_no_text() {
    let source = b"<?xml version=\"1.0\"?><a href=\"x\"><!-- note -->one<b/>two</a>";
    assert_eq!(read_xml(source).unwrap(), "one two ");
}

#[test]
fn entities_are_unescaped() {
    assert_eq!(read_xml(b"<a>1 &lt; 2 &amp; 3</a>").unwrap(), "1 < 2 & 3 ");
}

#[test]
fn whitespace_between_elements_is_no_text() {
    assert_eq!(read_xml(b"<a>\n  <b>x</b>\n  <b>y</b>\n</a>").unwrap(), "x y ");
}

#[test]
fn a_document_without_character_data_has_empty_text() {
    assert_eq!(read_xml(b"<a><b/></a>").unwrap(), "");
}

#[test]
fn a_malformed_document_is_an_error() {
    assert!(read_xml(b"<a><b>text</a>").is_err());
    assert!(read_xml(b"no markup at all").is_err());
    assert!(read_xml(b"").is_err());
    assert!(!read_xml(b"<a>").unwrap_err().message.is_empty());
}

#[test]
fn only_character_events_count_as_text() {
    let events = vec![
        Event::StartDocument,
        Event::StartElement,
        Event::Characters("one".to_string()),
        Event::CData("raw".to_string()),
        Event::Comment("note".to_string()),
        Event::Whitespace("  ".to_string()),
        Event::ProcessingInstruction,
        Event::Characters("two three".to_string()),
        Event::EndElement,
        Event::EndDocument,
    ];
    assert_eq!(text_of_events(&events), "one two three ");
    assert_eq!(text_of_events(&vec![]), "");
}
