use tfidx::codec::{decode, encode, encode_results, index_of_entries, SerializationError};
use tfidx::corpus::CorpusIndex;
use tfidx::table::index_document;

fn sample() -> CorpusIndex {
    let mut index = CorpusIndex::new();
    index.insert("docs/b.xml".to_string(), index_document("dog dog dog"));
    index.insert("docs/a.xml".to_string(), index_document("cat dog dog"));
    index
}

fn text(index: &CorpusIndex) -> String {
    String::from_utf8(encode(index).unwrap()).unwrap()
}

fn sorted(index: &CorpusIndex) -> Vec<(String, Vec<(String, usize)>)> {
    let mut entries = index.to_entries();
    for (_, counts) in entries.iter_mut() {
        counts.sort();
    }
    entries.sort();
    entries
}

#[test]
fn encode_writes_an_object_of_objects() {
    assert_eq!(
        text(&sample()),
        "{\"docs/a.xml\":{\"CAT\":1,\"DOG\":2},\"docs/b.xml\":{\"DOG\":3}}"
    );
    assert_eq!(text(&CorpusIndex::new()), "{}");
}

#[test]
fn decode_reads_an_object_of_objects() {
    let index = decode(" { \"b\" : { \"DOG\" : 3 }, \"a\" : { \"CAT\" : 1, \"DOG\" : 2 } } ").unwrap();
    assert_eq!(index.len(), 2);
    assert_eq!(index.get("a").unwrap().count("CAT"), 1);
    assert_eq!(index.get("a").unwrap().count("DOG"), 2);
    assert_eq!(index.get("b").unwrap().count("DOG"), 3);
    assert_eq!(index.get("b").unwrap().total(), 3);
}

#[test]
fn what_is_written_is_read_back() {
    let index = sample();
    let again = decode(&text(&index)).unwrap();
    assert_eq!(sorted(&again), sorted(&index));
    assert_eq!(again.len(), index.len());
    assert_eq!(encode(&again).unwrap(), encode(&index).unwrap());
}

#[test]
fn terms_of_any_script_and_shape_are_read_back() {
    let mut index = CorpusIndex::new();
    index.insert("a \"quoted\" \\ path".to_string(), index_document("\" \\ é ß 名 \u{1F600} 42"));
    index.insert("".to_string(), index_document(""));
    let again = decode(&text(&index)).unwrap();
    assert_eq!(sorted(&again), sorted(&index));
}

#[test]
fn text_that_is_no_index_is_refused() {
    for text in ["", "[]", "{\"a\":1}", "{\"a\":{\"CAT\":-1}}", "{\"a\":{\"CAT\":1.5}}", "{\"a\":{\"CAT\":1}"] {
        assert!(matches!(decode(text), Err(SerializationError::Json(_))));
    }
}

#[test]
fn a_zero_count_is_invalid() {
    assert!(matches!(decode("{\"a\":{\"CAT\":0}}"), Err(SerializationError::Invalid)));
}

#[test]
fn counts_that_overflow_are_invalid() {
    let text = format!("{{\"a\":{{\"CAT\":{},\"DOG\":1}}}}", usize::MAX);
    assert!(matches!(decode(&text), Err(SerializationError::Invalid)));
}

#[test]
fn entries_are_checked_before_they_become_an_index() {
    let good = vec![("a".to_string(), vec![("CAT".to_string(), 2)])];
    assert_eq!(index_of_entries(&good).unwrap().get("a").unwrap().count("CAT"), 2);
    let twice = vec![("a".to_string(), vec![]), ("a".to_string(), vec![])];
    assert!(matches!(index_of_entries(&twice), Err(SerializationError::Invalid)));
}

#[test]
fn results_are_written_as_an_object_with_their_count() {
    let results = vec!["docs/a.xml".to_string(), "b \"c\"".to_string()];
    assert_eq!(
        encode_results(&results, 2).unwrap(),
        "{\"count\":2,\"results\":[\"docs/a.xml\",\"b \\\"c\\\"\"]}"
    );
    assert_eq!(encode_results(&vec![], 0).unwrap(), "{\"count\":0,\"results\":[]}");
}

#[test]
fn refused_text_comes_with_the_reason() {
    match decode("{\"a\":") {
        Err(SerializationError::Json(message)) => assert!(!message.is_empty()),
        _ => panic!("text that ends early must be refused"),
    }
}
