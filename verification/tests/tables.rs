use tfidx::assembly::{assemble, build};
use tfidx::corpus::CorpusIndex;
use tfidx::table::index_document;
use tfidx::lexer::tokenize;
use tfidx::table::TermTable;

fn sorted(mut entries: Vec<(String, usize)>) -> Vec<(String, usize)> {
    entries.sort();
    entries
}

fn entry(term: &str, count: usize) -> (String, usize) {
    (term.to_string(), count)
}

#[test]
fn a_new_table_is_empty() {
    let table = TermTable::new();
    assert_eq!(table.total(), 0);
    assert_eq!(table.len(), 0);
    assert_eq!(table.count("CAT"), 0);
    assert!(!table.contains("CAT"));
    assert_eq!(table.to_entries(), vec![]);
}

#[test]
fn add_counts_occurrences() {
    let mut table = TermTable::new();
    table.add("DOG".to_string());
    table.add("CAT".to_string());
    table.add("DOG".to_string());
    assert_eq!(table.count("DOG"), 2);
    assert_eq!(table.count("CAT"), 1);
    assert_eq!(table.count("COW"), 0);
    assert!(table.contains("DOG"));
    assert!(!table.contains("COW"));
    assert_eq!(table.total(), 3);
    assert_eq!(table.len(), 2);
    assert_eq!(table.to_entries(), vec![entry("DOG", 2), entry("CAT", 1)]);
}

#[test]
fn index_document_counts_each_term() {
    let table = index_document("cat dog dog");
    assert_eq!(table.count("CAT"), 1);
    assert_eq!(table.count("DOG"), 2);
    assert_eq!(table.count("cat"), 0);
    assert_eq!(table.len(), 2);
    assert_eq!(table.total(), 3);
}

#[test]
fn index_document_of_empty_text_is_empty() {
    let table = index_document(" \n ");
    assert_eq!(table.total(), 0);
    assert_eq!(table.len(), 0);
}

#[test]
fn counts_sum_to_the_number_of_tokens() {
    let text = "a b a, c! a b (7 7 7) gl4 gl4";
    let table = index_document(text);
    let sum: usize = table.to_entries().iter().map(|(_, count)| *count).sum();
    assert_eq!(sum, tokenize(text).len());
    assert_eq!(table.total(), tokenize(text).len());
    for (_, count) in table.to_entries() {
        assert!(count >= 1);
    }
}

#[test]
fn entries_give_back_the_table() {
    let table = index_document("to be or not to be");
    let entries = table.to_entries();
    assert_eq!(
        entries,
        vec![entry("TO", 2), entry("BE", 2), entry("OR", 1), entry("NOT", 1)]
    );
    let again = TermTable::from_entries(&entries).unwrap();
    assert_eq!(again.to_entries(), entries);
    assert_eq!(again.total(), 6);
    assert_eq!(again.count("BE"), 2);
}

#[test]
fn entries_with_a_repeated_term_describe_no_table() {
    assert!(TermTable::from_entries(&vec![entry("A", 1), entry("B", 2), entry("A", 3)]).is_none());
}

#[test]
fn entries_with_a_zero_count_describe_no_table() {
    assert!(TermTable::from_entries(&vec![entry("A", 1), entry("B", 0)]).is_none());
}

#[test]
fn entries_whose_counts_overflow_describe_no_table() {
    assert!(TermTable::from_entries(&vec![entry("A", usize::MAX), entry("B", 1)]).is_none());
    let table = TermTable::from_entries(&vec![entry("A", usize::MAX - 1), entry("B", 1)]).unwrap();
    assert_eq!(table.total(), usize::MAX);
}

#[test]
fn a_new_index_is_empty() {
    let index = CorpusIndex::new();
    assert_eq!(index.len(), 0);
    assert!(index.get("a.xml").is_none());
    assert_eq!(index.documents_with("CAT"), 0);
    assert_eq!(index.to_entries(), vec![]);
}

#[test]
fn insert_files_tables_in_order() {
    let mut index = CorpusIndex::new();
    index.insert("a".to_string(), index_document("cat dog dog"));
    index.insert("b".to_string(), index_document("dog dog dog"));
    assert_eq!(index.len(), 2);
    assert_eq!(index.identity(0), "a");
    assert_eq!(index.identity(1), "b");
    assert_eq!(index.table(0).count("CAT"), 1);
    assert_eq!(index.table(1).count("DOG"), 3);
    assert_eq!(index.get("b").unwrap().total(), 3);
    assert!(index.get("c").is_none());
    assert_eq!(index.documents_with("DOG"), 2);
    assert_eq!(index.documents_with("CAT"), 1);
    assert_eq!(index.documents_with("COW"), 0);
}

#[test]
fn the_last_write_wins() {
    let mut index = CorpusIndex::new();
    index.insert("a".to_string(), index_document("cat"));
    index.insert("b".to_string(), index_document("dog"));
    index.insert("a".to_string(), index_document("cow cow"));
    assert_eq!(index.len(), 2);
    assert_eq!(index.identity(0), "a");
    assert_eq!(index.identity(1), "b");
    assert_eq!(index.get("a").unwrap().count("CAT"), 0);
    assert_eq!(index.get("a").unwrap().count("COW"), 2);
    assert_eq!(index.documents_with("CAT"), 0);
}

#[test]
fn index_entries_give_back_the_index() {
    let mut index = CorpusIndex::new();
    index.insert("a".to_string(), index_document("cat dog dog"));
    index.insert("b".to_string(), index_document(""));
    let entries = index.to_entries();
    assert_eq!(
        entries,
        vec![
            ("a".to_string(), vec![entry("CAT", 1), entry("DOG", 2)]),
            ("b".to_string(), vec![]),
        ]
    );
    let again = CorpusIndex::from_entries(&entries).unwrap();
    assert_eq!(again.to_entries(), entries);
    assert_eq!(again.get("a").unwrap().count("DOG"), 2);
}

#[test]
fn entries_with_a_repeated_identity_describe_no_index() {
    let entries = vec![
        ("a".to_string(), vec![entry("CAT", 1)]),
        ("a".to_string(), vec![entry("DOG", 1)]),
    ];
    assert!(CorpusIndex::from_entries(&entries).is_none());
}

#[test]
fn entries_with_a_bad_table_describe_no_index() {
    let entries = vec![("a".to_string(), vec![entry("CAT", 0)])];
    assert!(CorpusIndex::from_entries(&entries).is_none());
}

#[test]
fn assemble_leaves_out_documents_without_text() {
    let documents = vec![
        ("a".to_string(), Some("cat dog".to_string())),
        ("b".to_string(), None),
        ("c".to_string(), Some("dog".to_string())),
    ];
    let built = assemble(&documents);
    assert_eq!(built.index.len(), 2);
    assert_eq!(built.index.identity(0), "a");
    assert_eq!(built.index.identity(1), "c");
    assert!(built.index.get("b").is_none());
    assert_eq!(built.skipped, vec!["b"]);
}

#[test]
fn assemble_lets_the_later_document_win() {
    let documents = vec![
        ("a".to_string(), Some("cat".to_string())),
        ("a".to_string(), Some("dog dog".to_string())),
        ("a".to_string(), None),
    ];
    let built = assemble(&documents);
    assert_eq!(built.index.len(), 1);
    assert_eq!(sorted(built.index.get("a").unwrap().to_entries()), vec![entry("DOG", 2)]);
    assert_eq!(built.skipped, vec!["a"]);
}

#[test]
fn build_indexes_the_character_data_of_each_source() {
    let sources = vec![
        ("a.xml".to_string(), b"<doc><p>cat dog</p><p>dog</p></doc>".to_vec()),
        ("broken.xml".to_string(), b"<doc><p>cat".to_vec()),
        ("b.xml".to_string(), b"<doc title=\"cat\">dog dog dog<!-- cow --></doc>".to_vec()),
    ];
    let built = build(&sources);
    assert_eq!(built.skipped, vec!["broken.xml"]);
    assert_eq!(built.index.len(), 2);
    assert_eq!(
        built.index.to_entries(),
        vec![
            ("a.xml".to_string(), vec![entry("CAT", 1), entry("DOG", 2)]),
            ("b.xml".to_string(), vec![entry("DOG", 3)]),
        ]
    );
}
