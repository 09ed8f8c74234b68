use tfidx::corpus::CorpusIndex;
use tfidx::table::index_document;
use tfidx::rank::rank;
use tfidx::score::{idf, tf, Ratio, Weight};
use tfidx::search::weigh;

fn corpus(documents: &[(&str, &str)]) -> CorpusIndex {
    let mut index = CorpusIndex::new();
    for (identity, text) in documents {
        index.insert(identity.to_string(), index_document(text));
    }
    index
}

fn score(weights: &[Weight]) -> f32 {
    weights
        .iter()
        .map(|w| (w.tf.num as f32 / w.tf.den as f32) * (w.idf.num as f32 / w.idf.den as f32).log10())
        .sum()
}

fn ranked_ids(query: &str, index: &CorpusIndex) -> Vec<String> {
    let scored: Vec<(String, u32)> = weigh(query, index)
        .into_iter()
        .map(|(identity, weights)| (identity, score(&weights).to_bits()))
        .collect();
    rank(&scored).into_iter().map(|(identity, _)| identity).collect()
}

fn scored(entries: &[(&str, u32)]) -> Vec<(String, u32)> {
    entries.iter().map(|(identity, key)| (identity.to_string(), *key)).collect()
}

#[test]
fn tf_is_count_over_total() {
    let table = index_document("cat dog dog");
    assert_eq!(tf("CAT", &table), Ratio { num: 1, den: 3 });
    assert_eq!(tf("DOG", &table), Ratio { num: 2, den: 3 });
    assert_eq!(tf("COW", &table), Ratio { num: 0, den: 3 });
}

#[test]
fn tf_of_an_empty_table_is_zero() {
    let table = index_document("");
    assert_eq!(tf("CAT", &table), Ratio { num: 0, den: 1 });
}

#[test]
fn tf_lies_between_zero_and_one() {
    let table = index_document("a b a c a d e a");
    for term in ["A", "B", "C", "D", "E", "F"] {
        let ratio = tf(term, &table);
        assert!(ratio.den >= 1);
        assert!(ratio.num <= ratio.den);
    }
    assert_eq!(tf("A", &index_document("a a a")), Ratio { num: 3, den: 3 });
}

#[test]
fn idf_is_documents_over_holders() {
    let index = corpus(&[("a", "cat dog dog"), ("b", "dog dog dog"), ("c", "cow")]);
    assert_eq!(idf("CAT", &index), Ratio { num: 3, den: 1 });
    assert_eq!(idf("DOG", &index), Ratio { num: 3, den: 2 });
    assert_eq!(idf("COW", &index), Ratio { num: 3, den: 1 });
}

#[test]
fn idf_of_a_term_in_every_document_is_one() {
    let index = corpus(&[("a", "cat dog"), ("b", "dog"), ("c", "dog dog")]);
    let ratio = idf("DOG", &index);
    assert_eq!(ratio, Ratio { num: 3, den: 3 });
    assert_eq!((ratio.num as f32 / ratio.den as f32).log10(), 0.0);
}

#[test]
fn idf_of_a_term_in_no_document_counts_one_holder() {
    let index = corpus(&[("a", "cat"), ("b", "dog")]);
    assert_eq!(idf("COW", &index), Ratio { num: 2, den: 1 });
    assert_eq!(idf("COW", &CorpusIndex::new()), Ratio { num: 0, den: 1 });
}

#[test]
fn idf_grows_as_fewer_documents_hold_the_term() {
    let index = corpus(&[("a", "x y z"), ("b", "x y"), ("c", "x"), ("d", "")]);
    let in_three = idf("X", &index);
    let in_two = idf("Y", &index);
    let in_one = idf("Z", &index);
    assert!(in_three.num * in_two.den < in_two.num * in_three.den);
    assert!(in_two.num * in_one.den < in_one.num * in_two.den);
}

#[test]
fn weights_follow_the_query_terms_in_order() {
    let index = corpus(&[("a", "cat dog dog"), ("b", "dog dog dog")]);
    let weighed = weigh("dog cat DOG", &index);
    let dog = Weight { tf: Ratio { num: 2, den: 3 }, idf: Ratio { num: 2, den: 2 } };
    let cat = Weight { tf: Ratio { num: 1, den: 3 }, idf: Ratio { num: 2, den: 1 } };
    assert_eq!(weighed[0].1, vec![dog, cat, dog]);
}

#[test]
fn weigh_weighs_every_document_in_index_order() {
    let index = corpus(&[("a", "cat dog dog"), ("b", "dog dog dog")]);
    let weighed = weigh("cat", &index);
    assert_eq!(
        weighed,
        vec![
            (
                "a".to_string(),
                vec![Weight { tf: Ratio { num: 1, den: 3 }, idf: Ratio { num: 2, den: 1 } }]
            ),
            (
                "b".to_string(),
                vec![Weight { tf: Ratio { num: 0, den: 3 }, idf: Ratio { num: 2, den: 1 } }]
            ),
        ]
    );
}

#[test]
fn the_score_is_the_sum_of_tf_times_idf() {
    let index = corpus(&[("a", "cat dog dog"), ("b", "dog dog dog")]);
    let weighed = weigh("cat cat dog", &index);
    let expected = 2.0 * (1.0f32 / 3.0) * 2.0f32.log10();
    assert!((score(&weighed[0].1) - expected).abs() < 1e-6);
    assert_eq!(score(&weighed[1].1), 0.0);
}

#[test]
fn the_rarer_term_ranks_its_document_first() {
    let index = corpus(&[("Doc A", "cat dog dog"), ("Doc B", "dog dog dog")]);
    assert_eq!(ranked_ids("cat", &index), vec!["Doc A", "Doc B"]);
    let weighed = weigh("cat", &index);
    assert!(score(&weighed[0].1) > score(&weighed[1].1));
    let turned = corpus(&[("Doc B", "dog dog dog"), ("Doc A", "cat dog dog")]);
    assert_eq!(ranked_ids("cat", &turned), vec!["Doc A", "Doc B"]);
}

#[test]
fn an_empty_query_scores_every_document_zero() {
    let index = corpus(&[("a", "cat"), ("b", "dog"), ("c", "")]);
    let weighed = weigh("", &index);
    assert_eq!(weighed.len(), 3);
    for (_, weights) in &weighed {
        assert!(weights.is_empty());
        assert_eq!(score(weights), 0.0);
    }
    assert_eq!(ranked_ids("", &index), vec!["a", "b", "c"]);
    assert_eq!(ranked_ids("", &index), ranked_ids("  ", &index));
}

#[test]
fn a_query_against_an_empty_index_finds_nothing() {
    assert_eq!(weigh("cat", &CorpusIndex::new()), vec![]);
}

#[test]
fn rank_sorts_by_descending_key() {
    let ranked = rank(&scored(&[("a", 1), ("b", 3), ("c", 2)]));
    assert_eq!(ranked, scored(&[("b", 3), ("c", 2), ("a", 1)]));
}

#[test]
fn rank_keeps_tied_documents_in_their_order() {
    let ranked = rank(&scored(&[("a", 5), ("b", 7), ("c", 5), ("d", 7), ("e", 5)]));
    assert_eq!(ranked, scored(&[("b", 7), ("d", 7), ("a", 5), ("c", 5), ("e", 5)]));
}

#[test]
fn rank_of_nothing_is_nothing() {
    assert_eq!(rank(&vec![]), vec![]);
}

#[test]
fn rank_does_not_depend_on_the_order_of_distinct_keys() {
    let one = rank(&scored(&[("a", 10), ("b", 30), ("c", 20), ("d", 0)]));
    let other = rank(&scored(&[("d", 0), ("c", 20), ("a", 10), ("b", 30)]));
    assert_eq!(one, other);
    assert_eq!(one, rank(&one));
}

#[test]
fn ranking_is_the_same_on_every_call() {
    let index = corpus(&[("a", "x y"), ("b", "y z z"), ("c", "x x x"), ("d", "w")]);
    let first = ranked_ids("x z", &index);
    assert_eq!(first, ranked_ids("x z", &index));
    assert_eq!(first.len(), 4);
}

#[test]
fn keys_of_scores_order_as_the_scores_do() {
    let scores = [0.0f32, 1e-20, 0.1, 0.30103, 1.0, 7.5, f32::INFINITY];
    for pair in scores.windows(2) {
        assert!(pair[0].to_bits() < pair[1].to_bits());
    }
}
