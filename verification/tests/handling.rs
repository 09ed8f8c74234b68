use tfidx::corpus::CorpusIndex;
use tfidx::table::index_document;
use tfidx::handler::{
    route, serve_file, serve_json, serve_request, serve_scored, Body, Method, Response, Route,
    Step,
};
use tfidx::score::{Ratio, Weight};

fn corpus() -> CorpusIndex {
    let mut index = CorpusIndex::new();
    index.insert("a".to_string(), index_document("cat dog dog"));
    index.insert("b".to_string(), index_document("dog dog dog"));
    index
}

fn page(segments: &[&str], status: u16) -> Response {
    Response {
        status,
        content_type: "text/html".to_string(),
        allow_origin: "http://127.0.0.1:5000".to_string(),
        body: Body::File(segments.iter().map(|s| s.to_string()).collect()),
    }
}

fn json(results: &[&str], status: u16) -> Response {
    Response {
        status,
        content_type: "application/json".to_string(),
        allow_origin: "http://127.0.0.1:5000".to_string(),
        body: Body::Json {
            results: results.iter().map(|s| s.to_string()).collect(),
            count: results.len(),
        },
    }
}

#[test]
fn the_landing_page_has_two_paths() {
    assert_eq!(route(Method::Get, "/"), Route::Landing);
    assert_eq!(route(Method::Get, "/index.html"), Route::Landing);
}

#[test]
fn search_is_a_post() {
    assert_eq!(route(Method::Post, "/api/search"), Route::Search);
    assert_eq!(route(Method::Get, "/api/search"), Route::NotFound);
    assert_eq!(route(Method::Put, "/api/search"), Route::NotFound);
}

#[test]
fn anything_else_is_not_found() {
    assert_eq!(route(Method::Get, "/unknown"), Route::NotFound);
    assert_eq!(route(Method::Get, ""), Route::NotFound);
    assert_eq!(route(Method::Get, "/index.html?x=1"), Route::NotFound);
    assert_eq!(route(Method::Post, "/"), Route::NotFound);
    assert_eq!(route(Method::Head, "/"), Route::NotFound);
    assert_eq!(route(Method::NonStandard, "/index.html"), Route::NotFound);
}

#[test]
fn get_unknown_is_answered_with_the_not_found_page() {
    let step = serve_request(Method::Get, "/unknown", "", &corpus());
    assert_eq!(step, Step::Respond(page(&["static", "404.html"], 404)));
}

#[test]
fn get_root_is_answered_with_the_landing_page() {
    let index = corpus();
    let expected = Step::Respond(page(&["static", "index.html"], 200));
    assert_eq!(serve_request(Method::Get, "/", "ignored", &index), expected);
    assert_eq!(serve_request(Method::Get, "/index.html", "", &index), expected);
}

#[test]
fn a_search_asks_for_scores() {
    let step = serve_request(Method::Post, "/api/search", "cat", &corpus());
    let two_to_one = Ratio { num: 2, den: 1 };
    assert_eq!(
        step,
        Step::Score(vec![
            ("a".to_string(), vec![Weight { tf: Ratio { num: 1, den: 3 }, idf: two_to_one }]),
            ("b".to_string(), vec![Weight { tf: Ratio { num: 0, den: 3 }, idf: two_to_one }]),
        ])
    );
}

#[test]
fn a_search_with_an_empty_body_asks_for_scores_of_nothing() {
    let step = serve_request(Method::Post, "/api/search", "", &corpus());
    assert_eq!(step, Step::Score(vec![("a".to_string(), vec![]), ("b".to_string(), vec![])]));
    let scored = vec![("a".to_string(), 0), ("b".to_string(), 0)];
    assert_eq!(serve_scored(&scored), json(&["a", "b"], 200));
}

#[test]
fn scored_documents_are_answered_in_descending_order() {
    let scored = vec![("a".to_string(), 3), ("b".to_string(), 9), ("c".to_string(), 3)];
    assert_eq!(serve_scored(&scored), json(&["b", "a", "c"], 200));
    assert_eq!(serve_scored(&vec![]), json(&[], 200));
}

#[test]
fn serve_file_answers_with_an_html_page() {
    let path = vec!["static".to_string(), "index.html".to_string()];
    assert_eq!(serve_file(path, 200), page(&["static", "index.html"], 200));
    assert_eq!(serve_file(vec![], 500), page(&[], 500));
}

#[test]
fn serve_json_counts_the_results() {
    let results = vec!["x".to_string(), "y".to_string(), "z".to_string()];
    assert_eq!(serve_json(results, 200), json(&["x", "y", "z"], 200));
}
