//! The request handler: what to answer to a request, as plain values.
//!
//! Receiving a request and sending the answer is left to the caller. So is
//! turning the weights of a search into relevance keys, which takes real
//! arithmetic: a search is answered in two steps, with the caller's scoring
//! between them.

use vstd::prelude::*;
use crate::corpus::CorpusIndex;
use crate::lexer::terms;
use crate::rank::{rank, ranking};
use crate::score::{weights_of, Weight};
use crate::search::weigh;

verus! {

/// A request method.
#[derive(Clone, Copy, Debug, PartialEq, Eq, Structural)]
pub enum Method {
    Get,
    Head,
    Post,
    Put,
    Delete,
    Connect,
    Options,
    Trace,
    Patch,
    NonStandard,
}

/// What a request asks for.
#[derive(Clone, Copy, Debug, PartialEq, Eq, Structural)]
pub enum Route {
    /// The landing page.
    Landing,
    /// A search, with the query as the request's body.
    Search,
    /// Anything else.
    NotFound,
}

/// The routing table: each row a method, a path, and the route of a request
/// with that method and path.
pub open spec fn route_table() -> Seq<(Method, Seq<char>, Route)> {
    seq![
        (Method::Get, "/"@, Route::Landing),
        (Method::Get, "/index.html"@, Route::Landing),
        (Method::Post, "/api/search"@, Route::Search),
    ]
}

/// The route of the first row of `table` that has the given method and
/// path; `NotFound` where no row has them.
pub open spec fn lookup(
    table: Seq<(Method, Seq<char>, Route)>,
    method: Method,
    url: Seq<char>,
) -> Route
    decreases table.len(),
{
    if table.len() == 0 {
        Route::NotFound
    } else if table[0].0 == method && table[0].1 == url {
        table[0].2
    } else {
        lookup(table.skip(1), method, url)
    }
}

/// The route of a request with the given method and path.
pub open spec fn route_of(method: Method, url: Seq<char>) -> Route {
    lookup(route_table(), method, url)
}

/// The routes spelled out: the landing page is what `GET /` and
/// `GET /index.html` ask for, a search is what `POST /api/search` asks for,
/// and every other method and path is not found.
pub proof fn lemma_routes(method: Method, url: Seq<char>)
    ensures
        route_of(method, url) is Landing <==> method == Method::Get && (url == "/"@ || url
            == "/index.html"@),
        route_of(method, url) is Search <==> method == Method::Post && url == "/api/search"@,
{
    reveal_with_fuel(lookup, 4);
    let table = route_table();
    assert(table.skip(1).skip(1) =~= table.skip(2));
    assert(table.skip(2).skip(1) =~= table.skip(3));
    assert(table.skip(1)[0] == table[1]);
    assert(table.skip(2)[0] == table[2]);
}

/// The routing table.
fn routes() -> (table: Vec<(Method, String, Route)>)
    ensures
        table.len() == route_table().len(),
        forall|i: int|
            0 <= i < table.len() ==> (#[trigger] table[i]).0 == route_table()[i].0 && table[i].1@
                == route_table()[i].1 && table[i].2 == route_table()[i].2,
{
    let mut table: Vec<(Method, String, Route)> = Vec::new();
    table.push((Method::Get, "/".to_owned(), Route::Landing));
    table.push((Method::Get, "/index.html".to_owned(), Route::Landing));
    table.push((Method::Post, "/api/search".to_owned(), Route::Search));
    table
}

/// The route of a request with the given method and path.
pub fn route(method: Method, url: &str) -> (found: Route)
    ensures
        found == route_of(method, url@),
{
    let table = routes();
    let path = url.to_owned();
    let ghost rows = route_table();
    let mut i: usize = 0;
    assert(rows.skip(0) =~= rows);
    while i < table.len()
        invariant
            rows == route_table(),
            path@ == url@,
            table.len() == rows.len(),
            forall|k: int|
                0 <= k < table.len() ==> (#[trigger] table[k]).0 == rows[k].0 && table[k].1@
                    == rows[k].1 && table[k].2 == rows[k].2,
            i <= table.len(),
            lookup(rows.skip(i as int), method, url@) == route_of(method, url@),
        decreases table.len() - i,
    {
        let ghost rest = rows.skip(i as int);
        assert(rest[0] == rows[i as int]);
        assert(rest.skip(1) =~= rows.skip(i + 1));
        if table[i].0 == method && table[i].1 == path {
            return table[i].2;
        }
        i += 1;
    }
    Route::NotFound
}

/// What an answer carries.
#[derive(Debug, PartialEq, Eq)]
pub enum Body {
    /// The file at the path with these segments, as an HTML page.
    File(Vec<String>),
    /// The JSON object with the member `results`, the identities of the
    /// documents in descending order of relevance, and the member `count`,
    /// their number.
    Json { results: Vec<String>, count: usize },
}

/// An answer to a request.
#[derive(Debug, PartialEq, Eq)]
pub struct Response {
    pub status: u16,
    pub content_type: String,
    pub allow_origin: String,
    pub body: Body,
}

/// The one origin that every answer admits, in its cross-origin header.
pub open spec fn allowed_origin() -> Seq<char> {
    "http://127.0.0.1:5000"@
}

impl Response {
    /// Whether this answer is the page at `path` with the given status.
    pub open spec fn is_file(&self, path: Seq<Seq<char>>, status: u16) -> bool {
        &&& self.status == status
        &&& self.content_type@ == "text/html"@
        &&& self.allow_origin@ == allowed_origin()
        &&& self.body matches Body::File(segments)
        &&& segments.deep_view() == path
    }

    /// Whether this answer is the JSON object for `results` with the given status.
    pub open spec fn is_json(&self, results: Seq<Seq<char>>, status: u16) -> bool {
        &&& self.status == status
        &&& self.content_type@ == "application/json"@
        &&& self.allow_origin@ == allowed_origin()
        &&& self.body matches Body::Json { results: listed, count }
        &&& listed.deep_view() == results
        &&& count == results.len()
    }
}

/// The answer that serves the file at the given path as an HTML page.
pub fn serve_file(file_path_args: Vec<String>, status_code: u16) -> (response: Response)
    ensures
        response.is_file(file_path_args.deep_view(), status_code),
{
    Response {
        status: status_code,
        content_type: "text/html".to_owned(),
        allow_origin: "http://127.0.0.1:5000".to_owned(),
        body: Body::File(file_path_args),
    }
}

/// The answer that serves the given results as a JSON object.
pub fn serve_json(results: Vec<String>, status_code: u16) -> (response: Response)
    ensures
        response.is_json(results.deep_view(), status_code),
{
    let count = results.len();
    Response {
        status: status_code,
        content_type: "application/json".to_owned(),
        allow_origin: "http://127.0.0.1:5000".to_owned(),
        body: Body::Json { results, count },
    }
}

/// The path of the landing page.
pub open spec fn landing_page() -> Seq<Seq<char>> {
    seq!["static"@, "index.html"@]
}

/// The path of the page for what is not found.
pub open spec fn not_found_page() -> Seq<Seq<char>> {
    seq!["static"@, "404.html"@]
}

/// What to do about a request.
#[derive(Debug, PartialEq, Eq)]
pub enum Step {
    /// Send this answer.
    Respond(Response),
    /// Turn each document's weights into its relevance key, and hand the
    /// keys to `serve_scored` for the answer.
    Score(Vec<(String, Vec<Weight>)>),
}

/// Decides what to do about a request with the given method, path and body,
/// against `index`: the landing page and the page for what is not found
/// are answered at once; for a search, the body is the query, and every
/// document of the index is weighed against it, in the order of the index.
pub fn serve_request(method: Method, url: &str, body: &str, index: &CorpusIndex) -> (step: Step)
    requires
        index.wf(),
    ensures
        match route_of(method, url@) {
            Route::Landing => step matches Step::Respond(response) && response.is_file(
                landing_page(),
                200,
            ),
            Route::NotFound => step matches Step::Respond(response) && response.is_file(
                not_found_page(),
                404,
            ),
            Route::Search => {
                &&& step matches Step::Score(weighed)
                &&& weighed.len() == index.identities().len()
                &&& forall|i: int|
                    0 <= i < weighed.len() ==> (#[trigger] weighed[i]).0@ == index.identities()[i]
                        && weighed[i].1@ == weights_of(terms(body@), index.tables()[i], index@)
            },
        },
{
    match route(method, url) {
        Route::Landing => {
            let mut path: Vec<String> = Vec::new();
            path.push("static".to_owned());
            path.push("index.html".to_owned());
            assert(path.deep_view() =~= landing_page());
            Step::Respond(serve_file(path, 200))
        },
        Route::Search => Step::Score(weigh(body, index)),
        Route::NotFound => {
            let mut path: Vec<String> = Vec::new();
            path.push("static".to_owned());
            path.push("404.html".to_owned());
            assert(path.deep_view() =~= not_found_page());
            Step::Respond(serve_file(path, 404))
        },
    }
}

/// The identities of `ranked`, in order.
pub open spec fn ids_of(ranked: Seq<(Seq<char>, u32)>) -> Seq<Seq<char>> {
    Seq::new(ranked.len(), |i: int| ranked[i].0)
}

/// The answer to a search whose documents have the given relevance keys:
/// the documents in descending order of key, documents with equal keys in
/// the order given, and their number.
pub fn serve_scored(scored: &Vec<(String, u32)>) -> (response: Response)
    ensures
        response.is_json(ids_of(ranking(scored.deep_view())), 200),
{
    let ranked = rank(scored);
    let ghost wanted = ids_of(ranking(scored.deep_view()));
    let mut results: Vec<String> = Vec::new();
    let mut i: usize = 0;
    while i < ranked.len()
        invariant
            ranked.deep_view() == ranking(scored.deep_view()),
            wanted == ids_of(ranking(scored.deep_view())),
            i <= ranked.len(),
            results.len() == i,
            forall|k: int| 0 <= k < i ==> (#[trigger] results[k])@ == wanted[k],
        decreases ranked.len() - i,
    {
        assert(ranked.deep_view()[i as int].0 == ranked[i as int].0@);
        results.push(ranked[i].0.clone());
        i += 1;
    }
    assert(results.deep_view() =~= wanted);
    serve_json(results, 200)
}

} // verus!
