//! Weighing a query against every document of a corpus.

use vstd::prelude::*;
use vstd::multiset::Multiset;
use crate::corpus::{holders, CorpusIndex};
use crate::lexer::{terms, tokenize};
use crate::score::{idf, rarity, tf, weights_of, Ratio, Weight};
use crate::table::TermTable;

verus! {

/// The rarity in `index` of each term of `query`, in the order of the terms.
fn rarities(query: &Vec<String>, index: &CorpusIndex) -> (out: Vec<Ratio>)
    requires
        index.wf(),
    ensures
        out.len() == query.len(),
        forall|k: int|
            0 <= k < out.len() ==> #[trigger] out[k] == rarity(
                index@.dom().len(),
                holders(index@, query.deep_view()[k]).len(),
            ),
{
    let mut out: Vec<Ratio> = Vec::new();
    let mut j: usize = 0;
    while j < query.len()
        invariant
            index.wf(),
            j <= query.len(),
            out.len() == j,
            forall|k: int|
                0 <= k < j ==> #[trigger] out[k] == rarity(
                    index@.dom().len(),
                    holders(index@, query.deep_view()[k]).len(),
                ),
        decreases query.len() - j,
    {
        let term = query[j].as_str();
        assert(query.deep_view()[j as int] == term@);
        out.push(idf(term, index));
        j += 1;
    }
    out
}

/// The weights of the terms of `query` for `document`, in the order of the
/// terms, given the rarity of each term in `index`.
fn weights(
    query: &Vec<String>,
    rarities: &Vec<Ratio>,
    document: &TermTable,
    Ghost(index): Ghost<Map<Seq<char>, Multiset<Seq<char>>>>,
) -> (out: Vec<Weight>)
    requires
        document.wf(),
        rarities.len() == query.len(),
        forall|k: int|
            0 <= k < rarities.len() ==> #[trigger] rarities[k] == rarity(
                index.dom().len(),
                holders(index, query.deep_view()[k]).len(),
            ),
    ensures
        out@ == weights_of(query.deep_view(), document@, index),
{
    let mut out: Vec<Weight> = Vec::new();
    let mut j: usize = 0;
    while j < query.len()
        invariant
            document.wf(),
            rarities.len() == query.len(),
            forall|k: int|
                0 <= k < rarities.len() ==> #[trigger] rarities[k] == rarity(
                    index.dom().len(),
                    holders(index, query.deep_view()[k]).len(),
                ),
            j <= query.len(),
            out.len() == j,
            forall|k: int|
                0 <= k < j ==> #[trigger] out[k] == weights_of(
                    query.deep_view(),
                    document@,
                    index,
                )[k],
        decreases query.len() - j,
    {
        let term = query[j].as_str();
        assert(query.deep_view()[j as int] == term@);
        out.push(Weight { tf: tf(term, document), idf: rarities[j] });
        j += 1;
    }
    assert(out@ =~= weights_of(query.deep_view(), document@, index));
    out
}

/// Tokenizes `query` once and weighs its terms for every document of
/// `index`, in the order of the index: the result has, for the document
/// at each position, its identity and the weights of the query's terms for
/// it. A document's score is the sum over its weights of `tf` times the
/// base-10 logarithm of `idf`; a query without terms gives every document
/// no weights, and so the score zero.
pub fn weigh(query: &str, index: &CorpusIndex) -> (out: Vec<(String, Vec<Weight>)>)
    requires
        index.wf(),
    ensures
        out.len() == index.identities().len(),
        forall|i: int|
            0 <= i < out.len() ==> (#[trigger] out[i]).0@ == index.identities()[i] && out[i].1@
                == weights_of(terms(query@), index.tables()[i], index@),
{
    let tokens = tokenize(query);
    let rarities = rarities(&tokens, index);
    let mut out: Vec<(String, Vec<Weight>)> = Vec::new();
    let count = index.len();
    let mut i: usize = 0;
    while i < count
        invariant
            index.wf(),
            tokens.deep_view() == terms(query@),
            count == index.identities().len(),
            rarities.len() == tokens.len(),
            forall|k: int|
                0 <= k < rarities.len() ==> #[trigger] rarities[k] == rarity(
                    index@.dom().len(),
                    holders(index@, tokens.deep_view()[k]).len(),
                ),
            i <= count,
            out.len() == i,
            forall|d: int|
                0 <= d < i ==> (#[trigger] out[d]).0@ == index.identities()[d] && out[d].1@
                    == weights_of(terms(query@), index.tables()[d], index@),
        decreases count - i,
    {
        let weights = weights(&tokens, &rarities, index.table(i), Ghost(index@));
        out.push((index.identity(i).clone(), weights));
        i += 1;
    }
    out
}

/// What a document weighs does not depend on the order of the index: two
/// indexes that hold the same documents give a document the same weights
/// for the same query, wherever it stands in either.
pub proof fn lemma_weights_ignore_order(
    a: &CorpusIndex,
    b: &CorpusIndex,
    query: Seq<char>,
    i: int,
    j: int,
)
    requires
        a.wf(),
        b.wf(),
        a@ == b@,
        0 <= i < a.identities().len(),
        0 <= j < b.identities().len(),
        a.identities()[i] == b.identities()[j],
    ensures
        weights_of(terms(query), a.tables()[i], a@) == weights_of(terms(query), b.tables()[j], b@),
{
    a.lemma_identities();
    b.lemma_identities();
    assert(a@[a.identities()[i]] == a.tables()[i]);
    assert(b@[b.identities()[j]] == b.tables()[j]);
}

} // verus!
