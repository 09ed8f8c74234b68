//! Term frequency and inverse document frequency, as exact fractions.
//!
//! The relevance of a document to a query is the sum, over the terms of the
//! query, of the term's frequency in the document times the base-10
//! logarithm of the term's rarity in the corpus. Both factors are kept here
//! as fractions of whole numbers; taking the logarithm and summing is left
//! to the caller, who has the real numbers for it.

use vstd::prelude::*;
use vstd::multiset::*;
use crate::corpus::{holders, CorpusIndex};
use crate::table::TermTable;

verus! {

broadcast use group_multiset_axioms;

/// The fraction `num / den`.
#[derive(Clone, Copy, Debug, PartialEq, Eq, Structural)]
pub struct Ratio {
    pub num: usize,
    pub den: usize,
}

impl Ratio {
    /// Whether the fraction `self` is at most the fraction `other`.
    pub open spec fn le(self, other: Ratio) -> bool {
        self.num * other.den <= other.num * self.den
    }

    /// Whether the fraction `self` is less than the fraction `other`.
    pub open spec fn lt(self, other: Ratio) -> bool {
        self.num * other.den < other.num * self.den
    }
}

/// The frequency of a term that occurs `count` times among `total` tokens:
/// `count / total`, and zero where there are no tokens.
pub open spec fn frequency(count: nat, total: nat) -> Ratio {
    Ratio { num: count as usize, den: if total == 0 { 1 } else { total as usize } }
}

/// The rarity of a term that occurs in `holding` of `documents` documents:
/// `documents / holding`, with `holding` taken as one where no document
/// holds the term. Its base-10 logarithm is the inverse document frequency.
pub open spec fn rarity(documents: nat, holding: nat) -> Ratio {
    Ratio { num: documents as usize, den: if holding == 0 { 1 } else { holding as usize } }
}

/// The two factors of what one query term adds to a document's score:
/// the score grows by `tf` times the base-10 logarithm of `idf`.
#[derive(Clone, Copy, Debug, PartialEq, Eq, Structural)]
pub struct Weight {
    pub tf: Ratio,
    pub idf: Ratio,
}

/// The weight of `term` for a document with the bag `table` in the corpus `index`.
pub open spec fn weight_of(
    term: Seq<char>,
    table: Multiset<Seq<char>>,
    index: Map<Seq<char>, Multiset<Seq<char>>>,
) -> Weight {
    Weight {
        tf: frequency(table.count(term), table.len()),
        idf: rarity(index.dom().len(), holders(index, term).len()),
    }
}

/// The weights of the query terms `query`, one for each term in order, a
/// repeated term being weighed each time it occurs.
pub open spec fn weights_of(
    query: Seq<Seq<char>>,
    table: Multiset<Seq<char>>,
    index: Map<Seq<char>, Multiset<Seq<char>>>,
) -> Seq<Weight> {
    Seq::new(query.len(), |j: int| weight_of(query[j], table, index))
}

/// The term frequency of `term` in `document`: its count over the number of
/// tokens. It lies between zero and one, and is zero for a term that the
/// document lacks and for a document without tokens.
pub fn tf(term: &str, document: &TermTable) -> (r: Ratio)
    requires
        document.wf(),
    ensures
        r == frequency(document@.count(term@), document@.len()),
        r.num == document@.count(term@),
        r.den == if document@.len() == 0 { 1 } else { document@.len() },
        0 <= r.num <= r.den,
        1 <= r.den,
{
    let count = document.count(term);
    let total = document.total();
    Ratio { num: count, den: if total == 0 { 1 } else { total } }
}

/// The rarity of `term` in `index`, whose base-10 logarithm is the inverse
/// document frequency: the number of documents over the number of those
/// that hold the term. It is at least one for an index with documents, and
/// exactly one where every document holds the term.
pub fn idf(term: &str, index: &CorpusIndex) -> (r: Ratio)
    requires
        index.wf(),
    ensures
        r == rarity(index@.dom().len(), holders(index@, term@).len()),
        r.num == index@.dom().len(),
        r.den == if holders(index@, term@).len() == 0 { 1 } else { holders(index@, term@).len() },
        1 <= r.den,
        r.num >= 1 ==> r.den <= r.num,
        r.num >= 1 && holders(index@, term@) == index@.dom() ==> r.num == r.den,
{
    let documents = index.len();
    let holding = index.documents_with(term);
    Ratio { num: documents, den: if holding == 0 { 1 } else { holding } }
}

/// The fewer documents hold a term, the rarer it is: with the number of
/// documents fixed, the rarity does not fall as the number of holders falls,
/// and it rises where the smaller number of holders is at least one and
/// there are documents at all.
pub proof fn lemma_rarity_monotone(documents: usize, fewer: usize, more: usize)
    requires
        fewer <= more,
    ensures
        rarity(documents as nat, more as nat).le(rarity(documents as nat, fewer as nat)),
        1 <= fewer < more && documents >= 1 ==> rarity(documents as nat, more as nat).lt(
            rarity(documents as nat, fewer as nat),
        ),
{
    let low: int = if fewer == 0 { 1 } else { fewer as int };
    let high: int = if more == 0 { 1 } else { more as int };
    assert(low <= high);
    assert(documents * low <= documents * high) by (nonlinear_arith)
        requires
            low <= high,
            0 <= documents,
    ;
    if 1 <= fewer < more && documents >= 1 {
        assert(documents * low < documents * high) by (nonlinear_arith)
            requires
                low < high,
                1 <= documents,
        ;
    }
}

/// A term that every document of a corpus holds has rarity one, and the
/// logarithm of one is zero.
pub proof fn lemma_rarity_of_common_term(documents: usize)
    requires
        documents >= 1,
    ensures
        rarity(documents as nat, documents as nat).num == rarity(
            documents as nat,
            documents as nat,
        ).den,
{
}

/// A frequency lies between zero and one.
pub proof fn lemma_frequency_in_unit_interval(table: Multiset<Seq<char>>, term: Seq<char>)
    requires
        table.len() <= usize::MAX,
    ensures
        0 <= frequency(table.count(term), table.len()).num <= frequency(
            table.count(term),
            table.len(),
        ).den,
        frequency(table.count(term), table.len()).den >= 1,
        table.count(term) == 0 ==> frequency(table.count(term), table.len()).num == 0,
{
}

} // verus!
