//! The build phase: from the documents of a corpus to its index.
//!
//! Every document is indexed on its own and filed under its identity. A
//! document from which no text could be extracted is left out and reported,
//! and the build goes on. Where an identity comes twice, the later document
//! replaces the earlier one; a later document that is left out replaces
//! nothing.

use vstd::prelude::*;
use vstd::multiset::*;
use crate::corpus::CorpusIndex;
use crate::extract::{extracted, read_xml};
use crate::lexer::terms;
use crate::table::index_document;

verus! {

/// The index of the given documents, each an identity with its text, or
/// with `None` where no text could be extracted.
pub open spec fn assembled(documents: Seq<(Seq<char>, Option<Seq<char>>)>) -> Map<
    Seq<char>,
    Multiset<Seq<char>>,
>
    decreases documents.len(),
{
    if documents.len() == 0 {
        Map::empty()
    } else {
        let before = assembled(documents.drop_last());
        match documents.last().1 {
            Some(text) => before.insert(documents.last().0, terms(text).to_multiset()),
            None => before,
        }
    }
}

/// The identities of the indexed documents, in the order in which each was
/// first indexed.
pub open spec fn assembled_ids(documents: Seq<(Seq<char>, Option<Seq<char>>)>) -> Seq<Seq<char>>
    decreases documents.len(),
{
    if documents.len() == 0 {
        Seq::empty()
    } else {
        let before = assembled_ids(documents.drop_last());
        if documents.last().1 is Some && !before.contains(documents.last().0) {
            before.push(documents.last().0)
        } else {
            before
        }
    }
}

/// The identities of the documents that were left out, in order.
pub open spec fn skipped_ids(documents: Seq<(Seq<char>, Option<Seq<char>>)>) -> Seq<Seq<char>>
    decreases documents.len(),
{
    if documents.len() == 0 {
        Seq::empty()
    } else {
        let before = skipped_ids(documents.drop_last());
        if documents.last().1 is None {
            before.push(documents.last().0)
        } else {
            before
        }
    }
}

/// Each source with the text extracted from it.
pub open spec fn sources_read(sources: Seq<(Seq<char>, Seq<u8>)>) -> Seq<
    (Seq<char>, Option<Seq<char>>),
> {
    Seq::new(sources.len(), |i: int| (sources[i].0, extracted(sources[i].1)))
}

/// What a build gives: the index, and the identities of the documents that
/// were left out of it.
pub struct Built {
    pub index: CorpusIndex,
    pub skipped: Vec<String>,
}

impl Built {
    /// Whether this is what building from `documents` gives.
    pub open spec fn is_build_of(&self, documents: Seq<(Seq<char>, Option<Seq<char>>)>) -> bool {
        &&& self.index.wf()
        &&& self.index@ == assembled(documents)
        &&& self.index.identities() == assembled_ids(documents)
        &&& self.skipped.deep_view() == skipped_ids(documents)
    }

    /// Before any document.
    fn start() -> (built: Self)
        ensures
            built.is_build_of(Seq::empty()),
    {
        let built = Built { index: CorpusIndex::new(), skipped: Vec::new() };
        assert(built.skipped.deep_view() =~= Seq::<Seq<char>>::empty());
        built
    }

    /// Takes in one more document.
    fn file(
        &mut self,
        identity: &String,
        text: Option<&str>,
        Ghost(documents): Ghost<Seq<(Seq<char>, Option<Seq<char>>)>>,
    )
        requires
            old(self).is_build_of(documents),
        ensures
            final(self).is_build_of(documents.push((identity@, text_view(text)))),
    {
        assert(documents.push((identity@, text_view(text))).drop_last() =~= documents);
        let ghost skipped = self.skipped.deep_view();
        match text {
            Some(t) => {
                let table = index_document(t);
                self.index.insert(identity.clone(), table);
            },
            None => {
                self.skipped.push(identity.clone());
                assert(self.skipped.deep_view() =~= skipped.push(identity@));
            },
        }
    }
}

/// The characters of a text that may be missing.
spec fn text_view(text: Option<&str>) -> Option<Seq<char>> {
    match text {
        Some(t) => Some(t@),
        None => None,
    }
}

/// Builds the index of documents whose text extraction has been tried:
/// each comes as its identity with its text, or with `None` where the
/// extraction failed.
pub fn assemble(documents: &Vec<(String, Option<String>)>) -> (built: Built)
    ensures
        built.is_build_of(documents.deep_view()),
{
    let ghost given = documents.deep_view();
    let mut built = Built::start();
    let mut i: usize = 0;
    assert(given.take(0) =~= Seq::empty());
    while i < documents.len()
        invariant
            given == documents.deep_view(),
            i <= documents.len(),
            built.is_build_of(given.take(i as int)),
        decreases documents.len() - i,
    {
        let text = match &documents[i].1 {
            Some(t) => Some(t.as_str()),
            None => None,
        };
        built.file(&documents[i].0, text, Ghost(given.take(i as int)));
        assert(given.take(i + 1) =~= given.take(i as int).push(given[i as int]));
        i += 1;
    }
    assert(given.take(i as int) =~= given);
    built
}

/// Builds the index of XML documents: each comes as its identity with its
/// raw source, from which the text is extracted.
pub fn build(sources: &Vec<(String, Vec<u8>)>) -> (built: Built)
    ensures
        built.is_build_of(sources_read(sources.deep_view())),
{
    let ghost given = sources_read(sources.deep_view());
    let mut built = Built::start();
    let mut i: usize = 0;
    assert(given.take(0) =~= Seq::empty());
    while i < sources.len()
        invariant
            given == sources_read(sources.deep_view()),
            given.len() == sources.len(),
            i <= sources.len(),
            built.is_build_of(given.take(i as int)),
        decreases sources.len() - i,
    {
        assert(sources.deep_view()[i as int].1 == sources[i as int].1@);
        match read_xml(sources[i].1.as_slice()) {
            Ok(text) => {
                built.file(&sources[i].0, Some(text.as_str()), Ghost(given.take(i as int)));
            },
            Err(_) => {
                built.file(&sources[i].0, None, Ghost(given.take(i as int)));
            },
        }
        assert(given.take(i + 1) =~= given.take(i as int).push(given[i as int]));
        i += 1;
    }
    assert(given.take(i as int) =~= given);
    built
}

} // verus!
