//! The corpus index: every indexed document with its term table.
//!
//! A document is known by its identity, which is a key and nothing more.
//! Indexing a document under an identity that the index holds already
//! replaces its table: the last write wins.

use vstd::prelude::*;
use vstd::multiset::*;
use vstd::seq_lib::*;
use crate::ordered::{lemma_index_of, OrderedMap};
use crate::table::{bag_of, valid_entries, TermTable};

verus! {

broadcast use group_multiset_axioms;

/// The identities of the documents of `index` in which `term` occurs.
pub open spec fn holders(index: Map<Seq<char>, Multiset<Seq<char>>>, term: Seq<char>) -> Set<
    Seq<char>,
> {
    Set::new(|id: Seq<char>| index.contains_key(id) && index[id].count(term) > 0)
}

/// Of the first `n` documents, the identities of those in which `term` occurs.
spec fn holders_among(
    ids: Seq<Seq<char>>,
    tables: Seq<Multiset<Seq<char>>>,
    term: Seq<char>,
    n: int,
) -> Set<Seq<char>> {
    Set::new(
        |id: Seq<char>| exists|j: int| 0 <= j < n && #[trigger] ids[j] == id && tables[j].count(term) > 0,
    )
}

/// Looking at one more document adds its identity where the term occurs in
/// it, and nothing where it does not.
proof fn lemma_holders_step(
    ids: Seq<Seq<char>>,
    tables: Seq<Multiset<Seq<char>>>,
    term: Seq<char>,
    n: int,
)
    requires
        ids.no_duplicates(),
        ids.len() == tables.len(),
        0 <= n < ids.len(),
    ensures
        !holders_among(ids, tables, term, n).contains(ids[n]),
        tables[n].count(term) > 0 ==> holders_among(ids, tables, term, n + 1) == holders_among(
            ids,
            tables,
            term,
            n,
        ).insert(ids[n]),
        tables[n].count(term) == 0 ==> holders_among(ids, tables, term, n + 1) == holders_among(
            ids,
            tables,
            term,
            n,
        ),
{
    let before = holders_among(ids, tables, term, n);
    let after = holders_among(ids, tables, term, n + 1);
    if tables[n].count(term) > 0 {
        assert forall|id: Seq<char>| after.contains(id) == before.insert(ids[n]).contains(id) by {
            if before.contains(id) {
                let j = choose|j: int|
                    0 <= j < n && #[trigger] ids[j] == id && tables[j].count(term) > 0;
                assert(0 <= j < n + 1 && ids[j] == id && tables[j].count(term) > 0);
            }
            if id == ids[n] {
                assert(0 <= n < n + 1 && ids[n] == id && tables[n].count(term) > 0);
            }
        }
        assert(after =~= before.insert(ids[n]));
    } else {
        assert forall|id: Seq<char>| after.contains(id) == before.contains(id) by {
            if before.contains(id) {
                let j = choose|j: int|
                    0 <= j < n && #[trigger] ids[j] == id && tables[j].count(term) > 0;
                assert(0 <= j < n + 1 && ids[j] == id && tables[j].count(term) > 0);
            }
        }
        assert(after =~= before);
    }
}

/// What a list of documents, each with the entries of its table, must meet
/// to describe an index: no identity is listed twice, and the entries of
/// every table are valid.
pub open spec fn valid_index_entries(entries: Seq<(Seq<char>, Seq<(Seq<char>, usize)>)>) -> bool {
    &&& forall|i: int, j: int|
        0 <= i < entries.len() && 0 <= j < entries.len() && i != j ==> (#[trigger] entries[i]).0
            != (#[trigger] entries[j]).0
    &&& forall|i: int| 0 <= i < entries.len() ==> valid_entries((#[trigger] entries[i]).1)
}

/// The documents of a corpus, each with its term table.
pub struct CorpusIndex {
    documents: OrderedMap<TermTable>,
}

impl View for CorpusIndex {
    type V = Map<Seq<char>, Multiset<Seq<char>>>;

    /// The map from each document's identity to the bag of its terms.
    open spec fn view(&self) -> Map<Seq<char>, Multiset<Seq<char>>> {
        Map::new(
            |id: Seq<char>| self.identities().contains(id),
            |id: Seq<char>| self.tables()[self.identities().index_of(id)],
        )
    }
}

impl CorpusIndex {
    /// The identities of the documents, in the order in which they were first indexed.
    pub closed spec fn identities(&self) -> Seq<Seq<char>> {
        self.documents.keys()
    }

    /// The bags of the documents, each at the position of its identity.
    pub closed spec fn tables(&self) -> Seq<Multiset<Seq<char>>> {
        Seq::new(self.documents.values().len(), |i: int| self.documents.values()[i]@)
    }

    /// No identity is held twice, and every table is well formed.
    pub closed spec fn wf(&self) -> bool {
        &&& self.documents.wf()
        &&& self.documents.keys().len() == self.documents.values().len()
        &&& forall|i: int|
            0 <= i < self.documents.values().len() ==> #[trigger] self.documents.values()[i].wf()
    }

    /// In a well-formed index the identities are distinct, each has its
    /// table, and they are the keys of the index.
    pub proof fn lemma_identities(&self)
        requires
            self.wf(),
        ensures
            self.identities().no_duplicates(),
            self.identities().len() == self.tables().len(),
            self@.dom() == self.identities().to_set(),
            self@.dom().finite(),
            self@.dom().len() == self.identities().len(),
            forall|i: int|
                0 <= i < self.identities().len() ==> #[trigger] self@[self.identities()[i]]
                    == self.tables()[i],
    {
        self.documents.lemma_keys_distinct();
        assert(self@.dom() =~= self.identities().to_set());
        self.identities().unique_seq_to_set();
        seq_to_set_is_finite(self.identities());
        assert forall|i: int| 0 <= i < self.identities().len() implies #[trigger] self@[self.identities()[i]]
            == self.tables()[i] by {
            lemma_index_of(self.identities(), i);
        }
    }

    /// An index without documents: it holds no identity, no table and no entry.
    pub fn new() -> (index: Self)
        ensures
            index.wf(),
            index.identities() == Seq::<Seq<char>>::empty(),
            index.tables() == Seq::<Multiset<Seq<char>>>::empty(),
            index.entries() == Seq::<(Seq<char>, Seq<(Seq<char>, usize)>)>::empty(),
            index@ == Map::<Seq<char>, Multiset<Seq<char>>>::empty(),
    {
        let index = CorpusIndex { documents: OrderedMap::new() };
        assert(index.tables() =~= Seq::empty());
        assert(index.entries() =~= Seq::empty());
        assert(index@ =~= Map::<Seq<char>, Multiset<Seq<char>>>::empty());
        index
    }

    /// The number of documents.
    pub fn len(&self) -> (n: usize)
        requires
            self.wf(),
        ensures
            n == self.identities().len(),
            n == self@.dom().len(),
    {
        proof {
            self.lemma_identities();
        }
        self.documents.len()
    }

    /// Files `table` under `identity`. A table filed under that identity
    /// before is replaced and keeps its place; a new identity goes last.
    pub fn insert(&mut self, identity: String, table: TermTable)
        requires
            old(self).wf(),
            table.wf(),
        ensures
            final(self).wf(),
            final(self)@ == old(self)@.insert(identity@, table@),
            final(self).identities() == if old(self).identities().contains(identity@) {
                old(self).identities()
            } else {
                old(self).identities().push(identity@)
            },
    {
        proof {
            self.lemma_identities();
        }
        let ghost old_tables = self.tables();
        let at = self.documents.insert(identity, table);
        proof {
            if old(self).identities().contains(identity@) {
                assert(self.tables() =~= old_tables.update(at as int, table@));
            } else {
                assert(self.tables() =~= old_tables.push(table@));
            }
            assert forall|i: int| 0 <= i < self.documents.values().len() implies #[trigger] self.documents.values()[i].wf() by {
                if i != at {
                    assert(self.documents.values()[i] == old(self).documents.values()[i]);
                }
            }
            self.lemma_identities();
            let ids = self.identities();
            let old_ids = old(self).identities();
            assert forall|id: Seq<char>| ids.contains(id) <==> (id == identity@
                || old_ids.contains(id)) by {
                if ids.contains(id) {
                    let i = choose|i: int| 0 <= i < ids.len() && ids[i] == id;
                    if i < old_ids.len() {
                        assert(old_ids[i] == id);
                    }
                }
                if old_ids.contains(id) {
                    let i = choose|i: int| 0 <= i < old_ids.len() && old_ids[i] == id;
                    assert(ids[i] == id);
                }
                if id == identity@ {
                    assert(ids[at as int] == id);
                }
            }
            let wanted = old(self)@.insert(identity@, table@);
            assert forall|id: Seq<char>| ids.contains(id) implies #[trigger] self@[id] == wanted[id] by {
                let i = choose|i: int| 0 <= i < ids.len() && ids[i] == id;
                lemma_index_of(ids, i);
                if id != identity@ {
                    assert(i != at);
                    assert(old_ids[i] == id);
                    lemma_index_of(old_ids, i);
                } else {
                    assert(i == at);
                }
            }
            assert(self@ =~= wanted);
        }
    }

    /// The table filed under `identity`, if there is one.
    pub fn get(&self, identity: &str) -> (found: Option<&TermTable>)
        requires
            self.wf(),
        ensures
            match found {
                Some(table) => table.wf() && self@.contains_key(identity@) && table@
                    == self@[identity@],
                None => !self@.contains_key(identity@),
            },
    {
        proof {
            self.lemma_identities();
        }
        match self.documents.position(identity) {
            Some(i) => {
                proof {
                    lemma_index_of(self.identities(), i as int);
                }
                Some(self.documents.value(i))
            },
            None => None,
        }
    }

    /// The identity of the document at position `i`.
    pub fn identity(&self, i: usize) -> (id: &String)
        requires
            self.wf(),
            i < self.identities().len(),
        ensures
            id@ == self.identities()[i as int],
    {
        self.documents.key(i)
    }

    /// The table of the document at position `i`.
    pub fn table(&self, i: usize) -> (table: &TermTable)
        requires
            self.wf(),
            i < self.identities().len(),
        ensures
            table.wf(),
            table@ == self.tables()[i as int],
            table@ == self@[self.identities()[i as int]],
    {
        proof {
            self.lemma_identities();
        }
        self.documents.value(i)
    }

    /// The number of documents in which `term` occurs.
    pub fn documents_with(&self, term: &str) -> (n: usize)
        requires
            self.wf(),
        ensures
            n == holders(self@, term@).len(),
            n <= self@.dom().len(),
    {
        let ghost ids = self.identities();
        let ghost tables = self.tables();
        proof {
            self.lemma_identities();
            assert(holders_among(ids, tables, term@, 0) =~= Set::<Seq<char>>::empty());
        }
        let total = self.documents.len();
        let mut n: usize = 0;
        let mut i: usize = 0;
        while i < total
            invariant
                self.wf(),
                ids == self.identities(),
                tables == self.tables(),
                ids.no_duplicates(),
                ids.len() == tables.len(),
                total == ids.len(),
                i <= total,
                n <= i,
                holders_among(ids, tables, term@, i as int).finite(),
                n == holders_among(ids, tables, term@, i as int).len(),
            decreases total - i,
        {
            proof {
                lemma_holders_step(ids, tables, term@, i as int);
            }
            if self.documents.value(i).contains(term) {
                n += 1;
            }
            i += 1;
        }
        proof {
            let found = holders_among(ids, tables, term@, total as int);
            assert forall|id: Seq<char>| found.contains(id) == holders(self@, term@).contains(
                id,
            ) by {
                if found.contains(id) {
                    let j = choose|j: int|
                        0 <= j < total && #[trigger] ids[j] == id && tables[j].count(term@) > 0;
                    assert(self@[ids[j]] == tables[j]);
                }
                if holders(self@, term@).contains(id) {
                    let j = choose|j: int| 0 <= j < ids.len() && ids[j] == id;
                    assert(self@[ids[j]] == tables[j]);
                }
            }
            assert(found =~= holders(self@, term@));
        }
        n
    }

    /// The documents in order, each with the entries of its table.
    pub closed spec fn entries(&self) -> Seq<(Seq<char>, Seq<(Seq<char>, usize)>)> {
        Seq::new(
            self.documents.keys().len(),
            |i: int| (self.documents.keys()[i], self.documents.values()[i].entries()),
        )
    }

    /// The entries of a well-formed index are valid, and they describe it:
    /// they list its documents in order, each with the entries of its bag.
    pub proof fn lemma_entries(&self)
        requires
            self.wf(),
        ensures
            valid_index_entries(self.entries()),
            self.entries().len() == self.identities().len(),
            forall|i: int|
                0 <= i < self.entries().len() ==> (#[trigger] self.entries()[i]).0
                    == self.identities()[i] && bag_of(self.entries()[i].1) == self.tables()[i],
    {
        self.documents.lemma_keys_distinct();
        assert forall|i: int| 0 <= i < self.entries().len() implies valid_entries(
            (#[trigger] self.entries()[i]).1,
        ) && bag_of(self.entries()[i].1) == self.tables()[i] by {
            self.documents.values()[i].lemma_entries_valid();
        }
    }

    /// The entries of an index say all there is to it: two indexes with
    /// the same entries hold the same documents in the same order.
    pub proof fn lemma_entries_determine(&self, other: &CorpusIndex)
        requires
            self.wf(),
            other.wf(),
            self.entries() == other.entries(),
        ensures
            self.identities() == other.identities(),
            self.tables() == other.tables(),
            self@ == other@,
    {
        self.lemma_entries();
        other.lemma_entries();
        assert(self.identities() =~= other.identities()) by {
            assert forall|i: int| 0 <= i < self.identities().len() implies self.identities()[i]
                == other.identities()[i] by {
                assert(self.entries()[i].0 == other.entries()[i].0);
            }
        }
        self.lemma_identities();
        other.lemma_identities();
        assert(self.tables() =~= other.tables()) by {
            assert forall|i: int| 0 <= i < self.tables().len() implies self.tables()[i]
                == other.tables()[i] by {
                assert(bag_of(self.entries()[i].1) == bag_of(other.entries()[i].1));
            }
        }
        assert(self@ =~= other@);
    }

    /// The documents in order, each with the entries of its table.
    pub fn to_entries(&self) -> (out: Vec<(String, Vec<(String, usize)>)>)
        requires
            self.wf(),
        ensures
            out.deep_view() == self.entries(),
    {
        let mut out: Vec<(String, Vec<(String, usize)>)> = Vec::new();
        let n = self.documents.len();
        let mut i: usize = 0;
        assert(out.deep_view() =~= self.entries().take(0));
        while i < n
            invariant
                self.wf(),
                n == self.entries().len(),
                n == self.documents.keys().len(),
                i <= n,
                out.deep_view() == self.entries().take(i as int),
            decreases n - i,
        {
            let ghost done = out.deep_view();
            let identity = self.documents.key(i).clone();
            let counts = self.documents.value(i).to_entries();
            out.push((identity, counts));
            i += 1;
            assert(out.deep_view() =~= done.push((identity@, counts.deep_view())));
            assert(self.entries().take(i as int) =~= done.push(self.entries()[i - 1]));
        }
        assert(self.entries().take(n as int) =~= self.entries());
        out
    }

    /// The index that `entries` describe, where they are valid.
    pub fn from_entries(entries: &Vec<(String, Vec<(String, usize)>)>) -> (made: Option<Self>)
        ensures
            made is Some <==> valid_index_entries(entries.deep_view()),
            made matches Some(index) ==> index.wf() && index.entries() == entries.deep_view(),
    {
        let ghost given = entries.deep_view();
        let mut index = CorpusIndex::new();
        let mut i: usize = 0;
        assert(index.entries() =~= given.take(0));
        while i < entries.len()
            invariant
                given == entries.deep_view(),
                i <= entries.len(),
                index.wf(),
                index.entries() == given.take(i as int),
            decreases entries.len() - i,
        {
            let ghost done = index.entries();
            let identity = &entries[i].0;
            assert(given[i as int] == (identity@, entries[i as int].1.deep_view()));
            proof {
                index.documents.lemma_keys_distinct();
            }
            let table = match TermTable::from_entries(&entries[i].1) {
                Some(table) => table,
                None => {
                    return None;
                },
            };
            if index.documents.position(identity.as_str()).is_some() {
                proof {
                    let j = choose|j: int|
                        0 <= j < index.documents.keys().len() && index.documents.keys()[j]
                            == identity@;
                    assert(done.len() == index.documents.keys().len());
                    assert(done[j].0 == identity@);
                    assert(given.take(i as int)[j] == given[j]);
                }
                return None;
            }
            index.documents.push(identity.clone(), table);
            i += 1;
            assert(index.entries() =~= done.push(given[i - 1]));
            assert(given.take(i as int) =~= done.push(given[i - 1]));
        }
        assert(given.take(i as int) =~= given);
        proof {
            index.lemma_entries();
        }
        Some(index)
    }
}

} // verus!
