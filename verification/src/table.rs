//! The term table of one document: how often each term occurs in it.
//!
//! A table is a bag of terms. The count of a term is how often the bag holds
//! it, and the size of the bag is the number of tokens the document gave.
//! A term that does not occur is not in the bag; no count is stored as zero.

use vstd::prelude::*;
use vstd::multiset::*;
use vstd::seq_lib::*;
use crate::lexer::{
    after_first, lemma_lexeme_bounds, lemma_terms_len_bound, lemma_terms_unfold, terms, Lexer,
};
use crate::ordered::OrderedMap;
use crate::text::chars_of;

verus! {

broadcast use group_multiset_axioms;

/// The bag that holds `term` exactly `n` times and nothing else.
pub open spec fn copies(term: Seq<char>, n: nat) -> Multiset<Seq<char>>
    decreases n,
{
    if n == 0 {
        Multiset::empty()
    } else {
        copies(term, (n - 1) as nat).insert(term)
    }
}

/// The bag that a list of terms with their counts describes.
pub open spec fn bag_of(entries: Seq<(Seq<char>, usize)>) -> Multiset<Seq<char>>
    decreases entries.len(),
{
    if entries.len() == 0 {
        Multiset::empty()
    } else {
        bag_of(entries.drop_last()).add(copies(entries.last().0, entries.last().1 as nat))
    }
}

/// No term is listed twice.
pub open spec fn distinct_terms(entries: Seq<(Seq<char>, usize)>) -> bool {
    forall|i: int, j: int|
        #![trigger entries[i], entries[j]]
        0 <= i < entries.len() && 0 <= j < entries.len() && i != j ==> entries[i].0 != entries[j].0
}

/// No count is zero.
pub open spec fn positive_counts(entries: Seq<(Seq<char>, usize)>) -> bool {
    forall|i: int| 0 <= i < entries.len() ==> (#[trigger] entries[i]).1 >= 1
}

/// What a list of terms with their counts must meet to describe a table:
/// no term is listed twice, no count is zero, and the counts together fit
/// the machine's word.
pub open spec fn valid_entries(entries: Seq<(Seq<char>, usize)>) -> bool {
    &&& distinct_terms(entries)
    &&& positive_counts(entries)
    &&& bag_of(entries).len() <= usize::MAX
}

/// `copies(term, n)` holds `term` `n` times, holds nothing else, and has size `n`.
proof fn lemma_copies(term: Seq<char>, n: nat)
    ensures
        copies(term, n).count(term) == n,
        forall|other: Seq<char>| other != term ==> copies(term, n).count(other) == 0,
        copies(term, n).len() == n,
    decreases n,
{
    if n > 0 {
        lemma_copies(term, (n - 1) as nat);
    }
}

/// Listing one more term adds as many copies of it to the bag as its count says.
proof fn lemma_bag_push(entries: Seq<(Seq<char>, usize)>, term: Seq<char>, n: usize)
    ensures
        bag_of(entries.push((term, n))) == bag_of(entries).add(copies(term, n as nat)),
        bag_of(entries.push((term, n))).len() == bag_of(entries).len() + n,
{
    assert(entries.push((term, n)).drop_last() =~= entries);
    lemma_copies(term, n as nat);
}

/// A prefix of a list describes a bag no larger than the whole list does.
proof fn lemma_bag_prefix_len(entries: Seq<(Seq<char>, usize)>, n: int)
    requires
        0 <= n <= entries.len(),
    ensures
        bag_of(entries.take(n)).len() <= bag_of(entries).len(),
    decreases entries.len() - n,
{
    if n < entries.len() {
        lemma_bag_prefix_len(entries, n + 1);
        assert(entries.take(n + 1).drop_last() =~= entries.take(n));
    } else {
        assert(entries.take(n) =~= entries);
    }
}

/// In the bag of a list without repeated terms, a listed term occurs as often
/// as its count says, and an unlisted term does not occur.
pub proof fn lemma_bag_count(entries: Seq<(Seq<char>, usize)>, term: Seq<char>)
    requires
        distinct_terms(entries),
    ensures
        forall|i: int|
            0 <= i < entries.len() && (#[trigger] entries[i]).0 == term ==> bag_of(entries).count(term)
                == entries[i].1,
        (forall|i: int| 0 <= i < entries.len() ==> (#[trigger] entries[i]).0 != term) ==> bag_of(
            entries,
        ).count(term) == 0,
    decreases entries.len(),
{
    if entries.len() > 0 {
        let front = entries.drop_last();
        let last = entries.last();
        assert(distinct_terms(front)) by {
            assert forall|i: int, j: int|
                #![trigger front[i], front[j]]
                0 <= i < front.len() && 0 <= j < front.len() && i != j implies front[i].0
                != front[j].0 by {
                assert(front[i] == entries[i] && front[j] == entries[j]);
            }
        }
        lemma_bag_count(front, term);
        lemma_copies(last.0, last.1 as nat);
        assert(entries[entries.len() - 1] == last);
        if last.0 == term {
            assert forall|i: int| 0 <= i < front.len() implies (#[trigger] front[i]).0 != term by {
                assert(front[i] == entries[i]);
            }
        }
        assert forall|i: int| 0 <= i < entries.len() && (#[trigger] entries[i]).0 == term implies bag_of(
            entries,
        ).count(term) == entries[i].1 by {
            if i < front.len() {
                assert(front[i] == entries[i]);
            }
        }
        if forall|i: int| 0 <= i < entries.len() ==> (#[trigger] entries[i]).0 != term {
            assert forall|i: int| 0 <= i < front.len() implies (#[trigger] front[i]).0 != term by {
                assert(front[i] == entries[i]);
            }
        }
    }
}

/// Counting one more occurrence of a listed term puts the term into the bag once more.
proof fn lemma_bag_bump(entries: Seq<(Seq<char>, usize)>, i: int)
    requires
        distinct_terms(entries),
        0 <= i < entries.len(),
        entries[i].1 < usize::MAX,
    ensures
        bag_of(entries.update(i, (entries[i].0, (entries[i].1 + 1) as usize))) == bag_of(
            entries,
        ).insert(entries[i].0),
{
    let term = entries[i].0;
    let bumped = entries.update(i, (term, (entries[i].1 + 1) as usize));
    assert(distinct_terms(bumped)) by {
        assert forall|a: int, b: int|
            #![trigger bumped[a], bumped[b]]
            0 <= a < bumped.len() && 0 <= b < bumped.len() && a != b implies bumped[a].0
            != bumped[b].0 by {
            assert(bumped[a].0 == entries[a].0 && bumped[b].0 == entries[b].0);
        }
    }
    assert forall|other: Seq<char>|
        bag_of(bumped).count(other) == bag_of(entries).insert(term).count(other) by {
        lemma_bag_count(bumped, other);
        lemma_bag_count(entries, other);
        if other == term {
            assert(bumped[i].0 == other);
        } else if exists|j: int| 0 <= j < entries.len() && (#[trigger] entries[j]).0 == other {
            let j = choose|j: int| 0 <= j < entries.len() && (#[trigger] entries[j]).0 == other;
            assert(bumped[j] == entries[j]);
        } else {
            assert forall|j: int| 0 <= j < bumped.len() implies (#[trigger] bumped[j]).0 != other by {
                assert(bumped[j].0 == entries[j].0);
            }
        }
    }
    assert(bag_of(bumped) =~= bag_of(entries).insert(term));
}

/// The terms of one document with their counts.
pub struct TermTable {
    counts: OrderedMap<usize>,
    total: usize,
}

impl View for TermTable {
    type V = Multiset<Seq<char>>;

    /// The bag of the document's terms.
    closed spec fn view(&self) -> Multiset<Seq<char>> {
        bag_of(self.entries())
    }
}

impl TermTable {
    /// The terms in order of first occurrence, each with its count.
    pub closed spec fn entries(&self) -> Seq<(Seq<char>, usize)> {
        Seq::new(
            self.counts.keys().len(),
            |i: int| (self.counts.keys()[i], self.counts.values()[i]),
        )
    }

    /// The table lists no term twice and none with a zero count, and it
    /// knows the size of its bag.
    pub closed spec fn wf(&self) -> bool {
        &&& self.counts.wf()
        &&& self.counts.keys().len() == self.counts.values().len()
        &&& forall|i: int|
            0 <= i < self.counts.values().len() ==> #[trigger] self.counts.values()[i] >= 1
        &&& self.total == self@.len()
    }

    /// The entries of a well-formed table are valid, and they describe its bag.
    pub proof fn lemma_entries_valid(&self)
        requires
            self.wf(),
        ensures
            valid_entries(self.entries()),
            bag_of(self.entries()) == self@,
    {
        self.counts.lemma_keys_distinct();
    }

    /// The count of a listed term is its count in the bag, and the listed
    /// terms are those that the bag holds.
    proof fn lemma_listed(&self, term: Seq<char>)
        requires
            self.wf(),
        ensures
            self@.count(term) > 0 <==> self.counts.keys().contains(term),
            forall|i: int|
                0 <= i < self.counts.keys().len() && #[trigger] self.counts.keys()[i] == term
                    ==> self@.count(term) == self.counts.values()[i],
    {
        let entries = self.entries();
        self.lemma_entries_valid();
        lemma_bag_count(entries, term);
        assert forall|i: int|
            0 <= i < self.counts.keys().len() && #[trigger] self.counts.keys()[i]
                == term implies self@.count(term) == self.counts.values()[i] by {
            assert(entries[i].0 == term);
        }
        if self.counts.keys().contains(term) {
            let i = self.counts.keys().index_of(term);
            assert(entries[i].1 >= 1);
        } else {
            assert forall|i: int| 0 <= i < entries.len() implies (#[trigger] entries[i]).0 != term by {
                assert(self.counts.keys()[i] == entries[i].0);
            }
        }
    }

    /// An empty table: it lists no term, and its bag holds nothing.
    pub fn new() -> (table: Self)
        ensures
            table.wf(),
            table@ == Multiset::<Seq<char>>::empty(),
            table.entries() == Seq::<(Seq<char>, usize)>::empty(),
    {
        let table = TermTable { counts: OrderedMap::new(), total: 0 };
        assert(table.entries() =~= Seq::empty());
        table
    }

    /// Counts one more occurrence of `term`.
    pub fn add(&mut self, term: String)
        requires
            old(self).wf(),
            old(self)@.len() < usize::MAX,
        ensures
            final(self).wf(),
            final(self)@ == old(self)@.insert(term@),
    {
        let ghost before = self.entries();
        proof {
            self.lemma_listed(term@);
            self.lemma_entries_valid();
        }
        match self.counts.position(term.as_str()) {
            Some(i) => {
                let count = *self.counts.value(i);
                proof {
                    assert(before[i as int] == (term@, count));
                    assert(old(self)@.count(term@) <= old(self)@.len());
                    lemma_bag_bump(before, i as int);
                }
                self.counts.set_value(i, count + 1);
                assert(self.entries() =~= before.update(i as int, (term@, (count + 1) as usize)));
            },
            None => {
                proof {
                    lemma_bag_push(before, term@, 1);
                    assert(bag_of(before).add(copies(term@, 1)) =~= bag_of(before).insert(term@));
                }
                self.counts.push(term, 1);
                assert(self.entries() =~= before.push((term@, 1usize)));
            },
        }
        self.total = self.total + 1;
    }

    /// How often `term` occurs in the document.
    pub fn count(&self, term: &str) -> (n: usize)
        requires
            self.wf(),
        ensures
            n == self@.count(term@),
    {
        proof {
            self.lemma_listed(term@);
        }
        match self.counts.position(term) {
            Some(i) => *self.counts.value(i),
            None => 0,
        }
    }

    /// Whether `term` occurs in the document.
    pub fn contains(&self, term: &str) -> (found: bool)
        requires
            self.wf(),
        ensures
            found == (self@.count(term@) > 0),
    {
        proof {
            self.lemma_listed(term@);
        }
        self.counts.position(term).is_some()
    }

    /// The number of tokens of the document: the sum of all counts.
    pub fn total(&self) -> (n: usize)
        requires
            self.wf(),
        ensures
            n == self@.len(),
    {
        self.total
    }

    /// The number of different terms of the document.
    pub fn len(&self) -> (n: usize)
        requires
            self.wf(),
        ensures
            n == self@.dom().len(),
    {
        proof {
            assert forall|term: Seq<char>|
                self@.dom().contains(term) == self.counts.keys().to_set().contains(term) by {
                self.lemma_listed(term);
            }
            assert(self@.dom() =~= self.counts.keys().to_set());
            self.counts.lemma_keys_distinct();
            self.counts.keys().unique_seq_to_set();
        }
        self.counts.len()
    }

    /// The terms in order of first occurrence, each with its count.
    pub fn to_entries(&self) -> (out: Vec<(String, usize)>)
        requires
            self.wf(),
        ensures
            out.deep_view() == self.entries(),
    {
        let mut out: Vec<(String, usize)> = Vec::new();
        let n = self.counts.len();
        let mut i: usize = 0;
        proof {
            self.counts.lemma_keys_distinct();
        }
        while i < n
            invariant
                n == self.counts.keys().len(),
                n == self.counts.values().len(),
                i <= n,
                out.deep_view() =~= self.entries().take(i as int),
            decreases n - i,
        {
            let ghost done = out.deep_view();
            let term = self.counts.key(i).clone();
            let count = *self.counts.value(i);
            out.push((term, count));
            assert(out.deep_view() =~= done.push((term@, count)));
            i += 1;
        }
        assert(self.entries().take(n as int) =~= self.entries());
        out
    }

    /// The table that `entries` describe, where they are valid.
    pub fn from_entries(entries: &Vec<(String, usize)>) -> (made: Option<Self>)
        ensures
            made is Some <==> valid_entries(entries.deep_view()),
            made matches Some(table) ==> table.wf() && table.entries() == entries.deep_view(),
    {
        let ghost given = entries.deep_view();
        let mut table = TermTable::new();
        let mut i: usize = 0;
        assert(table.entries() =~= given.take(0));
        while i < entries.len()
            invariant
                given == entries.deep_view(),
                i <= entries.len(),
                table.wf(),
                table.entries() == given.take(i as int),
            decreases entries.len() - i,
        {
            let ghost done = table.entries();
            let term = &entries[i].0;
            let count = entries[i].1;
            proof {
                assert(given[i as int] == (term@, count));
                assert(given.take(i + 1) =~= done.push((term@, count)));
                table.lemma_listed(term@);
                lemma_bag_prefix_len(given, i + 1);
                lemma_bag_push(done, term@, count);
            }
            if count == 0 {
                return None;
            }
            if table.counts.position(term.as_str()).is_some() {
                proof {
                    let j = table.counts.keys().index_of(term@);
                    assert(done[j].0 == term@);
                    assert(given[j] == done[j]);
                }
                return None;
            }
            let total = match table.total.checked_add(count) {
                Some(total) => total,
                None => {
                    return None;
                },
            };
            table.counts.push(term.clone(), count);
            table.total = total;
            assert(table.entries() =~= done.push((term@, count)));
            i += 1;
        }
        assert(given.take(i as int) =~= given);
        proof {
            table.lemma_entries_valid();
        }
        Some(table)
    }
}

/// The term table of a document with the given text: the bag of its terms,
/// which has as many members as the text has tokens.
pub fn index_document(text: &str) -> (table: TermTable)
    ensures
        table.wf(),
        table@ == terms(text@).to_multiset(),
        table@.len() == terms(text@).len(),
{
    let chars = chars_of(text);
    let mut lexer = Lexer::new(chars.as_slice());
    let mut table = TermTable::new();
    proof {
        lemma_terms_len_bound(text@);
        to_multiset_len(terms(text@));
        assert(text@.len() == chars.len());
        assert(table@.add(terms(lexer@).to_multiset()) =~= terms(text@).to_multiset());
    }
    loop
        invariant
            table.wf(),
            table@.add(terms(lexer@).to_multiset()) == terms(text@).to_multiset(),
            terms(text@).to_multiset().len() == terms(text@).len(),
            terms(text@).len() <= usize::MAX,
        ensures
            table.wf(),
            table@ == terms(text@).to_multiset(),
            table@.len() == terms(text@).len(),
        decreases lexer@.len(),
    {
        let ghost before = lexer@;
        let ghost counted = table@;
        proof {
            lemma_terms_unfold(before);
            to_multiset_build(Seq::<Seq<char>>::empty(), arbitrary());
            assert(Seq::<Seq<char>>::empty().to_multiset().len() == 0) by {
                to_multiset_len(Seq::<Seq<char>>::empty());
            }
        }
        match lexer.next_token() {
            Some(term) => {
                proof {
                    lemma_lexeme_bounds(before);
                    let rest = terms(after_first(before));
                    lemma_multiset_commutative(seq![term@], rest);
                    to_multiset_build(Seq::<Seq<char>>::empty(), term@);
                    assert(seq![term@] =~= Seq::<Seq<char>>::empty().push(term@));
                    assert(counted.insert(term@).add(rest.to_multiset()) =~= counted.add(
                        terms(before).to_multiset(),
                    ));
                    to_multiset_len(rest);
                }
                table.add(term);
            },
            None => {
                assert(counted.add(terms(before).to_multiset()) =~= counted);
                break;
            },
        }
    }
    table
}

} // verus!
