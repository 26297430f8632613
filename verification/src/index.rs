//! The two tables of the index: how often each term occurs in one document,
//! and which documents hold each term.

use crate::table::StrTable;
use vstd::multiset::Multiset;
use vstd::prelude::*;

verus! {

broadcast use {
    vstd::seq_lib::to_multiset_build,
    vstd::seq_lib::to_multiset_len,
    vstd::multiset::group_multiset_axioms,
    vstd::multiset::group_multiset_properties,
};

/// The distinct tokens of a stream, each at the place of its first occurrence.
pub open spec fn first_occurrences(tokens: Seq<Seq<char>>) -> Seq<Seq<char>>
    decreases tokens.len(),
{
    if tokens.len() == 0 {
        Seq::empty()
    } else {
        let earlier = first_occurrences(tokens.drop_last());
        if earlier.contains(tokens.last()) {
            earlier
        } else {
            earlier.push(tokens.last())
        }
    }
}

/// The term frequencies of one document: each term of its token stream with
/// the number of times it occurs there.
pub struct TermFrequencyRow {
    counts: StrTable<usize>,
    total: usize,
    bag: Ghost<Multiset<Seq<char>>>,
}

impl View for TermFrequencyRow {
    type V = Multiset<Seq<char>>;

    /// The terms of the document, each as often as it occurs.
    closed spec fn view(&self) -> Multiset<Seq<char>> {
        self.bag@
    }
}

impl TermFrequencyRow {
    /// The terms that occur at least once, each listed once.
    pub closed spec fn distinct(&self) -> Seq<Seq<char>> {
        self.counts.keys()
    }

    /// The stored counts and the stored total are those of the terms.
    pub closed spec fn counted(&self) -> bool {
        &&& self.counts.wf()
        &&& self.total == self@.len()
        &&& forall|i: int|
            0 <= i < self.counts.keys().len() ==> #[trigger] self.counts.values()[i] == self@.count(
                self.counts.keys()[i],
            )
    }

    /// The row's invariant.
    pub open spec fn wf(&self) -> bool {
        &&& self.counted()
        &&& self.distinct().no_duplicates()
        &&& forall|t: Seq<char>|
            #![trigger self.distinct().contains(t)]
            self.distinct().contains(t) <==> self@.count(t) > 0
    }

    /// Counts the terms of a token stream.
    pub fn from_tokens(tokens: &Vec<String>) -> (row: Self)
        ensures
            row.wf(),
            row@ == tokens.deep_view().to_multiset(),
            row.distinct() == first_occurrences(tokens.deep_view()),
    {
        let mut counts: StrTable<usize> = StrTable::new();
        let mut k: usize = 0;
        let ghost stream = tokens.deep_view();
        proof {
            assert(stream.take(0) =~= Seq::<Seq<char>>::empty());
        }
        while k < tokens.len()
            invariant
                k <= tokens.len(),
                stream == tokens.deep_view(),
                counts.wf(),
                forall|i: int|
                    0 <= i < counts.keys().len() ==> #[trigger] counts.values()[i] == stream.take(
                        k as int,
                    ).to_multiset().count(counts.keys()[i]),
                forall|t: Seq<char>|
                    #![trigger counts.keys().contains(t)]
                    counts.keys().contains(t) <==> stream.take(k as int).contains(t),
                counts.keys() == first_occurrences(stream.take(k as int)),
            decreases tokens.len() - k,
        {
            let ghost seen = stream.take(k as int);
            let ghost term = tokens[k as int]@;
            let ghost keys = counts.keys();
            proof {
                assert(stream.take(k + 1) =~= seen.push(term));
                assert(seen.push(term).drop_last() =~= seen);
                assert(seen.to_multiset().len() == k);
                vstd::seq_lib::to_multiset_contains(seen, term);
                assert forall|t: Seq<char>| seen.push(term).contains(t) <==> (seen.contains(t) || t
                    == term) by {
                    vstd::seq_lib::lemma_seq_contains_after_push(seen, term, t);
                }
            }
            match counts.find(tokens[k].as_str()) {
                Some(i) => {
                    let n = *counts.value_at(i);
                    counts.replace_value(i, n + 1);
                    proof {
                        assert(keys.contains(keys[i as int]));
                    }
                },
                None => {
                    counts.push(tokens[k].clone(), 1);
                    proof {
                        assert forall|t: Seq<char>| keys.push(term).contains(t) <==> (
                        keys.contains(t) || t == term) by {
                            vstd::seq_lib::lemma_seq_contains_after_push(keys, term, t);
                        }
                        assert forall|i: int| 0 <= i < keys.len() implies keys[i] != term by {
                            assert(keys.contains(keys[i]));
                        }
                    }
                },
            }
            proof {
                let now = stream.take(k + 1);
                assert forall|t: Seq<char>| counts.keys().contains(t) implies now.contains(t) by {
                    if t != term {
                        assert(keys.contains(t));
                    }
                }
                assert forall|t: Seq<char>| now.contains(t) implies counts.keys().contains(t) by {
                    if t != term {
                        assert(seen.contains(t));
                        assert(keys.contains(t));
                    } else {
                        assert(counts.keys().contains(term));
                    }
                }
            }
            k += 1;
        }
        proof {
            assert(stream.take(k as int) =~= stream);
            assert forall|t: Seq<char>| #[trigger]
                counts.keys().contains(t) <==> stream.to_multiset().count(t) > 0 by {
                vstd::seq_lib::to_multiset_contains(stream, t);
            }
        }
        TermFrequencyRow { counts, total: tokens.len(), bag: Ghost(stream.to_multiset()) }
    }

    /// How often `term` occurs; 0 for a term that does not.
    pub fn count(&self, term: &str) -> (n: usize)
        requires
            self.wf(),
        ensures
            n == self@.count(term@),
    {
        match self.counts.find(term) {
            Some(i) => *self.counts.value_at(i),
            None => 0,
        }
    }

    /// The number of tokens, repetitions included.
    pub fn total(&self) -> (n: usize)
        requires
            self.wf(),
        ensures
            n == self@.len(),
    {
        self.total
    }

    /// The number of distinct terms.
    pub fn distinct_len(&self) -> (n: usize)
        requires
            self.wf(),
        ensures
            n == self.distinct().len(),
    {
        self.counts.len()
    }

    /// The `i`-th distinct term.
    pub fn term_at(&self, i: usize) -> (term: &String)
        requires
            self.wf(),
            i < self.distinct().len(),
        ensures
            term@ == self.distinct()[i as int],
    {
        self.counts.key_at(i)
    }
}

/// The inverted index: for each term, the set of ids of the documents that
/// hold it.
pub struct InvertedIndex {
    postings: StrTable<StrTable<()>>,
}

impl InvertedIndex {
    /// The index's invariant.
    pub closed spec fn wf(&self) -> bool {
        &&& self.postings.wf()
        &&& forall|p: int|
            0 <= p < self.postings.values().len() ==> (#[trigger] self.postings.values()[p]).wf()
    }

    /// The ids of the documents listed under `term`: its posting list.
    pub closed spec fn documents_of(&self, term: Seq<char>) -> Set<Seq<char>> {
        if self.postings.keys().contains(term) {
            self.postings.values()[self.postings.keys().index_of(term)].key_set()
        } else {
            Set::empty()
        }
    }

    /// Posting lists are finite.
    pub proof fn lemma_documents_of_finite(&self, term: Seq<char>)
        ensures
            self.documents_of(term).finite(),
    {
        if self.postings.keys().contains(term) {
            vstd::seq_lib::seq_to_set_is_finite(
                self.postings.values()[self.postings.keys().index_of(term)].keys(),
            );
        }
    }

    /// An index without terms.
    pub fn new() -> (index: Self)
        ensures
            index.wf(),
            forall|t: Seq<char>| #[trigger] index.documents_of(t) == Set::<Seq<char>>::empty(),
    {
        InvertedIndex { postings: StrTable::new() }
    }

    /// The posting list of `term`, where the index has one. A term without a
    /// list, or with an empty one, is held by no document.
    pub fn posting(&self, term: &str) -> (list: Option<&StrTable<()>>)
        requires
            self.wf(),
        ensures
            match list {
                Some(ids) => ids.wf() && ids.key_set() == self.documents_of(term@),
                None => self.documents_of(term@) == Set::<Seq<char>>::empty(),
            },
    {
        match self.postings.find(term) {
            Some(p) => {
                proof {
                    self.postings.lemma_index_of(p as int);
                }
                Some(self.postings.value_at(p))
            },
            None => None,
        }
    }

    /// The number of documents that hold `term`.
    pub fn document_frequency(&self, term: &str) -> (n: usize)
        requires
            self.wf(),
        ensures
            n == self.documents_of(term@).len(),
    {
        match self.posting(term) {
            Some(ids) => {
                proof {
                    ids.keys().unique_seq_to_set();
                }
                ids.len()
            },
            None => 0,
        }
    }

    /// Lists `doc_id` under `term`.
    pub fn add(&mut self, term: &str, doc_id: &str)
        requires
            old(self).wf(),
        ensures
            final(self).wf(),
            forall|t: Seq<char>| #[trigger]
                final(self).documents_of(t) == if t == term@ {
                    old(self).documents_of(t).insert(doc_id@)
                } else {
                    old(self).documents_of(t)
                },
    {
        let ghost before = self.postings;
        match self.postings.find(term) {
            Some(p) => {
                let mut ids = self.postings.replace_value(p, StrTable::new());
                let ghost listed = ids.keys();
                if ids.find(doc_id).is_none() {
                    ids.push(doc_id.to_string(), ());
                    proof {
                        assert(ids.key_set() =~= listed.to_set().insert(doc_id@)) by {
                            assert forall|x: Seq<char>|
                                listed.push(doc_id@).contains(x) <==> (listed.contains(x) || x
                                    == doc_id@) by {
                                vstd::seq_lib::lemma_seq_contains_after_push(listed, doc_id@, x);
                            }
                        }
                    }
                } else {
                    assert(ids.key_set() =~= listed.to_set().insert(doc_id@));
                }
                self.postings.replace_value(p, ids);
                proof {
                    assert forall|t: Seq<char>| #[trigger]
                        self.documents_of(t) == if t == term@ {
                            old(self).documents_of(t).insert(doc_id@)
                        } else {
                            old(self).documents_of(t)
                        } by {
                        if before.keys().contains(t) {
                            let q = before.keys().index_of(t);
                            before.lemma_index_of(p as int);
                        }
                    }
                }
            },
            None => {
                let mut ids: StrTable<()> = StrTable::new();
                ids.push(doc_id.to_string(), ());
                self.postings.push(term.to_string(), ids);
                proof {
                    assert(ids.key_set() =~= Set::<Seq<char>>::empty().insert(doc_id@)) by {
                        assert(ids.keys()[0] == doc_id@);
                    }
                    let after = self.postings.keys();
                    assert forall|t: Seq<char>| #[trigger]
                        self.documents_of(t) == if t == term@ {
                            old(self).documents_of(t).insert(doc_id@)
                        } else {
                            old(self).documents_of(t)
                        } by {
                        vstd::seq_lib::lemma_seq_contains_after_push(before.keys(), term@, t);
                        if t == term@ {
                            assert(after[before.keys().len() as int] == term@);
                            self.postings.lemma_index_of(before.keys().len() as int);
                        } else if before.keys().contains(t) {
                            let q = before.keys().index_of(t);
                            assert(after[q] == t);
                            self.postings.lemma_index_of(q);
                        }
                    }
                }
            },
        }
    }

    /// Strikes `doc_id` from the list of `term`.
    pub fn remove(&mut self, term: &str, doc_id: &str)
        requires
            old(self).wf(),
        ensures
            final(self).wf(),
            forall|t: Seq<char>| #[trigger]
                final(self).documents_of(t) == if t == term@ {
                    old(self).documents_of(t).remove(doc_id@)
                } else {
                    old(self).documents_of(t)
                },
    {
        let ghost before = self.postings;
        match self.postings.find(term) {
            Some(p) => {
                let mut ids = self.postings.replace_value(p, StrTable::new());
                let ghost listed = ids.keys();
                match ids.find(doc_id) {
                    Some(j) => {
                        ids.remove_at(j);
                    },
                    None => {
                        assert(ids.key_set() =~= listed.to_set().remove(doc_id@));
                    },
                }
                self.postings.replace_value(p, ids);
                proof {
                    assert forall|t: Seq<char>| #[trigger]
                        self.documents_of(t) == if t == term@ {
                            old(self).documents_of(t).remove(doc_id@)
                        } else {
                            old(self).documents_of(t)
                        } by {
                        if before.keys().contains(t) {
                            let q = before.keys().index_of(t);
                            before.lemma_index_of(p as int);
                        }
                    }
                }
            },
            None => {
                assert forall|t: Seq<char>| #[trigger]
                    self.documents_of(t) == if t == term@ {
                        old(self).documents_of(t).remove(doc_id@)
                    } else {
                        old(self).documents_of(t)
                    } by {
                    assert(Set::<Seq<char>>::empty().remove(doc_id@) =~= Set::<Seq<char>>::empty());
                }
            },
        }
    }

    /// Lists `doc_id` under every term of `row`.
    pub fn attach(&mut self, doc_id: &str, row: &TermFrequencyRow)
        requires
            old(self).wf(),
            row.wf(),
        ensures
            final(self).wf(),
            forall|t: Seq<char>| #[trigger]
                final(self).documents_of(t) == if row@.count(t) > 0 {
                    old(self).documents_of(t).insert(doc_id@)
                } else {
                    old(self).documents_of(t)
                },
    {
        let ghost before = *self;
        let n = row.distinct_len();
        let mut k: usize = 0;
        proof {
            assert(row.distinct().take(0) =~= Seq::<Seq<char>>::empty());
        }
        while k < n
            invariant
                k <= n,
                n == row.distinct().len(),
                row.wf(),
                self.wf(),
                forall|t: Seq<char>| #[trigger]
                    self.documents_of(t) == if row.distinct().take(k as int).contains(t) {
                        before.documents_of(t).insert(doc_id@)
                    } else {
                        before.documents_of(t)
                    },
            decreases n - k,
        {
            let ghost done = row.distinct().take(k as int);
            let ghost term = row.distinct()[k as int];
            self.add(row.term_at(k).as_str(), doc_id);
            proof {
                assert(row.distinct().take(k + 1) =~= done.push(term));
                assert forall|t: Seq<char>| #[trigger]
                    self.documents_of(t) == if done.push(term).contains(t) {
                        before.documents_of(t).insert(doc_id@)
                    } else {
                        before.documents_of(t)
                    } by {
                    vstd::seq_lib::lemma_seq_contains_after_push(done, term, t);
                    assert(before.documents_of(t).insert(doc_id@).insert(doc_id@)
                        =~= before.documents_of(t).insert(doc_id@));
                }
            }
            k += 1;
        }
        proof {
            assert(row.distinct().take(n as int) =~= row.distinct());
        }
    }

    /// Strikes `doc_id` from the list of every term of `row`.
    pub fn retract(&mut self, doc_id: &str, row: &TermFrequencyRow)
        requires
            old(self).wf(),
            row.wf(),
        ensures
            final(self).wf(),
            forall|t: Seq<char>| #[trigger]
                final(self).documents_of(t) == if row@.count(t) > 0 {
                    old(self).documents_of(t).remove(doc_id@)
                } else {
                    old(self).documents_of(t)
                },
    {
        let ghost before = *self;
        let n = row.distinct_len();
        let mut k: usize = 0;
        proof {
            assert(row.distinct().take(0) =~= Seq::<Seq<char>>::empty());
        }
        while k < n
            invariant
                k <= n,
                n == row.distinct().len(),
                row.wf(),
                self.wf(),
                forall|t: Seq<char>| #[trigger]
                    self.documents_of(t) == if row.distinct().take(k as int).contains(t) {
                        before.documents_of(t).remove(doc_id@)
                    } else {
                        before.documents_of(t)
                    },
            decreases n - k,
        {
            let ghost done = row.distinct().take(k as int);
            let ghost term = row.distinct()[k as int];
            self.remove(row.term_at(k).as_str(), doc_id);
            proof {
                assert(row.distinct().take(k + 1) =~= done.push(term));
                assert forall|t: Seq<char>| #[trigger]
                    self.documents_of(t) == if done.push(term).contains(t) {
                        before.documents_of(t).remove(doc_id@)
                    } else {
                        before.documents_of(t)
                    } by {
                    vstd::seq_lib::lemma_seq_contains_after_push(done, term, t);
                    assert(before.documents_of(t).remove(doc_id@).remove(doc_id@)
                        =~= before.documents_of(t).remove(doc_id@));
                }
            }
            k += 1;
        }
        proof {
            assert(row.distinct().take(n as int) =~= row.distinct());
        }
    }
}

} // verus!
