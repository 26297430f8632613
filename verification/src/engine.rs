//! The search engine: a store of documents with the inverted index over their
//! terms, kept consistent by every operation.

use crate::index::{first_occurrences, InvertedIndex, TermFrequencyRow};
use crate::normalize::{normalized, preprocess_text};
use crate::score::{
    idf_parts, inverse_document_frequency, term_frequency, tf_parts, Candidate, Contribution, Ratio,
};
use crate::segment::Segmenter;
use crate::table::StrTable;
use crate::text::{discard_blank, significant};
use vstd::multiset::Multiset;
use vstd::prelude::*;

verus! {

/// What the engine knows of one document.
pub struct DocumentView {
    /// Where the document came from.
    pub path: Seq<char>,
    /// The text as it was handed in.
    pub raw_content: Seq<char>,
    /// The text after normalization.
    pub normalized_content: Seq<char>,
    /// The terms of the document, each as often as it occurs.
    pub terms: Multiset<Seq<char>>,
}

/// The ids of the documents of `corpus` that hold `term`.
pub open spec fn postings(corpus: Map<Seq<char>, DocumentView>, term: Seq<char>) -> Set<Seq<char>> {
    corpus.dom().filter(|id: Seq<char>| corpus[id].terms.count(term) > 0)
}

/// Storing a document under an id that is already taken leaves the number of
/// documents as it was. Afterwards the id is listed under exactly the terms of
/// the new document, so no term of the old one is left behind, and every other
/// document is listed as before.
pub proof fn lemma_reingest_replaces(
    corpus: Map<Seq<char>, DocumentView>,
    doc_id: Seq<char>,
    document: DocumentView,
)
    requires
        corpus.dom().finite(),
        corpus.contains_key(doc_id),
    ensures
        corpus.insert(doc_id, document).dom().len() == corpus.dom().len(),
        forall|t: Seq<char>|
            postings(corpus.insert(doc_id, document), t).contains(doc_id) <==> document.terms.count(
                t,
            ) > 0,
        forall|t: Seq<char>, other: Seq<char>|
            other != doc_id ==> (postings(corpus.insert(doc_id, document), t).contains(other)
                <==> postings(corpus, t).contains(other)),
{
    assert(corpus.insert(doc_id, document).dom() =~= corpus.dom());
}

/// Storing a document under a new id makes the corpus one document larger and
/// leaves every other document listed as before.
pub proof fn lemma_first_ingest_adds(
    corpus: Map<Seq<char>, DocumentView>,
    doc_id: Seq<char>,
    document: DocumentView,
)
    requires
        corpus.dom().finite(),
        !corpus.contains_key(doc_id),
    ensures
        corpus.insert(doc_id, document).dom().len() == corpus.dom().len() + 1,
        forall|t: Seq<char>|
            postings(corpus.insert(doc_id, document), t).contains(doc_id) <==> document.terms.count(
                t,
            ) > 0,
        forall|t: Seq<char>, other: Seq<char>|
            other != doc_id ==> (postings(corpus.insert(doc_id, document), t).contains(other)
                <==> postings(corpus, t).contains(other)),
{
}

/// A posting list holds only documents of the corpus, so a term is never
/// held by more documents than there are.
pub proof fn lemma_postings_within_corpus(corpus: Map<Seq<char>, DocumentView>, term: Seq<char>)
    requires
        corpus.dom().finite(),
    ensures
        postings(corpus, term).finite(),
        postings(corpus, term).subset_of(corpus.dom()),
        postings(corpus, term).len() <= corpus.dom().len(),
{
    vstd::set_lib::lemma_len_subset(postings(corpus, term), corpus.dom());
}

/// The terms of a query: its tokens that are not blank, each once, in the
/// order of their first occurrence.
pub open spec fn query_terms(tokens: Seq<Seq<char>>) -> Seq<Seq<char>> {
    first_occurrences(significant(tokens))
}

/// Whether the document `id` of `corpus` holds at least one of `terms`.
pub open spec fn holds_some(
    corpus: Map<Seq<char>, DocumentView>,
    terms: Seq<Seq<char>>,
    id: Seq<char>,
) -> bool {
    corpus.contains_key(id) && exists|i: int|
        0 <= i < terms.len() && corpus[id].terms.count(#[trigger] terms[i]) > 0
}

/// Those of `terms` that the document `id` holds, in order.
pub open spec fn held_terms(
    corpus: Map<Seq<char>, DocumentView>,
    terms: Seq<Seq<char>>,
    id: Seq<char>,
) -> Seq<Seq<char>> {
    terms.filter(|t: Seq<char>| corpus[id].terms.count(t) > 0)
}

/// Whether `c` is what `term` adds to the score of the document `id`: its
/// frequency among the tokens of the document, and the fraction under the
/// logarithm of its inverse document frequency in the corpus.
pub open spec fn is_contribution(
    c: Contribution,
    corpus: Map<Seq<char>, DocumentView>,
    term: Seq<char>,
    id: Seq<char>,
) -> bool {
    &&& c.tf.parts() == tf_parts(corpus[id].terms.count(term), corpus[id].terms.len())
    &&& c.idf.parts() == idf_parts(corpus.dom().len(), postings(corpus, term).len())
}

/// Whether `cs` are the contributions of `terms` to the document `id`: one
/// for each term that the document holds, in the order of the terms.
pub open spec fn are_contributions(
    cs: Seq<Contribution>,
    corpus: Map<Seq<char>, DocumentView>,
    terms: Seq<Seq<char>>,
    id: Seq<char>,
) -> bool {
    &&& cs.len() == held_terms(corpus, terms, id).len()
    &&& forall|i: int|
        0 <= i < cs.len() ==> is_contribution(
            #[trigger] cs[i],
            corpus,
            held_terms(corpus, terms, id)[i],
            id,
        )
}

/// Whether `candidates` answer a query for `terms`: they are the documents
/// that hold at least one of the terms, each once and each with its
/// contributions. Their order is left open.
pub open spec fn answers(
    candidates: Seq<Candidate>,
    corpus: Map<Seq<char>, DocumentView>,
    terms: Seq<Seq<char>>,
) -> bool {
    &&& forall|i: int, j: int|
        0 <= i < j < candidates.len() ==> (#[trigger] candidates[i]).doc_id@
            != (#[trigger] candidates[j]).doc_id@
    &&& forall|i: int|
        0 <= i < candidates.len() ==> holds_some(corpus, terms, (#[trigger] candidates[i]).doc_id@)
            && are_contributions(
            candidates[i].contributions@,
            corpus,
            terms,
            candidates[i].doc_id@,
        )
    &&& forall|id: Seq<char>| #[trigger]
        holds_some(corpus, terms, id) ==> exists|i: int|
            0 <= i < candidates.len() && (#[trigger] candidates[i]).doc_id@ == id
}

/// A document holds one of some terms and a further one exactly if it holds
/// one of the former or is in the posting list of the latter.
pub proof fn lemma_holds_some_push(
    corpus: Map<Seq<char>, DocumentView>,
    terms: Seq<Seq<char>>,
    term: Seq<char>,
    id: Seq<char>,
)
    ensures
        holds_some(corpus, terms.push(term), id) <==> (holds_some(corpus, terms, id) || postings(
            corpus,
            term,
        ).contains(id)),
{
    let longer = terms.push(term);
    if holds_some(corpus, longer, id) {
        let i = choose|i: int| 0 <= i < longer.len() && corpus[id].terms.count(#[trigger] longer[i]) > 0;
        if i < terms.len() {
            assert(longer[i] == terms[i]);
        }
    }
    if holds_some(corpus, terms, id) {
        let i = choose|i: int| 0 <= i < terms.len() && corpus[id].terms.count(#[trigger] terms[i]) > 0;
        assert(longer[i] == terms[i]);
    }
    if postings(corpus, term).contains(id) {
        assert(longer[terms.len() as int] == term);
    }
}

/// A query against an empty corpus has no answer but the empty one.
pub proof fn lemma_empty_corpus_has_no_candidates(
    candidates: Seq<Candidate>,
    corpus: Map<Seq<char>, DocumentView>,
    terms: Seq<Seq<char>>,
)
    requires
        answers(candidates, corpus, terms),
        corpus.dom().finite(),
        corpus.dom().len() == 0,
    ensures
        candidates.len() == 0,
{
    if candidates.len() > 0 {
        assert(holds_some(corpus, terms, candidates[0].doc_id@));
        assert(corpus.dom().contains(candidates[0].doc_id@));
    }
}

/// A query without a term that the corpus holds has no answer but the empty
/// one. A query without terms is such a query.
pub proof fn lemma_unknown_terms_have_no_candidates(
    candidates: Seq<Candidate>,
    corpus: Map<Seq<char>, DocumentView>,
    terms: Seq<Seq<char>>,
)
    requires
        answers(candidates, corpus, terms),
        forall|i: int| 0 <= i < terms.len() ==> postings(corpus, #[trigger] terms[i]).is_empty(),
    ensures
        candidates.len() == 0,
{
    if candidates.len() > 0 {
        let id = candidates[0].doc_id@;
        assert(holds_some(corpus, terms, id));
        let i = choose|i: int| 0 <= i < terms.len() && corpus[id].terms.count(#[trigger] terms[i]) > 0;
        assert(postings(corpus, terms[i]).contains(id));
    }
}

/// A stored document.
pub struct Document {
    path: String,
    raw_content: String,
    normalized_content: String,
    frequencies: TermFrequencyRow,
}

impl View for Document {
    type V = DocumentView;

    closed spec fn view(&self) -> DocumentView {
        DocumentView {
            path: self.path@,
            raw_content: self.raw_content@,
            normalized_content: self.normalized_content@,
            terms: self.frequencies@,
        }
    }
}

impl Document {
    /// The document's invariant: that of its term frequencies.
    pub closed spec fn wf(&self) -> bool {
        self.frequencies.wf()
    }

    /// Where the document came from.
    pub fn path(&self) -> (path: &String)
        ensures
            path@ == self@.path,
    {
        &self.path
    }

    /// The text as it was handed in.
    pub fn raw_content(&self) -> (text: &String)
        ensures
            text@ == self@.raw_content,
    {
        &self.raw_content
    }

    /// The text after normalization.
    pub fn normalized_content(&self) -> (text: &String)
        ensures
            text@ == self@.normalized_content,
    {
        &self.normalized_content
    }

    /// The document's term frequencies.
    pub fn frequencies(&self) -> (row: &TermFrequencyRow)
        requires
            self.wf(),
        ensures
            row.wf(),
            row@ == self@.terms,
    {
        &self.frequencies
    }
}

/// An engine over a set of documents and one segmenter.
pub struct ChineseSearchEngine {
    documents: StrTable<Document>,
    inverted_index: InvertedIndex,
    segmenter: Segmenter,
}

impl View for ChineseSearchEngine {
    type V = Map<Seq<char>, DocumentView>;

    /// The corpus: each document by its id.
    closed spec fn view(&self) -> Map<Seq<char>, DocumentView> {
        Map::new(
            |id: Seq<char>| self.documents.keys().contains(id),
            |id: Seq<char>| self.documents.values()[self.documents.keys().index_of(id)]@,
        )
    }
}

impl ChineseSearchEngine {
    /// The engine's invariant: the store and the index are sound, and the
    /// index lists a document under a term exactly if the term occurs in it.
    pub closed spec fn wf(&self) -> bool {
        &&& self.documents.wf()
        &&& self.inverted_index.wf()
        &&& forall|d: int|
            0 <= d < self.documents.values().len() ==> (#[trigger] self.documents.values()[d]).wf()
        &&& forall|t: Seq<char>| #[trigger]
            self.inverted_index.documents_of(t) == postings(self@, t)
    }

    /// The segmenter that the engine cuts documents and queries with.
    pub closed spec fn segmenter(&self) -> Segmenter {
        self.segmenter
    }

    /// The corpus is finite, and its size is the number of stored documents.
    proof fn lemma_corpus(&self)
        requires
            self.documents.wf(),
        ensures
            self@.dom() == self.documents.key_set(),
            self@.dom().finite(),
            self@.dom().len() == self.documents.keys().len(),
            forall|d: int|
                0 <= d < self.documents.keys().len() ==> self@.contains_key(
                    #[trigger] self.documents.keys()[d],
                ) && self@[self.documents.keys()[d]] == self.documents.values()[d]@,
    {
        assert(self@.dom() =~= self.documents.key_set());
        vstd::seq_lib::seq_to_set_is_finite(self.documents.keys());
        self.documents.keys().unique_seq_to_set();
        assert forall|d: int| 0 <= d < self.documents.keys().len() implies self@.contains_key(
            #[trigger] self.documents.keys()[d],
        ) && self@[self.documents.keys()[d]] == self.documents.values()[d]@ by {
            self.documents.lemma_index_of(d);
        }
    }

    /// An empty engine that cuts text with `segmenter`.
    pub fn with_segmenter(segmenter: Segmenter) -> (engine: Self)
        ensures
            engine.wf(),
            engine@ == Map::<Seq<char>, DocumentView>::empty(),
            engine.segmenter() == segmenter,
    {
        let engine = ChineseSearchEngine {
            documents: StrTable::new(),
            inverted_index: InvertedIndex::new(),
            segmenter,
        };
        proof {
            assert(engine@ =~= Map::<Seq<char>, DocumentView>::empty());
            assert forall|t: Seq<char>| #[trigger]
                engine.inverted_index.documents_of(t) == postings(engine@, t) by {
                assert(postings(engine@, t) =~= Set::<Seq<char>>::empty());
            }
        }
        engine
    }

    /// An empty engine that cuts text with the segmenter of `jieba_rs`.
    pub fn new() -> (engine: Self)
        ensures
            engine.wf(),
            engine@ == Map::<Seq<char>, DocumentView>::empty(),
            engine.segmenter() is Linguistic,
    {
        Self::with_segmenter(Segmenter::linguistic())
    }

    /// The number of documents.
    pub fn doc_count(&self) -> (n: usize)
        requires
            self.wf(),
        ensures
            n == self@.dom().len(),
    {
        proof {
            self.lemma_corpus();
        }
        self.documents.len()
    }

    /// The document stored under `doc_id`, if there is one.
    pub fn document(&self, doc_id: &str) -> (found: Option<&Document>)
        requires
            self.wf(),
        ensures
            match found {
                Some(document) => self@.contains_key(doc_id@) && document@ == self@[doc_id@]
                    && document.wf(),
                None => !self@.contains_key(doc_id@),
            },
    {
        proof {
            self.lemma_corpus();
        }
        match self.documents.find(doc_id) {
            Some(d) => Some(self.documents.value_at(d)),
            None => None,
        }
    }

    /// Stores a document whose text has already been normalized and cut:
    /// the blank tokens are dropped, the rest are counted and indexed. A
    /// document that was stored under `doc_id` before is replaced, and its
    /// old terms leave the index.
    pub fn add_tokens(
        &mut self,
        doc_id: String,
        doc_path: String,
        raw_content: String,
        normalized_content: String,
        tokens: &Vec<String>,
    )
        requires
            old(self).wf(),
        ensures
            final(self).wf(),
            final(self).segmenter() == old(self).segmenter(),
            final(self)@ == old(self)@.insert(
                doc_id@,
                (DocumentView {
                    path: doc_path@,
                    raw_content: raw_content@,
                    normalized_content: normalized_content@,
                    terms: significant(tokens.deep_view()).to_multiset(),
                }),
            ),
    {
        let kept = discard_blank(tokens);
        let row = TermFrequencyRow::from_tokens(&kept);
        let ghost entry = DocumentView {
            path: doc_path@,
            raw_content: raw_content@,
            normalized_content: normalized_content@,
            terms: row@,
        };
        let ghost id = doc_id@;
        proof {
            old(self).lemma_corpus();
        }
        match self.documents.find(doc_id.as_str()) {
            Some(d) => {
                let previous = self.documents.value_at(d);
                self.inverted_index.retract(doc_id.as_str(), &previous.frequencies);
                self.inverted_index.attach(doc_id.as_str(), &row);
                let document = Document {
                    path: doc_path,
                    raw_content,
                    normalized_content,
                    frequencies: row,
                };
                self.documents.replace_value(d, document);
                proof {
                    self.lemma_corpus();
                    assert(self@ =~= old(self)@.insert(id, entry)) by {
                        assert forall|x: Seq<char>| self@.contains_key(x) implies self@[x] == old(
                            self,
                        )@.insert(id, entry)[x] by {
                            let q = self.documents.keys().index_of(x);
                            self.documents.lemma_index_of(d as int);
                        }
                    }
                }
            },
            None => {
                let ghost slot = self.documents.keys().len() as int;
                self.inverted_index.attach(doc_id.as_str(), &row);
                let document = Document {
                    path: doc_path,
                    raw_content,
                    normalized_content,
                    frequencies: row,
                };
                self.documents.push(doc_id, document);
                proof {
                    self.lemma_corpus();
                    assert(self@ =~= old(self)@.insert(id, entry)) by {
                        assert forall|x: Seq<char>|
                            self@.contains_key(x) <==> (old(self)@.contains_key(x) || x == id) by {
                            vstd::seq_lib::lemma_seq_contains_after_push(
                                old(self).documents.keys(),
                                id,
                                x,
                            );
                        }
                        assert forall|x: Seq<char>| self@.contains_key(x) implies self@[x] == old(
                            self,
                        )@.insert(id, entry)[x] by {
                            if x == id {
                                self.documents.lemma_index_of(slot);
                            } else {
                                let q = old(self).documents.keys().index_of(x);
                                assert(self.documents.keys()[q] == x);
                                self.documents.lemma_index_of(q);
                            }
                        }
                    }
                }
            },
        }
        proof {
            assert forall|t: Seq<char>| #[trigger]
                self.inverted_index.documents_of(t) == postings(self@, t) by {
                assert(old(self).inverted_index.documents_of(t) == postings(old(self)@, t));
                assert(self.inverted_index.documents_of(t) =~= postings(self@, t));
            }
        }
    }

    /// Normalizes `doc_content`, cuts it with the engine's segmenter and
    /// stores the document under `doc_id`, replacing the one that was there.
    /// The corpus afterwards is what `add_tokens` makes of some token
    /// sequence that the segmenter can yield for the normalized text: for
    /// maximum forward matching the one segmentation of it.
    pub fn add_document(&mut self, doc_id: String, doc_path: String, doc_content: String)
        requires
            old(self).wf(),
        ensures
            final(self).wf(),
            final(self).segmenter() == old(self).segmenter(),
            exists|tokens: Seq<Seq<char>>|
                old(self).segmenter().yields(normalized(doc_content@), tokens) && final(self)@
                    == old(self)@.insert(
                    doc_id@,
                    (DocumentView {
                        path: doc_path@,
                        raw_content: doc_content@,
                        normalized_content: normalized(doc_content@),
                        terms: significant(tokens).to_multiset(),
                    }),
                ),
    {
        let normalized_content = preprocess_text(doc_content.as_str());
        let tokens = self.segmenter.segment(normalized_content.as_str());
        proof {
            assert(self.segmenter().yields(normalized(doc_content@), tokens.deep_view()));
        }
        self.add_tokens(doc_id, doc_path, doc_content, normalized_content, &tokens);
    }

    /// The number of documents that hold `term`.
    pub fn document_frequency(&self, term: &str) -> (n: usize)
        requires
            self.wf(),
        ensures
            n == postings(self@, term@).len(),
    {
        self.inverted_index.document_frequency(term)
    }

    /// How often `term` occurs in the document `doc_id`; 0 where there is no
    /// such document.
    pub fn term_count(&self, term: &str, doc_id: &str) -> (n: usize)
        requires
            self.wf(),
        ensures
            n == if self@.contains_key(doc_id@) {
                self@[doc_id@].terms.count(term@)
            } else {
                0
            },
    {
        match self.document(doc_id) {
            Some(document) => document.frequencies().count(term),
            None => 0,
        }
    }

    /// The fraction whose natural logarithm is the inverse document
    /// frequency of `term`: `(1 + N) / (1 + n)` for a term that `n` of the `N`
    /// documents hold, and `1 / 1`, whose logarithm is 0, for a term that the
    /// index does not hold.
    pub fn compute_idf(&self, term: String) -> (idf: Ratio)
        requires
            self.wf(),
        ensures
            idf.parts() == idf_parts(self@.dom().len(), postings(self@, term@).len()),
            postings(self@, term@).len() == 0 ==> idf.parts() == (1int, 1int),
            0 < idf.denominator <= idf.numerator,
    {
        proof {
            self.lemma_corpus();
            lemma_postings_within_corpus(self@, term@);
        }
        inverse_document_frequency(self.doc_count(), self.document_frequency(term.as_str()))
    }

    /// The frequency of `term` among the tokens of the document `doc_id`:
    /// its count over the number of tokens, and `0 / 1` where the term does not
    /// occur, the document has no tokens, or there is no such document.
    pub fn tf(&self, term: &str, doc_id: &str) -> (tf: Ratio)
        requires
            self.wf(),
        ensures
            tf.parts() == if self@.contains_key(doc_id@) {
                tf_parts(self@[doc_id@].terms.count(term@), self@[doc_id@].terms.len())
            } else {
                (0int, 1int)
            },
            0 <= tf.numerator <= tf.denominator,
            tf.denominator > 0,
    {
        match self.document(doc_id) {
            Some(document) => {
                let row = document.frequencies();
                term_frequency(row.count(term), row.total())
            },
            None => Ratio { numerator: 0, denominator: 1 },
        }
    }

    /// The documents that hold at least one of the terms of `row`, each once.
    fn matching_documents(&self, row: &TermFrequencyRow) -> (seen: StrTable<()>)
        requires
            self.wf(),
            row.wf(),
        ensures
            seen.wf(),
            forall|s: int|
                0 <= s < seen.keys().len() ==> holds_some(
                    self@,
                    row.distinct(),
                    #[trigger] seen.keys()[s],
                ),
            forall|id: Seq<char>| #[trigger]
                holds_some(self@, row.distinct(), id) ==> seen.keys().contains(id),
    {
        let ghost terms = row.distinct();
        let mut seen: StrTable<()> = StrTable::new();
        let n = row.distinct_len();
        let mut k: usize = 0;
        while k < n
            invariant
                self.wf(),
                row.wf(),
                terms == row.distinct(),
                k <= n,
                n == terms.len(),
                seen.wf(),
                forall|s: int|
                    0 <= s < seen.keys().len() ==> holds_some(
                        self@,
                        terms.take(k as int),
                        #[trigger] seen.keys()[s],
                    ),
                forall|id: Seq<char>| #[trigger]
                    holds_some(self@, terms.take(k as int), id) ==> seen.keys().contains(id),
            decreases n - k,
        {
            let term = row.term_at(k);
            let ghost done = terms.take(k as int);
            proof {
                assert(terms.take(k + 1) =~= done.push(term@));
                assert forall|id: Seq<char>|
                    holds_some(self@, done.push(term@), id) <==> (holds_some(self@, done, id)
                        || postings(self@, term@).contains(id)) by {
                    lemma_holds_some_push(self@, done, term@, id);
                }
            }
            match self.inverted_index.posting(term.as_str()) {
                Some(ids) => {
                    let m = ids.len();
                    let mut j: usize = 0;
                    proof {
                        assert(ids.keys().take(0) =~= Seq::<Seq<char>>::empty());
                    }
                    while j < m
                        invariant
                            j <= m,
                            m == ids.keys().len(),
                            ids.wf(),
                            seen.wf(),
                            forall|s: int|
                                0 <= s < seen.keys().len() ==> holds_some(
                                    self@,
                                    done,
                                    #[trigger] seen.keys()[s],
                                ) || ids.keys().take(j as int).contains(seen.keys()[s]),
                            forall|id: Seq<char>|
                                (holds_some(self@, done, id) || ids.keys().take(j as int).contains(
                                    id,
                                )) ==> #[trigger] seen.keys().contains(id),
                        decreases m - j,
                    {
                        let id = ids.key_at(j);
                        let ghost listed = ids.keys().take(j as int);
                        let ghost known = seen.keys();
                        proof {
                            assert(ids.keys().take(j + 1) =~= listed.push(id@));
                            assert forall|x: Seq<char>|
                                listed.push(id@).contains(x) <==> (listed.contains(x) || x
                                    == id@) by {
                                vstd::seq_lib::lemma_seq_contains_after_push(listed, id@, x);
                            }
                        }
                        match seen.find(id.as_str()) {
                            Some(at) => {
                                assert(known.contains(known[at as int]));
                            },
                            None => {
                                seen.push(id.clone(), ());
                                proof {
                                    assert forall|s: int|
                                        0 <= s < seen.keys().len() implies holds_some(
                                        self@,
                                        done,
                                        #[trigger] seen.keys()[s],
                                    ) || listed.push(id@).contains(seen.keys()[s]) by {
                                        if s < known.len() {
                                            assert(seen.keys()[s] == known[s]);
                                        }
                                    }
                                }
                            },
                        }
                        proof {
                            assert forall|x: Seq<char>|
                                (holds_some(self@, done, x) || listed.push(id@).contains(
                                    x,
                                )) implies #[trigger] seen.keys().contains(x) by {
                                vstd::seq_lib::lemma_seq_contains_after_push(known, id@, x);
                                if x != id@ {
                                    assert(known.contains(x));
                                }
                            }
                        }
                        j += 1;
                    }
                    proof {
                        assert(ids.keys().take(m as int) =~= ids.keys());
                        assert forall|x: Seq<char>| #[trigger]
                            holds_some(self@, done.push(term@), x) implies seen.keys().contains(
                            x,
                        ) by {
                            assert(ids.key_set().contains(x) <==> ids.keys().contains(x));
                        }
                        assert forall|s: int| 0 <= s < seen.keys().len() implies holds_some(
                            self@,
                            done.push(term@),
                            #[trigger] seen.keys()[s],
                        ) by {
                            let x = seen.keys()[s];
                            assert(ids.key_set().contains(x) <==> ids.keys().contains(x));
                        }
                    }
                },
                None => {
                    assert(postings(self@, term@) =~= Set::<Seq<char>>::empty());
                    assert forall|x: Seq<char>| #[trigger]
                        holds_some(self@, done.push(term@), x) implies seen.keys().contains(
                        x,
                    ) by {
                        assert(holds_some(self@, done, x));
                    }
                },
            }
            k += 1;
        }
        proof {
            assert(terms.take(n as int) =~= terms);
        }
        seen
    }

    /// What the terms of `row` add to the score of the stored document
    /// `document`, whose id is `id`, given the inverse document frequency of
    /// each term.
    fn contributions_to(
        &self,
        row: &TermFrequencyRow,
        idfs: &Vec<Ratio>,
        document: &Document,
        Ghost(id): Ghost<Seq<char>>,
    ) -> (cs: Vec<Contribution>)
        requires
            self.wf(),
            row.wf(),
            document.wf(),
            self@.contains_key(id),
            self@[id] == document@,
            idfs.len() == row.distinct().len(),
            forall|k: int|
                0 <= k < idfs.len() ==> (#[trigger] idfs[k]).parts() == idf_parts(
                    self@.dom().len(),
                    postings(self@, row.distinct()[k]).len(),
                ),
        ensures
            are_contributions(cs@, self@, row.distinct(), id),
    {
        let ghost terms = row.distinct();
        let ghost held = |t: Seq<char>| self@[id].terms.count(t) > 0;
        let frequencies = document.frequencies();
        let total = frequencies.total();
        let mut cs: Vec<Contribution> = Vec::new();
        let n = row.distinct_len();
        let mut k: usize = 0;
        proof {
            assert(terms.take(0) =~= Seq::<Seq<char>>::empty());
            Seq::<Seq<char>>::empty().lemma_filter_len(held);
        }
        while k < n
            invariant
                self.wf(),
                row.wf(),
                frequencies.wf(),
                frequencies@ == self@[id].terms,
                total == self@[id].terms.len(),
                terms == row.distinct(),
                held == |t: Seq<char>| self@[id].terms.count(t) > 0,
                k <= n,
                n == terms.len(),
                idfs.len() == n,
                forall|k: int|
                    0 <= k < idfs.len() ==> (#[trigger] idfs[k]).parts() == idf_parts(
                        self@.dom().len(),
                        postings(self@, terms[k]).len(),
                    ),
                cs@.len() == terms.take(k as int).filter(held).len(),
                forall|i: int|
                    0 <= i < cs@.len() ==> is_contribution(
                        #[trigger] cs@[i],
                        self@,
                        terms.take(k as int).filter(held)[i],
                        id,
                    ),
            decreases n - k,
        {
            let term = row.term_at(k);
            proof {
                assert(terms.take(k + 1) =~= terms.take(k as int).push(term@));
                terms.take(k as int).lemma_filter_push(term@, held);
            }
            let count = frequencies.count(term.as_str());
            if count > 0 {
                cs.push(Contribution { tf: term_frequency(count, total), idf: idfs[k] });
            }
            k += 1;
        }
        proof {
            assert(terms.take(n as int) =~= terms);
        }
        cs
    }

    /// Answers a query that has already been normalized and cut: finds every
    /// document that holds at least one of the query's terms and gives, for
    /// each, what each of its query terms adds to its score. Blank tokens are
    /// dropped and a repeated token counts once. A document that holds none of
    /// the terms is left out, so an empty corpus, a query without terms and a
    /// query of unknown terms all give the empty answer.
    pub fn search_tokens(&self, tokens: &Vec<String>) -> (candidates: Vec<Candidate>)
        requires
            self.wf(),
        ensures
            answers(candidates@, self@, query_terms(tokens.deep_view())),
            self@.dom().len() == 0 ==> candidates@.len() == 0,
    {
        let kept = discard_blank(tokens);
        let row = TermFrequencyRow::from_tokens(&kept);
        let ghost terms = row.distinct();
        let n = row.distinct_len();
        let doc_count = self.doc_count();
        let mut idfs: Vec<Ratio> = Vec::new();
        let mut k: usize = 0;
        while k < n
            invariant
                self.wf(),
                row.wf(),
                terms == row.distinct(),
                doc_count == self@.dom().len(),
                k <= n,
                n == terms.len(),
                idfs.len() == k,
                forall|i: int|
                    0 <= i < idfs.len() ==> (#[trigger] idfs[i]).parts() == idf_parts(
                        self@.dom().len(),
                        postings(self@, terms[i]).len(),
                    ),
            decreases n - k,
        {
            let frequency = self.document_frequency(row.term_at(k).as_str());
            idfs.push(inverse_document_frequency(doc_count, frequency));
            k += 1;
        }
        let seen = self.matching_documents(&row);
        let mut candidates: Vec<Candidate> = Vec::new();
        let m = seen.len();
        let mut s: usize = 0;
        while s < m
            invariant
                self.wf(),
                row.wf(),
                seen.wf(),
                terms == row.distinct(),
                s <= m,
                m == seen.keys().len(),
                idfs.len() == terms.len(),
                forall|i: int|
                    0 <= i < idfs.len() ==> (#[trigger] idfs[i]).parts() == idf_parts(
                        self@.dom().len(),
                        postings(self@, terms[i]).len(),
                    ),
                forall|i: int|
                    0 <= i < seen.keys().len() ==> holds_some(
                        self@,
                        terms,
                        #[trigger] seen.keys()[i],
                    ),
                candidates.len() == s,
                forall|i: int|
                    0 <= i < s ==> (#[trigger] candidates[i]).doc_id@ == seen.keys()[i]
                        && are_contributions(
                        candidates[i].contributions@,
                        self@,
                        terms,
                        seen.keys()[i],
                    ),
            decreases m - s,
        {
            let id = seen.key_at(s);
            match self.document(id.as_str()) {
                Some(document) => {
                    let contributions = self.contributions_to(&row, &idfs, document, Ghost(id@));
                    candidates.push(Candidate { doc_id: id.clone(), contributions });
                },
                None => {
                    proof {
                        assert(holds_some(self@, terms, seen.keys()[s as int]));
                        assert(false);
                    }
                },
            }
            s += 1;
        }
        proof {
            self.lemma_corpus();
            assert forall|id: Seq<char>| #[trigger] holds_some(self@, terms, id) implies exists|
                i: int,
            |
                0 <= i < candidates.len() && (#[trigger] candidates[i]).doc_id@ == id by {
                let i = seen.keys().index_of(id);
                assert(candidates[i].doc_id@ == id);
            }
            if self@.dom().len() == 0 {
                lemma_empty_corpus_has_no_candidates(candidates@, self@, terms);
            }
        }
        candidates
    }

    /// Normalizes `query`, cuts it with the engine's segmenter and answers it
    /// as `search_tokens` does, for the tokens that the segmenter gave: for
    /// maximum forward matching the one segmentation of the normalized query.
    pub fn search(&self, query: String) -> (candidates: Vec<Candidate>)
        requires
            self.wf(),
        ensures
            exists|tokens: Seq<Seq<char>>|
                self.segmenter().yields(normalized(query@), tokens) && answers(
                    candidates@,
                    self@,
                    query_terms(tokens),
                ),
            self@.dom().len() == 0 ==> candidates@.len() == 0,
    {
        let normalized_query = preprocess_text(query.as_str());
        let tokens = self.segmenter.segment(normalized_query.as_str());
        proof {
            assert(self.segmenter().yields(normalized(query@), tokens.deep_view()));
        }
        self.search_tokens(&tokens)
    }

    /// Reserved for an excerpt of a document around the terms of a query.
    /// It has no defined result yet and leaves the engine as it is.
    pub fn get_text_preview(&self, doc_id: String, query: String) {
    }
}

} // verus!
