//! The numbers behind a TF-IDF score, and the ranking of scored documents.
//!
//! A score is a sum of products `tf * idf` with `idf` a logarithm. This crate
//! does all of that in whole numbers: it hands out each term frequency as a
//! fraction and each inverse document frequency as the fraction whose natural
//! logarithm it is. Whoever takes the logarithm hands back, for each
//! document, a key that orders like the score, and the ranking is done here.

use crate::text::chars_of;
use vstd::multiset::Multiset;
use vstd::prelude::*;

verus! {

broadcast use {
    vstd::seq_lib::to_multiset_build,
    vstd::seq_lib::to_multiset_insert,
    vstd::multiset::group_multiset_axioms,
};

/// A fraction of two natural numbers.
#[derive(Clone, Copy, Debug, PartialEq, Eq, Structural)]
pub struct Ratio {
    pub numerator: u128,
    pub denominator: u128,
}

impl Ratio {
    /// Numerator and denominator.
    pub open spec fn parts(self) -> (int, int) {
        (self.numerator as int, self.denominator as int)
    }
}

/// The term frequency of a term that occurs `term_count` times among the
/// `token_total` tokens of a document: `term_count / token_total`, and `0 / 1`
/// where the term does not occur or the document has no tokens.
pub open spec fn tf_parts(term_count: nat, token_total: nat) -> (int, int) {
    if term_count == 0 || token_total == 0 {
        (0, 1)
    } else {
        (term_count as int, token_total as int)
    }
}

/// The fraction whose natural logarithm is the inverse document frequency of
/// a term held by `document_frequency` of `document_count` documents:
/// `(1 + document_count) / (1 + document_frequency)`, and `1 / 1`, whose
/// logarithm is 0, for a term that no document holds.
pub open spec fn idf_parts(document_count: nat, document_frequency: nat) -> (int, int) {
    if document_frequency == 0 {
        (1, 1)
    } else {
        (1 + document_count as int, 1 + document_frequency as int)
    }
}

/// For a fixed number of documents, the fraction under the logarithm does
/// not grow when more documents hold the term, so neither does the inverse
/// document frequency.
pub proof fn lemma_idf_not_increasing(document_count: nat, fewer: nat, more: nat)
    requires
        1 <= fewer <= more,
    ensures
        idf_parts(document_count, more).0 * idf_parts(document_count, fewer).1 <= idf_parts(
            document_count,
            fewer,
        ).0 * idf_parts(document_count, more).1,
{
    assert((1 + document_count) * (1 + fewer) <= (1 + document_count) * (1 + more))
        by (nonlinear_arith)
        requires
            fewer <= more,
    ;
}

/// A term that is held by some but not by more documents than there are has
/// a fraction of at least 1 under the logarithm, so its inverse document
/// frequency is not negative.
pub proof fn lemma_idf_not_negative(document_count: nat, document_frequency: nat)
    requires
        document_frequency <= document_count,
    ensures
        idf_parts(document_count, document_frequency).0 >= idf_parts(
            document_count,
            document_frequency,
        ).1 > 0,
{
}

/// The term frequency as a fraction.
pub fn term_frequency(term_count: usize, token_total: usize) -> (tf: Ratio)
    ensures
        tf.parts() == tf_parts(term_count as nat, token_total as nat),
{
    if term_count == 0 || token_total == 0 {
        Ratio { numerator: 0, denominator: 1 }
    } else {
        Ratio { numerator: term_count as u128, denominator: token_total as u128 }
    }
}

/// The fraction whose natural logarithm is the inverse document frequency.
pub fn inverse_document_frequency(document_count: usize, document_frequency: usize) -> (idf: Ratio)
    ensures
        idf.parts() == idf_parts(document_count as nat, document_frequency as nat),
{
    if document_frequency == 0 {
        Ratio { numerator: 1, denominator: 1 }
    } else {
        Ratio {
            numerator: 1 + document_count as u128,
            denominator: 1 + document_frequency as u128,
        }
    }
}

/// What one query term adds to the score of one document: `tf * ln(idf)`.
#[derive(Clone, Copy, Debug, PartialEq, Eq, Structural)]
pub struct Contribution {
    /// The term frequency.
    pub tf: Ratio,
    /// The fraction whose natural logarithm is the inverse document frequency.
    pub idf: Ratio,
}

/// A document that holds at least one term of a query, with the
/// contributions of the query terms that it holds.
#[derive(Debug)]
pub struct Candidate {
    pub doc_id: String,
    pub contributions: Vec<Contribution>,
}

/// A document with a key that stands for its score: a document with a higher
/// score has a higher key.
#[derive(Debug)]
pub struct ScoredDocument {
    pub doc_id: String,
    pub score_key: u64,
}

/// Whether `a` comes before `b` or is `b`, in the order of dictionaries, with
/// characters compared by code point.
pub open spec fn lex_le(a: Seq<char>, b: Seq<char>) -> bool
    decreases a.len(),
{
    if a.len() == 0 {
        true
    } else if b.len() == 0 {
        false
    } else if a[0] != b[0] {
        (a[0] as u32) < (b[0] as u32)
    } else {
        lex_le(a.drop_first(), b.drop_first())
    }
}

/// Of two strings, one comes before the other or they are the same.
pub proof fn lemma_lex_le_total(a: Seq<char>, b: Seq<char>)
    ensures
        lex_le(a, b) || lex_le(b, a),
    decreases a.len(),
{
    if a.len() > 0 && b.len() > 0 {
        if a[0] == b[0] {
            lemma_lex_le_total(a.drop_first(), b.drop_first());
        } else {
            vstd::utf8::char_u32_cast(a[0], a[0] as u32);
            vstd::utf8::char_u32_cast(b[0], b[0] as u32);
        }
    }
}

/// The order of dictionaries is transitive.
pub proof fn lemma_lex_le_transitive(a: Seq<char>, b: Seq<char>, c: Seq<char>)
    requires
        lex_le(a, b),
        lex_le(b, c),
    ensures
        lex_le(a, c),
    decreases a.len(),
{
    if a.len() > 0 && b.len() > 0 && c.len() > 0 && a[0] == b[0] && b[0] == c[0] {
        lemma_lex_le_transitive(a.drop_first(), b.drop_first(), c.drop_first());
    }
}

/// Two strings that each come before or are the other are the same.
pub proof fn lemma_lex_le_antisymmetric(a: Seq<char>, b: Seq<char>)
    requires
        lex_le(a, b),
        lex_le(b, a),
    ensures
        a == b,
    decreases a.len(),
{
    if a.len() > 0 && b.len() > 0 {
        lemma_lex_le_antisymmetric(a.drop_first(), b.drop_first());
        assert(a =~= seq![a[0]] + a.drop_first());
        assert(b =~= seq![b[0]] + b.drop_first());
    } else {
        assert(a =~= b);
    }
}

/// Whether `a` comes before `b` or is `b`, in the order of dictionaries.
pub fn str_le(a: &str, b: &str) -> (le: bool)
    ensures
        le == lex_le(a@, b@),
{
    let x = chars_of(a);
    let y = chars_of(b);
    let mut i: usize = 0;
    proof {
        assert(x@.skip(0) =~= x@);
        assert(y@.skip(0) =~= y@);
    }
    while i < x.len() && i < y.len()
        invariant
            x@ == a@,
            y@ == b@,
            i <= x.len(),
            i <= y.len(),
            lex_le(a@, b@) == lex_le(x@.skip(i as int), y@.skip(i as int)),
        decreases x.len() - i,
    {
        proof {
            assert(x@.skip(i as int).drop_first() =~= x@.skip(i + 1));
            assert(y@.skip(i as int).drop_first() =~= y@.skip(i + 1));
        }
        if x[i] != y[i] {
            return (x[i] as u32) < (y[i] as u32);
        }
        i += 1;
    }
    i >= x.len()
}

/// Whether `a` stands before `b` in a ranking, or in the same place: a higher
/// key first, and among equal keys the smaller document id first.
pub open spec fn ranks_before(a: ScoredDocument, b: ScoredDocument) -> bool {
    a.score_key > b.score_key || (a.score_key == b.score_key && lex_le(a.doc_id@, b.doc_id@))
}

/// Whether `a` stands before `b` in a ranking, or in the same place.
pub fn document_ranks_before(a: &ScoredDocument, b: &ScoredDocument) -> (before: bool)
    ensures
        before == ranks_before(*a, *b),
{
    a.score_key > b.score_key || (a.score_key == b.score_key && str_le(
        a.doc_id.as_str(),
        b.doc_id.as_str(),
    ))
}

/// Whether `documents` are in ranking order: by descending key, and by
/// ascending document id among equal keys.
pub open spec fn is_ranked(documents: Seq<ScoredDocument>) -> bool {
    forall|i: int, j: int|
        0 <= i < j < documents.len() ==> ranks_before(#[trigger] documents[i], #[trigger] documents[j])
}

/// The empty sequence holds nothing.
proof fn lemma_empty_to_multiset<T>()
    ensures
        Seq::<T>::empty().to_multiset() == Multiset::<T>::empty(),
{
    vstd::seq_lib::to_multiset_len(Seq::<T>::empty());
    vstd::multiset::lemma_multiset_empty_len(Seq::<T>::empty().to_multiset());
}

/// Puts scored documents in ranking order: the highest key first, equal keys
/// by ascending document id. The result holds the documents that were handed
/// in, each as often as it was.
pub fn rank(scored: Vec<ScoredDocument>) -> (ranked: Vec<ScoredDocument>)
    ensures
        is_ranked(ranked@),
        ranked@.to_multiset() == scored@.to_multiset(),
        ranked@.len() == scored@.len(),
{
    let mut rest = scored;
    let mut ranked: Vec<ScoredDocument> = Vec::new();
    proof {
        lemma_empty_to_multiset::<ScoredDocument>();
        assert(ranked@ =~= Seq::<ScoredDocument>::empty());
        assert(ranked@.to_multiset().add(rest@.to_multiset()) =~= scored@.to_multiset());
    }
    while rest.len() > 0
        invariant
            is_ranked(ranked@),
            ranked@.to_multiset().add(rest@.to_multiset()) == scored@.to_multiset(),
        decreases rest.len(),
    {
        let ghost waiting = rest@;
        let ghost placed = ranked@;
        let item = rest.pop().unwrap();
        proof {
            assert(waiting =~= rest@.push(item));
        }
        let mut p: usize = ranked.len();
        while p > 0 && !document_ranks_before(&ranked[p - 1], &item)
            invariant
                p <= ranked.len(),
                ranked@ == placed,
                forall|j: int| p <= j < ranked.len() ==> ranks_before(item, #[trigger] ranked[j]),
            decreases p,
        {
            proof {
                lemma_lex_le_total(ranked[p - 1].doc_id@, item.doc_id@);
            }
            p -= 1;
        }
        ranked.insert(p, item);
        proof {
            assert forall|i: int, j: int| 0 <= i < j < ranked.len() implies ranks_before(
                #[trigger] ranked[i],
                #[trigger] ranked[j],
            ) by {
                if j == p && i < p - 1 {
                    assert(ranks_before(placed[i], placed[p - 1]));
                    if placed[i].score_key == item.score_key {
                        lemma_lex_le_transitive(
                            placed[i].doc_id@,
                            placed[p - 1].doc_id@,
                            item.doc_id@,
                        );
                    }
                } else if i < p && j > p {
                    assert(ranks_before(placed[i], placed[j - 1]));
                } else if i > p {
                    assert(ranks_before(placed[i - 1], placed[j - 1]));
                }
            }
            assert(ranked@.to_multiset().add(rest@.to_multiset()) =~= scored@.to_multiset());
        }
    }
    proof {
        lemma_empty_to_multiset::<ScoredDocument>();
        assert(rest@ =~= Seq::<ScoredDocument>::empty());
        assert(ranked@.to_multiset() =~= scored@.to_multiset());
        vstd::seq_lib::to_multiset_len(ranked@);
        vstd::seq_lib::to_multiset_len(scored@);
    }
    ranked
}

} // verus!
