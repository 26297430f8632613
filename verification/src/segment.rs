//! Segmentation: cutting text into the terms that are indexed.
//!
//! The crate's own segmenter is maximum forward matching against a
//! dictionary, longest word first. All its positions count characters, never
//! bytes, so a multi-byte character is never split. The statistical segmenter
//! of `jieba_rs` can take its place; the index does not depend on which of the
//! two produced the tokens.

use crate::dictionary::Dictionary;
use crate::text::{chars_of, string_of};
use jieba_rs::Jieba;
use vstd::prelude::*;

verus! {

/// The segmenter of `jieba_rs`. Its dictionary and tables are not modelled.
#[verifier::external_type_specification]
#[verifier::external_body]
pub struct ExJieba(jieba_rs::Jieba);

/// `jieba_rs::Jieba::new` builds a segmenter from the dictionary embedded in
/// that crate. Nothing is claimed about it.
pub assume_specification[ Jieba::new ]() -> Jieba
;

/// `jieba_rs::Jieba::cut_for_search` cuts a sentence in search mode: the words
/// of the sentence and, for long words, the shorter dictionary words inside
/// them. Nothing is claimed about the pieces.
pub assume_specification<'a>[ Jieba::cut_for_search ](
    jieba: &Jieba,
    sentence: &'a str,
    hmm: bool,
) -> Vec<&'a str>
;

/// The longest word that may be tried at one position: `max_word_length`, or 1
/// where that is not positive.
pub open spec fn window(max_word_length: int) -> int {
    if max_word_length < 1 {
        1
    } else {
        max_word_length
    }
}

/// The end of the longest piece `text[start..e]` with `start < e <= end` that
/// is one of `words`, or `start` where there is none.
pub open spec fn longest_match(text: Seq<char>, words: Set<Seq<char>>, start: int, end: int) -> int
    decreases end - start,
{
    if end <= start {
        start
    } else if words.contains(text.subrange(start, end)) {
        end
    } else {
        longest_match(text, words, start, end - 1)
    }
}

/// Where the token that starts at `start` ends: after the longest dictionary
/// word within the window, or after one character where no word matches.
pub open spec fn token_end(
    text: Seq<char>,
    words: Set<Seq<char>>,
    max_word_length: int,
    start: int,
) -> int {
    let limit = if start + window(max_word_length) < text.len() {
        start + window(max_word_length)
    } else {
        text.len() as int
    };
    let end = longest_match(text, words, start, limit);
    if end > start {
        end
    } else {
        start + 1
    }
}

/// The tokens of `text[start..]`.
pub open spec fn segmentation_from(
    text: Seq<char>,
    words: Set<Seq<char>>,
    max_word_length: int,
    start: int,
) -> Seq<Seq<char>>
    decreases text.len() - start,
    via segmentation_from_terminates
{
    if 0 <= start < text.len() {
        let end = token_end(text, words, max_word_length, start);
        seq![text.subrange(start, end)] + segmentation_from(text, words, max_word_length, end)
    } else {
        Seq::empty()
    }
}

#[via_fn]
proof fn segmentation_from_terminates(
    text: Seq<char>,
    words: Set<Seq<char>>,
    max_word_length: int,
    start: int,
) {
    if 0 <= start < text.len() {
        lemma_token_end_bounds(text, words, max_word_length, start);
    }
}

/// The tokens of `text` under maximum forward matching against `words`.
pub open spec fn segmentation(text: Seq<char>, words: Set<Seq<char>>, max_word_length: int) -> Seq<
    Seq<char>,
> {
    segmentation_from(text, words, max_word_length, 0)
}

/// One token for each character of `text`.
pub open spec fn single_characters(text: Seq<char>) -> Seq<Seq<char>> {
    Seq::new(text.len(), |i: int| seq![text[i]])
}

/// `longest_match` stays within `start..=end`, and above `start` it names a
/// dictionary word that no longer piece within the bound matches.
pub proof fn lemma_longest_match(text: Seq<char>, words: Set<Seq<char>>, start: int, end: int)
    requires
        0 <= start <= end <= text.len(),
    ensures
        start <= longest_match(text, words, start, end) <= end,
        longest_match(text, words, start, end) > start ==> words.contains(
            text.subrange(start, longest_match(text, words, start, end)),
        ),
        forall|e: int|
            longest_match(text, words, start, end) < e <= end ==> !words.contains(
                #[trigger] text.subrange(start, e),
            ),
    decreases end - start,
{
    if end > start && !words.contains(text.subrange(start, end)) {
        lemma_longest_match(text, words, start, end - 1);
    }
}

/// A token ends after its start and within the text.
pub proof fn lemma_token_end_bounds(
    text: Seq<char>,
    words: Set<Seq<char>>,
    max_word_length: int,
    start: int,
)
    requires
        0 <= start < text.len(),
    ensures
        start < token_end(text, words, max_word_length, start) <= text.len(),
        token_end(text, words, max_word_length, start) <= start + window(max_word_length),
{
    let limit = if start + window(max_word_length) < text.len() {
        start + window(max_word_length)
    } else {
        text.len() as int
    };
    lemma_longest_match(text, words, start, limit);
}

/// Joining the tokens of `text[start..]` gives `text[start..]` back.
pub proof fn lemma_segmentation_from_rebuilds(
    text: Seq<char>,
    words: Set<Seq<char>>,
    max_word_length: int,
    start: int,
)
    requires
        0 <= start <= text.len(),
    ensures
        segmentation_from(text, words, max_word_length, start).flatten() == text.subrange(
            start,
            text.len() as int,
        ),
    decreases text.len() - start,
{
    if start < text.len() {
        let end = token_end(text, words, max_word_length, start);
        lemma_token_end_bounds(text, words, max_word_length, start);
        lemma_segmentation_from_rebuilds(text, words, max_word_length, end);
        let head = seq![text.subrange(start, end)];
        let tail = segmentation_from(text, words, max_word_length, end);
        vstd::seq_lib::lemma_flatten_concat(head, tail);
        head.lemma_flatten_one_element();
        assert(text.subrange(start, end) + text.subrange(end, text.len() as int)
            =~= text.subrange(start, text.len() as int));
    } else {
        assert(text.subrange(start, text.len() as int) =~= Seq::<char>::empty());
    }
}

/// Joining the tokens of a text, without separators, gives the text back,
/// whatever the dictionary and the longest word length.
pub proof fn lemma_segmentation_rebuilds_text(
    text: Seq<char>,
    words: Set<Seq<char>>,
    max_word_length: int,
)
    ensures
        segmentation(text, words, max_word_length).flatten() == text,
{
    lemma_segmentation_from_rebuilds(text, words, max_word_length, 0);
    assert(text.subrange(0, text.len() as int) =~= text);
}

/// With a longest word length of at most 1, the tokens of `text[start..]` are
/// its single characters.
pub proof fn lemma_short_window_from(
    text: Seq<char>,
    words: Set<Seq<char>>,
    max_word_length: int,
    start: int,
)
    requires
        max_word_length <= 1,
        0 <= start <= text.len(),
    ensures
        segmentation_from(text, words, max_word_length, start) == single_characters(
            text,
        ).subrange(start, text.len() as int),
    decreases text.len() - start,
{
    if start < text.len() {
        lemma_token_end_bounds(text, words, max_word_length, start);
        lemma_short_window_from(text, words, max_word_length, start + 1);
        assert(text.subrange(start, start + 1) =~= seq![text[start]]);
        assert(seq![text.subrange(start, start + 1)] + single_characters(text).subrange(
            start + 1,
            text.len() as int,
        ) =~= single_characters(text).subrange(start, text.len() as int));
    } else {
        assert(single_characters(text).subrange(start, text.len() as int) =~= Seq::<
            Seq<char>,
        >::empty());
    }
}

/// A longest word length of 1, of 0 or below cuts the text into its single
/// characters, so every such length gives what 1 gives.
pub proof fn lemma_short_window_is_single_characters(
    text: Seq<char>,
    words: Set<Seq<char>>,
    max_word_length: int,
)
    requires
        max_word_length <= 1,
    ensures
        segmentation(text, words, max_word_length) == single_characters(text),
        segmentation(text, words, max_word_length) == segmentation(text, words, 1),
{
    lemma_short_window_from(text, words, max_word_length, 0);
    lemma_short_window_from(text, words, 1, 0);
    assert(single_characters(text).subrange(0, text.len() as int) =~= single_characters(text));
}

/// Cuts `text` into tokens by maximum forward matching: at each position the
/// longest dictionary word of at most `max_word_length` characters, or a
/// single character where no word matches. A `max_word_length` of 0 counts
/// as 1.
pub fn max_forward_matching(text: &str, dictionary: &Dictionary, max_word_length: usize) -> (tokens:
    Vec<String>)
    ensures
        tokens.deep_view() == segmentation(text@, dictionary.words(), max_word_length as int),
        tokens.deep_view().flatten() == text@,
{
    let chars = chars_of(text);
    let n = chars.len();
    let reach: usize = if max_word_length < 1 {
        1
    } else {
        max_word_length
    };
    let mut tokens: Vec<String> = Vec::new();
    let mut start: usize = 0;
    while start < n
        invariant
            n == chars.len(),
            chars@ == text@,
            reach == window(max_word_length as int),
            start <= n,
            tokens.deep_view() + segmentation_from(
                text@,
                dictionary.words(),
                max_word_length as int,
                start as int,
            ) == segmentation(text@, dictionary.words(), max_word_length as int),
        decreases n - start,
    {
        let limit: usize = if reach < n - start {
            start + reach
        } else {
            n
        };
        let mut end: usize = limit;
        let mut found: Option<String> = None;
        while end > start && found.is_none()
            invariant
                n == chars.len(),
                chars@ == text@,
                start < n,
                start <= end <= limit <= n,
                longest_match(text@, dictionary.words(), start as int, limit as int) == (
                if found.is_some() {
                    end as int
                } else {
                    longest_match(text@, dictionary.words(), start as int, end as int)
                }),
                found matches Some(w) ==> end > start && w@ == text@.subrange(
                    start as int,
                    end as int,
                ),
            decreases end - start + (if found.is_none() { 1int } else { 0int }),
        {
            let word = string_of(&chars, start, end);
            if dictionary.contains(word.as_str()) {
                found = Some(word);
            } else {
                end -= 1;
            }
        }
        let ghost before = tokens.deep_view();
        let token = match found {
            Some(word) => word,
            None => {
                end = start + 1;
                string_of(&chars, start, end)
            },
        };
        assert(end == token_end(text@, dictionary.words(), max_word_length as int, start as int));
        tokens.push(token);
        assert(tokens.deep_view() =~= before + seq![text@.subrange(start as int, end as int)]);
        start = end;
    }
    proof {
        lemma_segmentation_rebuilds_text(text@, dictionary.words(), max_word_length as int);
    }
    tokens
}

/// A way of cutting text into tokens.
pub enum Segmenter {
    /// Maximum forward matching against a dictionary, with words of at most
    /// `max_word_length` characters.
    MaxMatch { dictionary: Dictionary, max_word_length: usize },
    /// The segmenter of `jieba_rs` in search mode, without its hidden Markov
    /// model.
    Linguistic(Jieba),
}

impl Segmenter {
    /// Whether `tokens` can be what this segmenter makes of `text`. For
    /// maximum forward matching there is exactly one such sequence; of the
    /// outside segmenter nothing is known.
    pub open spec fn yields(&self, text: Seq<char>, tokens: Seq<Seq<char>>) -> bool {
        match self {
            Segmenter::MaxMatch { dictionary, max_word_length } => tokens == segmentation(
                text,
                dictionary.words(),
                *max_word_length as int,
            ),
            Segmenter::Linguistic(_) => true,
        }
    }

    /// The segmenter that matches against `dictionary`.
    pub fn max_match(dictionary: Dictionary, max_word_length: usize) -> (segmenter: Segmenter)
        ensures
            segmenter == (Segmenter::MaxMatch { dictionary, max_word_length }),
    {
        Segmenter::MaxMatch { dictionary, max_word_length }
    }

    /// The segmenter of `jieba_rs` with its embedded dictionary.
    pub fn linguistic() -> (segmenter: Segmenter)
        ensures
            segmenter is Linguistic,
    {
        Segmenter::Linguistic(Jieba::new())
    }

    /// Cuts `text` into tokens.
    pub fn segment(&self, text: &str) -> (tokens: Vec<String>)
        ensures
            self.yields(text@, tokens.deep_view()),
    {
        match self {
            Segmenter::MaxMatch { dictionary, max_word_length } => max_forward_matching(
                text,
                dictionary,
                *max_word_length,
            ),
            Segmenter::Linguistic(jieba) => {
                let pieces = jieba.cut_for_search(text, false);
                let mut tokens: Vec<String> = Vec::new();
                let mut i: usize = 0;
                while i < pieces.len()
                    invariant
                        i <= pieces.len(),
                    decreases pieces.len() - i,
                {
                    tokens.push(pieces[i].to_string());
                    i += 1;
                }
                tokens
            },
        }
    }
}

} // verus!
