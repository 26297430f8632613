//! Text normalization: every character that is neither a CJK ideograph nor a
//! word character becomes a single space, so that punctuation separates words
//! without gluing its neighbours together.

use crate::text::chars_of;
use regex::Regex;
use vstd::prelude::*;

verus! {

/// The class of characters that count as noise: anything but the CJK
/// ideographs U+4E00 to U+9FA5, word characters and digits.
pub const NOISE_PATTERN: &'static str = "[^\\u4e00-\\u9fa5\\w\\d]";

/// Whether `regex::Regex::new` accepts `pattern`.
pub uninterp spec fn regex_compiles(pattern: Seq<char>) -> bool;

/// Whether the regular expression that `regex::Regex::new` compiles from
/// `pattern` has a match somewhere in `haystack`, as `regex::Regex::is_match`
/// reports it.
pub uninterp spec fn regex_is_match(pattern: Seq<char>, haystack: Seq<char>) -> bool;

/// Compiles `pattern` with `regex::Regex::new` and asks `regex::Regex::is_match`
/// about each character of `text`, taken alone as a haystack of one character.
/// Gives `None` exactly where the pattern is rejected; otherwise one answer
/// for each character, in order. Nothing is claimed about which characters a
/// pattern matches.
#[verifier::external_body]
fn match_each_char(pattern: &str, text: &str) -> (flags: Option<Vec<bool>>)
    ensures
        flags is Some <==> regex_compiles(pattern@),
        flags matches Some(f) ==> f@.len() == text@.len() && forall|i: int|
            0 <= i < f@.len() ==> #[trigger] f@[i] == regex_is_match(pattern@, seq![text@[i]]),
{
    let re = Regex::new(pattern).ok()?;
    let mut buf = [0u8; 4];
    Some(text.chars().map(|c| re.is_match(c.encode_utf8(&mut buf))).collect())
}

/// Whether `c` is noise. Where the noise class itself is rejected, no character is.
pub open spec fn is_noise(c: char) -> bool {
    regex_compiles(NOISE_PATTERN@) && regex_is_match(NOISE_PATTERN@, seq![c])
}

/// `text` with each noise character replaced by one space.
pub open spec fn normalized(text: Seq<char>) -> Seq<char> {
    text.map_values(
        |c: char|
            if is_noise(c) {
                ' '
            } else {
                c
            },
    )
}

/// Normalizing a second time changes nothing.
pub proof fn lemma_normalize_idempotent(text: Seq<char>)
    ensures
        normalized(normalized(text)) == normalized(text),
{
    assert(normalized(normalized(text)) =~= normalized(text));
}

/// Replaces every noise character of `text` by one space and keeps all other
/// characters, so the result has as many characters as `text`.
pub fn preprocess_text(text: &str) -> (out: String)
    ensures
        out@ == normalized(text@),
        out@.len() == text@.len(),
        normalized(out@) == out@,
{
    proof {
        lemma_normalize_idempotent(text@);
    }
    match match_each_char(NOISE_PATTERN, text) {
        Some(flags) => {
            let chars = chars_of(text);
            let mut out = String::new();
            let mut i: usize = 0;
            while i < chars.len()
                invariant
                    i <= chars.len(),
                    chars@ == text@,
                    flags.len() == chars.len(),
                    regex_compiles(NOISE_PATTERN@),
                    forall|k: int|
                        0 <= k < flags@.len() ==> #[trigger] flags@[k] == regex_is_match(
                            NOISE_PATTERN@,
                            seq![text@[k]],
                        ),
                    out@ == normalized(text@).take(i as int),
                decreases chars.len() - i,
            {
                if flags[i] {
                    out.push(' ');
                } else {
                    out.push(chars[i]);
                }
                i += 1;
            }
            out
        },
        None => {
            assert(normalized(text@) =~= text@);
            text.to_string()
        },
    }
}

} // verus!
