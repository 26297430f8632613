//! Character-level helpers shared by the normalizer, the dictionary loader and
//! the segmenter.

use vstd::prelude::*;

verus! {

/// `String::push` appends one character to the end of the string.
pub assume_specification[ String::push ](s: &mut String, ch: char)
    ensures
        final(s)@ == old(s)@.push(ch),
;

/// The characters of `text`, in order.
pub fn chars_of(text: &str) -> (chars: Vec<char>)
    ensures
        chars@ == text@,
{
    let mut chars: Vec<char> = Vec::new();
    for c in it: text.chars()
        invariant
            chars@ == it.seq().take(it.index()),
            it.seq() == text@,
    {
        chars.push(c);
    }
    chars
}

/// The string made of `chars[from..to]`.
pub fn string_of(chars: &Vec<char>, from: usize, to: usize) -> (s: String)
    requires
        from <= to <= chars.len(),
    ensures
        s@ == chars@.subrange(from as int, to as int),
{
    let mut s = String::new();
    let mut i: usize = from;
    while i < to
        invariant
            from <= i <= to <= chars.len(),
            s@ == chars@.subrange(from as int, i as int),
        decreases to - i,
    {
        s.push(chars[i]);
        i += 1;
    }
    s
}

/// Whether `c` is white space: one of the 25 characters with the Unicode
/// property White_Space.
pub open spec fn is_whitespace(c: char) -> bool {
    let n = c as u32;
    ||| 0x09 <= n <= 0x0D
    ||| n == 0x20
    ||| n == 0x85
    ||| n == 0xA0
    ||| n == 0x1680
    ||| 0x2000 <= n <= 0x200A
    ||| n == 0x2028
    ||| n == 0x2029
    ||| n == 0x202F
    ||| n == 0x205F
    ||| n == 0x3000
}

/// Whether `c` is white space.
pub fn char_is_whitespace(c: char) -> (b: bool)
    ensures
        b == is_whitespace(c),
{
    let n = c as u32;
    (0x09 <= n && n <= 0x0D) || n == 0x20 || n == 0x85 || n == 0xA0 || n == 0x1680 || (0x2000 <= n
        && n <= 0x200A) || n == 0x2028 || n == 0x2029 || n == 0x202F || n == 0x205F || n == 0x3000
}

/// Whether `token` holds nothing but white space.
pub open spec fn is_blank(token: Seq<char>) -> bool {
    forall|i: int| 0 <= i < token.len() ==> is_whitespace(#[trigger] token[i])
}

/// Whether `token` holds nothing but white space.
pub fn token_is_blank(token: &str) -> (b: bool)
    ensures
        b == is_blank(token@),
{
    let chars = chars_of(token);
    let mut i: usize = 0;
    while i < chars.len()
        invariant
            i <= chars.len(),
            chars@ == token@,
            forall|j: int| 0 <= j < i ==> is_whitespace(#[trigger] token@[j]),
        decreases chars.len() - i,
    {
        if !char_is_whitespace(chars[i]) {
            return false;
        }
        i += 1;
    }
    true
}

/// The tokens that carry something: `tokens` without the blank ones, in order.
pub open spec fn significant(tokens: Seq<Seq<char>>) -> Seq<Seq<char>> {
    tokens.filter(|t: Seq<char>| !is_blank(t))
}

/// Copies the tokens that are not blank, in order.
pub fn discard_blank(tokens: &Vec<String>) -> (kept: Vec<String>)
    ensures
        kept.deep_view() == significant(tokens.deep_view()),
{
    let mut kept: Vec<String> = Vec::new();
    let mut i: usize = 0;
    let ghost all = tokens.deep_view();
    proof {
        assert(all.take(0) =~= Seq::<Seq<char>>::empty());
        assert(kept.deep_view() =~= Seq::<Seq<char>>::empty());
        assert(significant(Seq::<Seq<char>>::empty()) =~= Seq::<Seq<char>>::empty()) by {
            Seq::<Seq<char>>::empty().lemma_filter_len(|t: Seq<char>| !is_blank(t));
        }
    }
    while i < tokens.len()
        invariant
            i <= tokens.len(),
            all == tokens.deep_view(),
            kept.deep_view() == significant(all.take(i as int)),
        decreases tokens.len() - i,
    {
        let ghost before = kept.deep_view();
        proof {
            assert(all.take(i + 1) =~= all.take(i as int).push(all[i as int]));
            all.take(i as int).lemma_filter_push(all[i as int], |t: Seq<char>| !is_blank(t));
        }
        if !token_is_blank(tokens[i].as_str()) {
            kept.push(tokens[i].clone());
            assert(kept.deep_view() =~= before.push(all[i as int]));
        }
        i += 1;
    }
    proof {
        assert(all.take(i as int) =~= all);
    }
    kept
}

/// The first position at or after `from` whose character is white space
/// (`blank` false) or is not (`blank` true); the length of `s` where there is
/// no such position.
pub open spec fn skip(s: Seq<char>, from: int, blank: bool) -> int
    decreases s.len() - from,
{
    if from < 0 || from >= s.len() {
        s.len() as int
    } else if is_whitespace(s[from]) != blank {
        from
    } else {
        skip(s, from + 1, blank)
    }
}

/// `skip` does not go back, and stops within the text.
pub proof fn lemma_skip_bounds(s: Seq<char>, from: int, blank: bool)
    requires
        0 <= from <= s.len(),
    ensures
        from <= skip(s, from, blank) <= s.len(),
        skip(s, from, blank) < s.len() ==> is_whitespace(s[skip(s, from, blank)]) != blank,
        forall|i: int| from <= i < skip(s, from, blank) ==> is_whitespace(#[trigger] s[i]) == blank,
    decreases s.len() - from,
{
    if from < s.len() && is_whitespace(s[from]) == blank {
        lemma_skip_bounds(s, from + 1, blank);
    }
}

/// The fields of `s[from..]`: its maximal runs of characters that are not
/// white space, in order.
pub open spec fn fields_from(s: Seq<char>, from: int) -> Seq<Seq<char>>
    decreases s.len() - from,
    via fields_from_terminates
{
    let start = skip(s, from, true);
    if 0 <= from && start < s.len() {
        let end = skip(s, start, false);
        seq![s.subrange(start, end)] + fields_from(s, end)
    } else {
        Seq::empty()
    }
}

#[via_fn]
proof fn fields_from_terminates(s: Seq<char>, from: int) {
    if 0 <= from <= s.len() {
        lemma_skip_bounds(s, from, true);
        let start = skip(s, from, true);
        if start < s.len() {
            lemma_skip_bounds(s, start, false);
        }
    }
}

/// The fields of `s`: what is left when `s` is split at white space.
pub open spec fn fields(s: Seq<char>) -> Seq<Seq<char>> {
    fields_from(s, 0)
}

/// Splits `line` at white space.
pub fn split_fields(line: &str) -> (parts: Vec<String>)
    ensures
        parts.deep_view() == fields(line@),
{
    let chars = chars_of(line);
    let n = chars.len();
    let mut parts: Vec<String> = Vec::new();
    let mut from: usize = 0;
    proof {
        assert(parts.deep_view() =~= Seq::<Seq<char>>::empty());
    }
    loop
        invariant
            n == chars.len(),
            chars@ == line@,
            from <= n,
            parts.deep_view() + fields_from(line@, from as int) == fields(line@),
        ensures
            parts.deep_view() == fields(line@),
        decreases n - from,
    {
        let mut start: usize = from;
        while start < n && char_is_whitespace(chars[start])
            invariant
                n == chars.len(),
                chars@ == line@,
                from <= start <= n,
                skip(line@, from as int, true) == skip(line@, start as int, true),
            decreases n - start,
        {
            start += 1;
        }
        if start >= n {
            break;
        }
        let mut end: usize = start;
        while end < n && !char_is_whitespace(chars[end])
            invariant
                n == chars.len(),
                chars@ == line@,
                start <= end <= n,
                skip(line@, start as int, false) == skip(line@, end as int, false),
            decreases n - end,
        {
            end += 1;
        }
        let ghost before = parts.deep_view();
        parts.push(string_of(&chars, start, end));
        proof {
            assert(parts.deep_view() =~= before.push(line@.subrange(start as int, end as int)));
            assert(end > start);
        }
        from = end;
    }
    parts
}

} // verus!
