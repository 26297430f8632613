//! The weighted vocabulary that the dictionary segmenter matches against.
//!
//! Matching is by presence only: a word is either in the dictionary or not.
//! Weights are carried for ranking schemes built on top of this crate and are
//! never interpreted here, so they are stored as the bit pattern of an
//! IEEE-754 single-precision number.
//!
//! A user dictionary is a text of lines, each `word` or `word weight`. This
//! module splits the lines and applies them; reading the file and reading a
//! weight field as a decimal number are left to the caller, who hands over
//! each line together with the bit pattern that its weight field parsed to.

use crate::text::{fields, split_fields};
use vstd::hash_map::StringHashMap;
use vstd::prelude::*;

verus! {

/// Where a dictionary entry came from.
#[derive(Clone, Copy, Debug, PartialEq, Eq, Structural)]
pub enum Source {
    /// Part of the built-in seed.
    Builtin,
    /// Loaded from a user dictionary.
    User,
}

/// What the dictionary records for one word.
#[derive(Clone, Copy, Debug, PartialEq, Eq, Structural)]
pub struct DictionaryEntry {
    /// Bit pattern of the word's single-precision weight.
    pub weight_bits: u32,
    pub source: Source,
}

/// Bit pattern of the weight `0.0`, given to a word whose weight field is not
/// a number.
pub const WEIGHT_ZERO: u32 = 0x0000_0000;

/// Bit pattern of the weight `0.1`, given to a word that comes without a
/// weight of its own.
pub const WEIGHT_DEFAULT: u32 = 0x3DCC_CCCD;

/// A set of words, each with a weight and a source. A later insertion of a
/// word replaces the earlier entry.
pub struct Dictionary {
    entries: StringHashMap<DictionaryEntry>,
}

impl View for Dictionary {
    type V = Map<Seq<char>, DictionaryEntry>;

    closed spec fn view(&self) -> Map<Seq<char>, DictionaryEntry> {
        self.entries@
    }
}

impl Dictionary {
    /// The words of the dictionary.
    pub open spec fn words(&self) -> Set<Seq<char>> {
        self@.dom()
    }

    /// A dictionary without words.
    pub fn new() -> (dictionary: Dictionary)
        ensures
            dictionary@ == Map::<Seq<char>, DictionaryEntry>::empty(),
    {
        Dictionary { entries: StringHashMap::new() }
    }

    /// Sets the entry of `word`, replacing the one it had.
    pub fn insert(&mut self, word: String, weight_bits: u32, source: Source)
        ensures
            final(self)@ == old(self)@.insert(word@, (DictionaryEntry { weight_bits, source })),
    {
        self.entries.insert(word, DictionaryEntry { weight_bits, source });
    }

    /// Whether `word` is in the dictionary.
    pub fn contains(&self, word: &str) -> (present: bool)
        ensures
            present == self.words().contains(word@),
    {
        self.entries.contains_key(word)
    }

    /// The entry of `word`, if it has one.
    pub fn get(&self, word: &str) -> (entry: Option<DictionaryEntry>)
        ensures
            entry == if self@.contains_key(word@) {
                Some(self@[word@])
            } else {
                None
            },
    {
        match self.entries.get(word) {
            Some(e) => Some(*e),
            None => None,
        }
    }

    /// The number of words.
    pub fn len(&self) -> (n: usize)
        ensures
            n == self@.len(),
    {
        self.entries.len()
    }
}

/// The entry of a built-in word with the given weight.
pub open spec fn builtin(weight_bits: u32) -> DictionaryEntry {
    DictionaryEntry { weight_bits, source: Source::Builtin }
}

/// The built-in seed: seven words with weights 0.5, 0.5, 0.8, 0.2, 0.1, 0.3
/// and 0.4.
pub open spec fn builtin_seed() -> Map<Seq<char>, DictionaryEntry> {
    Map::<Seq<char>, DictionaryEntry>::empty().insert("世界"@, builtin(0x3F00_0000)).insert(
        "经济"@,
        builtin(0x3F00_0000),
    ).insert("经济学"@, builtin(0x3F4C_CCCD)).insert("是"@, builtin(0x3E4C_CCCD)).insert(
        "一门"@,
        builtin(0x3DCC_CCCD),
    ).insert("社会"@, builtin(0x3E99_999A)).insert("科学"@, builtin(0x3ECC_CCCD))
}

/// Builds the dictionary that holds the built-in seed.
pub fn build_dict() -> (dictionary: Dictionary)
    ensures
        dictionary@ == builtin_seed(),
{
    let mut dictionary = Dictionary::new();
    dictionary.insert("世界".to_string(), 0x3F00_0000, Source::Builtin);
    dictionary.insert("经济".to_string(), 0x3F00_0000, Source::Builtin);
    dictionary.insert("经济学".to_string(), 0x3F4C_CCCD, Source::Builtin);
    dictionary.insert("是".to_string(), 0x3E4C_CCCD, Source::Builtin);
    dictionary.insert("一门".to_string(), 0x3DCC_CCCD, Source::Builtin);
    dictionary.insert("社会".to_string(), 0x3E99_999A, Source::Builtin);
    dictionary.insert("科学".to_string(), 0x3ECC_CCCD, Source::Builtin);
    dictionary
}

/// The entry that a line of a user dictionary gives its word: with exactly
/// two fields the parsed weight, or the weight 0.0 where the second field is
/// not a number; with any other number of fields the default weight 0.1.
pub open spec fn user_entry(line: Seq<char>, parsed_weight: Option<u32>) -> DictionaryEntry {
    DictionaryEntry {
        weight_bits: if fields(line).len() == 2 {
            match parsed_weight {
                Some(bits) => bits,
                None => WEIGHT_ZERO,
            }
        } else {
            WEIGHT_DEFAULT
        },
        source: Source::User,
    }
}

/// The dictionary after one line of a user dictionary: the line's first field
/// is the word, and a line without fields changes nothing.
pub open spec fn with_user_line(
    entries: Map<Seq<char>, DictionaryEntry>,
    line: Seq<char>,
    parsed_weight: Option<u32>,
) -> Map<Seq<char>, DictionaryEntry> {
    if fields(line).len() == 0 {
        entries
    } else {
        entries.insert(fields(line)[0], user_entry(line, parsed_weight))
    }
}

/// The dictionary after the lines of a user dictionary, applied in order, so
/// that a later line for a word replaces an earlier one.
pub open spec fn with_user_lines(
    entries: Map<Seq<char>, DictionaryEntry>,
    lines: Seq<(Seq<char>, Option<u32>)>,
) -> Map<Seq<char>, DictionaryEntry>
    decreases lines.len(),
{
    if lines.len() == 0 {
        entries
    } else {
        with_user_line(
            with_user_lines(entries, lines.drop_last()),
            lines.last().0,
            lines.last().1,
        )
    }
}

/// The text and the parsed weight of each line.
pub open spec fn line_views(lines: Seq<(String, Option<u32>)>) -> Seq<(Seq<char>, Option<u32>)> {
    lines.map_values(|l: (String, Option<u32>)| (l.0@, l.1))
}

/// The weight field of a line of a user dictionary: the second field of a
/// line with exactly two fields. Every other line has none.
pub fn weight_field(line: &str) -> (field: Option<String>)
    ensures
        match field {
            Some(text) => fields(line@).len() == 2 && text@ == fields(line@)[1],
            None => fields(line@).len() != 2,
        },
{
    let mut parts = split_fields(line);
    if parts.len() == 2 {
        let ghost both = parts.deep_view();
        let text = parts.pop();
        proof {
            assert(both[1] == parts@.push(text.unwrap())[1]@);
        }
        text
    } else {
        None
    }
}

impl Dictionary {
    /// Applies one line of a user dictionary. `parsed_weight` is the bit
    /// pattern of the number that the line's weight field reads as, or `None`
    /// where the field is not a number; it is not looked at unless the line
    /// has exactly two fields. Returns whether the line named a word.
    pub fn load_user_line(&mut self, line: &str, parsed_weight: Option<u32>) -> (loaded: bool)
        ensures
            final(self)@ == with_user_line(old(self)@, line@, parsed_weight),
            loaded == (fields(line@).len() > 0),
    {
        let mut parts = split_fields(line);
        let count = parts.len();
        if count == 0 {
            return false;
        }
        let ghost all = parts.deep_view();
        let weight_bits = if count == 2 {
            match parsed_weight {
                Some(bits) => bits,
                None => WEIGHT_ZERO,
            }
        } else {
            WEIGHT_DEFAULT
        };
        let word = parts.swap_remove(0);
        proof {
            assert(word@ == all[0]);
        }
        self.insert(word, weight_bits, Source::User);
        true
    }
}

/// Applies the lines of a user dictionary to `dict_words`, in order. Each line
/// comes with the bit pattern that its weight field parsed to, as
/// `load_user_line` takes it.
pub fn load_user_dict(lines: &Vec<(String, Option<u32>)>, dict_words: &mut Dictionary)
    ensures
        final(dict_words)@ == with_user_lines(old(dict_words)@, line_views(lines@)),
{
    let ghost all = line_views(lines@);
    let mut i: usize = 0;
    proof {
        assert(all.take(0) =~= Seq::<(Seq<char>, Option<u32>)>::empty());
    }
    while i < lines.len()
        invariant
            i <= lines.len(),
            all == line_views(lines@),
            dict_words@ == with_user_lines(old(dict_words)@, all.take(i as int)),
        decreases lines.len() - i,
    {
        proof {
            assert(all.take(i + 1).drop_last() =~= all.take(i as int));
            assert(all.take(i + 1).last() == all[i as int]);
        }
        dict_words.load_user_line(lines[i].0.as_str(), lines[i].1);
        i += 1;
    }
    proof {
        assert(all.take(i as int) =~= all);
    }
}

} // verus!
