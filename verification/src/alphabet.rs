//! Cipher alphabets and character normalization. Two variants are
//! configured: the standard 25-symbol Latin alphabet (I and J merged) and
//! its Romanian extension with five extra letters. Input characters are
//! normalized to uppercase, and `J` is folded into `I` wherever a symbol
//! must land in the grid.

use vstd::prelude::*;
use crate::strutil::str_to_chars;

verus! {

/// Which symbol universe the cipher runs over.
#[derive(Clone, Copy, PartialEq, Eq, Structural, Debug)]
pub enum AlphabetVariant {
    /// 25 Latin letters, I/J merged.
    Standard,
    /// The standard alphabet followed by five Romanian letters.
    RomanianExtended,
}

/// The 25 Latin symbols (no J: it is merged into I).
pub const LATIN_SYMBOLS: [char; 25] = [
    'A', 'B', 'C', 'D', 'E', 'F', 'G', 'H', 'I', 'K', 'L', 'M', 'N',
    'O', 'P', 'Q', 'R', 'S', 'T', 'U', 'V', 'W', 'X', 'Y', 'Z',
];

/// The five Romanian letters that extend the Latin symbols.
pub const ROMANIAN_SYMBOLS: [char; 5] = ['\u{102}', '\u{c2}', '\u{ce}', '\u{218}', '\u{21a}'];

/// The ordered, duplicate-free symbol sequence of a variant.
pub open spec fn alphabet_seq(v: AlphabetVariant) -> Seq<char> {
    match v {
        AlphabetVariant::Standard => LATIN_SYMBOLS@,
        AlphabetVariant::RomanianExtended => LATIN_SYMBOLS@ + ROMANIAN_SYMBOLS@,
    }
}

/// Number of symbols in a variant's alphabet.
pub open spec fn spec_alphabet_len(v: AlphabetVariant) -> int {
    alphabet_seq(v).len() as int
}

/// Number of symbols in a variant's alphabet.
pub fn alphabet_len(v: AlphabetVariant) -> (n: usize)
    ensures
        n == spec_alphabet_len(v),
{
    match v {
        AlphabetVariant::Standard => 25,
        AlphabetVariant::RomanianExtended => 30,
    }
}

/// The `i`-th symbol of a variant's alphabet.
pub fn alphabet_symbol(v: AlphabetVariant, i: usize) -> (c: char)
    requires
        i < spec_alphabet_len(v),
    ensures
        c == alphabet_seq(v)[i as int],
{
    if i < 25 {
        LATIN_SYMBOLS[i]
    } else {
        ROMANIAN_SYMBOLS[i - 25]
    }
}

/// Uppercase for the character classes the ciphers accept: ASCII letters
/// and the Romanian letters map to their uppercase forms, everything else
/// is left unchanged.
pub open spec fn upper_char(c: char) -> char {
    match c {
        'a' => 'A', 'b' => 'B', 'c' => 'C', 'd' => 'D', 'e' => 'E',
        'f' => 'F', 'g' => 'G', 'h' => 'H', 'i' => 'I', 'j' => 'J',
        'k' => 'K', 'l' => 'L', 'm' => 'M', 'n' => 'N', 'o' => 'O',
        'p' => 'P', 'q' => 'Q', 'r' => 'R', 's' => 'S', 't' => 'T',
        'u' => 'U', 'v' => 'V', 'w' => 'W', 'x' => 'X', 'y' => 'Y',
        'z' => 'Z',
        '\u{103}' => '\u{102}',
        '\u{e2}' => '\u{c2}',
        '\u{ee}' => '\u{ce}',
        '\u{219}' => '\u{218}',
        '\u{21b}' => '\u{21a}',
        _ => c,
    }
}

/// Canonical grid form of a character: uppercase, with J merged into I.
pub open spec fn canon_char(c: char) -> char {
    if upper_char(c) == 'J' {
        'I'
    } else {
        upper_char(c)
    }
}

/// Uppercase every character of a sequence.
pub open spec fn upper_seq(s: Seq<char>) -> Seq<char> {
    s.map_values(|c: char| upper_char(c))
}

/// Canonicalize every character of a sequence.
pub open spec fn canon_seq(s: Seq<char>) -> Seq<char> {
    s.map_values(|c: char| canon_char(c))
}

/// Exec uppercase, matching `upper_char`.
pub fn to_upper(c: char) -> (r: char)
    ensures
        r == upper_char(c),
{
    match c {
        'a' => 'A', 'b' => 'B', 'c' => 'C', 'd' => 'D', 'e' => 'E',
        'f' => 'F', 'g' => 'G', 'h' => 'H', 'i' => 'I', 'j' => 'J',
        'k' => 'K', 'l' => 'L', 'm' => 'M', 'n' => 'N', 'o' => 'O',
        'p' => 'P', 'q' => 'Q', 'r' => 'R', 's' => 'S', 't' => 'T',
        'u' => 'U', 'v' => 'V', 'w' => 'W', 'x' => 'X', 'y' => 'Y',
        'z' => 'Z',
        '\u{103}' => '\u{102}',
        '\u{e2}' => '\u{c2}',
        '\u{ee}' => '\u{ce}',
        '\u{219}' => '\u{218}',
        '\u{21b}' => '\u{21a}',
        _ => c,
    }
}

/// Exec canonicalization, matching `canon_char`.
pub fn to_canon(c: char) -> (r: char)
    ensures
        r == canon_char(c),
{
    let u = to_upper(c);
    if u == 'J' {
        'I'
    } else {
        u
    }
}

/// A character belongs to a variant's letter class when its canonical
/// form is a symbol of that variant's alphabet (so both cases of every
/// letter are accepted, and J counts via its merge into I).
pub open spec fn char_in_class(v: AlphabetVariant, c: char) -> bool {
    alphabet_seq(v).contains(canon_char(c))
}

/// Every character of the sequence lies in the variant's letter class.
pub open spec fn text_in_class(v: AlphabetVariant, s: Seq<char>) -> bool {
    forall|i: int| 0 <= i < s.len() ==> char_in_class(v, s[i])
}

/// A valid keyword: at least 7 characters, all in the letter class.
pub open spec fn valid_keyword(v: AlphabetVariant, k: Seq<char>) -> bool {
    k.len() >= 7 && text_in_class(v, k)
}

/// Whether a character's canonical form occurs in the variant's alphabet.
pub fn char_in_class_exec(v: AlphabetVariant, c: char) -> (r: bool)
    ensures
        r == char_in_class(v, c),
{
    let target = to_canon(c);
    let n = alphabet_len(v);
    let mut i: usize = 0;
    while i < n
        invariant
            i <= n,
            n == spec_alphabet_len(v),
            target == canon_char(c),
            forall|j: int| 0 <= j < i ==> alphabet_seq(v)[j] != target,
        decreases n - i,
    {
        let s = alphabet_symbol(v, i);
        if s == target {
            proof {
                assert(s == alphabet_seq(v)[i as int]);
                assert(target == canon_char(c));
                assert(alphabet_seq(v).contains(canon_char(c)));
            }
            return true;
        }
        i += 1;
    }
    false
}

/// Validate a message: true exactly when every character lies in the
/// variant's letter class.
pub fn validate_text(text: &str, v: AlphabetVariant) -> (r: bool)
    ensures
        r == text_in_class(v, text@),
{
    let chars = str_to_chars(text);
    let mut i: usize = 0;
    while i < chars.len()
        invariant
            i <= chars@.len(),
            chars@ == text@,
            forall|j: int| 0 <= j < i ==> char_in_class(v, text@[j]),
        decreases chars@.len() - i,
    {
        if !char_in_class_exec(v, chars[i]) {
            return false;
        }
        i += 1;
    }
    true
}

/// Validate a keyword: true exactly when it has at least 7 characters,
/// all in the variant's letter class.
pub fn validate_key(key: &str, v: AlphabetVariant) -> (r: bool)
    ensures
        r == valid_keyword(v, key@),
{
    let chars = str_to_chars(key);
    if chars.len() < 7 {
        return false;
    }
    validate_text(key, v)
}

/// Alphabet symbols are their own uppercase and canonical forms.
pub proof fn lemma_alphabet_symbols_canonical(v: AlphabetVariant, c: char)
    requires
        alphabet_seq(v).contains(c),
    ensures
        upper_char(c) == c,
        canon_char(c) == c,
{
    let j = choose|j: int| 0 <= j < alphabet_seq(v).len() && alphabet_seq(v)[j] == c;
}

/// The alphabet sequences hold no duplicate symbols.
pub proof fn lemma_alphabet_no_duplicates(v: AlphabetVariant)
    ensures
        alphabet_seq(v).no_duplicates(),
{
    assert forall|i: int, j: int|
        0 <= i < alphabet_seq(v).len() && 0 <= j < alphabet_seq(v).len() && i != j
        implies alphabet_seq(v)[i] != alphabet_seq(v)[j] by {
        assert(alphabet_seq(v)[i] != alphabet_seq(v)[j]);
    }
}

} // verus!
