//! Character and string primitives of the standard library that the
//! engine relies on, with what their documentation promises.

use vstd::prelude::*;

verus! {

/// Whether an ASCII character is a letter or a digit.
pub open spec fn ascii_alphanumeric(c: char) -> bool {
    (48 <= (c as u32) <= 57) || (65 <= (c as u32) <= 90) || (97 <= (c as u32) <= 122)
}

/// The lowercase of an ASCII character: `A`–`Z` become `a`–`z`, every other
/// character stays.
pub open spec fn ascii_lowercase(c: char) -> char {
    if 65 <= (c as u32) <= 90 {
        ((c as u32) + 32) as char
    } else {
        c
    }
}

/// Whether `char::is_alphanumeric` holds of a character outside ASCII (a
/// Unicode property).
pub uninterp spec fn alphanumeric_beyond_ascii(c: char) -> bool;

/// The characters that `char::to_lowercase` yields for a character outside
/// ASCII.
pub uninterp spec fn lowercase_beyond_ascii(c: char) -> Seq<char>;

/// Whether `char::is_alphanumeric` holds of a character: on ASCII, exactly
/// for letters and digits.
pub open spec fn alphanumeric(c: char) -> bool {
    if (c as u32) < 128 {
        ascii_alphanumeric(c)
    } else {
        alphanumeric_beyond_ascii(c)
    }
}

/// The characters that `char::to_lowercase` yields for a character: on
/// ASCII, the one character `ascii_lowercase(c)`.
pub open spec fn lowercase_char(c: char) -> Seq<char> {
    if (c as u32) < 128 {
        seq![ascii_lowercase(c)]
    } else {
        lowercase_beyond_ascii(c)
    }
}

/// Calls `char::is_alphanumeric`, which holds of alphabetic and numeric
/// characters (Unicode properties). On ASCII these are exactly the letters
/// `A`–`Z`, `a`–`z` and the digits `0`–`9`; beyond ASCII the result is
/// named `alphanumeric_beyond_ascii(c)`.
#[verifier::external_body]
pub(crate) fn is_alphanumeric(c: char) -> (r: bool)
    ensures
        r == alphanumeric(c),
        (c as u32) >= 128 ==> r == alphanumeric_beyond_ascii(c),
{
    c.is_alphanumeric()
}

/// Calls `char::to_lowercase` and collects the characters it yields. The
/// documentation says that the iterator yields one or more characters; by
/// the Unicode case mappings it uses, an ASCII character yields itself,
/// except that `A`–`Z` yield `a`–`z`. Beyond ASCII the result is named
/// `lowercase_beyond_ascii(c)`.
#[verifier::external_body]
pub(crate) fn to_lowercase_char(c: char) -> (r: Vec<char>)
    ensures
        r@ == lowercase_char(c),
        (c as u32) >= 128 ==> r@ == lowercase_beyond_ascii(c),
        r@.len() >= 1,
{
    c.to_lowercase().collect()
}

/// Calls `String::push`, which appends one character.
#[verifier::external_body]
pub(crate) fn push_char(s: &mut String, c: char)
    ensures
        final(s)@ == old(s)@.push(c),
{
    s.push(c)
}

/// Whether a character has the Unicode White_Space property, by which
/// `char::is_whitespace`, `str::split_whitespace` and `str::trim` go: the
/// controls U+0009–U+000D, space, U+0085, no-break space, U+1680, the
/// spaces U+2000–U+200A, the line and paragraph separators, U+202F, U+205F
/// and U+3000.
pub open spec fn white_space(c: char) -> bool {
    let u = c as u32;
    (9 <= u <= 13) || u == 32 || u == 0x85 || u == 0xA0 || u == 0x1680 || (0x2000 <= u <= 0x200A) || u
        == 0x2028 || u == 0x2029 || u == 0x202F || u == 0x205F || u == 0x3000
}

/// The state after reading `s`: the finished words and the word still open.
pub open spec fn word_scan(s: Seq<char>) -> (Seq<Seq<char>>, Seq<char>)
    decreases s.len(),
{
    if s.len() == 0 {
        (Seq::empty(), Seq::empty())
    } else {
        let (words, current) = word_scan(s.drop_last());
        let c = s.last();
        if !white_space(c) {
            (words, current.push(c))
        } else if current.len() > 0 {
            (words.push(current), Seq::empty())
        } else {
            (words, current)
        }
    }
}

/// The words that `str::split_whitespace` yields for a string: its maximal
/// runs of characters that are not White_Space.
pub open spec fn whitespace_words(s: Seq<char>) -> Seq<Seq<char>> {
    let (words, current) = word_scan(s);
    if current.len() > 0 {
        words.push(current)
    } else {
        words
    }
}

/// How many White_Space characters a string starts with.
pub open spec fn leading_space(s: Seq<char>) -> nat
    decreases s.len(),
{
    if s.len() > 0 && white_space(s.first()) {
        1 + leading_space(s.drop_first())
    } else {
        0
    }
}

/// How many White_Space characters a string ends with.
pub open spec fn trailing_space(s: Seq<char>) -> nat
    decreases s.len(),
{
    if s.len() > 0 && white_space(s.last()) {
        1 + trailing_space(s.drop_last())
    } else {
        0
    }
}

/// The string that `str::trim` returns: the string without its leading
/// and trailing White_Space characters.
pub open spec fn trimmed(s: Seq<char>) -> Seq<char> {
    if leading_space(s) >= s.len() {
        Seq::empty()
    } else {
        s.subrange(leading_space(s) as int, s.len() - trailing_space(s))
    }
}

/// The string that `str::to_lowercase` returns for a string.
pub uninterp spec fn lowercase_str(s: Seq<char>) -> Seq<char>;


/// Calls `str::split_whitespace`, which splits at runs of White_Space
/// characters, and copies each word into a `String`.
#[verifier::external_body]
pub(crate) fn split_whitespace(s: &str) -> (words: Vec<String>)
    ensures
        words@.map_values(|w: String| w@) == whitespace_words(s@),
{
    s.split_whitespace().map(|w| w.to_string()).collect()
}

/// Calls `str::to_lowercase`; the result is named `lowercase_str(s)`.
#[verifier::external_body]
pub(crate) fn to_lowercase_str(s: &str) -> (r: String)
    ensures
        r@ == lowercase_str(s@),
{
    s.to_lowercase()
}

/// Calls `str::trim`, which removes leading and trailing White_Space
/// characters.
#[verifier::external_body]
pub(crate) fn trim(s: &str) -> (r: &str)
    ensures
        r@ == trimmed(s@),
{
    s.trim()
}

/// The characters of a string, in order.
pub fn chars_of(s: &str) -> (r: Vec<char>)
    ensures
        r@ == s@,
{
    let mut r: Vec<char> = Vec::new();
    for c in it: s.chars()
        invariant
            it.seq() == s@,
            r@ == s@.take(it.index()),
    {
        r.push(c);
        proof {
            assert(r@ =~= s@.take(it.index() + 1));
        }
    }
    proof {
        assert(s@.take(s@.len() as int) =~= s@);
    }
    r
}

} // verus!
