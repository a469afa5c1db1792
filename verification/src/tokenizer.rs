//! Splitting text into lowercase alphanumeric terms.

use vstd::prelude::*;
use crate::text::{alphanumeric, ascii_lowercase, lowercase_char, is_alphanumeric, to_lowercase_char, push_char};

verus! {

/// The state after reading `chars`: the finished tokens and the run of
/// lowercase characters that is still open.
pub open spec fn scan(chars: Seq<char>) -> (Seq<Seq<char>>, Seq<char>)
    decreases chars.len(),
{
    if chars.len() == 0 {
        (Seq::empty(), Seq::empty())
    } else {
        let (tokens, current) = scan(chars.drop_last());
        let c = chars.last();
        if alphanumeric(c) {
            (tokens, current + lowercase_char(c))
        } else if current.len() > 0 {
            (tokens.push(current), Seq::empty())
        } else {
            (tokens, current)
        }
    }
}

/// The tokens of a text: each maximal run of alphanumeric characters,
/// lowercased.
pub open spec fn spec_tokenize(chars: Seq<char>) -> Seq<Seq<char>> {
    let (tokens, current) = scan(chars);
    if current.len() > 0 {
        tokens.push(current)
    } else {
        tokens
    }
}

/// The views of a vector of strings.
pub open spec fn views(v: Seq<String>) -> Seq<Seq<char>> {
    v.map_values(|s: String| s@)
}

/// Every open run is a sequence of lowercase mappings; the finished tokens
/// are not empty, and there are no more tokens (counting an open run) than
/// characters read.
pub proof fn lemma_scan(chars: Seq<char>)
    ensures
        scan(chars).0.len() + (if scan(chars).1.len() > 0 {
            1int
        } else {
            0
        }) <= chars.len(),
        forall|i: int| 0 <= i < scan(chars).0.len() ==> #[trigger] scan(chars).0[i].len() > 0,
    decreases chars.len(),
{
    if chars.len() > 0 {
        lemma_scan(chars.drop_last());
    }
}

/// Every token is non-empty, and a text has at most as many tokens as
/// characters.
pub proof fn lemma_tokenize(chars: Seq<char>)
    ensures
        spec_tokenize(chars).len() <= chars.len(),
        forall|i: int| 0 <= i < spec_tokenize(chars).len() ==> #[trigger] spec_tokenize(chars)[i].len() > 0,
{
    lemma_scan(chars);
}

/// A text without alphanumeric characters has no tokens.
pub proof fn lemma_tokenize_no_alphanumeric(chars: Seq<char>)
    requires
        forall|i: int| 0 <= i < chars.len() ==> !alphanumeric(#[trigger] chars[i]),
    ensures
        spec_tokenize(chars).len() == 0,
    decreases chars.len(),
{
    lemma_scan_no_alphanumeric(chars);
}

proof fn lemma_scan_no_alphanumeric(chars: Seq<char>)
    requires
        forall|i: int| 0 <= i < chars.len() ==> !alphanumeric(#[trigger] chars[i]),
    ensures
        scan(chars).0.len() == 0,
        scan(chars).1.len() == 0,
    decreases chars.len(),
{
    if chars.len() > 0 {
        let t = chars.drop_last();
        assert forall|i: int| 0 <= i < t.len() implies !alphanumeric(#[trigger] t[i]) by {
            assert(t[i] == chars[i]);
        }
        lemma_scan_no_alphanumeric(t);
        assert(!alphanumeric(chars[chars.len() - 1]));
    }
}

/// Reading more characters after a point where no run is open adds the
/// tokens of those characters alone.
proof fn lemma_scan_append(p: Seq<char>, b: Seq<char>)
    requires
        scan(p).1.len() == 0,
    ensures
        scan(p + b) == (scan(p).0 + scan(b).0, scan(b).1),
    decreases b.len(),
{
    if b.len() == 0 {
        assert(p + b =~= p);
        assert(scan(p).0 + Seq::<Seq<char>>::empty() =~= scan(p).0);
    } else {
        assert((p + b).drop_last() =~= p + b.drop_last());
        assert((p + b).last() == b.last());
        lemma_scan_append(p, b.drop_last());
        let (t, c) = scan(b.drop_last());
        assert((scan(p).0 + t).push(c) =~= scan(p).0 + t.push(c));
    }
}

/// A character that is not alphanumeric splits the token stream exactly
/// there: the tokens of `a`, the separator and `b` are those of `a`
/// followed by those of `b`.
pub proof fn law_separator_splits(a: Seq<char>, c: char, b: Seq<char>)
    requires
        !alphanumeric(c),
    ensures
        spec_tokenize(a + seq![c] + b) == spec_tokenize(a) + spec_tokenize(b),
{
    let p = a + seq![c];
    assert(p.drop_last() =~= a);
    assert(p.last() == c);
    assert(scan(p) == (spec_tokenize(a), Seq::<char>::empty()));
    lemma_scan_append(p, b);
    let (t, cur) = scan(b);
    if cur.len() > 0 {
        assert((spec_tokenize(a) + t).push(cur) =~= spec_tokenize(a) + t.push(cur));
    }
}

/// A space splits the token stream exactly there.
pub proof fn law_space_splits(a: Seq<char>, b: Seq<char>)
    ensures
        spec_tokenize(a + seq![' '] + b) == spec_tokenize(a) + spec_tokenize(b),
{
    law_separator_splits(a, ' ', b);
}

/// Whether every character of a text is ASCII.
pub open spec fn all_ascii(s: Seq<char>) -> bool {
    forall|i: int| 0 <= i < s.len() ==> (#[trigger] s[i] as u32) < 128
}

/// The uppercase of an ASCII character, as `char::to_ascii_uppercase`
/// gives it: `a`–`z` become `A`–`Z`, every other character stays.
pub open spec fn ascii_uppercase(c: char) -> char {
    if 97 <= (c as u32) <= 122 {
        ((c as u32) - 32) as char
    } else {
        c
    }
}

/// A text with every ASCII letter made uppercase, as
/// `str::to_ascii_uppercase` gives it.
pub open spec fn uppercase_ascii(s: Seq<char>) -> Seq<char> {
    s.map_values(|c: char| ascii_uppercase(c))
}

proof fn lemma_uppercase_char(c: char)
    requires
        (c as u32) < 128,
    ensures
        (ascii_uppercase(c) as u32) < 128,
        alphanumeric(ascii_uppercase(c)) == alphanumeric(c),
        lowercase_char(ascii_uppercase(c)) == lowercase_char(c),
{
    if 97 <= (c as u32) <= 122 {
        let u = ascii_uppercase(c);
        assert(u as u32 == (c as u32) - 32);
        assert(ascii_lowercase(u) as u32 == c as u32);
        assert(ascii_lowercase(u) == c);
        assert(ascii_lowercase(c) == c);
    }
}

proof fn lemma_scan_uppercase(s: Seq<char>)
    requires
        all_ascii(s),
    ensures
        scan(uppercase_ascii(s)) == scan(s),
    decreases s.len(),
{
    if s.len() > 0 {
        let u = uppercase_ascii(s);
        assert(u.drop_last() =~= uppercase_ascii(s.drop_last()));
        assert(u.last() == ascii_uppercase(s.last()));
        assert(s.last() == s[s.len() - 1]);
        lemma_uppercase_char(s.last());
        lemma_scan_uppercase(s.drop_last());
    }
}

/// Tokenizing ignores the case of ASCII letters: an ASCII text and its
/// uppercase have the same tokens.
pub proof fn law_tokenize_ignores_ascii_case(s: Seq<char>)
    requires
        all_ascii(s),
    ensures
        spec_tokenize(uppercase_ascii(s)) == spec_tokenize(s),
{
    lemma_scan_uppercase(s);
}

/// A lowercase ASCII letter or a digit.
pub open spec fn token_char(c: char) -> bool {
    (48 <= (c as u32) <= 57) || (97 <= (c as u32) <= 122)
}

proof fn lemma_scan_ascii_chars(s: Seq<char>)
    requires
        all_ascii(s),
    ensures
        forall|i: int, k: int|
            0 <= i < scan(s).0.len() && 0 <= k < scan(s).0[i].len() ==> token_char(#[trigger] scan(s).0[i][k]),
        forall|k: int| 0 <= k < scan(s).1.len() ==> token_char(#[trigger] scan(s).1[k]),
    decreases s.len(),
{
    if s.len() > 0 {
        let t = s.drop_last();
        assert forall|i: int| 0 <= i < t.len() implies (#[trigger] t[i] as u32) < 128 by {
            assert(t[i] == s[i]);
        }
        lemma_scan_ascii_chars(t);
        let c = s.last();
        assert(s[s.len() - 1] == c);
        let (tokens, current) = scan(t);
        if alphanumeric(c) {
            let n = current + lowercase_char(c);
            assert(lowercase_char(c) == seq![ascii_lowercase(c)]);
            assert forall|k: int| 0 <= k < n.len() implies token_char(#[trigger] n[k]) by {
                if k == current.len() {
                    if 65 <= (c as u32) <= 90 {
                        assert(ascii_lowercase(c) as u32 == (c as u32) + 32);
                    }
                }
            }
        } else if current.len() > 0 {
            let n = tokens.push(current);
            assert forall|i: int, k: int| 0 <= i < n.len() && 0 <= k < n[i].len() implies token_char(
                #[trigger] n[i][k],
            ) by {
                if i < tokens.len() {
                    assert(n[i] == tokens[i]);
                }
            }
        }
    }
}

proof fn lemma_scan_token_chars(t: Seq<char>)
    requires
        forall|k: int| 0 <= k < t.len() ==> token_char(#[trigger] t[k]),
    ensures
        scan(t) == (Seq::<Seq<char>>::empty(), t),
    decreases t.len(),
{
    if t.len() > 0 {
        let p = t.drop_last();
        assert forall|k: int| 0 <= k < p.len() implies token_char(#[trigger] p[k]) by {
            assert(p[k] == t[k]);
        }
        lemma_scan_token_chars(p);
        let c = t.last();
        assert(token_char(t[t.len() - 1]));
        assert(lowercase_char(c) == seq![c]);
        assert(p + seq![c] =~= t);
    }
}

/// Every token of an ASCII text is a token of its own: tokenizing it again
/// gives it back alone.
pub proof fn law_ascii_token_is_its_own_query(s: Seq<char>, t: Seq<char>)
    requires
        all_ascii(s),
        spec_tokenize(s).contains(t),
    ensures
        spec_tokenize(t) == seq![t],
{
    lemma_scan_ascii_chars(s);
    lemma_tokenize(s);
    let i = choose|i: int| 0 <= i < spec_tokenize(s).len() && spec_tokenize(s)[i] == t;
    let (tokens, current) = scan(s);
    assert forall|k: int| 0 <= k < t.len() implies token_char(#[trigger] t[k]) by {
        if i < tokens.len() {
            assert(tokens[i][k] == t[k]);
        } else {
            assert(current[k] == t[k]);
        }
    }
    lemma_scan_token_chars(t);
    assert(t.len() > 0);
}


/// Splits `text` on every character that is not alphanumeric and lowercases
/// each run that remains.
pub fn tokenize(text: &str) -> (tokens: Vec<String>)
    ensures
        views(tokens@) == spec_tokenize(text@),
{
    let mut tokens: Vec<String> = Vec::new();
    let mut current = String::new();
    for c in it: text.chars()
        invariant
            it.seq() == text@,
            (views(tokens@), current@) == scan(text@.take(it.index())),
    {
        proof {
            assert(text@.take(it.index() + 1).drop_last() =~= text@.take(it.index() as int));
        }
        if is_alphanumeric(c) {
            let lower = to_lowercase_char(c);
            let ghost before = current@;
            for k in 0..lower.len()
                invariant
                    current@ == before + lower@.take(k as int),
            {
                push_char(&mut current, lower[k]);
                proof {
                    assert(lower@.take(k + 1) =~= lower@.take(k as int).push(lower@[k as int]));
                }
            }
            proof {
                assert(lower@.take(lower@.len() as int) =~= lower@);
            }
        } else if !current.as_str().is_empty() {
            let ghost before = tokens@;
            tokens.push(current);
            proof {
                assert(views(tokens@) =~= views(before).push(current@));
            }
            current = String::new();
        }
    }
    proof {
        assert(text@.take(text@.len() as int) =~= text@);
    }
    if !current.as_str().is_empty() {
        let ghost before = tokens@;
        tokens.push(current);
        proof {
            assert(views(tokens@) =~= views(before).push(current@));
        }
    }
    tokens
}

} // verus!
