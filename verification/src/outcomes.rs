//! What the engine answers, stated from the inputs: titles, previews,
//! tokens, snippets and the statistics a plan hands to BM25.

use vstd::prelude::*;
use crate::api::{chosen_title, spec_preview};
use crate::engine::{engine_inv, stored_tokens, EngineView};
use crate::index::{occurrences, lemma_occurrences_contains};
use crate::search::{
    contains_seq, contribution_views, contributions, first_hit_from, hits, join_words, lowercase_words,
    plan_ensures, spec_snippet, QueryPlan,
};
use crate::text::{
    ascii_alphanumeric, ascii_lowercase, leading_space, lowercase_str, trailing_space, trimmed, white_space,
    whitespace_words,
};
use crate::tokenizer::{scan, spec_tokenize};

verus! {

// ---------------------------------------------------------------- titles

proof fn lemma_leading_all(s: Seq<char>)
    ensures
        leading_space(s) <= s.len(),
        (forall|i: int| 0 <= i < s.len() ==> white_space(#[trigger] s[i])) ==> leading_space(s) == s.len(),
    decreases s.len(),
{
    if s.len() > 0 {
        lemma_leading_all(s.drop_first());
        if forall|i: int| 0 <= i < s.len() ==> white_space(#[trigger] s[i]) {
            assert(white_space(s[0]));
            assert forall|i: int| 0 <= i < s.drop_first().len() implies white_space(#[trigger] s.drop_first()[i]) by {
                assert(s.drop_first()[i] == s[i + 1]);
            }
        }
    }
}

proof fn lemma_leading_stops(s: Seq<char>, i: int)
    requires
        0 <= i < s.len(),
        !white_space(s[i]),
    ensures
        leading_space(s) <= i,
    decreases s.len(),
{
    if i > 0 && white_space(s[0]) {
        assert(s.drop_first()[i - 1] == s[i]);
        lemma_leading_stops(s.drop_first(), i - 1);
    }
}

proof fn lemma_trailing_stops(s: Seq<char>, i: int)
    requires
        0 <= i < s.len(),
        !white_space(s[i]),
    ensures
        trailing_space(s) <= s.len() - 1 - i,
    decreases s.len(),
{
    if i < s.len() - 1 && white_space(s.last()) {
        assert(s.drop_last()[i] == s[i]);
        lemma_trailing_stops(s.drop_last(), i);
    }
}

/// A string trims to nothing exactly when all its characters are
/// White_Space.
pub proof fn law_blank_iff_all_white_space(s: Seq<char>)
    ensures
        trimmed(s).len() == 0 <==> forall|i: int| 0 <= i < s.len() ==> white_space(#[trigger] s[i]),
{
    lemma_leading_all(s);
    if exists|i: int| 0 <= i < s.len() && !white_space(#[trigger] s[i]) {
        let i = choose|i: int| 0 <= i < s.len() && !white_space(#[trigger] s[i]);
        lemma_leading_stops(s, i);
        lemma_trailing_stops(s, i);
    }
}

proof fn lemma_leading_prefix(s: Seq<char>)
    ensures
        leading_space(s) <= s.len(),
        forall|i: int| 0 <= i < leading_space(s) ==> white_space(#[trigger] s[i]),
        leading_space(s) < s.len() ==> !white_space(s[leading_space(s) as int]),
    decreases s.len(),
{
    if s.len() > 0 && white_space(s.first()) {
        lemma_leading_prefix(s.drop_first());
        assert forall|i: int| 0 <= i < leading_space(s) implies white_space(#[trigger] s[i]) by {
            if i > 0 {
                assert(s[i] == s.drop_first()[i - 1]);
            }
        }
        if leading_space(s) < s.len() {
            assert(s[leading_space(s) as int] == s.drop_first()[leading_space(s.drop_first()) as int]);
        }
    }
}

proof fn lemma_trailing_suffix(s: Seq<char>)
    ensures
        trailing_space(s) <= s.len(),
        forall|i: int| s.len() - trailing_space(s) <= i < s.len() ==> white_space(#[trigger] s[i]),
        trailing_space(s) < s.len() ==> !white_space(s[s.len() - 1 - trailing_space(s)]),
    decreases s.len(),
{
    if s.len() > 0 && white_space(s.last()) {
        lemma_trailing_suffix(s.drop_last());
        assert forall|i: int| s.len() - trailing_space(s) <= i < s.len() implies white_space(#[trigger] s[i]) by {
            if i < s.len() - 1 {
                assert(s[i] == s.drop_last()[i]);
            }
        }
        if trailing_space(s) < s.len() {
            assert(s[s.len() - 1 - trailing_space(s)] == s.drop_last()[s.drop_last().len() - 1 - trailing_space(
                s.drop_last(),
            )]);
        }
    }
}

/// Trimming keeps a contiguous part of the string: everything before and
/// after it is White_Space, and it neither starts nor ends with White_Space.
pub proof fn law_trim_keeps_the_middle(s: Seq<char>)
    ensures
        exists|a: int, b: int|
            0 <= a <= b <= s.len() && trimmed(s) == s.subrange(a, b) && (forall|i: int|
                0 <= i < a ==> white_space(#[trigger] s[i])) && (forall|i: int|
                b <= i < s.len() ==> white_space(#[trigger] s[i])) && (a < b ==> !white_space(s[a])
                && !white_space(s[b - 1])),
{
    lemma_leading_prefix(s);
    lemma_trailing_suffix(s);
    let l = leading_space(s) as int;
    if l >= s.len() {
        assert(trimmed(s) =~= s.subrange(s.len() as int, s.len() as int));
        assert(0 <= s.len() as int <= s.len() as int <= s.len() && trimmed(s) == s.subrange(s.len() as int, s.len() as int));
    } else {
        let b = s.len() - trailing_space(s);
        lemma_trailing_stops(s, l);
        assert(l < b);
        assert(trimmed(s) == s.subrange(l, b));
    }
}

proof fn lemma_word_scan_words(s: Seq<char>)
    ensures
        forall|i: int| 0 <= i < crate::text::word_scan(s).0.len() ==> #[trigger] crate::text::word_scan(s).0[i].len() > 0,
        forall|i: int, k: int|
            0 <= i < crate::text::word_scan(s).0.len() && 0 <= k < crate::text::word_scan(s).0[i].len()
                ==> !white_space(#[trigger] crate::text::word_scan(s).0[i][k]),
        forall|k: int| 0 <= k < crate::text::word_scan(s).1.len() ==> !white_space(#[trigger] crate::text::word_scan(s).1[k]),
    decreases s.len(),
{
    if s.len() > 0 {
        lemma_word_scan_words(s.drop_last());
        let (w, cur) = crate::text::word_scan(s.drop_last());
        let c = s.last();
        if !white_space(c) {
            assert forall|k: int| 0 <= k < cur.push(c).len() implies !white_space(#[trigger] cur.push(c)[k]) by {
                if k < cur.len() {
                    assert(cur.push(c)[k] == cur[k]);
                }
            }
        } else if cur.len() > 0 {
            assert forall|i: int, k: int| 0 <= i < w.push(cur).len() && 0 <= k < w.push(cur)[i].len() implies !white_space(
                #[trigger] w.push(cur)[i][k],
            ) by {
                if i < w.len() {
                    assert(w.push(cur)[i] == w[i]);
                }
            }
        }
    }
}

/// The words of a string are non-empty and hold no White_Space character.
pub proof fn law_words_hold_no_white_space(s: Seq<char>)
    ensures
        forall|i: int| 0 <= i < whitespace_words(s).len() ==> #[trigger] whitespace_words(s)[i].len() > 0,
        forall|i: int, k: int|
            0 <= i < whitespace_words(s).len() && 0 <= k < whitespace_words(s)[i].len() ==> !white_space(
                #[trigger] whitespace_words(s)[i][k],
            ),
{
    lemma_word_scan_words(s);
    let (w, cur) = crate::text::word_scan(s);
    if cur.len() > 0 {
        assert forall|i: int, k: int| 0 <= i < w.push(cur).len() && 0 <= k < w.push(cur)[i].len() implies !white_space(
            #[trigger] w.push(cur)[i][k],
        ) by {
            if i < w.len() {
                assert(w.push(cur)[i] == w[i]);
            }
        }
    }
}

/// The title of a created document: a missing title, or one made only of
/// White_Space characters (the empty title among them), becomes
/// "untitled"; any other title is kept as given.
pub proof fn law_title_choice(t: Seq<char>)
    ensures
        chosen_title(None) == seq!['u', 'n', 't', 'i', 't', 'l', 'e', 'd'],
        (forall|i: int| 0 <= i < t.len() ==> white_space(#[trigger] t[i])) ==> chosen_title(Some(t)) == seq![
            'u',
            'n',
            't',
            'i',
            't',
            'l',
            'e',
            'd',
        ],
        (exists|i: int| 0 <= i < t.len() && !white_space(#[trigger] t[i])) ==> chosen_title(Some(t)) == t,
{
    law_blank_iff_all_white_space(t);
}

// ---------------------------------------------------------------- previews

/// A preview begins with the trimmed content: when that is longer than 160
/// characters, the preview is its first 160 characters followed by "...";
/// otherwise it is the whole trimmed content.
pub proof fn law_preview_is_a_prefix(content: Seq<char>)
    ensures
        trimmed(content).len() > 160 ==> {
            &&& spec_preview(content).len() == 163
            &&& spec_preview(content).take(160) == trimmed(content).take(160)
            &&& spec_preview(content).skip(160) == seq!['.', '.', '.']
        },
        trimmed(content).len() <= 160 ==> spec_preview(content) == trimmed(content),
{
    if trimmed(content).len() > 160 {
        assert(spec_preview(content).take(160) =~= trimmed(content).take(160));
        assert(spec_preview(content).skip(160) =~= seq!['.', '.', '.']);
    }
}

// ---------------------------------------------------------------- tokens

proof fn lemma_scan_word(w: Seq<char>)
    requires
        forall|i: int| 0 <= i < w.len() ==> ascii_alphanumeric(#[trigger] w[i]),
    ensures
        scan(w) == (Seq::<Seq<char>>::empty(), w.map_values(|c: char| ascii_lowercase(c))),
    decreases w.len(),
{
    if w.len() > 0 {
        let p = w.drop_last();
        assert forall|i: int| 0 <= i < p.len() implies ascii_alphanumeric(#[trigger] p[i]) by {
            assert(p[i] == w[i]);
        }
        lemma_scan_word(p);
        assert(ascii_alphanumeric(w[w.len() - 1]));
        assert(p.map_values(|c: char| ascii_lowercase(c)).push(ascii_lowercase(w.last())) =~= w.map_values(
            |c: char| ascii_lowercase(c),
        ));
    }
}

/// A word of ASCII letters and digits (digits only included) is one token:
/// itself, lowercased.
pub proof fn law_ascii_word_is_one_token(w: Seq<char>)
    requires
        w.len() > 0,
        forall|i: int| 0 <= i < w.len() ==> ascii_alphanumeric(#[trigger] w[i]),
    ensures
        spec_tokenize(w) == seq![w.map_values(|c: char| ascii_lowercase(c))],
{
    lemma_scan_word(w);
}

// ---------------------------------------------------------------- snippets

proof fn lemma_first_hit(words: Seq<Seq<char>>, terms: Seq<Seq<char>>, p: int, k: int)
    requires
        0 <= p <= k < words.len(),
        hits(words[k], terms),
        forall|m: int| p <= m < k ==> !hits(#[trigger] words[m], terms),
    ensures
        first_hit_from(words, terms, p) == k,
    decreases k - p,
{
    if p < k {
        lemma_first_hit(words, terms, p + 1, k);
    }
}

/// The snippet is built around the first word whose lowercase form contains
/// any of the query terms: if word `k` is that word, the snippet is the
/// words from 15 before it (or from the first word) up to thirty words, joined
/// by spaces, with "... " in front when words were left out before and
/// " ..." behind when words were left out after; and word `k` is among them.
pub proof fn law_snippet_around_first_hit(content: Seq<char>, terms: Seq<Seq<char>>, k: int, j: int)
    requires
        0 <= k < whitespace_words(content).len(),
        0 <= j < terms.len(),
        contains_seq(lowercase_str(whitespace_words(content)[k]), terms[j]),
        forall|m: int, i: int|
            0 <= m < k && 0 <= i < terms.len() ==> !contains_seq(
                lowercase_str(#[trigger] whitespace_words(content)[m]),
                #[trigger] terms[i],
            ),
    ensures
        ({
            let words = whitespace_words(content);
            let n = words.len() as int;
            let s = if k > 15 { k - 15 } else { 0 };
            let e = if s + 30 < n { s + 30 } else { n };
            &&& s <= k < e
            &&& e - s <= 30
            &&& spec_snippet(content, terms) == (if s > 0 { seq!['.', '.', '.', ' '] } else { Seq::empty() })
                + join_words(words.subrange(s, e)) + (if e < n { seq![' ', '.', '.', '.'] } else { Seq::empty() })
        }),
{
    let words = whitespace_words(content);
    let lowered = lowercase_words(words);
    assert(lowered[k] == lowercase_str(words[k]));
    assert(hits(lowered[k], terms));
    assert forall|m: int| 0 <= m < k implies !hits(#[trigger] lowered[m], terms) by {
        assert(lowered[m] == lowercase_str(words[m]));
        if hits(lowered[m], terms) {
            let i = choose|i: int| 0 <= i < terms.len() && #[trigger] contains_seq(lowered[m], terms[i]);
            assert(!contains_seq(lowercase_str(words[m]), terms[i]));
        }
    }
    lemma_first_hit(lowered, terms, 0, k);
    let n = words.len() as int;
    let s = if k > 15 { k - 15 } else { 0 };
    let e = if s + 30 < n { s + 30 } else { n };
    let body = join_words(words.subrange(s, e));
    if s > 0 {
        if e < n {
            assert(seq!['.', '.', '.', ' '] + body + seq![' ', '.', '.', '.'] == seq!['.', '.', '.', ' '] + body
                + seq![' ', '.', '.', '.']);
        } else {
            assert(seq!['.', '.', '.', ' '] + body + Seq::<char>::empty() =~= seq!['.', '.', '.', ' '] + body);
        }
    } else {
        assert(Seq::<char>::empty() + body =~= body);
        assert(body + Seq::<char>::empty() =~= body);
        assert(Seq::<char>::empty() + body + Seq::<char>::empty() =~= body);
    }
}

proof fn lemma_no_hit(words: Seq<Seq<char>>, terms: Seq<Seq<char>>, p: int)
    requires
        0 <= p,
        forall|m: int| p <= m < words.len() ==> !hits(#[trigger] words[m], terms),
    ensures
        first_hit_from(words, terms, p) == 0,
    decreases words.len() - p,
{
    if p < words.len() {
        lemma_no_hit(words, terms, p + 1);
    }
}

/// When no word's lowercase form contains a query term, the snippet is the
/// first thirty words, joined by spaces, with " ..." behind when words were
/// left out.
pub proof fn law_snippet_without_hit(content: Seq<char>, terms: Seq<Seq<char>>)
    requires
        whitespace_words(content).len() > 0,
        forall|m: int, i: int|
            0 <= m < whitespace_words(content).len() && 0 <= i < terms.len() ==> !contains_seq(
                lowercase_str(#[trigger] whitespace_words(content)[m]),
                #[trigger] terms[i],
            ),
    ensures
        ({
            let words = whitespace_words(content);
            let n = words.len() as int;
            let e = if 30 < n { 30 } else { n };
            spec_snippet(content, terms) == join_words(words.subrange(0, e)) + (if e < n {
                seq![' ', '.', '.', '.']
            } else {
                Seq::empty()
            })
        }),
{
    let words = whitespace_words(content);
    let lowered = lowercase_words(words);
    assert forall|m: int| 0 <= m < lowered.len() implies !hits(#[trigger] lowered[m], terms) by {
        assert(lowered[m] == lowercase_str(words[m]));
        if hits(lowered[m], terms) {
            let i = choose|i: int| 0 <= i < terms.len() && #[trigger] contains_seq(lowered[m], terms[i]);
            assert(!contains_seq(lowercase_str(words[m]), terms[i]));
        }
    }
    lemma_no_hit(lowered, terms, 0);
    let n = words.len() as int;
    let e = if 30 < n { 30 } else { n };
    let body = join_words(words.subrange(0, e));
    assert(body + Seq::<char>::empty() =~= body);
}

// ---------------------------------------------------------------- statistics

/// The statistics BM25 reads for document `d`, from the stored token lists
/// `docs`: for each query term, in order, that occurs in `d`, its number of
/// occurrences in `d`, the number of stored documents it occurs in, and the
/// number of tokens of `d`.
pub open spec fn token_statistics(
    docs: Map<u64, Seq<Seq<char>>>,
    terms: Seq<Seq<char>>,
    d: u64,
) -> Seq<(u32, nat, u32)>
    decreases terms.len(),
{
    if terms.len() == 0 {
        Seq::empty()
    } else {
        let rest = token_statistics(docs, terms.drop_last(), d);
        let t = terms.last();
        if occurrences(docs[d], t) > 0 {
            rest.push(
                (
                    occurrences(docs[d], t) as u32,
                    Set::new(|e: u64| docs.contains_key(e) && occurrences(docs[e], t) > 0).len(),
                    docs[d].len() as u32,
                ),
            )
        } else {
            rest
        }
    }
}

/// On every engine, the statistics of a stored document for a list of terms
/// are those of its tokens: term frequencies are occurrence counts, document
/// frequencies count the stored documents that contain the term, and the
/// length is the number of tokens (for a document of at most `u32::MAX`
/// tokens).
pub proof fn law_statistics_from_tokens(e: EngineView, terms: Seq<Seq<char>>, d: u64)
    requires
        engine_inv(e),
        e.store.documents.contains_key(d),
        spec_tokenize(e.store.documents[d].1).len() <= u32::MAX,
    ensures
        contributions(e.index, terms, d) == token_statistics(stored_tokens(e.store.documents), terms, d),
    decreases terms.len(),
{
    let docs = stored_tokens(e.store.documents);
    if terms.len() > 0 {
        law_statistics_from_tokens(e, terms.drop_last(), d);
        let t = terms.last();
        assert(docs.contains_key(d));
        lemma_occurrences_contains(docs[d], t);
        if occurrences(docs[d], t) > 0 {
            assert(e.index.postings.contains_key(t) && e.index.postings[t].contains_key(d));
            let want = Set::new(|x: u64| docs.contains_key(x) && occurrences(docs[x], t) > 0);
            assert(e.index.postings[t].dom() =~= want);
        }
    }
}

/// On every engine, each candidate of a plan carries the statistics of its
/// own tokens for the query's terms.
pub proof fn law_plan_statistics(e: EngineView, query: Seq<char>, r: QueryPlan, a: int)
    requires
        engine_inv(e),
        plan_ensures(e.store, e.index, query, r),
        0 <= a < r.candidates@.len(),
        spec_tokenize(e.store.documents[r.candidates@[a].id].1).len() <= u32::MAX,
    ensures
        contribution_views(r.candidates@[a].contributions@) == token_statistics(
            stored_tokens(e.store.documents),
            spec_tokenize(query),
            r.candidates@[a].id,
        ),
{
    law_statistics_from_tokens(e, spec_tokenize(query), r.candidates@[a].id);
}

} // verus!
