//! Query planning for BM25 ranking, ranking by score, and snippets.
//!
//! BM25 itself is computed in floating point, which this library does not
//! hold; the plan gives every integer input of the formula, and `rank`
//! orders documents once their scores are known.

use vstd::prelude::*;
use std::collections::HashMap;
use crate::index::{IndexView, InvertedIndex};
use crate::order::{increasing, insert_sorted, ranks_before};
use crate::store::{DocumentStore, StoreView};
use crate::text::{chars_of, lowercase_str, split_whitespace, to_lowercase_str, whitespace_words};
use crate::tokenizer::{spec_tokenize, tokenize, views};
use vstd::string::StringExecFns;
use vstd::std_specs::iter::IteratorSpec;

verus! {

broadcast use vstd::std_specs::hash::group_hash_axioms;

/// The statistics of one query term in one document.
pub struct Contribution {
    /// occurrences of the term in the document
    pub term_frequency: u32,
    /// number of documents that contain the term
    pub document_frequency: usize,
    /// number of tokens of the document
    pub document_length: u32,
}

/// A document that contains at least one query term, with the statistics of
/// each matching query term, in query order.
pub struct Candidate {
    pub id: u64,
    pub contributions: Vec<Contribution>,
}

/// Everything BM25 needs to score a query.
pub struct QueryPlan {
    pub terms: Vec<String>,
    pub document_count: usize,
    pub total_length: u64,
    pub candidates: Vec<Candidate>,
}

/// A contribution seen as plain values.
pub open spec fn contribution_view(c: Contribution) -> (u32, nat, u32) {
    (c.term_frequency, c.document_frequency as nat, c.document_length)
}

/// Contributions seen as plain values.
pub open spec fn contribution_views(s: Seq<Contribution>) -> Seq<(u32, nat, u32)> {
    s.map_values(|c: Contribution| contribution_view(c))
}

/// The length of document `d`, or 0 when it has none.
pub open spec fn length_or_zero(lengths: Map<u64, u32>, d: u64) -> u32 {
    if lengths.contains_key(d) {
        lengths[d]
    } else {
        0
    }
}

/// The statistics of each of `terms`, in order, that document `d` contains.
pub open spec fn contributions(index: IndexView, terms: Seq<Seq<char>>, d: u64) -> Seq<(u32, nat, u32)>
    decreases terms.len(),
{
    if terms.len() == 0 {
        Seq::empty()
    } else {
        let rest = contributions(index, terms.drop_last(), d);
        let t = terms.last();
        if index.postings.contains_key(t) && index.postings[t].contains_key(d) {
            rest.push(
                (
                    index.postings[t][d],
                    index.postings[t].dom().len(),
                    length_or_zero(index.lengths, d),
                ),
            )
        } else {
            rest
        }
    }
}

/// Whether document `d` contains one of `terms`.
pub open spec fn matches_query(index: IndexView, terms: Seq<Seq<char>>, d: u64) -> bool {
    exists|j: int|
        0 <= j < terms.len() && #[trigger] index.postings.contains_key(terms[j])
            && index.postings[terms[j]].contains_key(d)
}

/// A document has contributions exactly when it matches.
pub proof fn lemma_contributions_match(index: IndexView, terms: Seq<Seq<char>>, d: u64)
    ensures
        contributions(index, terms, d).len() > 0 <==> matches_query(index, terms, d),
    decreases terms.len(),
{
    if terms.len() > 0 {
        let t = terms.drop_last();
        lemma_contributions_match(index, t, d);
        if matches_query(index, t, d) {
            let j = choose|j: int|
                0 <= j < t.len() && #[trigger] index.postings.contains_key(t[j])
                    && index.postings[t[j]].contains_key(d);
            assert(terms[j] == t[j]);
        }
        if matches_query(index, terms, d) {
            let j = choose|j: int|
                0 <= j < terms.len() && #[trigger] index.postings.contains_key(terms[j])
                    && index.postings[terms[j]].contains_key(d);
            if j < terms.len() - 1 {
                assert(t[j] == terms[j]);
            }
        }
    }
}

/// What `plan` returns for `query` over a store and an index: the query's
/// tokens; the document count and total length of the index; and, in
/// increasing order of id, exactly the stored documents that contain a query
/// term, each with `contributions`.
pub open spec fn plan_ensures(store: StoreView, index: IndexView, query: Seq<char>, r: QueryPlan) -> bool {
    let terms = spec_tokenize(query);
    &&& views(r.terms@) == terms
    &&& r.document_count == index.lengths.dom().len()
    &&& r.total_length == index.total_length
    &&& forall|a: int, b: int| 0 <= a < b < r.candidates@.len() ==> r.candidates@[a].id < r.candidates@[b].id
    &&& forall|a: int|
        0 <= a < r.candidates@.len() ==> {
            &&& store.documents.contains_key(#[trigger] r.candidates@[a].id)
            &&& matches_query(index, terms, r.candidates@[a].id)
            &&& contribution_views(r.candidates@[a].contributions@) == contributions(index, terms, r.candidates@[a].id)
        }
    &&& forall|d: u64|
        store.documents.contains_key(d) && #[trigger] matches_query(index, terms, d) ==> exists|a: int|
            0 <= a < r.candidates@.len() && r.candidates@[a].id == d
}

/// The posting list of each term, looked up once, as `postings_for` gives it.
pub open spec fn postings_of_terms(
    index: IndexView,
    terms: Seq<Seq<char>>,
    lists: Seq<Option<&HashMap<u64, u32>>>,
) -> bool {
    &&& lists.len() == terms.len()
    &&& forall|j: int|
        0 <= j < terms.len() ==> match #[trigger] lists[j] {
            Some(entries) => {
                &&& index.postings.contains_key(terms[j])
                &&& entries@ == index.postings[terms[j]]
            },
            None => !index.postings.contains_key(terms[j]),
        }
}

/// The posting lists of the terms.
fn lookup_terms<'a>(index: &'a InvertedIndex, terms: &Vec<String>) -> (r: Vec<Option<&'a HashMap<u64, u32>>>)
    requires
        index.wf(),
    ensures
        postings_of_terms(index@, views(terms@), r@),
{
    let mut r: Vec<Option<&HashMap<u64, u32>>> = Vec::new();
    let mut j: usize = 0;
    while j < terms.len()
        invariant
            index.wf(),
            j <= terms@.len(),
            postings_of_terms(index@, views(terms@).take(j as int), r@),
        decreases terms@.len() - j,
    {
        let ghost before = r@;
        r.push(index.postings_for(terms[j].as_str()));
        proof {
            let tv = views(terms@).take(j + 1);
            assert forall|a: int| 0 <= a < tv.len() implies match #[trigger] r@[a] {
                Some(entries) => {
                    &&& index@.postings.contains_key(tv[a])
                    &&& entries@ == index@.postings[tv[a]]
                },
                None => !index@.postings.contains_key(tv[a]),
            } by {
                if a < j {
                    assert(r@[a] == before[a]);
                    assert(tv[a] == views(terms@).take(j as int)[a]);
                }
            }
        }
        j = j + 1;
    }
    proof {
        assert(views(terms@).take(terms@.len() as int) =~= views(terms@));
    }
    r
}

/// The statistics of each of `terms` that document `d` contains.
fn contributions_of(
    index: &InvertedIndex,
    Ghost(tv): Ghost<Seq<Seq<char>>>,
    lists: &Vec<Option<&HashMap<u64, u32>>>,
    d: u64,
) -> (r: Vec<Contribution>)
    requires
        index.wf(),
        postings_of_terms(index@, tv, lists@),
    ensures
        contribution_views(r@) == contributions(index@, tv, d),
{
    let length = index.document_length(d);
    let mut r: Vec<Contribution> = Vec::new();
    let mut j: usize = 0;
    while j < lists.len()
        invariant
            postings_of_terms(index@, tv, lists@),
            length == length_or_zero(index@.lengths, d),
            j <= lists@.len(),
            contribution_views(r@) == contributions(index@, tv.take(j as int), d),
        decreases lists@.len() - j,
    {
        proof {
            assert(tv.take(j + 1).drop_last() =~= tv.take(j as int));
            assert(tv.take(j + 1).last() == tv[j as int]);
        }
        match lists[j] {
            Some(entries) => {
                match entries.get(&d) {
                    Some(frequency) => {
                        let c = Contribution {
                            term_frequency: *frequency,
                            document_frequency: entries.len(),
                            document_length: length,
                        };
                        let ghost before = r@;
                        r.push(c);
                        proof {
                            assert(contribution_views(r@) =~= contribution_views(before).push(contribution_view(c)));
                        }
                    },
                    None => {},
                }
            },
            None => {},
        }
        j = j + 1;
    }
    proof {
        assert(tv.take(lists@.len() as int) =~= tv);
    }
    r
}

/// Tokenizes `query` and gathers, for every stored document that contains a
/// query term, the statistics BM25 scores it by.
pub fn plan(store: &DocumentStore, index: &InvertedIndex, query: &str) -> (r: QueryPlan)
    requires
        store.wf(),
        index.wf(),
    ensures
        plan_ensures(store@, index@, query@, r),
{
    let terms = tokenize(query);
    let ghost tv = views(terms@);
    let lists = lookup_terms(index, &terms);
    let ids = candidate_ids(&lists);
    proof {
        assert forall|d: u64| ids@.contains(d) <==> #[trigger] matches_query(index@, tv, d) by {
            if ids@.contains(d) {
                let j = choose|j: int| 0 <= j < lists@.len() && #[trigger] named(lists@[j], d);
                assert(index@.postings.contains_key(tv[j]) && index@.postings[tv[j]].contains_key(d));
            }
            if matches_query(index@, tv, d) {
                let j = choose|j: int|
                    0 <= j < tv.len() && #[trigger] index@.postings.contains_key(tv[j])
                        && index@.postings[tv[j]].contains_key(d);
                assert(named(lists@[j], d));
            }
        }
    }
    let mut candidates: Vec<Candidate> = Vec::new();
    let mut i: usize = 0;
    while i < ids.len()
        invariant
            index.wf(),
            store.wf(),
            tv == views(terms@),
            postings_of_terms(index@, tv, lists@),
            i <= ids@.len(),
            increasing(ids@),
            forall|d: u64| ids@.contains(d) <==> #[trigger] matches_query(index@, tv, d),
            forall|a: int, b: int| 0 <= a < b < candidates@.len() ==> candidates@[a].id < candidates@[b].id,
            forall|a: int| 0 <= a < candidates@.len() ==> exists|b: int| 0 <= b < i && (#[trigger] candidates@[a]).id == ids@[b],
            forall|a: int|
                0 <= a < candidates@.len() ==> {
                    &&& store@.documents.contains_key(#[trigger] candidates@[a].id)
                    &&& matches_query(index@, tv, candidates@[a].id)
                    &&& contribution_views(candidates@[a].contributions@) == contributions(index@, tv, candidates@[a].id)
                },
            forall|b: int| 0 <= b < i && store@.documents.contains_key(#[trigger] ids@[b]) ==> exists|a: int|
                0 <= a < candidates@.len() && candidates@[a].id == ids@[b],
        decreases ids@.len() - i,
    {
        let d = ids[i];
        proof {
            assert(ids@.contains(d));
        }
        if store.get(d).is_some() {
            let contributions = contributions_of(index, Ghost(tv), &lists, d);
            let ghost before = candidates@;
            candidates.push(Candidate { id: d, contributions });
            proof {
                assert forall|a: int, b: int| 0 <= a < b < candidates@.len() implies candidates@[a].id < candidates@[b].id by {
                    if b == before.len() {
                        assert(candidates@[a] == before[a]);
                        let c = choose|c: int| 0 <= c < i && (#[trigger] before[a]).id == ids@[c];
                    }
                }
                assert forall|a: int| 0 <= a < candidates@.len() implies exists|b: int| 0 <= b < i + 1 && (#[trigger] candidates@[a]).id == ids@[b] by {
                    if a < before.len() {
                        assert(candidates@[a] == before[a]);
                        let c = choose|c: int| 0 <= c < i && (#[trigger] before[a]).id == ids@[c];
                    } else {
                        assert(candidates@[a].id == ids@[i as int]);
                    }
                }
                assert forall|b: int| 0 <= b < i + 1 && store@.documents.contains_key(#[trigger] ids@[b]) implies exists|a: int|
                    0 <= a < candidates@.len() && candidates@[a].id == ids@[b] by {
                    if b < i {
                        let a = choose|a: int| 0 <= a < before.len() && before[a].id == ids@[b];
                        assert(candidates@[a] == before[a]);
                    } else {
                        assert(candidates@[before.len() as int].id == ids@[b]);
                    }
                }
            }
        } else {
            proof {
                assert forall|a: int| 0 <= a < candidates@.len() implies exists|b: int| 0 <= b < i + 1 && (#[trigger] candidates@[a]).id == ids@[b] by {
                    let c = choose|c: int| 0 <= c < i && (#[trigger] candidates@[a]).id == ids@[c];
                }
            }
        }
        i = i + 1;
    }
    proof {
        assert forall|dd: u64| store@.documents.contains_key(dd) && #[trigger] matches_query(index@, tv, dd) implies exists|a: int|
            0 <= a < candidates@.len() && candidates@[a].id == dd by {
            assert(ids@.contains(dd));
            let b = choose|b: int| 0 <= b < ids@.len() && ids@[b] == dd;
            assert(store@.documents.contains_key(ids@[b]));
        }
    }
    QueryPlan {
        terms,
        document_count: index.document_count(),
        total_length: index.total_length(),
        candidates,
    }
}

/// Whether a looked-up posting map names document `d`.
pub open spec fn named(list: Option<&HashMap<u64, u32>>, d: u64) -> bool {
    match list {
        Some(entries) => entries@.contains_key(d),
        None => false,
    }
}

/// Adds the documents that `entries` names to the increasing ids `start`.
fn add_keys(start: Vec<u64>, entries: &HashMap<u64, u32>) -> (ids: Vec<u64>)
    requires
        increasing(start@),
    ensures
        increasing(ids@),
        forall|d: u64| ids@.contains(d) <==> (start@.contains(d) || entries@.contains_key(d)),
{
    let ghost keys = vstd::std_specs::hash::spec_keys_iter(entries).remaining();
    let mut found: Vec<u64> = Vec::new();
    for k in it: entries.keys()
        invariant
            it.seq() == keys,
            found@.len() == it.index(),
            forall|m: int| 0 <= m < it.index() ==> found@[m] == *keys[m],
    {
        found.push(*k);
    }
    proof {
        assert(keys.unref().to_set() == entries@.dom());
        assert forall|d: u64| found@.contains(d) <==> entries@.contains_key(d) by {
            if found@.contains(d) {
                let m = choose|m: int| 0 <= m < found@.len() && found@[m] == d;
                assert(keys.unref()[m] == d);
                assert(keys.unref().to_set().contains(d));
            }
            if entries@.contains_key(d) {
                assert(keys.unref().to_set().contains(d));
                let m = choose|m: int| 0 <= m < keys.unref().len() && keys.unref()[m] == d;
                assert(found@[m] == d);
            }
        }
    }
    let mut ids = start;
    let mut i: usize = 0;
    while i < found.len()
        invariant
            i <= found@.len(),
            increasing(ids@),
            forall|d: u64| ids@.contains(d) <==> (start@.contains(d) || exists|m: int| 0 <= m < i && found@[m] == d),
        decreases found@.len() - i,
    {
        let ghost prev = ids@;
        insert_sorted(&mut ids, found[i]);
        proof {
            assert forall|d: u64| ids@.contains(d) <==> (start@.contains(d) || exists|m: int|
                0 <= m < i + 1 && found@[m] == d) by {
                if exists|m: int| 0 <= m < i + 1 && found@[m] == d {
                    let m = choose|m: int| 0 <= m < i + 1 && found@[m] == d;
                    if m < i {
                        assert(prev.contains(d));
                    }
                }
                if prev.contains(d) && !start@.contains(d) {
                    let m = choose|m: int| 0 <= m < i && found@[m] == d;
                    assert(0 <= m < i + 1 && found@[m] == d);
                }
                if d == found@[i as int] {
                    assert(0 <= i < i + 1 && found@[i as int] == d);
                }
            }
        }
        i = i + 1;
    }
    proof {
        assert forall|d: u64| ids@.contains(d) <==> (start@.contains(d) || entries@.contains_key(d)) by {
            if found@.contains(d) {
                let m = choose|m: int| 0 <= m < found@.len() && found@[m] == d;
                assert(0 <= m < i && found@[m] == d);
            }
            if exists|m: int| 0 <= m < i && found@[m] == d {
                let m = choose|m: int| 0 <= m < i && found@[m] == d;
                assert(found@.contains(d));
            }
        }
    }
    ids
}

/// The documents that some of the posting maps name, in increasing order
/// of id.
fn candidate_ids(lists: &Vec<Option<&HashMap<u64, u32>>>) -> (ids: Vec<u64>)
    ensures
        increasing(ids@),
        forall|d: u64| ids@.contains(d) <==> exists|j: int| 0 <= j < lists@.len() && #[trigger] named(lists@[j], d),
{
    let mut ids: Vec<u64> = Vec::new();
    let mut j: usize = 0;
    while j < lists.len()
        invariant
            j <= lists@.len(),
            increasing(ids@),
            forall|d: u64| ids@.contains(d) <==> exists|k: int| 0 <= k < j && #[trigger] named(lists@[k], d),
        decreases lists@.len() - j,
    {
        let ghost done = ids@;
        match lists[j] {
            Some(entries) => {
                ids = add_keys(ids, entries);
            },
            None => {},
        }
        proof {
            assert forall|d: u64| ids@.contains(d) <==> (done.contains(d) || named(lists@[j as int], d)) by {}
            assert forall|d: u64| ids@.contains(d) <==> exists|k: int| 0 <= k < j + 1 && #[trigger] named(lists@[k], d) by {
                if done.contains(d) {
                    let k = choose|k: int| 0 <= k < j && #[trigger] named(lists@[k], d);
                }
                if named(lists@[j as int], d) {
                    assert(0 <= j < j + 1 && named(lists@[j as int], d));
                }
                if exists|k: int| 0 <= k < j + 1 && #[trigger] named(lists@[k], d) {
                    let k = choose|k: int| 0 <= k < j + 1 && #[trigger] named(lists@[k], d);
                    if k < j {
                        assert(done.contains(d));
                    }
                }
            }
        }
        j = j + 1;
    }
    ids
}

/// No id occurs twice among scored documents.
pub open spec fn ids_distinct(scored: Seq<(u64, u64)>) -> bool {
    forall|a: int, b: int| 0 <= a < scored.len() && 0 <= b < scored.len() && a != b ==> scored[a].1 != scored[b].1
}

/// `r` is the first `limit` of `scored` in ranking order: as many as `limit`
/// allows, in `ranks_before` order, all taken from `scored`, and every entry
/// left out ranked after every entry listed.
pub open spec fn ranked(scored: Seq<(u64, u64)>, limit: int, r: Seq<(u64, u64)>) -> bool {
    &&& r.len() == (if limit < scored.len() {
        limit
    } else {
        scored.len() as int
    })
    &&& forall|a: int, b: int| 0 <= a < b < r.len() ==> ranks_before(r[a], r[b])
    &&& forall|a: int| 0 <= a < r.len() ==> scored.contains(#[trigger] r[a])
    &&& forall|e: (u64, u64)|
        #[trigger] scored.contains(e) && !r.contains(e) ==> forall|a: int|
            0 <= a < r.len() ==> ranks_before(#[trigger] r[a], e)
}

/// Orders scored documents by score key, highest first, ties by lower id,
/// and keeps the first `limit`. A score key is any integer that orders as
/// the scores do.
pub fn rank(scored: &Vec<(u64, u64)>, limit: usize) -> (r: Vec<(u64, u64)>)
    requires
        ids_distinct(scored@),
    ensures
        ranked(scored@, limit as int, r@),
{
    let mut sorted: Vec<(u64, u64)> = Vec::new();
    let mut i: usize = 0;
    while i < scored.len()
        invariant
            i <= scored@.len(),
            sorted@.len() == i,
            forall|a: int, b: int|
                0 <= a < scored@.len() && 0 <= b < scored@.len() && a != b ==> scored@[a].1 != scored@[b].1,
            forall|a: int, b: int| 0 <= a < b < sorted@.len() ==> ranks_before(sorted@[a], sorted@[b]),
            forall|a: int| 0 <= a < sorted@.len() ==> scored@.take(i as int).contains(#[trigger] sorted@[a]),
            forall|c: int| 0 <= c < i ==> sorted@.contains(#[trigger] scored@[c]),
        decreases scored@.len() - i,
    {
        let x = scored[i];
        let mut p: usize = 0;
        while p < sorted.len() && !(x.0 > sorted[p].0 || (x.0 == sorted[p].0 && x.1 < sorted[p].1))
            invariant
                p <= sorted@.len(),
                forall|a: int| 0 <= a < p ==> !ranks_before(x, #[trigger] sorted@[a]),
            decreases sorted@.len() - p,
        {
            p = p + 1;
        }
        let ghost before = sorted@;
        proof {
            assert forall|a: int| 0 <= a < p implies ranks_before(#[trigger] before[a], x) by {
                assert(scored@.take(i as int).contains(before[a]));
                let c = choose|c: int| 0 <= c < i && scored@.take(i as int)[c] == before[a];
                assert(scored@[c].1 != scored@[i as int].1);
            }
        }
        sorted.insert(p, x);
        proof {
            assert(sorted@ == before.insert(p as int, x));
            assert forall|a: int, b: int| 0 <= a < b < sorted@.len() implies ranks_before(sorted@[a], sorted@[b]) by {
                if b < p {
                    assert(sorted@[a] == before[a] && sorted@[b] == before[b]);
                } else if b == p {
                    assert(sorted@[a] == before[a]);
                } else if a == p {
                    assert(sorted@[b] == before[b - 1]);
                    if b - 1 > p {
                        assert(ranks_before(before[p as int], before[b - 1]));
                    }
                } else if a < p {
                    assert(sorted@[a] == before[a] && sorted@[b] == before[b - 1]);
                } else {
                    assert(sorted@[a] == before[a - 1] && sorted@[b] == before[b - 1]);
                }
            }
            assert(scored@.take(i + 1) =~= scored@.take(i as int).push(x));
            assert forall|a: int| 0 <= a < sorted@.len() implies scored@.take(i + 1).contains(#[trigger] sorted@[a]) by {
                if a < p {
                    assert(sorted@[a] == before[a]);
                    let c = choose|c: int| 0 <= c < i && scored@.take(i as int)[c] == before[a];
                    assert(scored@.take(i + 1)[c] == before[a]);
                } else if a == p {
                    assert(scored@.take(i + 1)[i as int] == x);
                } else {
                    assert(sorted@[a] == before[a - 1]);
                    assert(scored@.take(i as int).contains(before[a - 1]));
                    let c = choose|c: int| 0 <= c < i && scored@.take(i as int)[c] == before[a - 1];
                    assert(scored@.take(i + 1)[c] == before[a - 1]);
                }
            }
            assert forall|c: int| 0 <= c < i + 1 implies sorted@.contains(#[trigger] scored@[c]) by {
                if c == i {
                    assert(sorted@[p as int] == scored@[c]);
                } else {
                    assert(before.contains(scored@[c]));
                    let a = choose|a: int| 0 <= a < before.len() && before[a] == scored@[c];
                    if a < p {
                        assert(sorted@[a] == scored@[c]);
                    } else {
                        assert(sorted@[a + 1] == scored@[c]);
                    }
                }
            }
        }
        i = i + 1;
    }
    let ghost whole = sorted@;
    proof {
        assert(scored@.take(scored@.len() as int) =~= scored@);
    }
    sorted.truncate(limit);
    proof {
        assert forall|a: int| 0 <= a < sorted@.len() implies scored@.contains(#[trigger] sorted@[a]) by {
            assert(sorted@[a] == whole[a]);
        }
        assert forall|e: (u64, u64)| #[trigger] scored@.contains(e) && !sorted@.contains(e) implies forall|a: int|
            0 <= a < sorted@.len() ==> ranks_before(#[trigger] sorted@[a], e) by {
            let c = choose|c: int| 0 <= c < scored@.len() && scored@[c] == e;
            assert(whole.contains(scored@[c]));
            let w = choose|w: int| 0 <= w < whole.len() && whole[w] == e;
            if w < sorted@.len() {
                assert(sorted@[w] == e);
            }
            assert forall|a: int| 0 <= a < sorted@.len() implies ranks_before(#[trigger] sorted@[a], e) by {
                assert(sorted@[a] == whole[a]);
            }
        }
    }
    sorted
}

/// Whether `needle` occurs in `hay` as a contiguous part (`str::contains`).
pub open spec fn contains_seq(hay: Seq<char>, needle: Seq<char>) -> bool {
    exists|i: int| 0 <= i && i + needle.len() <= hay.len() && #[trigger] hay.subrange(i, i + needle.len()) == needle
}

/// Whether a word contains one of the terms.
pub open spec fn hits(word: Seq<char>, terms: Seq<Seq<char>>) -> bool {
    exists|j: int| 0 <= j < terms.len() && #[trigger] contains_seq(word, terms[j])
}

/// The position of the first word, from position `p` on, that contains a
/// term; 0 if there is none.
pub open spec fn first_hit_from(words: Seq<Seq<char>>, terms: Seq<Seq<char>>, p: int) -> int
    decreases words.len() - p,
{
    if p < 0 || p >= words.len() {
        0
    } else if hits(words[p], terms) {
        p
    } else {
        first_hit_from(words, terms, p + 1)
    }
}

/// Each word lowercased with `str::to_lowercase`.
pub open spec fn lowercase_words(words: Seq<Seq<char>>) -> Seq<Seq<char>> {
    words.map_values(|w: Seq<char>| lowercase_str(w))
}

/// Words joined by single spaces.
pub open spec fn join_words(words: Seq<Seq<char>>) -> Seq<char>
    decreases words.len(),
{
    if words.len() == 0 {
        Seq::empty()
    } else if words.len() == 1 {
        words[0]
    } else {
        join_words(words.drop_last()) + seq![' '] + words.last()
    }
}

/// The first word of the snippet window around position `hit`.
pub open spec fn window_start(hit: int) -> int {
    if hit > 15 {
        hit - 15
    } else {
        0
    }
}

/// One past the last word of the snippet window.
pub open spec fn window_end(start: int, count: int) -> int {
    if start + 30 < count {
        start + 30
    } else {
        count
    }
}

/// The snippet of `content` for `terms`: up to thirty words of the content
/// from fifteen words before the first word whose lowercase form contains a
/// term (or from the first word), joined by spaces, with "... " in front
/// when words were left out before and " ..." behind when words were left
/// out after.
pub open spec fn spec_snippet(content: Seq<char>, terms: Seq<Seq<char>>) -> Seq<char> {
    let words = whitespace_words(content);
    if words.len() == 0 {
        Seq::empty()
    } else {
        let lowered = lowercase_words(words);
        let start = window_start(first_hit_from(lowered, terms, 0));
        let end = window_end(start, words.len() as int);
        let body = join_words(words.subrange(start, end));
        let front = if start > 0 {
            seq!['.', '.', '.', ' '] + body
        } else {
            body
        };
        if end < words.len() {
            front + seq![' ', '.', '.', '.']
        } else {
            front
        }
    }
}

/// Whether `needle` occurs in `hay` at position `i`.
fn occurs_at(hay: &Vec<char>, needle: &Vec<char>, i: usize) -> (r: bool)
    requires
        i + needle@.len() <= hay@.len(),
    ensures
        r == (hay@.subrange(i as int, i + needle@.len()) == needle@),
{
    let n = needle.len();
    let hl = hay.len();
    let mut j: usize = 0;
    let mut same = true;
    while j < n && same
        invariant
            hl == hay@.len(),
            n == needle@.len(),
            i + n <= hay@.len(),
            j <= n,
            forall|m: int| 0 <= m < j ==> hay@[i + m] == needle@[m],
            !same ==> j < n && hay@[i + j] != needle@[j as int],
        decreases n - j + (if same { 1int } else { 0 }),
    {
        if hay[i + j] == needle[j] {
            j = j + 1;
        } else {
            same = false;
        }
    }
    if same {
        proof {
            assert(hay@.subrange(i as int, i + n) =~= needle@);
        }
        true
    } else {
        proof {
            assert(hay@.subrange(i as int, i + n)[j as int] != needle@[j as int]);
        }
        false
    }
}

/// Whether `needle` occurs in `hay` as a contiguous part.
pub fn contains_chars(hay: &Vec<char>, needle: &Vec<char>) -> (r: bool)
    ensures
        r == contains_seq(hay@, needle@),
{
    if needle.len() > hay.len() {
        return false;
    }
    let n = needle.len();
    let last = hay.len() - n;
    let mut i: usize = 0;
    while i < last
        invariant
            n == needle@.len(),
            n <= hay@.len(),
            last == hay@.len() - n,
            i <= last,
            forall|k: int| 0 <= k < i ==> #[trigger] hay@.subrange(k, k + n) != needle@,
        decreases last - i,
    {
        if occurs_at(hay, needle, i) {
            return true;
        }
        i = i + 1;
    }
    let r = occurs_at(hay, needle, last);
    proof {
        if !r {
            assert forall|k: int| 0 <= k && k + needle@.len() <= hay@.len() implies #[trigger] hay@.subrange(
                k,
                k + needle@.len(),
            ) != needle@ by {
                assert(k <= last);
            }
        }
    }
    r
}

/// Whether a lowercase word contains one of the terms.
fn word_hits(word: &Vec<char>, terms: &Vec<Vec<char>>) -> (r: bool)
    ensures
        r == hits(word@, terms@.map_values(|t: Vec<char>| t@)),
{
    let ghost tv = terms@.map_values(|t: Vec<char>| t@);
    let mut j: usize = 0;
    while j < terms.len()
        invariant
            tv == terms@.map_values(|t: Vec<char>| t@),
            j <= terms@.len(),
            forall|k: int| 0 <= k < j ==> !#[trigger] contains_seq(word@, tv[k]),
        decreases terms@.len() - j,
    {
        if contains_chars(word, &terms[j]) {
            proof {
                assert(contains_seq(word@, tv[j as int]));
            }
            return true;
        }
        j = j + 1;
    }
    false
}

/// A window of about thirty words of `content` around the first word that
/// contains a query term.
pub fn snippet(content: &str, terms: &[String]) -> (r: String)
    ensures
        r@ == spec_snippet(content@, views(terms@)),
{
    let words = split_whitespace(content);
    let ghost wv = words@.map_values(|w: String| w@);
    if words.len() == 0 {
        return String::new();
    }
    let ghost tv = views(terms@);
    let mut term_chars: Vec<Vec<char>> = Vec::new();
    let mut j: usize = 0;
    while j < terms.len()
        invariant
            j <= terms@.len(),
            tv == views(terms@),
            term_chars@.map_values(|t: Vec<char>| t@) == tv.take(j as int),
        decreases terms@.len() - j,
    {
        let ghost before = term_chars@;
        term_chars.push(chars_of(terms[j].as_str()));
        proof {
            assert(term_chars@.map_values(|t: Vec<char>| t@) =~= before.map_values(|t: Vec<char>| t@).push(terms@[j as int]@));
            assert(tv.take(j + 1) =~= tv.take(j as int).push(terms@[j as int]@));
        }
        j = j + 1;
    }
    proof {
        assert(tv.take(terms@.len() as int) =~= tv);
    }
    let ghost lowered = lowercase_words(wv);
    let mut hit: usize = 0;
    let mut p: usize = 0;
    let mut found = false;
    proof {
        assert(first_hit_from(lowered, tv, 0) == first_hit_from(lowered, tv, p as int));
    }
    while p < words.len() && !found
        invariant
            wv == words@.map_values(|w: String| w@),
            lowered == lowercase_words(wv),
            words@.len() > 0,
            hit < words@.len(),
            term_chars@.map_values(|t: Vec<char>| t@) == tv,
            p <= words@.len(),
            found ==> p < words@.len() && hit == p && hits(lowered[p as int], tv),
            !found ==> hit == 0,
            first_hit_from(lowered, tv, 0) == first_hit_from(lowered, tv, p as int),
        decreases words@.len() - p + (if found { 0int } else { 1 }),
    {
        let lower = to_lowercase_str(words[p].as_str());
        let lower_chars = chars_of(lower.as_str());
        proof {
            assert(lower_chars@ == lowered[p as int]);
        }
        if word_hits(&lower_chars, &term_chars) {
            hit = p;
            found = true;
        } else {
            p = p + 1;
        }
    }
    proof {
        if !found {
            assert(first_hit_from(lowered, tv, p as int) == 0);
        }
        if found {
            assert(first_hit_from(lowered, tv, p as int) == p);
        }
        assert(first_hit_from(lowered, tv, 0) == hit);
    }
    let start: usize = if hit > 15 { hit - 15 } else { 0 };
    let end: usize = if words.len() - start > 30 { start + 30 } else { words.len() };
    let mut body = words[start].clone();
    let mut k: usize = start + 1;
    proof {
        assert(wv.subrange(start as int, k as int) =~= seq![wv[start as int]]);
    }
    while k < end
        invariant
            wv == words@.map_values(|w: String| w@),
            start < k <= end <= words@.len(),
            body@ == join_words(wv.subrange(start as int, k as int)),
        decreases end - k,
    {
        proof {
            reveal_strlit(" ");
            assert(wv.subrange(start as int, k + 1).drop_last() =~= wv.subrange(start as int, k as int));
        }
        body.append(" ");
        body.append(words[k].as_str());
        k = k + 1;
    }
    proof {
        assert(start as int == window_start(hit as int));
        assert(end as int == window_end(start as int, words@.len() as int));
    }
    let mut r = String::new();
    if start > 0 {
        r.append("... ");
    }
    r.append(body.as_str());
    if end < words.len() {
        r.append(" ...");
    }
    proof {
        reveal_strlit("... ");
        reveal_strlit(" ...");
        assert(r@ =~= spec_snippet(content@, tv));
    }
    r
}

} // verus!
