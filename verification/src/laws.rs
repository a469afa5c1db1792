//! Properties of the engine that span several operations.

use vstd::prelude::*;
use vstd::multiset::Multiset;
use crate::api::{spec_preview, PREVIEW_CHARS};
use crate::engine::{deleted, engine_inv, hits_ensures, indexed, stored_ids, stored_tokens, EngineView, Hit};
use crate::index::{added_postings, index_matches, occurrences, posting_ok, removed_postings, IndexView, lemma_occurrences_contains};
use crate::order::ranks_before;
use crate::search::{contribution_views, contributions, ids_distinct, matches_query, plan_ensures, ranked, window_end, window_start, length_or_zero, QueryPlan};
use crate::text::{alphanumeric, white_space};
use crate::tokenizer::{
    all_ascii, law_ascii_token_is_its_own_query, law_tokenize_ignores_ascii_case, lemma_tokenize_no_alphanumeric,
    spec_tokenize, uppercase_ascii, views,
};
use crate::store::{replay, store_step, StoreOp, StoreView};
use crate::assoc::{length_sum, lemma_length_sum_insert, lemma_length_sum_remove};

verus! {

/// Deleting a document right after indexing it gives back the store's
/// documents and the index's postings and lengths as they were; the total
/// length comes back too unless the document had more tokens than a `u32`
/// holds.
pub proof fn law_delete_undoes_index(
    e: EngineView,
    id: u64,
    title: Seq<char>,
    content: Seq<char>,
    mid: EngineView,
    end: EngineView,
)
    requires
        engine_inv(e),
        indexed(e, id, title, content, mid),
        deleted(mid, id, end),
    ensures
        end.store.documents == e.store.documents,
        end.index.postings == e.index.postings,
        end.index.lengths == e.index.lengths,
        spec_tokenize(content).len() <= u32::MAX ==> end.index.total_length == e.index.total_length,
{
    let tokens = spec_tokenize(content);
    assert(!e.store.documents.contains_key(id));
    assert(!e.index.lengths.contains_key(id));
    assert(end.store.documents =~= e.store.documents);
    assert(end.index.lengths =~= e.index.lengths);
    let p = e.index.postings;
    let a = added_postings(p, id, tokens);
    let r = removed_postings(a, id);
    assert forall|t: Seq<char>| #[trigger] r.contains_key(t) <==> p.contains_key(t) by {
        if p.contains_key(t) {
            let q = p[t];
            assert(posting_ok(q));
            assert(!q.contains_key(id));
            assert(q.dom().len() > 0);
            let x = q.dom().choose();
            assert(q.contains_key(x));
            assert(a[t].contains_key(x));
        }
        if r.contains_key(t) && !p.contains_key(t) {
            assert(a[t] == Map::<u64, u32>::empty().insert(id, occurrences(tokens, t) as u32));
            let x = choose|x: u64| #[trigger] a[t].contains_key(x) && x != id;
        }
    }
    assert forall|t: Seq<char>| #[trigger] r.contains_key(t) implies r[t] == p[t] by {
        assert(!p[t].contains_key(id));
        assert(r[t] =~= p[t]);
    }
    assert(r =~= p);
    if tokens.len() <= u32::MAX {
        assert(mid.index.lengths[id] == tokens.len());
    }
}

/// A document that has just been indexed can be read back: it is stored
/// with its title and content under the id it received.
pub proof fn law_read_after_index(e: EngineView, id: u64, title: Seq<char>, content: Seq<char>, after: EngineView)
    requires
        indexed(e, id, title, content, after),
    ensures
        after.store.documents.contains_key(id),
        after.store.documents[id] == (title, content),
        after.index.lengths.contains_key(id),
{
}

/// Ids are handed out in sequence and never reused: the id a document
/// receives is not held by any stored document, and the next id grows.
pub proof fn law_ids_fresh(e: EngineView, id: u64, title: Seq<char>, content: Seq<char>, after: EngineView)
    requires
        engine_inv(e),
        indexed(e, id, title, content, after),
    ensures
        !e.store.documents.contains_key(id),
        forall|other: u64| #[trigger] e.store.documents.contains_key(other) ==> other < id,
        after.store.next_id == id + 1,
{
}

/// A term shared by a document and a query makes the document match the
/// query: documents and queries are tokenized alike.
pub proof fn law_shared_term_matches(
    e: EngineView,
    id: u64,
    title: Seq<char>,
    content: Seq<char>,
    after: EngineView,
    query: Seq<char>,
    t: Seq<char>,
)
    requires
        indexed(e, id, title, content, after),
        spec_tokenize(content).contains(t),
        spec_tokenize(query).contains(t),
    ensures
        matches_query(after.index, spec_tokenize(query), id),
{
    let tokens = spec_tokenize(content);
    lemma_occurrences_contains(tokens, t);
    let terms = spec_tokenize(query);
    let j = choose|j: int| 0 <= j < terms.len() && terms[j] == t;
    assert(after.index.postings.contains_key(terms[j]));
    assert(after.index.postings[terms[j]].contains_key(id));
}

/// A query without alphanumeric characters matches no document.
pub proof fn law_blank_query_matches_nothing(index: IndexView, query: Seq<char>, d: u64)
    requires
        forall|i: int| 0 <= i < query.len() ==> !alphanumeric(#[trigger] query[i]),
    ensures
        !matches_query(index, spec_tokenize(query), d),
{
    lemma_tokenize_no_alphanumeric(query);
}

/// A query made of ASCII white space (spaces, tabs, line breaks) matches no
/// document.
pub proof fn law_blank_ascii_query_matches_nothing(index: IndexView, query: Seq<char>, d: u64)
    requires
        forall|i: int| 0 <= i < query.len() ==> (#[trigger] query[i] as u32) < 128 && white_space(query[i]),
    ensures
        !matches_query(index, spec_tokenize(query), d),
{
    law_blank_query_matches_nothing(index, query, d);
}

/// No term is in more documents than the engine holds.
pub proof fn law_document_frequency_bounded(e: EngineView, t: Seq<char>)
    requires
        engine_inv(e),
        e.index.postings.contains_key(t),
    ensures
        1 <= e.index.postings[t].dom().len() <= e.index.lengths.dom().len(),
{
    let q = e.index.postings[t];
    assert(q.dom().subset_of(e.index.lengths.dom()));
    vstd::set_lib::lemma_len_subset(q.dom(), e.index.lengths.dom());
}

/// Every statistic handed to BM25 is in range: the term frequency is at
/// least one, and the document frequency is at least one and at most the
/// number of documents, so every inverse document frequency is positive.
pub proof fn law_contributions_in_range(e: EngineView, terms: Seq<Seq<char>>, d: u64)
    requires
        engine_inv(e),
    ensures
        forall|k: int|
            0 <= k < contributions(e.index, terms, d).len() ==> {
                &&& (#[trigger] contributions(e.index, terms, d)[k]).0 >= 1
                &&& 1 <= contributions(e.index, terms, d)[k].1 <= e.index.lengths.dom().len()
                &&& contributions(e.index, terms, d)[k].2 == length_or_zero(e.index.lengths, d)
            },
    decreases terms.len(),
{
    if terms.len() > 0 {
        law_contributions_in_range(e, terms.drop_last(), d);
        let t = terms.last();
        if e.index.postings.contains_key(t) && e.index.postings[t].contains_key(d) {
            law_document_frequency_bounded(e, t);
        }
        let c = contributions(e.index, terms, d);
        let rest = contributions(e.index, terms.drop_last(), d);
        assert forall|k: int| 0 <= k < c.len() implies {
            &&& (#[trigger] c[k]).0 >= 1
            &&& 1 <= c[k].1 <= e.index.lengths.dom().len()
            &&& c[k].2 == length_or_zero(e.index.lengths, d)
        } by {
            if k < rest.len() {
                assert(c[k] == rest[k]);
            }
        }
    }
}

/// After a delete, the document is in no posting list.
pub proof fn law_deleted_document_unlisted(e: EngineView, id: u64, after: EngineView, t: Seq<char>)
    requires
        deleted(e, id, after),
        after.index.postings.contains_key(t),
    ensures
        !after.index.postings[t].contains_key(id),
        !after.store.documents.contains_key(id),
{
}

/// The snippet window holds at most thirty words and, when a word matched,
/// that word.
pub proof fn law_snippet_window(hit: int, count: int)
    requires
        0 <= hit < count,
    ensures
        0 <= window_start(hit) <= hit < window_end(window_start(hit), count) <= count,
        window_end(window_start(hit), count) - window_start(hit) <= 30,
{
}

/// A preview is at most 160 characters of content and "...".
pub proof fn law_preview_length(content: Seq<char>)
    ensures
        spec_preview(content).len() <= PREVIEW_CHARS + 3,
{
}


/// An empty index has total length zero, the sum of no lengths.
pub proof fn law_empty_total()
    ensures
        length_sum(Map::<u64, u32>::empty()) == 0,
{
}

/// Indexing a document keeps the running total equal to the sum of the
/// document lengths, unless the document has more tokens than a `u32` holds.
pub proof fn law_total_after_index(
    e: EngineView,
    id: u64,
    title: Seq<char>,
    content: Seq<char>,
    after: EngineView,
)
    requires
        engine_inv(e),
        e.index.total_length == length_sum(e.index.lengths),
        indexed(e, id, title, content, after),
        spec_tokenize(content).len() <= u32::MAX,
    ensures
        after.index.total_length == length_sum(after.index.lengths),
{
    assert(!e.store.documents.contains_key(id));
    assert(!e.index.lengths.contains_key(id));
    lemma_length_sum_insert(e.index.lengths, id, spec_tokenize(content).len() as u32);
}

/// Deleting a document keeps the running total equal to the sum of the
/// document lengths.
pub proof fn law_total_after_delete(e: EngineView, id: u64, after: EngineView)
    requires
        engine_inv(e),
        e.index.total_length == length_sum(e.index.lengths),
        e.store.documents.contains_key(id),
        deleted(e, id, after),
    ensures
        after.index.total_length == length_sum(after.index.lengths),
{
    lemma_length_sum_remove(e.index.lengths, id);
}


/// On every engine, a stored document matches every query that shares a
/// token with its content.
pub proof fn law_stored_document_matches(e: EngineView, id: u64, query: Seq<char>, t: Seq<char>)
    requires
        engine_inv(e),
        e.store.documents.contains_key(id),
        spec_tokenize(e.store.documents[id].1).contains(t),
        spec_tokenize(query).contains(t),
    ensures
        matches_query(e.index, spec_tokenize(query), id),
{
    let docs = stored_tokens(e.store.documents);
    assert(docs.contains_key(id));
    assert(docs[id] == spec_tokenize(e.store.documents[id].1));
    lemma_occurrences_contains(docs[id], t);
    assert(occurrences(docs[id], t) > 0);
    let terms = spec_tokenize(query);
    let j = choose|j: int| 0 <= j < terms.len() && terms[j] == t;
    assert(e.index.postings.contains_key(terms[j]) && e.index.postings[terms[j]].contains_key(id));
}

/// On every engine, a query plan lists a document exactly when it is stored
/// and its content shares a token with the query: every stored document is
/// found by each of its terms, and only stored documents are found.
pub proof fn law_plan_finds_exactly(e: EngineView, query: Seq<char>, r: QueryPlan, id: u64)
    requires
        engine_inv(e),
        plan_ensures(e.store, e.index, query, r),
    ensures
        (exists|a: int| 0 <= a < r.candidates@.len() && r.candidates@[a].id == id) <==> (
        e.store.documents.contains_key(id) && exists|t: Seq<char>|
            spec_tokenize(e.store.documents[id].1).contains(t) && #[trigger] spec_tokenize(
                query,
            ).contains(t)),
{
    let terms = spec_tokenize(query);
    let docs = stored_tokens(e.store.documents);
    if exists|a: int| 0 <= a < r.candidates@.len() && r.candidates@[a].id == id {
        let a = choose|a: int| 0 <= a < r.candidates@.len() && r.candidates@[a].id == id;
        assert(e.store.documents.contains_key(r.candidates@[a].id));
        assert(matches_query(e.index, terms, id));
        let j = choose|j: int|
            0 <= j < terms.len() && #[trigger] e.index.postings.contains_key(terms[j])
                && e.index.postings[terms[j]].contains_key(id);
        assert(e.index.postings[terms[j]].contains_key(id));
        assert(occurrences(docs[id], terms[j]) > 0);
        lemma_occurrences_contains(docs[id], terms[j]);
        assert(terms.contains(terms[j]));
        assert(spec_tokenize(e.store.documents[id].1).contains(terms[j]));
    }
    if e.store.documents.contains_key(id) && exists|t: Seq<char>|
        spec_tokenize(e.store.documents[id].1).contains(t) && #[trigger] spec_tokenize(query).contains(t) {
        let t = choose|t: Seq<char>|
            spec_tokenize(e.store.documents[id].1).contains(t) && #[trigger] spec_tokenize(query).contains(t);
        law_stored_document_matches(e, id, query, t);
    }
}


proof fn lemma_ranked_agree(
    scored: Seq<(u64, u64)>,
    l1: int,
    l2: int,
    a: Seq<(u64, u64)>,
    b: Seq<(u64, u64)>,
    i: int,
)
    requires
        ids_distinct(scored),
        0 <= l1 <= l2,
        ranked(scored, l1, a),
        ranked(scored, l2, b),
        0 <= i <= a.len(),
    ensures
        forall|k: int| 0 <= k < i ==> a[k] == b[k],
    decreases i,
{
    if i > 0 {
        lemma_ranked_agree(scored, l1, l2, a, b, i - 1);
        let k = i - 1;
        let x = a[k];
        let y = b[k];
        assert(scored.contains(x));
        assert(scored.contains(y));
        if x != y {
            let p = choose|p: int| 0 <= p < scored.len() && scored[p] == x;
            let q = choose|q: int| 0 <= q < scored.len() && scored[q] == y;
            assert(x.1 != y.1);
            if ranks_before(x, y) {
                if !b.contains(x) {
                    assert(ranks_before(b[k], x));
                }
                let j = choose|j: int| 0 <= j < b.len() && b[j] == x;
                if j > k {
                    assert(ranks_before(b[k], b[j]));
                } else if j < k {
                    assert(a[j] == b[j]);
                    assert(ranks_before(a[j], a[k]));
                }
            } else {
                assert(ranks_before(y, x));
                if !a.contains(y) {
                    assert(ranks_before(a[k], y));
                }
                let j = choose|j: int| 0 <= j < a.len() && a[j] == y;
                if j > k {
                    assert(ranks_before(a[k], a[j]));
                } else if j < k {
                    assert(a[j] == b[j]);
                    assert(ranks_before(b[j], b[k]));
                }
            }
        }
    }
}

/// Ranking with a smaller limit gives a prefix of ranking with a larger
/// one; with equal limits the rankings are equal, so ranking is
/// deterministic, and a limit of 0 gives nothing.
pub proof fn law_rank_prefix(
    scored: Seq<(u64, u64)>,
    l1: int,
    l2: int,
    a: Seq<(u64, u64)>,
    b: Seq<(u64, u64)>,
)
    requires
        ids_distinct(scored),
        0 <= l1 <= l2,
        ranked(scored, l1, a),
        ranked(scored, l2, b),
    ensures
        a.len() == (if l1 < b.len() {
            l1
        } else {
            b.len() as int
        }),
        a == b.take(a.len() as int),
        l1 == l2 ==> a == b,
{
    lemma_ranked_agree(scored, l1, l2, a, b, a.len() as int);
    assert(a =~= b.take(a.len() as int));
    if l1 == l2 {
        assert(a =~= b);
    }
}


/// Two strictly increasing sequences with the same elements agree.
proof fn lemma_increasing_agree(s1: Seq<u64>, s2: Seq<u64>, i: int)
    requires
        forall|a: int, b: int| 0 <= a < b < s1.len() ==> s1[a] < s1[b],
        forall|a: int, b: int| 0 <= a < b < s2.len() ==> s2[a] < s2[b],
        forall|x: u64| s1.contains(x) <==> s2.contains(x),
        0 <= i <= s1.len(),
        i <= s2.len(),
    ensures
        forall|k: int| 0 <= k < i ==> s1[k] == s2[k],
    decreases i,
{
    if i > 0 {
        lemma_increasing_agree(s1, s2, i - 1);
        let k = i - 1;
        if s1[k] < s2[k] {
            assert(s1.contains(s1[k]));
            let j = choose|j: int| 0 <= j < s2.len() && s2[j] == s1[k];
            if j < k {
                assert(s1[j] == s2[j]);
            } else if j > k {
                assert(s2[k] < s2[j]);
            }
        } else if s2[k] < s1[k] {
            assert(s2.contains(s2[k]));
            let j = choose|j: int| 0 <= j < s1.len() && s1[j] == s2[k];
            if j < k {
                assert(s1[j] == s2[j]);
            } else if j > k {
                assert(s1[k] < s1[j]);
            }
        }
    }
}

/// Planning a query is deterministic: any two plans that meet `plan`'s
/// contract for the same store, index and query are equal in every value
/// BM25 reads.
pub proof fn law_plan_deterministic(
    store: StoreView,
    index: IndexView,
    query: Seq<char>,
    r1: QueryPlan,
    r2: QueryPlan,
)
    requires
        plan_ensures(store, index, query, r1),
        plan_ensures(store, index, query, r2),
    ensures
        views(r1.terms@) == views(r2.terms@),
        r1.document_count == r2.document_count,
        r1.total_length == r2.total_length,
        r1.candidates@.len() == r2.candidates@.len(),
        forall|a: int|
            0 <= a < r1.candidates@.len() ==> r1.candidates@[a].id == r2.candidates@[a].id
                && contribution_views(r1.candidates@[a].contributions@) == contribution_views(
                r2.candidates@[a].contributions@,
            ),
{
    let terms = spec_tokenize(query);
    let s1 = r1.candidates@.map_values(|c: crate::search::Candidate| c.id);
    let s2 = r2.candidates@.map_values(|c: crate::search::Candidate| c.id);
    assert forall|x: u64| s1.contains(x) <==> s2.contains(x) by {
        if s1.contains(x) {
            let a = choose|a: int| 0 <= a < s1.len() && s1[a] == x;
            assert(r1.candidates@[a].id == x);
            assert(store.documents.contains_key(x) && matches_query(index, terms, x));
            let b = choose|b: int| 0 <= b < r2.candidates@.len() && r2.candidates@[b].id == x;
            assert(s2[b] == x);
        }
        if s2.contains(x) {
            let a = choose|a: int| 0 <= a < s2.len() && s2[a] == x;
            assert(r2.candidates@[a].id == x);
            assert(store.documents.contains_key(x) && matches_query(index, terms, x));
            let b = choose|b: int| 0 <= b < r1.candidates@.len() && r1.candidates@[b].id == x;
            assert(s1[b] == x);
        }
    }
    let m = if s1.len() < s2.len() { s1.len() } else { s2.len() };
    lemma_increasing_agree(s1, s2, m as int);
    if s1.len() < s2.len() {
        assert(s2.contains(s2[m as int]));
        let j = choose|j: int| 0 <= j < s1.len() && s1[j] == s2[m as int];
        assert(s1[j] == s2[j]);
        assert(s2[j] < s2[m as int]);
    } else if s2.len() < s1.len() {
        assert(s1.contains(s1[m as int]));
        let j = choose|j: int| 0 <= j < s2.len() && s2[j] == s1[m as int];
        assert(s1[j] == s2[j]);
        assert(s1[j] < s1[m as int]);
    }
    assert forall|a: int| 0 <= a < r1.candidates@.len() implies r1.candidates@[a].id == r2.candidates@[a].id
        && contribution_views(r1.candidates@[a].contributions@) == contribution_views(
        r2.candidates@[a].contributions@,
    ) by {
        assert(s1[a] == s2[a]);
    }
    assert(views(r1.terms@) =~= views(r2.terms@));
}


/// Adding a new document to an index whose total is the sum of its lengths
/// keeps it so, unless the document has more tokens than a `u32` holds.
pub proof fn law_index_total_after_add(v: IndexView, d: u64, tokens: Seq<Seq<char>>, after: IndexView)
    requires
        v.lengths.dom().finite(),
        !v.lengths.contains_key(d),
        v.total_length == length_sum(v.lengths),
        tokens.len() <= u32::MAX,
        after.lengths == v.lengths.insert(d, tokens.len() as u32),
        after.total_length == v.total_length + tokens.len(),
    ensures
        after.total_length == length_sum(after.lengths),
{
    lemma_length_sum_insert(v.lengths, d, tokens.len() as u32);
}

/// Removing a document from an index whose total is the sum of its lengths
/// keeps it so.
pub proof fn law_index_total_after_remove(v: IndexView, d: u64, after: IndexView)
    requires
        v.lengths.dom().finite(),
        v.total_length == length_sum(v.lengths),
        after.lengths == v.lengths.remove(d),
        after.total_length == v.total_length - (if v.lengths.contains_key(d) {
            v.lengths[d] as int
        } else {
            0
        }),
    ensures
        after.total_length == length_sum(after.lengths),
{
    if v.lengths.contains_key(d) {
        lemma_length_sum_remove(v.lengths, d);
    } else {
        assert(v.lengths.remove(d) =~= v.lengths);
    }
}

/// Call `i` of `ops` inserted the document that got id `id`, and no later
/// call removed that id.
pub open spec fn live_insert(ops: Seq<StoreOp>, i: int, id: u64) -> bool {
    &&& 0 <= i < ops.len()
    &&& ops[i] is Insert
    &&& replay(ops.take(i)).next_id == id
    &&& forall|j: int| i < j < ops.len() ==> ops[j] != StoreOp::Remove(id)
}

proof fn lemma_replay_step(ops: Seq<StoreOp>, i: int)
    requires
        0 <= i < ops.len(),
    ensures
        replay(ops.take(i + 1)) == store_step(replay(ops.take(i)), ops[i]),
{
    assert(ops.take(i + 1).drop_last() =~= ops.take(i));
}

proof fn lemma_replay_next_grows(ops: Seq<StoreOp>, i: int, k: int)
    requires
        0 <= i < k <= ops.len(),
        ops[i] is Insert,
    ensures
        replay(ops.take(i)).next_id < replay(ops.take(k)).next_id,
    decreases k - i,
{
    lemma_replay_step(ops, k - 1);
    if k - 1 > i {
        lemma_replay_next_grows(ops, i, k - 1);
    } else {
        lemma_replay_step(ops, i);
    }
}

/// On a store built from a new one by any sequence of inserts and removes,
/// a document is present exactly when an insert gave it its id and no later
/// remove named that id; it then holds that insert's title and content.
/// (Ids are `u64`s: a store hands out ids below `u64::MAX` only.)
pub proof fn law_store_history(ops: Seq<StoreOp>, id: u64)
    requires
        replay(ops).next_id <= u64::MAX,
    ensures
        replay(ops).documents.contains_key(id) <==> exists|i: int| #[trigger] live_insert(ops, i, id),
        forall|i: int| #[trigger] live_insert(ops, i, id) ==> (ops[i] matches StoreOp::Insert(title, content)
            && replay(ops).documents[id] == (title, content)),
    decreases ops.len(),
{
    if ops.len() > 0 {
        let n = ops.len() - 1;
        let prev = ops.drop_last();
        assert(replay(ops) == store_step(replay(prev), ops[n]));
        law_store_history(prev, id);
        assert(ops.take(n) =~= prev);
        assert forall|i: int| 0 <= i < n implies (#[trigger] live_insert(ops, i, id) <==> (live_insert(prev, i, id)
            && ops[n] != StoreOp::Remove(id))) by {
            assert(ops.take(i) =~= prev.take(i));
            if live_insert(prev, i, id) && ops[n] != StoreOp::Remove(id) {
                assert forall|j: int| i < j < ops.len() implies ops[j] != StoreOp::Remove(id) by {
                    if j < n {
                        assert(ops[j] == prev[j]);
                    }
                }
            }
            if live_insert(ops, i, id) {
                assert forall|j: int| i < j < prev.len() implies prev[j] != StoreOp::Remove(id) by {
                    assert(ops[j] == prev[j]);
                }
            }
        }
        assert(replay(ops) == store_step(replay(prev), ops[n]));
        match ops[n] {
            StoreOp::Insert(title, content) => {
                let next = replay(prev).next_id;
                assert(replay(ops).documents == replay(prev).documents.insert(next as u64, (title, content)));
                if id == next {
                    assert(live_insert(ops, n, id));
                    assert forall|i: int| #[trigger] live_insert(ops, i, id) implies i == n by {
                        if i < n {
                            lemma_replay_next_grows(ops, i, n);
                        }
                    }
                    assert(replay(ops).documents.contains_key(id));
                    assert(replay(ops).documents[id] == (title, content));
                } else {
                    assert(!live_insert(ops, n, id));
                    assert(replay(ops).documents.contains_key(id) == replay(prev).documents.contains_key(id));
                    if exists|i: int| #[trigger] live_insert(prev, i, id) {
                        let i = choose|i: int| #[trigger] live_insert(prev, i, id);
                        assert(live_insert(ops, i, id));
                    }
                    if exists|i: int| #[trigger] live_insert(ops, i, id) {
                        let i = choose|i: int| #[trigger] live_insert(ops, i, id);
                        assert(live_insert(prev, i, id));
                    }
                    assert forall|i: int| #[trigger] live_insert(ops, i, id) implies (ops[i] matches StoreOp::Insert(
                        t,
                        c,
                    ) && replay(ops).documents[id] == (t, c)) by {
                        assert(live_insert(prev, i, id));
                        assert(ops[i] == prev[i]);
                    }
                }
            },
            StoreOp::Remove(r) => {
                assert(replay(ops).documents == replay(prev).documents.remove(r));
                assert(!live_insert(ops, n, id));
                if id != r {
                    if exists|i: int| #[trigger] live_insert(prev, i, id) {
                        let i = choose|i: int| #[trigger] live_insert(prev, i, id);
                        assert(live_insert(ops, i, id));
                    }
                    if exists|i: int| #[trigger] live_insert(ops, i, id) {
                        let i = choose|i: int| #[trigger] live_insert(ops, i, id);
                        assert(live_insert(prev, i, id));
                    }
                    assert forall|i: int| #[trigger] live_insert(ops, i, id) implies (ops[i] matches StoreOp::Insert(
                        t,
                        c,
                    ) && replay(ops).documents[id] == (t, c)) by {
                        assert(live_insert(prev, i, id));
                        assert(ops[i] == prev[i]);
                    }
                } else {
                    assert forall|i: int| #[trigger] live_insert(ops, i, id) implies false by {}
                }
            },
        }
    }
}

/// How often each term occurs in a sequence is what its multiset counts.
proof fn lemma_occurrences_multiset(s: Seq<Seq<char>>, t: Seq<char>)
    ensures
        occurrences(s, t) == s.to_multiset().count(t),
    decreases s.len(),
{
    broadcast use vstd::seq_lib::group_to_multiset_ensures;
    if s.len() == 0 {
        assert(s.to_multiset() =~= Multiset::empty());
    } else {
        lemma_occurrences_multiset(s.drop_last(), t);
        assert(s.drop_last().push(s.last()) =~= s);
    }
}

/// The frequencies of document `d`: each term whose posting names `d`,
/// counted as often as the posting says.
pub open spec fn frequency_counts(v: IndexView, d: u64) -> Map<Seq<char>, nat> {
    Map::new(
        |t: Seq<char>| v.postings.contains_key(t) && v.postings[t].contains_key(d),
        |t: Seq<char>| v.postings[t][d] as nat,
    )
}

/// On an index that holds the token lists `docs`, the frequencies of a
/// document add up to its length: its terms, each counted as often as its
/// frequency says, are as many as the document's tokens.
pub proof fn law_frequencies_sum_to_length(v: IndexView, docs: Map<u64, Seq<Seq<char>>>, d: u64)
    requires
        index_matches(v, docs),
        v.postings.dom().finite(),
        docs.contains_key(d),
        docs[d].len() <= u32::MAX,
    ensures
        Multiset::from_map(frequency_counts(v, d)).len() == v.lengths[d],
{
    broadcast use vstd::seq_lib::group_to_multiset_ensures;
    let counts = frequency_counts(v, d);
    let tokens = docs[d];
    assert(counts.dom() =~= v.postings.dom().intersect(counts.dom()));
    assert(counts.dom().finite());
    assert forall|t: Seq<char>| Multiset::from_map(counts).count(t) == #[trigger] tokens.to_multiset().count(t) by {
        lemma_occurrences_multiset(tokens, t);
        lemma_occurrences_contains(tokens, t);
        if counts.dom().contains(t) {
            assert(v.postings[t][d] == #[verifier::truncate] (occurrences(tokens, t) as u32));
        } else if occurrences(tokens, t) > 0 {
            assert(v.postings.contains_key(t) && v.postings[t].contains_key(d));
        }
    }
    assert(Multiset::from_map(counts) =~= tokens.to_multiset());
}

/// On every engine, the frequencies of a stored document add up to its
/// length (for a document of at most `u32::MAX` tokens, which is what a
/// length holds).
pub proof fn law_engine_frequencies_sum_to_length(e: EngineView, id: u64)
    requires
        engine_inv(e),
        e.store.documents.contains_key(id),
        spec_tokenize(e.store.documents[id].1).len() <= u32::MAX,
    ensures
        Multiset::from_map(frequency_counts(e.index, id)).len() == e.index.lengths[id],
{
    law_frequencies_sum_to_length(e.index, stored_tokens(e.store.documents), id);
}

/// Removing a document right after adding it to an index that did not
/// hold it gives back the postings and lengths as they were, and the total
/// too unless the document had more tokens than a `u32` holds.
pub proof fn law_index_remove_undoes_add(
    v: IndexView,
    d: u64,
    tokens: Seq<Seq<char>>,
    mid: IndexView,
    end: IndexView,
)
    requires
        forall|t: Seq<char>| #[trigger] v.postings.contains_key(t) ==> posting_ok(v.postings[t])
            && !v.postings[t].contains_key(d),
        !v.lengths.contains_key(d),
        mid.postings == added_postings(v.postings, d, tokens),
        mid.lengths == v.lengths.insert(d, #[verifier::truncate] (tokens.len() as u32)),
        mid.total_length == v.total_length + tokens.len(),
        end.postings == removed_postings(mid.postings, d),
        end.lengths == mid.lengths.remove(d),
        end.total_length == mid.total_length - mid.lengths[d],
    ensures
        end.postings == v.postings,
        end.lengths == v.lengths,
        tokens.len() <= u32::MAX ==> end.total_length == v.total_length,
{
    assert(end.lengths =~= v.lengths);
    let p = v.postings;
    let a = added_postings(p, d, tokens);
    let r = removed_postings(a, d);
    assert forall|t: Seq<char>| #[trigger] r.contains_key(t) <==> p.contains_key(t) by {
        if p.contains_key(t) {
            let q = p[t];
            assert(posting_ok(q));
            assert(q.dom().len() > 0);
            let x = q.dom().choose();
            assert(q.contains_key(x));
            assert(a[t].contains_key(x));
        }
        if r.contains_key(t) && !p.contains_key(t) {
            assert(a[t] == Map::<u64, u32>::empty().insert(d, occurrences(tokens, t) as u32));
            let x = choose|x: u64| #[trigger] a[t].contains_key(x) && x != d;
        }
    }
    assert forall|t: Seq<char>| #[trigger] r.contains_key(t) implies r[t] == p[t] by {
        assert(!p[t].contains_key(d));
        assert(r[t] =~= p[t]);
    }
    assert(r =~= p);
    if tokens.len() <= u32::MAX {
        assert(mid.lengths[d] == tokens.len());
    }
}

/// Every indexed document's frequencies add up to its length.
pub open spec fn frequencies_match_lengths(v: IndexView) -> bool {
    forall|d: u64| #[trigger] v.lengths.contains_key(d) ==> Multiset::from_map(frequency_counts(v, d)).len()
        == v.lengths[d]
}

/// Adding a new document to an index whose documents' frequencies add up
/// to their lengths keeps it so (for a document of at most `u32::MAX`
/// tokens, which is what a length holds).
pub proof fn law_frequencies_after_add(v: IndexView, d: u64, tokens: Seq<Seq<char>>, after: IndexView)
    requires
        v.postings.dom().finite(),
        forall|t: Seq<char>| #[trigger] v.postings.contains_key(t) ==> !v.postings[t].contains_key(d),
        !v.lengths.contains_key(d),
        frequencies_match_lengths(v),
        tokens.len() <= u32::MAX,
        after.postings == added_postings(v.postings, d, tokens),
        after.lengths == v.lengths.insert(d, tokens.len() as u32),
    ensures
        frequencies_match_lengths(after),
{
    broadcast use vstd::seq_lib::group_to_multiset_ensures;
    assert forall|e: u64| #[trigger] after.lengths.contains_key(e) implies Multiset::from_map(
        frequency_counts(after, e),
    ).len() == after.lengths[e] by {
        if e == d {
            let counts = frequency_counts(after, d);
            assert forall|t: Seq<char>| counts.contains_key(t) <==> #[trigger] tokens.to_multiset().count(t) > 0 by {
                lemma_occurrences_multiset(tokens, t);
            }
            assert(counts.dom() =~= tokens.to_multiset().dom());
            assert(counts.dom().finite());
            assert forall|t: Seq<char>| Multiset::from_map(counts).count(t) == #[trigger] tokens.to_multiset().count(t) by {
                lemma_occurrences_multiset(tokens, t);
                lemma_occurrences_contains(tokens, t);
                if counts.dom().contains(t) {
                    assert(after.postings[t][d] == occurrences(tokens, t) as u32);
                }
            }
            assert(Multiset::from_map(counts) =~= tokens.to_multiset());
        } else {
            assert(frequency_counts(after, e) =~= frequency_counts(v, e));
        }
    }
}

/// Planning ignores the case of ASCII letters: the plans of an ASCII query
/// and of its uppercase are equal in every value BM25 reads.
pub proof fn law_plan_ignores_ascii_case(
    store: StoreView,
    index: IndexView,
    query: Seq<char>,
    r1: QueryPlan,
    r2: QueryPlan,
)
    requires
        all_ascii(query),
        plan_ensures(store, index, uppercase_ascii(query), r1),
        plan_ensures(store, index, query, r2),
    ensures
        views(r1.terms@) == views(r2.terms@),
        r1.document_count == r2.document_count,
        r1.total_length == r2.total_length,
        r1.candidates@.len() == r2.candidates@.len(),
        forall|a: int|
            0 <= a < r1.candidates@.len() ==> r1.candidates@[a].id == r2.candidates@[a].id
                && contribution_views(r1.candidates@[a].contributions@) == contribution_views(
                r2.candidates@[a].contributions@,
            ),
{
    law_tokenize_ignores_ascii_case(query);
    assert(plan_ensures(store, index, query, r1));
    law_plan_deterministic(store, index, query, r1, r2);
}

/// On every engine, a stored document with ASCII content is found by the
/// query made of any one of its own tokens.
pub proof fn law_own_token_finds_document(e: EngineView, id: u64, t: Seq<char>, r: QueryPlan)
    requires
        engine_inv(e),
        e.store.documents.contains_key(id),
        all_ascii(e.store.documents[id].1),
        spec_tokenize(e.store.documents[id].1).contains(t),
        plan_ensures(e.store, e.index, t, r),
    ensures
        exists|a: int| 0 <= a < r.candidates@.len() && r.candidates@[a].id == id,
{
    law_ascii_token_is_its_own_query(e.store.documents[id].1, t);
    assert(spec_tokenize(t)[0] == t);
    assert(spec_tokenize(t).contains(t));
    law_plan_finds_exactly(e, t, r, id);
}

proof fn lemma_stored_ids_append(
    a: Seq<(u64, u64)>,
    c: Seq<(u64, u64)>,
    documents: Map<u64, (Seq<char>, Seq<char>)>,
)
    ensures
        stored_ids(a + c, documents) == stored_ids(a, documents) + stored_ids(c, documents),
    decreases c.len(),
{
    if c.len() == 0 {
        assert(a + c =~= a);
        assert(stored_ids(a, documents) + Seq::<u64>::empty() =~= stored_ids(a, documents));
    } else {
        assert((a + c).drop_last() =~= a + c.drop_last());
        assert((a + c).last() == c.last());
        lemma_stored_ids_append(a, c.drop_last(), documents);
        let x = stored_ids(a, documents);
        let y = stored_ids(c.drop_last(), documents);
        assert((x + y).push(c.last().1) =~= x + y.push(c.last().1));
    }
}

/// The hits for a shorter ranking that is a prefix of a longer one are a
/// prefix of the longer one's hits: with `law_rank_prefix`, a search with
/// a smaller limit gives the first results of one with a larger limit.
pub proof fn law_hits_prefix(
    documents: Map<u64, (Seq<char>, Seq<char>)>,
    terms: Seq<Seq<char>>,
    short: Seq<(u64, u64)>,
    long: Seq<(u64, u64)>,
    h1: Seq<Hit>,
    h2: Seq<Hit>,
)
    requires
        short.len() <= long.len(),
        short == long.take(short.len() as int),
        hits_ensures(documents, short, terms, h1),
        hits_ensures(documents, long, terms, h2),
    ensures
        h1.len() <= h2.len(),
        forall|i: int| 0 <= i < h1.len() ==> h1[i].id == h2[i].id && h1[i].title@ == h2[i].title@
            && h1[i].snippet@ == h2[i].snippet@,
{
    let rest = long.skip(short.len() as int);
    assert(long =~= short + rest);
    lemma_stored_ids_append(short, rest, documents);
    let x = stored_ids(short, documents);
    assert forall|i: int| 0 <= i < h1.len() implies h1[i].id == h2[i].id && h1[i].title@ == h2[i].title@
        && h1[i].snippet@ == h2[i].snippet@ by {
        assert(stored_ids(long, documents)[i] == x[i]);
    }
}

} // verus!
