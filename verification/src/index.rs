//! The inverted index: for every term, the documents that contain it with
//! the term's frequency there; for every document, its length in tokens.

use vstd::prelude::*;
use std::collections::HashMap;
use crate::assoc::{
    assoc_map, has_key, keys_distinct, lemma_assoc_map, lemma_assoc_push, lemma_assoc_update, length_sum,
    lemma_length_sum_insert, lemma_length_sum_remove,
};
use crate::tokenizer::views;
use crate::order::{sort_term_stats, stat_view, stat_views, term_before};

verus! {

broadcast use vstd::std_specs::hash::group_hash_axioms;

/// The documents that contain one term, each with the term's frequency.
pub struct PostingList {
    pub term: String,
    pub entries: HashMap<u64, u32>,
}

/// The inverted index.
pub struct InvertedIndex {
    postings: Vec<PostingList>,
    doc_lengths: HashMap<u64, u32>,
    total_length: u64,
}

/// The abstract content of an index.
pub struct IndexView {
    /// term -> (document id -> term frequency)
    pub postings: Map<Seq<char>, Map<u64, u32>>,
    /// document id -> number of tokens
    pub lengths: Map<u64, u32>,
    /// the running total of the lengths of all added documents
    pub total_length: nat,
}

/// A posting list seen as a term and a map.
pub open spec fn posting_view(p: PostingList) -> (Seq<char>, Map<u64, u32>) {
    (p.term@, p.entries@)
}

/// The posting lists seen as an association list from terms to maps.
pub open spec fn posting_pairs(ps: Seq<PostingList>) -> Seq<(Seq<char>, Map<u64, u32>)> {
    ps.map_values(|p: PostingList| posting_view(p))
}

/// A posting map that is well formed: not empty, and every frequency at
/// least one.
pub open spec fn posting_ok(m: Map<u64, u32>) -> bool {
    &&& m.dom().finite()
    &&& m.dom().len() > 0
    &&& forall|d: u64| #[trigger] m.contains_key(d) ==> m[d] >= 1
}

/// How many times `t` occurs in `s`.
pub open spec fn occurrences(s: Seq<Seq<char>>, t: Seq<char>) -> nat
    decreases s.len(),
{
    if s.len() == 0 {
        0
    } else {
        occurrences(s.drop_last(), t) + if s.last() == t {
            1nat
        } else {
            0nat
        }
    }
}

/// The posting map of `t` before a document is added: empty for a new term.
pub open spec fn posting_or_empty(
    postings: Map<Seq<char>, Map<u64, u32>>,
    t: Seq<char>,
) -> Map<u64, u32> {
    if postings.contains_key(t) {
        postings[t]
    } else {
        Map::empty()
    }
}

/// The postings after document `doc_id` with `tokens` is added: every term
/// of the document maps the document to the term's number of occurrences;
/// every other posting is unchanged.
pub open spec fn added_postings(
    postings: Map<Seq<char>, Map<u64, u32>>,
    doc_id: u64,
    tokens: Seq<Seq<char>>,
) -> Map<Seq<char>, Map<u64, u32>> {
    Map::new(
        |t: Seq<char>| postings.contains_key(t) || occurrences(tokens, t) > 0,
        |t: Seq<char>|
            if occurrences(tokens, t) > 0 {
                posting_or_empty(postings, t).insert(doc_id, occurrences(tokens, t) as u32)
            } else {
                postings[t]
            },
    )
}

/// The postings after each term of `counts` maps `doc_id` to its count.
pub open spec fn counted_postings(
    postings: Map<Seq<char>, Map<u64, u32>>,
    doc_id: u64,
    counts: Map<Seq<char>, u32>,
) -> Map<Seq<char>, Map<u64, u32>> {
    Map::new(
        |t: Seq<char>| postings.contains_key(t) || counts.contains_key(t),
        |t: Seq<char>|
            if counts.contains_key(t) {
                posting_or_empty(postings, t).insert(doc_id, counts[t])
            } else {
                postings[t]
            },
    )
}

/// A vector of terms with counts seen as an association list.
pub open spec fn count_pairs(c: Seq<(String, u32)>) -> Seq<(Seq<char>, u32)> {
    c.map_values(|p: (String, u32)| (p.0@, p.1))
}

/// How often each token occurs, as a map from tokens to counts.
pub open spec fn token_counts(tokens: Seq<Seq<char>>) -> Map<Seq<char>, u32> {
    Map::new(
        |t: Seq<char>| occurrences(tokens, t) > 0,
        |t: Seq<char>| occurrences(tokens, t) as u32,
    )
}

/// Adding one more counted term to `counted_postings`.
pub proof fn lemma_counted_insert(
    postings: Map<Seq<char>, Map<u64, u32>>,
    doc_id: u64,
    counts: Map<Seq<char>, u32>,
    k: Seq<char>,
    v: u32,
)
    requires
        !counts.contains_key(k),
    ensures
        counted_postings(postings, doc_id, counts.insert(k, v)) == counted_postings(
            postings,
            doc_id,
            counts,
        ).insert(k, posting_or_empty(counted_postings(postings, doc_id, counts), k).insert(doc_id, v)),
{
    let a = counted_postings(postings, doc_id, counts.insert(k, v));
    let b = counted_postings(postings, doc_id, counts);
    assert(posting_or_empty(b, k) == posting_or_empty(postings, k));
    assert(a =~= b.insert(k, posting_or_empty(b, k).insert(doc_id, v)));
}

/// The postings after document `doc_id` is removed: the document leaves
/// every posting map, and a term whose map becomes empty is dropped.
pub open spec fn removed_postings(
    postings: Map<Seq<char>, Map<u64, u32>>,
    doc_id: u64,
) -> Map<Seq<char>, Map<u64, u32>> {
    Map::new(
        |t: Seq<char>|
            postings.contains_key(t) && exists|e: u64| #[trigger]
                postings[t].contains_key(e) && e != doc_id,
        |t: Seq<char>| postings[t].remove(doc_id),
    )
}

/// Removing from one more posting map.
pub proof fn lemma_removed_insert(
    postings: Map<Seq<char>, Map<u64, u32>>,
    doc_id: u64,
    t: Seq<char>,
    m: Map<u64, u32>,
)
    requires
        !postings.contains_key(t),
    ensures
        (exists|e: u64| #[trigger] m.contains_key(e) && e != doc_id) ==> removed_postings(
            postings.insert(t, m),
            doc_id,
        ) == removed_postings(postings, doc_id).insert(t, m.remove(doc_id)),
        !(exists|e: u64| #[trigger] m.contains_key(e) && e != doc_id) ==> removed_postings(
            postings.insert(t, m),
            doc_id,
        ) == removed_postings(postings, doc_id),
{
    let a = removed_postings(postings.insert(t, m), doc_id);
    let b = removed_postings(postings, doc_id);
    assert forall|u: Seq<char>| u != t implies (#[trigger] a.contains_key(u) <==> b.contains_key(u)) by {
        if a.contains_key(u) {
            let e = choose|e: u64| #[trigger] postings.insert(t, m)[u].contains_key(e) && e != doc_id;
            assert(postings[u].contains_key(e));
        }
        if b.contains_key(u) {
            let e = choose|e: u64| #[trigger] postings[u].contains_key(e) && e != doc_id;
            assert(postings.insert(t, m)[u].contains_key(e));
        }
    }
    if exists|e: u64| #[trigger] m.contains_key(e) && e != doc_id {
        let e = choose|e: u64| #[trigger] m.contains_key(e) && e != doc_id;
        assert(postings.insert(t, m)[t].contains_key(e));
        assert(a =~= b.insert(t, m.remove(doc_id)));
    } else {
        assert(!a.contains_key(t));
        assert(a =~= b);
    }
}

/// The statistic reported for term `t`: the term and its document frequency.
pub open spec fn term_stat(postings: Map<Seq<char>, Map<u64, u32>>, t: Seq<char>) -> (Seq<char>, usize) {
    (t, postings[t].dom().len() as usize)
}

/// `r` is the list of the `limit` first term statistics of the index in
/// `term_before` order: as long as `limit` allows, sorted, each entry the
/// statistic of an indexed term, and every term left out ranked after all
/// that are listed.
pub open spec fn top_terms_ensures(v: IndexView, limit: usize, r: Seq<(String, usize)>) -> bool {
    &&& r.len() == (if limit < v.postings.dom().len() {
        limit as int
    } else {
        v.postings.dom().len() as int
    })
    &&& forall|a: int|
        0 <= a < r.len() ==> v.postings.contains_key(#[trigger] r[a].0@) && stat_view(r[a])
            == term_stat(v.postings, r[a].0@)
    &&& forall|a: int, b: int| 0 <= a < b < r.len() ==> term_before(stat_view(r[a]), stat_view(r[b]))
    &&& forall|t: Seq<char>|
        #[trigger] v.postings.contains_key(t) && !(exists|a: int| 0 <= a < r.len() && r[a].0@ == t)
            ==> forall|a: int| 0 <= a < r.len() ==> term_before(#[trigger] stat_view(r[a]), term_stat(v.postings, t))
}

/// The index holds exactly the token lists `docs`: a document has a length
/// exactly when it has a list, and the length is the list's length (kept as
/// a `u32`); a term's posting map names a document exactly when the term
/// occurs in the document's list, with the number of occurrences (kept as a
/// `u32`) as frequency.
pub open spec fn index_matches(v: IndexView, docs: Map<u64, Seq<Seq<char>>>) -> bool {
    &&& forall|d: u64| #[trigger] v.lengths.contains_key(d) <==> docs.contains_key(d)
    &&& forall|d: u64|
        #[trigger] docs.contains_key(d) ==> v.lengths[d] == #[verifier::truncate] (docs[d].len() as u32)
    &&& forall|t: Seq<char>, d: u64|
        v.postings.contains_key(t) && #[trigger] v.postings[t].contains_key(d) ==> {
            &&& docs.contains_key(d)
            &&& occurrences(docs[d], t) > 0
            &&& v.postings[t][d] == #[verifier::truncate] (occurrences(docs[d], t) as u32)
        }
    &&& forall|t: Seq<char>, d: u64|
        #![trigger occurrences(docs[d], t)]
        docs.contains_key(d) && occurrences(docs[d], t) > 0 ==> v.postings.contains_key(t)
            && v.postings[t].contains_key(d)
}

/// Adding the token list of a new document keeps the index matching the
/// lists, with the new list added.
pub proof fn lemma_matches_after_add(
    v: IndexView,
    docs: Map<u64, Seq<Seq<char>>>,
    d: u64,
    tokens: Seq<Seq<char>>,
    after: IndexView,
)
    requires
        index_matches(v, docs),
        !docs.contains_key(d),
        after.postings == added_postings(v.postings, d, tokens),
        after.lengths == v.lengths.insert(d, #[verifier::truncate] (tokens.len() as u32)),
    ensures
        index_matches(after, docs.insert(d, tokens)),
{
    let nd = docs.insert(d, tokens);
    assert forall|e: u64| #[trigger] after.lengths.contains_key(e) <==> nd.contains_key(e) by {}
    assert forall|e: u64| #[trigger] nd.contains_key(e) implies after.lengths[e] == #[verifier::truncate] (
    nd[e].len() as u32) by {}
    assert forall|t: Seq<char>, e: u64|
        after.postings.contains_key(t) && #[trigger] after.postings[t].contains_key(e) implies {
        &&& nd.contains_key(e)
        &&& occurrences(nd[e], t) > 0
        &&& after.postings[t][e] == #[verifier::truncate] (occurrences(nd[e], t) as u32)
    } by {
        if occurrences(tokens, t) > 0 {
            if e != d {
                assert(posting_or_empty(v.postings, t).contains_key(e));
                assert(v.postings.contains_key(t) && v.postings[t].contains_key(e));
            }
        } else {
            assert(v.postings.contains_key(t) && v.postings[t].contains_key(e));
        }
    }
    assert forall|t: Seq<char>, e: u64|
        #![trigger occurrences(nd[e], t)]
        nd.contains_key(e) && occurrences(nd[e], t) > 0 implies after.postings.contains_key(t)
        && after.postings[t].contains_key(e) by {
        if e != d {
            assert(occurrences(docs[e], t) > 0);
            assert(v.postings.contains_key(t) && v.postings[t].contains_key(e));
        }
    }
}

/// Removing a document keeps the index matching the lists, with its list
/// removed.
pub proof fn lemma_matches_after_remove(
    v: IndexView,
    docs: Map<u64, Seq<Seq<char>>>,
    d: u64,
    after: IndexView,
)
    requires
        index_matches(v, docs),
        after.postings == removed_postings(v.postings, d),
        after.lengths == v.lengths.remove(d),
    ensures
        index_matches(after, docs.remove(d)),
{
    let nd = docs.remove(d);
    assert forall|e: u64| #[trigger] after.lengths.contains_key(e) <==> nd.contains_key(e) by {}
    assert forall|e: u64| #[trigger] nd.contains_key(e) implies after.lengths[e] == #[verifier::truncate] (
    nd[e].len() as u32) by {}
    assert forall|t: Seq<char>, e: u64|
        after.postings.contains_key(t) && #[trigger] after.postings[t].contains_key(e) implies {
        &&& nd.contains_key(e)
        &&& occurrences(nd[e], t) > 0
        &&& after.postings[t][e] == #[verifier::truncate] (occurrences(nd[e], t) as u32)
    } by {
        assert(v.postings.contains_key(t) && v.postings[t].contains_key(e));
    }
    assert forall|t: Seq<char>, e: u64|
        #![trigger occurrences(nd[e], t)]
        nd.contains_key(e) && occurrences(nd[e], t) > 0 implies after.postings.contains_key(t)
        && after.postings[t].contains_key(e) by {
        assert(occurrences(docs[e], t) > 0);
        assert(v.postings.contains_key(t) && v.postings[t].contains_key(e));
        assert(v.postings[t].contains_key(e) && e != d);
    }
}

/// A prefix has no more occurrences than the whole.
pub proof fn lemma_occurrences_prefix(s: Seq<Seq<char>>, i: int, t: Seq<char>)
    requires
        0 <= i <= s.len(),
    ensures
        occurrences(s.take(i), t) <= occurrences(s, t),
    decreases s.len(),
{
    if i < s.len() {
        assert(s.drop_last().take(i) =~= s.take(i));
        lemma_occurrences_prefix(s.drop_last(), i, t);
    } else {
        assert(s.take(i) =~= s);
    }
}

/// A term occurs in a sequence exactly when it is one of its elements.
pub proof fn lemma_occurrences_contains(s: Seq<Seq<char>>, t: Seq<char>)
    ensures
        occurrences(s, t) > 0 <==> s.contains(t),
        occurrences(s, t) <= s.len(),
    decreases s.len(),
{
    if s.len() > 0 {
        lemma_occurrences_contains(s.drop_last(), t);
        if s.drop_last().contains(t) {
            let j = choose|j: int| 0 <= j < s.drop_last().len() && s.drop_last()[j] == t;
            assert(s[j] == t);
        }
        if s.contains(t) && s.last() != t {
            let j = choose|j: int| 0 <= j < s.len() && s[j] == t;
            assert(s.drop_last()[j] == t);
        }
    }
}

impl View for InvertedIndex {
    type V = IndexView;

    closed spec fn view(&self) -> IndexView {
        IndexView {
            postings: assoc_map(posting_pairs(self.postings@)),
            lengths: self.doc_lengths@,
            total_length: self.total_length as nat,
        }
    }
}

/// The entries of one posting list are well formed against the lengths:
/// not empty, every frequency at least one, every document with a length.
pub open spec fn entries_ok(m: Map<u64, u32>, lengths: Map<u64, u32>) -> bool {
    &&& posting_ok(m)
    &&& forall|d: u64| #[trigger] m.contains_key(d) ==> lengths.contains_key(d)
}

impl InvertedIndex {
    /// The representation invariant.
    pub closed spec fn wf(&self) -> bool {
        &&& self.total_length >= length_sum(self.doc_lengths@)
        &&& keys_distinct(posting_pairs(self.postings@))
        &&& forall|i: int|
            0 <= i < self.postings@.len() ==> entries_ok(#[trigger] self.postings@[i].entries@, self.doc_lengths@)
    }

    /// What the invariant says of the view: every posting map is finite, not
    /// empty, has frequencies of at least one, and names only documents that
    /// have a length; no length exceeds the running total.
    pub proof fn lemma_view(&self)
        requires
            self.wf(),
        ensures
            self@.postings.dom().finite(),
            self@.lengths.dom().finite(),
            forall|t: Seq<char>| #[trigger]
                self@.postings.contains_key(t) ==> {
                    &&& posting_ok(self@.postings[t])
                    &&& self@.postings[t].dom().subset_of(self@.lengths.dom())
                },
            forall|d: u64| #[trigger]
                self@.lengths.contains_key(d) ==> self@.lengths[d] <= self@.total_length,
    {
        let pp = posting_pairs(self.postings@);
        lemma_assoc_map(pp);
        assert forall|t: Seq<char>| #[trigger] self@.postings.contains_key(t) implies {
            &&& posting_ok(self@.postings[t])
            &&& self@.postings[t].dom().subset_of(self@.lengths.dom())
        } by {
            let i = choose|i: int| 0 <= i < pp.len() && pp[i].0 == t;
            assert(pp[i] == posting_view(self.postings@[i]));
            assert(entries_ok(self.postings@[i].entries@, self.doc_lengths@));
        }
        assert forall|d: u64| #[trigger] self@.lengths.contains_key(d) implies self@.lengths[d]
            <= self@.total_length by {
            lemma_length_sum_remove(self.doc_lengths@, d);
        }
    }

    /// An empty index.
    pub fn new() -> (index: Self)
        ensures
            index.wf(),
            index@.postings == Map::<Seq<char>, Map<u64, u32>>::empty(),
            index@.lengths == Map::<u64, u32>::empty(),
            index@.total_length == 0,
    {
        let index = InvertedIndex { postings: Vec::new(), doc_lengths: HashMap::new(), total_length: 0 };
        proof {
            assert(posting_pairs(index.postings@) =~= Seq::empty());
            assert(length_sum(index.doc_lengths@) == 0);
        }
        index
    }

    /// Records document `doc_id` with its tokens: every token's posting list
    /// maps the document to the token's number of occurrences, and the
    /// document's length becomes the number of tokens (kept as a `u32`).
    pub fn add(&mut self, doc_id: u64, tokens: &[String])
        requires
            old(self).wf(),
            old(self)@.total_length + tokens@.len() <= u64::MAX,
            forall|t: Seq<char>| occurrences(views(tokens@), t) <= u32::MAX,
        ensures
            final(self).wf(),
            final(self)@.postings == added_postings(old(self)@.postings, doc_id, views(tokens@)),
            final(self)@.lengths == old(self)@.lengths.insert(doc_id, #[verifier::truncate] (tokens@.len() as u32)),
            final(self)@.total_length == old(self)@.total_length + tokens@.len(),
    {
        let counts = match count_tokens(tokens) {
            Some(counts) => counts,
            None => {
                proof {
                    let t = choose|t: Seq<char>| occurrences(views(tokens@), t) > u32::MAX;
                }
                return;
            },
        };
        let n = tokens.len();
        let length = #[verifier::truncate] (n as u32);
        assert(length <= n) by (bit_vector)
            requires
                length == n as u32,
        ;
        let ghost old_lengths = self.doc_lengths@;
        proof {
            lemma_length_sum_insert(old_lengths, doc_id, length);
        }
        self.doc_lengths.insert(doc_id, length);
        self.total_length = self.total_length + n as u64;
        proof {
            assert forall|i: int| 0 <= i < self.postings@.len() implies entries_ok(
                #[trigger] self.postings@[i].entries@,
                self.doc_lengths@,
            ) by {
                assert(entries_ok(self.postings@[i].entries@, old_lengths));
            }
            assert(counted_postings(self@.postings, doc_id, Map::empty()) =~= self@.postings);
        }
        let ghost p0 = self@.postings;
        let ghost cp = count_pairs(counts@);
        let mut j: usize = 0;
        while j < counts.len()
            invariant
                self.wf(),
                cp == count_pairs(counts@),
                keys_distinct(cp),
                forall|a: int| 0 <= a < counts@.len() ==> #[trigger] counts@[a].1 >= 1,
                j <= counts@.len(),
                self.doc_lengths@.contains_key(doc_id),
                self@.lengths == old(self)@.lengths.insert(doc_id, length),
                self@.total_length == old(self)@.total_length + n,
                self@.postings == counted_postings(p0, doc_id, assoc_map(cp.take(j as int))),
            decreases counts@.len() - j,
        {
            let term = counts[j].0.clone();
            let count = counts[j].1;
            let ghost before = self.postings@;
            let ghost pp = posting_pairs(before);
            let ghost cur = self@.postings;
            proof {
                assert(cp.take(j + 1) =~= cp.take(j as int).push(cp[j as int]));
                assert(cp[j as int] == (term@, count));
                assert(!has_key(cp.take(j as int), term@)) by {
                    if has_key(cp.take(j as int), term@) {
                        let a = choose|a: int| 0 <= a < j && cp.take(j as int)[a].0 == term@;
                        assert(cp[a].0 == cp[j as int].0);
                    }
                }
                assert(keys_distinct(cp.take(j as int)));
                lemma_assoc_map(cp.take(j as int));
                lemma_assoc_push(cp.take(j as int), (term@, count));
                lemma_counted_insert(p0, doc_id, assoc_map(cp.take(j as int)), term@, count);
                lemma_assoc_map(pp);
            }
            match self.find_term(&term) {
                Some(k) => {
                    let ghost old_entries = before[k as int].entries@;
                    proof {
                        assert(pp[k as int] == posting_view(before[k as int]));
                        assert(entries_ok(old_entries, self.doc_lengths@));
                    }
                    self.postings[k].entries.insert(doc_id, count);
                    proof {
                        let np = posting_view(self.postings@[k as int]);
                        assert(self.postings@[k as int].entries@ == old_entries.insert(doc_id, count));
                        assert(self.postings@ == before.update(k as int, self.postings@[k as int]));
                        assert(posting_pairs(self.postings@) =~= pp.update(k as int, (pp[k as int].0, np.1)));
                        lemma_assoc_update(pp, k as int, np.1);
                        assert(posting_or_empty(cur, term@) == cur[term@]);
                        assert(self.postings@[k as int].entries@.dom() =~= old_entries.dom().insert(doc_id));
                        assert forall|i: int| 0 <= i < self.postings@.len() implies entries_ok(
                            #[trigger] self.postings@[i].entries@,
                            self.doc_lengths@,
                        ) by {
                            if i != k {
                                assert(self.postings@[i] == before[i]);
                            }
                        }
                    }
                },
                None => {
                    let mut entries: HashMap<u64, u32> = HashMap::new();
                    entries.insert(doc_id, count);
                    proof {
                        assert(entries@ == Map::<u64, u32>::empty().insert(doc_id, count));
                        assert(entries@.dom() =~= Set::<u64>::empty().insert(doc_id));
                    }
                    let posting = PostingList { term, entries };
                    self.postings.push(posting);
                    proof {
                        assert(posting_pairs(self.postings@) =~= pp.push(posting_view(posting)));
                        lemma_assoc_push(pp, posting_view(posting));
                        assert(!cur.contains_key(term@));
                        assert(posting_or_empty(cur, term@) == Map::<u64, u32>::empty());
                        assert forall|i: int| 0 <= i < self.postings@.len() implies entries_ok(
                            #[trigger] self.postings@[i].entries@,
                            self.doc_lengths@,
                        ) by {
                            if i < before.len() {
                                assert(self.postings@[i] == before[i]);
                            }
                        }
                    }
                },
            }
            j = j + 1;
        }
        proof {
            assert(cp.take(counts@.len() as int) =~= cp);
            let toks = views(tokens@);
            assert(counted_postings(p0, doc_id, token_counts(toks)) =~= added_postings(p0, doc_id, toks));
        }
    }

    /// Forgets document `doc_id`: its length leaves the total, and it leaves
    /// every posting list; terms left without documents are dropped.
    pub fn remove(&mut self, doc_id: u64)
        requires
            old(self).wf(),
        ensures
            final(self).wf(),
            final(self)@.postings == removed_postings(old(self)@.postings, doc_id),
            final(self)@.lengths == old(self)@.lengths.remove(doc_id),
            final(self)@.total_length == old(self)@.total_length - (if old(
                self,
            )@.lengths.contains_key(doc_id) {
                old(self)@.lengths[doc_id] as int
            } else {
                0
            }),
    {
        let ghost old_lengths = self.doc_lengths@;
        proof {
            if old_lengths.contains_key(doc_id) {
                lemma_length_sum_remove(old_lengths, doc_id);
            } else {
                assert(old_lengths.remove(doc_id) =~= old_lengths);
            }
        }
        match self.doc_lengths.remove(&doc_id) {
            Some(length) => {
                self.total_length = self.total_length - length as u64;
            },
            None => {},
        }
        let ghost old_pp = posting_pairs(self.postings@);
        let ghost p0 = self.postings@;
        let mut kept: Vec<PostingList> = Vec::new();
        let mut i: usize = 0;
        proof {
            assert(old_pp.take(0) =~= Seq::<(Seq<char>, Map<u64, u32>)>::empty());
            assert(posting_pairs(kept@) =~= Seq::<(Seq<char>, Map<u64, u32>)>::empty());
            assert(removed_postings(Map::empty(), doc_id) =~= Map::<Seq<char>, Map<u64, u32>>::empty());
        }
        while i < self.postings.len()
            invariant
                self.postings@ == p0,
                old_pp == posting_pairs(p0),
                keys_distinct(old_pp),
                i <= p0.len(),
                self.doc_lengths@ == old_lengths.remove(doc_id),
                forall|a: int| 0 <= a < p0.len() ==> entries_ok(#[trigger] p0[a].entries@, old_lengths),
                keys_distinct(posting_pairs(kept@)),
                assoc_map(posting_pairs(kept@)) == removed_postings(
                    assoc_map(old_pp.take(i as int)),
                    doc_id,
                ),
                forall|a: int| 0 <= a < kept@.len() ==> entries_ok(#[trigger] kept@[a].entries@, self.doc_lengths@),
            decreases p0.len() - i,
        {
            let mut entries = self.postings[i].entries.clone();
            entries.remove(&doc_id);
            let ghost m = p0[i as int].entries@;
            let ghost a_map = assoc_map(old_pp.take(i as int));
            let ghost kp = posting_pairs(kept@);
            proof {
                assert(entries@ == m.remove(doc_id));
                assert(old_pp[i as int] == posting_view(p0[i as int]));
                assert(old_pp.take(i + 1) =~= old_pp.take(i as int).push(old_pp[i as int]));
                assert(keys_distinct(old_pp.take(i as int)));
                assert(!has_key(old_pp.take(i as int), p0[i as int].term@)) by {
                    if has_key(old_pp.take(i as int), p0[i as int].term@) {
                        let a = choose|a: int| 0 <= a < i && old_pp.take(i as int)[a].0 == p0[i as int].term@;
                        assert(old_pp[a].0 == old_pp[i as int].0);
                    }
                }
                lemma_assoc_map(old_pp.take(i as int));
                lemma_assoc_push(old_pp.take(i as int), old_pp[i as int]);
                lemma_removed_insert(a_map, doc_id, p0[i as int].term@, m);
                lemma_assoc_map(kp);
                assert(entries_ok(m, old_lengths));
            }
            if entries.len() > 0 {
                let term = self.postings[i].term.clone();
                let posting = PostingList { term, entries };
                let ghost before = kept@;
                kept.push(posting);
                proof {
                    assert(posting.entries@.dom().len() > 0);
                    let e0 = posting.entries@.dom().choose();
                    assert(posting.entries@.contains_key(e0));
                    assert(m.contains_key(e0) && e0 != doc_id);
                    assert(posting_pairs(kept@) =~= kp.push(posting_view(posting)));
                    assert(!has_key(kp, posting.term@)) by {
                        if has_key(kp, posting.term@) {
                            assert(assoc_map(kp).contains_key(posting.term@));
                        }
                    }
                    lemma_assoc_push(kp, posting_view(posting));
                    assert forall|a: int| 0 <= a < kept@.len() implies entries_ok(
                        #[trigger] kept@[a].entries@,
                        self.doc_lengths@,
                    ) by {
                        if a < before.len() {
                            assert(kept@[a] == before[a]);
                        }
                    }
                }
            } else {
                proof {
                    assert(!(exists|e: u64| #[trigger] m.contains_key(e) && e != doc_id)) by {
                        if exists|e: u64| #[trigger] m.contains_key(e) && e != doc_id {
                            let e = choose|e: u64| #[trigger] m.contains_key(e) && e != doc_id;
                            assert(entries@.contains_key(e));
                        }
                    }
                }
            }
            i = i + 1;
        }
        proof {
            assert(old_pp.take(p0.len() as int) =~= old_pp);
        }
        self.postings = kept;
    }

    /// The `limit` terms with the highest document frequency, each with that
    /// frequency; ties are broken by the term, in string order.
    pub fn top_terms(&self, limit: usize) -> (r: Vec<(String, usize)>)
        requires
            self.wf(),
        ensures
            top_terms_ensures(self@, limit, r@),
    {
        let ghost pp = posting_pairs(self.postings@);
        proof {
            lemma_assoc_map(pp);
        }
        let mut items: Vec<(String, usize)> = Vec::new();
        let mut i: usize = 0;
        while i < self.postings.len()
            invariant
                self.wf(),
                pp == posting_pairs(self.postings@),
                keys_distinct(pp),
                i <= self.postings@.len(),
                items@.len() == i,
                forall|a: int| 0 <= a < i ==> #[trigger] stat_view(items@[a]) == term_stat(assoc_map(pp), pp[a].0),
                forall|a: int| 0 <= a < i ==> (#[trigger] items@[a]).0@ == pp[a].0,
            decreases self.postings@.len() - i,
        {
            proof {
                assert(pp[i as int] == posting_view(self.postings@[i as int]));
                lemma_assoc_map(pp);
            }
            items.push((self.postings[i].term.clone(), self.postings[i].entries.len()));
            i = i + 1;
        }
        proof {
            assert forall|a: int, b: int|
                0 <= a < items@.len() && 0 <= b < items@.len() && a != b implies items@[a].0@
                != items@[b].0@ by {
                assert(items@[a].0@ == pp[a].0);
                assert(items@[b].0@ == pp[b].0);
            }
        }
        let mut sorted = sort_term_stats(&items);
        let ghost whole = sorted@;
        sorted.truncate(limit);
        proof {
            assert forall|a: int| 0 <= a < sorted@.len() implies self@.postings.contains_key(
                #[trigger] sorted@[a].0@,
            ) && stat_view(sorted@[a]) == term_stat(self@.postings, sorted@[a].0@) by {
                assert(sorted@[a] == whole[a]);
                assert(stat_views(items@).contains(stat_view(whole[a])));
                let c = choose|c: int| 0 <= c < items@.len() && stat_views(items@)[c] == stat_view(whole[a]);
                assert(stat_view(items@[c]) == stat_view(whole[a]));
                assert(has_key(pp, pp[c].0));
            }
            assert forall|t: Seq<char>|
                #[trigger] self@.postings.contains_key(t) && !(exists|a: int|
                    0 <= a < sorted@.len() && sorted@[a].0@ == t) implies forall|a: int|
                0 <= a < sorted@.len() ==> term_before(
                    #[trigger] stat_view(sorted@[a]),
                    term_stat(self@.postings, t),
                ) by {
                let c = choose|c: int| 0 <= c < pp.len() && pp[c].0 == t;
                assert(stat_view(items@[c]) == term_stat(self@.postings, t));
                assert(stat_views(whole).contains(stat_view(items@[c])));
                let w = choose|w: int| 0 <= w < whole.len() && stat_views(whole)[w] == stat_view(items@[c]);
                assert(stat_view(whole[w]) == term_stat(self@.postings, t));
                if w < sorted@.len() {
                    assert(sorted@[w] == whole[w]);
                    assert(sorted@[w].0@ == t);
                }
                assert forall|a: int| 0 <= a < sorted@.len() implies term_before(
                    #[trigger] stat_view(sorted@[a]),
                    term_stat(self@.postings, t),
                ) by {
                    assert(sorted@[a] == whole[a]);
                }
            }
        }
        sorted
    }

    /// The position of the posting list of `term`, if there is one.
    fn find_term(&self, term: &String) -> (r: Option<usize>)
        requires
            self.wf(),
        ensures
            match r {
                Some(i) => i < self.postings@.len() && self.postings@[i as int].term@ == term@,
                None => !has_key(posting_pairs(self.postings@), term@),
            },
    {
        let mut i: usize = 0;
        while i < self.postings.len()
            invariant
                i <= self.postings@.len(),
                forall|j: int| 0 <= j < i ==> self.postings@[j].term@ != term@,
            decreases self.postings@.len() - i,
        {
            if self.postings[i].term == *term {
                return Some(i);
            }
            i = i + 1;
        }
        proof {
            let pp = posting_pairs(self.postings@);
            if has_key(pp, term@) {
                let j = choose|j: int| 0 <= j < pp.len() && pp[j].0 == term@;
                assert(pp[j] == posting_view(self.postings@[j]));
            }
        }
        None
    }

    /// The posting map of a term: each document that contains it, with the
    /// term's frequency there.
    pub fn postings_for(&self, term: &str) -> (r: Option<&HashMap<u64, u32>>)
        requires
            self.wf(),
        ensures
            match r {
                Some(entries) => {
                    &&& self@.postings.contains_key(term@)
                    &&& entries@ == self@.postings[term@]
                },
                None => !self@.postings.contains_key(term@),
            },
    {
        let key = term.to_owned();
        proof {
            lemma_assoc_map(posting_pairs(self.postings@));
        }
        match self.find_term(&key) {
            Some(i) => {
                proof {
                    let pp = posting_pairs(self.postings@);
                    assert(pp[i as int] == posting_view(self.postings@[i as int]));
                }
                Some(&self.postings[i].entries)
            },
            None => None,
        }
    }

    /// The number of documents that contain `term`.
    pub fn document_frequency(&self, term: &str) -> (r: usize)
        requires
            self.wf(),
        ensures
            r == (if self@.postings.contains_key(term@) {
                self@.postings[term@].dom().len()
            } else {
                0
            }),
    {
        match self.postings_for(term) {
            Some(entries) => entries.len(),
            None => 0,
        }
    }

    /// The number of tokens of a document, or 0 for one that is not indexed.
    pub fn document_length(&self, doc_id: u64) -> (r: u32)
        requires
            self.wf(),
        ensures
            r == (if self@.lengths.contains_key(doc_id) {
                self@.lengths[doc_id]
            } else {
                0
            }),
    {
        match self.doc_lengths.get(&doc_id) {
            Some(length) => *length,
            None => 0,
        }
    }

    /// The number of indexed documents.
    pub fn document_count(&self) -> (r: usize)
        requires
            self.wf(),
        ensures
            r == self@.lengths.dom().len(),
    {
        self.doc_lengths.len()
    }

    /// The number of distinct terms.
    pub fn term_count(&self) -> (r: usize)
        requires
            self.wf(),
        ensures
            r == self@.postings.dom().len(),
    {
        proof {
            lemma_assoc_map(posting_pairs(self.postings@));
        }
        self.postings.len()
    }

    /// The total number of tokens added, less those of removed documents.
    pub fn total_length(&self) -> (r: u64)
        ensures
            r == self@.total_length,
    {
        self.total_length
    }
}

/// The distinct tokens of `tokens`, each with its number of occurrences, or
/// `None` when some token occurs more often than a `u32` can count.
pub fn count_tokens(tokens: &[String]) -> (r: Option<Vec<(String, u32)>>)
    ensures
        match r {
            Some(counts) => {
                &&& forall|t: Seq<char>| occurrences(views(tokens@), t) <= u32::MAX
                &&& keys_distinct(count_pairs(counts@))
                &&& assoc_map(count_pairs(counts@)) == token_counts(views(tokens@))
                &&& forall|j: int| 0 <= j < counts@.len() ==> #[trigger] counts@[j].1 >= 1
            },
            None => exists|t: Seq<char>| occurrences(views(tokens@), t) > u32::MAX,
        },
{
    let ghost toks = views(tokens@);
    let mut counts: Vec<(String, u32)> = Vec::new();
    let mut i: usize = 0;
    while i < tokens.len()
        invariant
            toks == views(tokens@),
            i <= tokens@.len(),
            keys_distinct(count_pairs(counts@)),
            forall|t: Seq<char>|
                #[trigger] has_key(count_pairs(counts@), t) <==> occurrences(toks.take(i as int), t)
                    > 0,
            forall|j: int|
                0 <= j < counts@.len() ==> #[trigger] counts@[j].1 == occurrences(
                    toks.take(i as int),
                    counts@[j].0@,
                ),
        decreases tokens@.len() - i,
    {
        let ghost prev = counts@;
        let ghost cp = count_pairs(prev);
        proof {
            assert(toks.take(i + 1).drop_last() =~= toks.take(i as int));
            assert(toks.take(i + 1).last() == tokens@[i as int]@);
            lemma_occurrences_prefix(toks, i + 1, tokens@[i as int]@);
        }
        let mut k: usize = 0;
        let mut found = false;
        while k < counts.len() && !found
            invariant
                counts@ == prev,
                k <= counts@.len(),
                i < tokens@.len(),
                forall|j: int| 0 <= j < k ==> counts@[j].0@ != tokens@[i as int]@,
                found ==> k < counts@.len() && counts@[k as int].0@ == tokens@[i as int]@,
            decreases counts@.len() - k + (if found { 0int } else { 1 }),
        {
            if counts[k].0 == tokens[i] {
                found = true;
            } else {
                k = k + 1;
            }
        }
        if found {
            let c = counts[k].1;
            assert(cp[k as int] == (counts@[k as int].0@, c));
            if c == u32::MAX {
                proof {
                    assert(occurrences(toks, tokens@[i as int]@) > u32::MAX);
                }
                return None;
            }
            counts[k].1 = c + 1;
            proof {
                assert(count_pairs(counts@) =~= cp.update(k as int, (cp[k as int].0, (c + 1) as u32)));
                assert forall|a: int, b: int|
                    0 <= a < count_pairs(counts@).len() && 0 <= b < count_pairs(counts@).len() && a
                        != b implies count_pairs(counts@)[a].0 != count_pairs(counts@)[b].0 by {
                    assert(cp[a].0 == count_pairs(counts@)[a].0);
                    assert(cp[b].0 == count_pairs(counts@)[b].0);
                }
                assert forall|t: Seq<char>|
                    #[trigger] has_key(count_pairs(counts@), t) <==> occurrences(
                        toks.take(i + 1),
                        t,
                    ) > 0 by {
                    if has_key(count_pairs(counts@), t) {
                        let j = choose|j: int|
                            0 <= j < count_pairs(counts@).len() && count_pairs(counts@)[j].0 == t;
                        assert(cp[j].0 == t);
                    }
                    if has_key(cp, t) {
                        let j = choose|j: int| 0 <= j < cp.len() && cp[j].0 == t;
                        assert(count_pairs(counts@)[j].0 == t);
                    }
                }
                assert forall|j: int| 0 <= j < counts@.len() implies #[trigger] counts@[j].1
                    == occurrences(toks.take(i + 1), counts@[j].0@) by {
                    if j != k {
                        assert(counts@[j] == prev[j]);
                        assert(cp[j].0 != cp[k as int].0);
                    }
                }
            }
        } else {
            counts.push((tokens[i].clone(), 1));
            proof {
                assert(count_pairs(counts@) =~= cp.push((tokens@[i as int]@, 1u32)));
                assert(!has_key(cp, tokens@[i as int]@)) by {
                    if has_key(cp, tokens@[i as int]@) {
                        let j = choose|j: int| 0 <= j < cp.len() && cp[j].0 == tokens@[i as int]@;
                        assert(prev[j].0@ == tokens@[i as int]@);
                    }
                }
                lemma_assoc_push(cp, (tokens@[i as int]@, 1u32));
                assert forall|t: Seq<char>|
                    #[trigger] has_key(count_pairs(counts@), t) <==> occurrences(
                        toks.take(i + 1),
                        t,
                    ) > 0 by {
                    if has_key(count_pairs(counts@), t) {
                        let j = choose|j: int|
                            0 <= j < count_pairs(counts@).len() && count_pairs(counts@)[j].0 == t;
                        if j < cp.len() {
                            assert(cp[j].0 == t);
                        }
                    }
                    if has_key(cp, t) {
                        let j = choose|j: int| 0 <= j < cp.len() && cp[j].0 == t;
                        assert(count_pairs(counts@)[j].0 == t);
                    }
                }
                assert forall|j: int| 0 <= j < counts@.len() implies #[trigger] counts@[j].1
                    == occurrences(toks.take(i + 1), counts@[j].0@) by {
                    if j < prev.len() {
                        assert(counts@[j] == prev[j]);
                        assert(cp[j].0 == prev[j].0@);
                        assert(has_key(cp, prev[j].0@));
                    }
                }
            }
        }
        i = i + 1;
    }
    proof {
        assert(toks.take(tokens@.len() as int) =~= toks);
        let cp = count_pairs(counts@);
        lemma_assoc_map(cp);
        assert forall|t: Seq<char>| #[trigger] assoc_map(cp).contains_key(t) implies assoc_map(cp)[t]
            == token_counts(toks)[t] by {
            let j = choose|j: int| 0 <= j < cp.len() && cp[j].0 == t;
            assert(cp[j] == (counts@[j].0@, counts@[j].1));
        }
        assert(assoc_map(cp) =~= token_counts(toks));
        assert forall|j: int| 0 <= j < counts@.len() implies #[trigger] counts@[j].1 >= 1 by {
            assert(cp[j].0 == counts@[j].0@);
            assert(has_key(cp, counts@[j].0@));
        }
        assert forall|t: Seq<char>| occurrences(toks, t) <= u32::MAX by {
            lemma_occurrences_contains(toks, t);
            if occurrences(toks, t) > 0 {
                assert(assoc_map(cp).contains_key(t));
            }
        }
    }
    Some(counts)
}

} // verus!
