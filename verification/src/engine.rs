//! The search engine: a document store and an inverted index kept in step.

use vstd::prelude::*;
use crate::document::Document;
use crate::index::{
    added_postings, count_tokens, index_matches, lemma_matches_after_add, lemma_matches_after_remove,
    occurrences, posting_ok, removed_postings, IndexView, InvertedIndex,
};
use crate::search::{plan, snippet, spec_snippet, QueryPlan, plan_ensures};
use crate::store::{DocumentStore, StoreView};
use crate::tokenizer::{spec_tokenize, tokenize, views};

verus! {

/// Counts that describe an index, and its most frequent terms.
pub struct IndexStats {
    pub document_count: usize,
    pub term_count: usize,
    pub total_length: u64,
    pub top_terms: Vec<(String, usize)>,
}

/// One search result before scoring: a document's id, title and snippet.
pub struct Hit {
    pub id: u64,
    pub title: String,
    pub snippet: String,
}

/// The ids of a ranking, in order, that name stored documents.
pub open spec fn stored_ids(ranked: Seq<(u64, u64)>, documents: Map<u64, (Seq<char>, Seq<char>)>) -> Seq<u64>
    decreases ranked.len(),
{
    if ranked.len() == 0 {
        Seq::empty()
    } else {
        let rest = stored_ids(ranked.drop_last(), documents);
        if documents.contains_key(ranked.last().1) {
            rest.push(ranked.last().1)
        } else {
            rest
        }
    }
}

/// The hits for a ranking: for each stored id of `ranked`, in order, the
/// document's id, title, and snippet of its content for `terms`.
pub open spec fn hits_ensures(
    documents: Map<u64, (Seq<char>, Seq<char>)>,
    ranked: Seq<(u64, u64)>,
    terms: Seq<Seq<char>>,
    r: Seq<Hit>,
) -> bool {
    let ids = stored_ids(ranked, documents);
    &&& r.len() == ids.len()
    &&& forall|a: int|
        0 <= a < r.len() ==> {
            &&& (#[trigger] r[a]).id == ids[a]
            &&& r[a].title@ == documents[ids[a]].0
            &&& r[a].snippet@ == spec_snippet(documents[ids[a]].1, terms)
        }
}

/// The search engine.
pub struct SearchEngine {
    store: DocumentStore,
    index: InvertedIndex,
}

/// The abstract content of an engine.
pub struct EngineView {
    pub store: StoreView,
    pub index: IndexView,
}

impl View for SearchEngine {
    type V = EngineView;

    closed spec fn view(&self) -> EngineView {
        EngineView { store: self.store@, index: self.index@ }
    }
}

/// Whether document `content` can be indexed in an engine in state `e`
/// without an arithmetic overflow: the next id, the running total of
/// lengths and every token's count stay in range.
pub open spec fn indexable(e: EngineView, content: Seq<char>) -> bool {
    &&& e.store.next_id < u64::MAX
    &&& e.index.total_length + spec_tokenize(content).len() <= u64::MAX
    &&& forall|t: Seq<char>| occurrences(spec_tokenize(content), t) <= u32::MAX
}

/// The token list of every stored document.
pub open spec fn stored_tokens(documents: Map<u64, (Seq<char>, Seq<char>)>) -> Map<u64, Seq<Seq<char>>> {
    Map::new(|d: u64| documents.contains_key(d), |d: u64| spec_tokenize(documents[d].1))
}

/// What holds of every engine: stored and indexed documents are the same,
/// their ids lie between 1 and the next id, every posting map is finite,
/// not empty, has frequencies of at least one and names only stored
/// documents, and the index holds exactly the tokens of the stored contents
/// (`index_matches`).
pub open spec fn engine_inv(e: EngineView) -> bool {
    &&& index_matches(e.index, stored_tokens(e.store.documents))
    &&& e.store.documents.dom().finite()
    &&& e.index.lengths.dom().finite()
    &&& e.index.postings.dom().finite()
    &&& forall|id: u64| #[trigger] e.store.documents.contains_key(id) <==> e.index.lengths.contains_key(id)
    &&& forall|id: u64| #[trigger] e.store.documents.contains_key(id) ==> 1 <= id < e.store.next_id
    &&& forall|t: Seq<char>| #[trigger] e.index.postings.contains_key(t) ==> {
        &&& posting_ok(e.index.postings[t])
        &&& e.index.postings[t].dom().subset_of(e.store.documents.dom())
    }
}

/// `after` is engine `e` once document `id`, which was stored, has been
/// deleted: it leaves the store and the index, and its length leaves the
/// total.
pub open spec fn deleted(e: EngineView, id: u64, after: EngineView) -> bool {
    &&& after.store.documents == e.store.documents.remove(id)
    &&& after.store.next_id == e.store.next_id
    &&& after.index.postings == removed_postings(e.index.postings, id)
    &&& after.index.lengths == e.index.lengths.remove(id)
    &&& after.index.total_length == e.index.total_length - e.index.lengths[id]
}

/// `after` is engine `e` once a document with `title` and `content` has
/// been indexed under id `id`: the next id, stored, and its tokens added to
/// the index.
pub open spec fn indexed(e: EngineView, id: u64, title: Seq<char>, content: Seq<char>, after: EngineView) -> bool {
    let tokens = spec_tokenize(content);
    &&& id == e.store.next_id
    &&& after.store.documents == e.store.documents.insert(id, (title, content))
    &&& after.store.next_id == e.store.next_id + 1
    &&& after.index.postings == added_postings(e.index.postings, id, tokens)
    &&& after.index.lengths == e.index.lengths.insert(id, #[verifier::truncate] (tokens.len() as u32))
    &&& after.index.total_length == e.index.total_length + tokens.len()
}

impl SearchEngine {
    /// The invariant: both parts are well formed and hold the same documents,
    /// and the index holds exactly the tokens of the stored contents.
    pub closed spec fn wf(&self) -> bool {
        &&& self.store.wf()
        &&& self.index.wf()
        &&& index_matches(self@.index, stored_tokens(self@.store.documents))
        &&& forall|id: u64| #[trigger] self@.store.documents.contains_key(id) <==> self@.index.lengths.contains_key(id)
    }

    /// The invariant of the engine holds of its view.
    pub proof fn lemma_view(&self)
        requires
            self.wf(),
        ensures
            engine_inv(self@),
    {
        self.store.lemma_view();
        self.index.lemma_view();
        assert forall|t: Seq<char>| #[trigger] self@.index.postings.contains_key(t) implies
            self@.index.postings[t].dom().subset_of(self@.store.documents.dom()) by {
            assert forall|id: u64| #[trigger] self@.index.postings[t].contains_key(id) implies
                self@.store.documents.contains_key(id) by {
                assert(self@.index.lengths.contains_key(id));
            }
        }
    }

    /// An empty engine.
    pub fn new() -> (engine: Self)
        ensures
            engine.wf(),
            engine@.store.documents == Map::<u64, (Seq<char>, Seq<char>)>::empty(),
            engine@.store.next_id == 1,
            engine@.index.postings == Map::<Seq<char>, Map<u64, u32>>::empty(),
            engine@.index.lengths == Map::<u64, u32>::empty(),
            engine@.index.total_length == 0,
    {
        let engine = SearchEngine { store: DocumentStore::new(), index: InvertedIndex::new() };
        proof {
            assert(stored_tokens(engine@.store.documents) =~= Map::<u64, Seq<Seq<char>>>::empty());
        }
        engine
    }

    fn index_tokens(&mut self, title: String, content: String, tokens: Vec<String>) -> (document: Document)
        requires
            old(self).wf(),
            views(tokens@) == spec_tokenize(content@),
            indexable(old(self)@, content@),
        ensures
            final(self).wf(),
            document.title@ == title@,
            document.content@ == content@,
            indexed(old(self)@, document.id, title@, content@, final(self)@),
    {
        proof {
            self.lemma_view();
            assert(tokens@.len() == views(tokens@).len());
        }
        let ghost docs0 = self@.store.documents;
        let ghost index0 = self@.index;
        let document = self.store.insert(title, content);
        self.index.add(document.id, tokens.as_slice());
        proof {
            assert(!stored_tokens(docs0).contains_key(document.id));
            lemma_matches_after_add(index0, stored_tokens(docs0), document.id, spec_tokenize(document.content@), self@.index);
            assert(stored_tokens(self@.store.documents) =~= stored_tokens(docs0).insert(document.id, spec_tokenize(document.content@)));
            assert forall|id: u64| #[trigger] self@.store.documents.contains_key(id) <==> self@.index.lengths.contains_key(id) by {
            }
        }
        document
    }

    /// Tokenizes `content`, stores the document under the next id and
    /// indexes its tokens; returns the stored document.
    pub fn index_document(&mut self, title: String, content: String) -> (document: Document)
        requires
            old(self).wf(),
            indexable(old(self)@, content@),
        ensures
            final(self).wf(),
            document.title@ == title@,
            document.content@ == content@,
            indexed(old(self)@, document.id, title@, content@, final(self)@),
    {
        let tokens = tokenize(content.as_str());
        self.index_tokens(title, content, tokens)
    }

    /// `index_document` where it can run without overflow; otherwise the
    /// engine is left unchanged and the result is `None`.
    pub fn try_index_document(&mut self, title: String, content: String) -> (r: Option<Document>)
        requires
            old(self).wf(),
        ensures
            final(self).wf(),
            r is Some <==> indexable(old(self)@, content@),
            match r {
                Some(document) => {
                    &&& document.title@ == title@
                    &&& document.content@ == content@
                    &&& indexed(old(self)@, document.id, title@, content@, final(self)@)
                },
                None => final(self)@ == old(self)@,
            },
    {
        let tokens = tokenize(content.as_str());
        if self.store.next_id() == u64::MAX {
            return None;
        }
        let total = self.index.total_length();
        if total > u64::MAX - tokens.len() as u64 {
            return None;
        }
        match count_tokens(tokens.as_slice()) {
            Some(_) => {},
            None => {
                return None;
            },
        }
        Some(self.index_document(title, content))
    }

    /// Removes a document from the store and the index; returns whether it
    /// was stored.
    pub fn delete_document(&mut self, id: u64) -> (r: bool)
        requires
            old(self).wf(),
        ensures
            final(self).wf(),
            r == old(self)@.store.documents.contains_key(id),
            r ==> deleted(old(self)@, id, final(self)@),
            !r ==> final(self)@ == old(self)@,
    {
        let ghost docs0 = self@.store.documents;
        let ghost lengths0 = self@.index.lengths;
        proof {
            assert(forall|d: u64| #[trigger] docs0.contains_key(d) <==> lengths0.contains_key(d));
        }
        match self.store.remove(id) {
            Some(_) => {
                let ghost index0 = self@.index;
                self.index.remove(id);
                proof {
                    lemma_matches_after_remove(index0, stored_tokens(docs0), id, self@.index);
                    assert(stored_tokens(self@.store.documents) =~= stored_tokens(docs0).remove(id));
                    assert forall|d: u64| #[trigger] self@.store.documents.contains_key(d) <==> self@.index.lengths.contains_key(d) by {
                        assert(docs0.contains_key(d) <==> lengths0.contains_key(d));
                    }
                }
                true
            },
            None => {
                proof {
                    assert(self@.store.documents =~= docs0);
                }
                false
            },
        }
    }

    /// All documents in increasing order of id.
    pub fn documents(&self) -> (r: Vec<&Document>)
        requires
            self.wf(),
        ensures
            r@.len() == self@.store.documents.dom().len(),
            forall|a: int| 0 <= a < r@.len() ==> self@.store.documents.contains_key(#[trigger] r@[a].id)
                && self@.store.documents[r@[a].id] == (r@[a].title@, r@[a].content@),
            forall|a: int, b: int| 0 <= a < b < r@.len() ==> r@[a].id < r@[b].id,
    {
        self.store.all()
    }

    /// The document with id `id`, if it is stored.
    pub fn document(&self, id: u64) -> (r: Option<&Document>)
        requires
            self.wf(),
        ensures
            match r {
                Some(d) => self@.store.documents.contains_key(id) && d.id == id
                    && self@.store.documents[id] == (d.title@, d.content@),
                None => !self@.store.documents.contains_key(id),
            },
    {
        self.store.get(id)
    }

    /// The number of tokens of a document, or 0 for one that is not stored.
    pub fn document_length(&self, id: u64) -> (r: u32)
        requires
            self.wf(),
        ensures
            r == (if self@.index.lengths.contains_key(id) {
                self@.index.lengths[id]
            } else {
                0
            }),
    {
        self.index.document_length(id)
    }

    /// What BM25 ranking of `query` needs: the query's terms, the index
    /// totals, and for each stored document that contains a query term, the
    /// statistics of every matching term.
    pub fn plan_query(&self, query: &str) -> (r: QueryPlan)
        requires
            self.wf(),
        ensures
            plan_ensures(self@.store, self@.index, query@, r),
    {
        plan(&self.store, &self.index, query)
    }

    /// Document count, term count, total length and the 50 most frequent
    /// terms.
    pub fn stats(&self) -> (r: IndexStats)
        requires
            self.wf(),
        ensures
            r.document_count == self@.index.lengths.dom().len(),
            r.term_count == self@.index.postings.dom().len(),
            r.total_length == self@.index.total_length,
            crate::index::top_terms_ensures(self@.index, 50, r.top_terms@),
    {
        IndexStats {
            document_count: self.index.document_count(),
            term_count: self.index.term_count(),
            total_length: self.index.total_length(),
            top_terms: self.index.top_terms(50),
        }
    }

    /// The hits for ranked ids: each id that names a stored document, in
    /// the order of the ranking, with its title and the snippet of its
    /// content for `terms`.
    pub fn hits(&self, ranked: &Vec<(u64, u64)>, terms: &[String]) -> (r: Vec<Hit>)
        requires
            self.wf(),
        ensures
            hits_ensures(self@.store.documents, ranked@, views(terms@), r@),
    {
        let ghost docs = self@.store.documents;
        let mut r: Vec<Hit> = Vec::new();
        let mut i: usize = 0;
        while i < ranked.len()
            invariant
                self.wf(),
                docs == self@.store.documents,
                i <= ranked@.len(),
                hits_ensures(docs, ranked@.take(i as int), views(terms@), r@),
            decreases ranked@.len() - i,
        {
            let id = ranked[i].1;
            proof {
                assert(ranked@.take(i + 1).drop_last() =~= ranked@.take(i as int));
                assert(ranked@.take(i + 1).last() == ranked@[i as int]);
            }
            match self.document(id) {
                Some(document) => {
                    let hit = Hit {
                        id,
                        title: document.title.clone(),
                        snippet: snippet(document.content.as_str(), terms),
                    };
                    let ghost before = r@;
                    r.push(hit);
                    proof {
                        let ids = stored_ids(ranked@.take(i + 1), docs);
                        assert(ids == stored_ids(ranked@.take(i as int), docs).push(id));
                        assert forall|a: int| 0 <= a < r@.len() implies {
                            &&& (#[trigger] r@[a]).id == ids[a]
                            &&& r@[a].title@ == docs[ids[a]].0
                            &&& r@[a].snippet@ == spec_snippet(docs[ids[a]].1, views(terms@))
                        } by {
                            if a < before.len() {
                                assert(r@[a] == before[a]);
                            }
                        }
                    }
                },
                None => {},
            }
            i = i + 1;
        }
        proof {
            assert(ranked@.take(ranked@.len() as int) =~= ranked@);
        }
        r
    }
}

} // verus!
