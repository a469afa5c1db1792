//! What the REST handlers compute: request validation, document summaries
//! and details. Reading requests and writing responses is left to the
//! server around the library.

use vstd::prelude::*;
use crate::document::Document;
use crate::engine::{indexable, indexed, SearchEngine};
use crate::text::{push_char, trim, trimmed};
use crate::tokenizer::spec_tokenize;
use vstd::string::StringExecFns;

verus! {

/// The body of a request to index a document.
pub struct CreateDocumentRequest {
    pub title: Option<String>,
    pub content: String,
}

/// The query string of a search request.
pub struct SearchParams {
    pub q: String,
    pub limit: Option<usize>,
}

/// A document as listed: id, title, length in tokens and a preview.
pub struct DocumentSummary {
    pub id: u64,
    pub title: String,
    pub length: u32,
    pub preview: String,
}

/// A document with its whole content.
pub struct DocumentDetail {
    pub id: u64,
    pub title: String,
    pub content: String,
    pub length: u32,
}

/// A term and the number of documents that contain it.
pub struct TermStat {
    pub term: String,
    pub document_frequency: usize,
}

/// Why a request to index a document was refused.
#[derive(PartialEq, Eq, Structural, Debug)]
pub enum RequestError {
    /// The content is empty or only whitespace.
    ContentRequired,
    /// Indexing the document would overflow an id, a length or a count.
    IndexFull,
}

/// The number of characters a preview keeps.
pub const PREVIEW_CHARS: usize = 160;

/// The number of results a search returns when the request names none.
pub const DEFAULT_LIMIT: usize = 20;

/// The preview of a content: the trimmed content, cut after 160 characters
/// with "..." appended when it is longer.
pub open spec fn spec_preview(content: Seq<char>) -> Seq<char> {
    let t = trimmed(content);
    if t.len() > PREVIEW_CHARS {
        t.take(PREVIEW_CHARS as int) + seq!['.', '.', '.']
    } else {
        t
    }
}

/// The title a document receives: the given one unless it is missing or
/// blank, else "untitled".
pub open spec fn chosen_title(title: Option<Seq<char>>) -> Seq<char> {
    match title {
        Some(t) => if trimmed(t).len() > 0 {
            t
        } else {
            seq!['u', 'n', 't', 'i', 't', 'l', 'e', 'd']
        },
        None => seq!['u', 'n', 't', 'i', 't', 'l', 'e', 'd'],
    }
}

/// The views of an optional string.
pub open spec fn option_view(s: Option<String>) -> Option<Seq<char>> {
    match s {
        Some(t) => Some(t@),
        None => None,
    }
}

impl SearchParams {
    /// The number of results asked for, 20 when none is given.
    pub fn limit_or_default(&self) -> (r: usize)
        ensures
            r == match self.limit {
                Some(l) => l,
                None => DEFAULT_LIMIT,
            },
    {
        match self.limit {
            Some(l) => l,
            None => DEFAULT_LIMIT,
        }
    }
}

/// The trimmed content, cut after 160 characters with "..." appended when it
/// is longer.
pub fn preview(content: &str) -> (r: String)
    ensures
        r@ == spec_preview(content@),
{
    let t = trim(content);
    let mut r = String::new();
    let mut count: usize = 0;
    for c in it: t.chars()
        invariant
            it.seq() == t@,
            count == (if it.index() <= PREVIEW_CHARS { it.index() } else { PREVIEW_CHARS + 1 }),
            r@ == t@.take(if it.index() < PREVIEW_CHARS { it.index() } else { PREVIEW_CHARS as int }),
    {
        if count < PREVIEW_CHARS {
            push_char(&mut r, c);
            proof {
                assert(r@ =~= t@.take(count + 1));
            }
        }
        if count <= PREVIEW_CHARS {
            count = count + 1;
        }
    }
    if count > PREVIEW_CHARS {
        r.append("...");
    }
    proof {
        reveal_strlit("...");
        assert(t@.take(t@.len() as int) =~= t@);
    }
    r
}

/// Whether a string has no characters besides whitespace at its ends.
fn is_blank(s: &str) -> (r: bool)
    ensures
        r == (trimmed(s@).len() == 0),
{
    trim(s).is_empty()
}

/// Validates a request and indexes its document: the content must not be
/// blank; a missing or blank title becomes "untitled". Returns the summary of
/// the stored document.
pub fn create_document(engine: &mut SearchEngine, request: CreateDocumentRequest) -> (r: Result<DocumentSummary, RequestError>)
    requires
        old(engine).wf(),
    ensures
        final(engine).wf(),
        trimmed(request.content@).len() == 0 ==> r == Err::<DocumentSummary, RequestError>(RequestError::ContentRequired),
        trimmed(request.content@).len() > 0 && !indexable(old(engine)@, request.content@) ==> r == Err::<DocumentSummary, RequestError>(RequestError::IndexFull),
        trimmed(request.content@).len() > 0 && indexable(old(engine)@, request.content@) ==> r is Ok,
        r is Err ==> final(engine)@ == old(engine)@,
        match r {
            Ok(summary) => {
                &&& trimmed(request.content@).len() > 0
                &&& indexable(old(engine)@, request.content@)
                &&& summary.id == old(engine)@.store.next_id
                &&& summary.title@ == chosen_title(option_view(request.title))
                &&& summary.length == #[verifier::truncate] (spec_tokenize(request.content@).len() as u32)
                &&& summary.preview@ == spec_preview(request.content@)
                &&& indexed(old(engine)@, summary.id, summary.title@, request.content@, final(engine)@)
            },
            Err(_) => true,
        },
{
    if is_blank(request.content.as_str()) {
        return Err(RequestError::ContentRequired);
    }
    let title = match request.title {
        Some(t) => if is_blank(t.as_str()) {
            String::from_str("untitled")
        } else {
            t
        },
        None => String::from_str("untitled"),
    };
    proof {
        reveal_strlit("untitled");
    }
    let content = request.content;
    let shown = preview(content.as_str());
    match engine.try_index_document(title, content) {
        Some(document) => {
            let length = engine.document_length(document.id);
            proof {
                engine.lemma_view();
            }
            Ok(DocumentSummary { id: document.id, title: document.title, length, preview: shown })
        },
        None => Err(RequestError::IndexFull),
    }
}

/// The summary of one stored document.
fn summary(engine: &SearchEngine, document: &Document) -> (r: DocumentSummary)
    requires
        engine.wf(),
    ensures
        r.id == document.id,
        r.title@ == document.title@,
        r.length == (if engine@.index.lengths.contains_key(document.id) {
            engine@.index.lengths[document.id]
        } else {
            0
        }),
        r.preview@ == spec_preview(document.content@),
{
    DocumentSummary {
        id: document.id,
        title: document.title.clone(),
        length: engine.document_length(document.id),
        preview: preview(document.content.as_str()),
    }
}

/// The summaries of all documents, in increasing order of id.
pub fn list_documents(engine: &SearchEngine) -> (r: Vec<DocumentSummary>)
    requires
        engine.wf(),
    ensures
        r@.len() == engine@.store.documents.dom().len(),
        forall|a: int, b: int| 0 <= a < b < r@.len() ==> r@[a].id < r@[b].id,
        forall|a: int|
            0 <= a < r@.len() ==> {
                &&& engine@.store.documents.contains_key(#[trigger] r@[a].id)
                &&& r@[a].title@ == engine@.store.documents[r@[a].id].0
                &&& r@[a].length == engine@.index.lengths[r@[a].id]
                &&& r@[a].preview@ == spec_preview(engine@.store.documents[r@[a].id].1)
            },
{
    let documents = engine.documents();
    proof {
        engine.lemma_view();
    }
    let mut r: Vec<DocumentSummary> = Vec::new();
    let mut i: usize = 0;
    while i < documents.len()
        invariant
            engine.wf(),
            i <= documents@.len(),
            r@.len() == i,
            forall|id: u64| #[trigger] engine@.store.documents.contains_key(id) <==> engine@.index.lengths.contains_key(id),
            forall|a: int| 0 <= a < documents@.len() ==> engine@.store.documents.contains_key(#[trigger] documents@[a].id)
                && engine@.store.documents[documents@[a].id] == (documents@[a].title@, documents@[a].content@),
            forall|a: int| 0 <= a < i ==> (#[trigger] r@[a]).id == documents@[a].id,
            forall|a: int|
                0 <= a < i ==> {
                    &&& engine@.store.documents.contains_key(#[trigger] r@[a].id)
                    &&& r@[a].title@ == engine@.store.documents[r@[a].id].0
                    &&& r@[a].length == engine@.index.lengths[r@[a].id]
                    &&& r@[a].preview@ == spec_preview(engine@.store.documents[r@[a].id].1)
                },
        decreases documents@.len() - i,
    {
        let s = summary(engine, documents[i]);
        proof {
            assert(engine@.store.documents.contains_key(documents@[i as int].id));
        }
        r.push(s);
        i = i + 1;
    }
    r
}

/// The details of a stored document, or `None` when there is none with `id`.
pub fn get_document(engine: &SearchEngine, id: u64) -> (r: Option<DocumentDetail>)
    requires
        engine.wf(),
    ensures
        match r {
            Some(d) => {
                &&& engine@.store.documents.contains_key(id)
                &&& d.id == id
                &&& (d.title@, d.content@) == engine@.store.documents[id]
                &&& d.length == engine@.index.lengths[id]
            },
            None => !engine@.store.documents.contains_key(id),
        },
{
    proof {
        engine.lemma_view();
    }
    match engine.document(id) {
        Some(document) => Some(
            DocumentDetail {
                id: document.id,
                title: document.title.clone(),
                content: document.content.clone(),
                length: engine.document_length(document.id),
            },
        ),
        None => None,
    }
}

/// The most frequent terms of an index as term statistics, in the same order.
pub fn term_stats(top_terms: Vec<(String, usize)>) -> (r: Vec<TermStat>)
    ensures
        r@.len() == top_terms@.len(),
        forall|a: int|
            0 <= a < r@.len() ==> (#[trigger] r@[a]).term@ == top_terms@[a].0@
                && r@[a].document_frequency == top_terms@[a].1,
{
    let mut r: Vec<TermStat> = Vec::new();
    let mut i: usize = 0;
    while i < top_terms.len()
        invariant
            i <= top_terms@.len(),
            r@.len() == i,
            forall|a: int|
                0 <= a < i ==> (#[trigger] r@[a]).term@ == top_terms@[a].0@
                    && r@[a].document_frequency == top_terms@[a].1,
        decreases top_terms@.len() - i,
    {
        r.push(TermStat { term: top_terms[i].0.clone(), document_frequency: top_terms[i].1 });
        i = i + 1;
    }
    r
}

} // verus!
