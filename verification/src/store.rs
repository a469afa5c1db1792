//! Document storage with sequential ids starting at 1.

use vstd::prelude::*;
use std::collections::HashMap;
use vstd::std_specs::iter::IteratorSpec;
use crate::document::Document;
use crate::order::{increasing, insert_sorted};

verus! {

broadcast use vstd::std_specs::hash::group_hash_axioms;

/// Stored documents, by id.
pub struct DocumentStore {
    documents: HashMap<u64, Document>,
    next_id: u64,
}

/// The abstract content of a store.
pub struct StoreView {
    /// id -> (title, content)
    pub documents: Map<u64, (Seq<char>, Seq<char>)>,
    /// the id that the next inserted document receives
    pub next_id: nat,
}

/// A call that changes a store: an insert of a title and a content, or a
/// remove of an id.
pub enum StoreOp {
    Insert(Seq<char>, Seq<char>),
    Remove(u64),
}

/// The store that one call makes of store `s`: an insert stores the
/// document under the next id and moves the next id on; a remove drops the
/// id, if it is there.
pub open spec fn store_step(s: StoreView, op: StoreOp) -> StoreView {
    match op {
        StoreOp::Insert(title, content) => StoreView {
            documents: s.documents.insert(s.next_id as u64, (title, content)),
            next_id: s.next_id + 1,
        },
        StoreOp::Remove(id) => StoreView { documents: s.documents.remove(id), next_id: s.next_id },
    }
}

/// The store that a new store becomes after the calls `ops`, in order.
pub open spec fn replay(ops: Seq<StoreOp>) -> StoreView
    decreases ops.len(),
{
    if ops.len() == 0 {
        StoreView { documents: Map::empty(), next_id: 1 }
    } else {
        store_step(replay(ops.drop_last()), ops.last())
    }
}

impl View for DocumentStore {
    type V = StoreView;

    closed spec fn view(&self) -> StoreView {
        StoreView {
            documents: self.documents@.map_values(|d: Document| (d.title@, d.content@)),
            next_id: self.next_id as nat,
        }
    }
}

impl DocumentStore {
    /// The representation invariant: each document is stored under its own
    /// id, which lies between 1 and the next id.
    pub closed spec fn wf(&self) -> bool {
        &&& self.next_id >= 1
        &&& forall|id: u64| #[trigger] self.documents@.contains_key(id) ==> {
            &&& self.documents@[id].id == id
            &&& 1 <= id < self.next_id
        }
    }

    /// What the invariant says of the view: ids are positive and below the
    /// next id, and there are finitely many documents.
    pub proof fn lemma_view(&self)
        requires
            self.wf(),
        ensures
            self@.documents.dom().finite(),
            self@.next_id >= 1,
            forall|id: u64| #[trigger] self@.documents.contains_key(id) ==> 1 <= id < self@.next_id,
    {
        assert(self@.documents.dom() =~= self.documents@.dom());
    }

    /// An empty store whose first id is 1.
    pub fn new() -> (store: Self)
        ensures
            store.wf(),
            store@.documents == Map::<u64, (Seq<char>, Seq<char>)>::empty(),
            store@.next_id == 1,
            store@ == replay(Seq::empty()),
    {
        let store = DocumentStore { documents: HashMap::new(), next_id: 1 };
        proof {
            assert(store@.documents =~= Map::<u64, (Seq<char>, Seq<char>)>::empty());
        }
        store
    }

    /// Stores a document under the next id and returns it.
    pub fn insert(&mut self, title: String, content: String) -> (document: Document)
        requires
            old(self).wf(),
            old(self)@.next_id < u64::MAX,
        ensures
            final(self).wf(),
            document.id == old(self)@.next_id,
            document.title@ == title@,
            document.content@ == content@,
            !old(self)@.documents.contains_key(document.id),
            final(self)@.documents == old(self)@.documents.insert(document.id, (title@, content@)),
            final(self)@.next_id == old(self)@.next_id + 1,
            final(self)@ == store_step(old(self)@, StoreOp::Insert(title@, content@)),
    {
        let id = self.next_id;
        self.next_id = self.next_id + 1;
        let document = Document { id, title, content };
        let ghost before = self.documents@;
        self.documents.insert(id, document.duplicate());
        proof {
            assert(!before.contains_key(id));
            assert(self@.documents =~= old(self)@.documents.insert(id, (title@, content@)));
        }
        document
    }

    /// The id that the next inserted document receives.
    pub fn next_id(&self) -> (r: u64)
        ensures
            r == self@.next_id,
    {
        self.next_id
    }

    /// The document with id `id`, if it is stored.
    pub fn get(&self, id: u64) -> (r: Option<&Document>)
        requires
            self.wf(),
        ensures
            match r {
                Some(d) => self@.documents.contains_key(id) && d.id == id
                    && self@.documents[id] == (d.title@, d.content@),
                None => !self@.documents.contains_key(id),
            },
    {
        self.documents.get(&id)
    }

    /// Takes the document with id `id` out of the store, if it is there.
    pub fn remove(&mut self, id: u64) -> (r: Option<Document>)
        requires
            old(self).wf(),
        ensures
            final(self).wf(),
            final(self)@.documents == old(self)@.documents.remove(id),
            final(self)@.next_id == old(self)@.next_id,
            final(self)@ == store_step(old(self)@, StoreOp::Remove(id)),
            match r {
                Some(d) => old(self)@.documents.contains_key(id) && d.id == id
                    && old(self)@.documents[id] == (d.title@, d.content@),
                None => !old(self)@.documents.contains_key(id),
            },
    {
        let r = self.documents.remove(&id);
        proof {
            assert(self@.documents =~= old(self)@.documents.remove(id));
        }
        r
    }

    /// All stored documents in increasing order of id.
    pub fn all(&self) -> (r: Vec<&Document>)
        requires
            self.wf(),
        ensures
            r@.len() == self@.documents.dom().len(),
            forall|a: int| 0 <= a < r@.len() ==> self@.documents.contains_key(#[trigger] r@[a].id)
                && self@.documents[r@[a].id] == (r@[a].title@, r@[a].content@),
            forall|a: int, b: int| 0 <= a < b < r@.len() ==> r@[a].id < r@[b].id,
    {
        let ids = self.sorted_ids();
        proof {
            assert forall|a: int| 0 <= a < ids@.len() implies self.documents@.contains_key(#[trigger] ids@[a]) by {
                assert(ids@.contains(ids@[a]));
            }
        }
        let mut r: Vec<&Document> = Vec::new();
        let mut i: usize = 0;
        while i < ids.len()
            invariant
                self.wf(),
                i <= ids@.len(),
                r@.len() == i,
                forall|a: int| 0 <= a < ids@.len() ==> self.documents@.contains_key(#[trigger] ids@[a]),
                forall|a: int| 0 <= a < i ==> *r@[a] == self.documents@[#[trigger] ids@[a]],
            decreases ids@.len() - i,
        {
            let d = self.documents.get(&ids[i]).unwrap();
            r.push(d);
            i = i + 1;
        }
        proof {
            assert(self@.documents.dom() =~= self.documents@.dom());
            assert forall|a: int| 0 <= a < r@.len() implies self@.documents.contains_key(#[trigger] r@[a].id)
                && self@.documents[r@[a].id] == (r@[a].title@, r@[a].content@) by {
                assert(r@[a].id == ids@[a]);
            }
            assert forall|a: int, b: int| 0 <= a < b < r@.len() implies r@[a].id < r@[b].id by {
                assert(r@[a].id == ids@[a]);
                assert(r@[b].id == ids@[b]);
            }
        }
        r
    }

    /// The ids of the stored documents, in increasing order.
    fn sorted_ids(&self) -> (ids: Vec<u64>)
        requires
            self.wf(),
        ensures
            ids@.len() == self.documents@.dom().len(),
            forall|id: u64| ids@.contains(id) <==> self.documents@.contains_key(id),
            forall|a: int, b: int| 0 <= a < b < ids@.len() ==> ids@[a] < ids@[b],
    {
        let mut ids: Vec<u64> = Vec::new();
        let ghost keys = vstd::std_specs::hash::spec_keys_iter(&self.documents).remaining();
        for k in it: self.documents.keys()
            invariant
                it.seq() == keys,
                keys.no_duplicates(),
                ids@.len() == it.index(),
                forall|x: u64| ids@.contains(x) <==> exists|j: int| 0 <= j < it.index() && *keys[j] == x,
                increasing(ids@),
        {
            let key = *k;
            let ghost i = it.index();
            let ghost before = ids@;
            insert_sorted(&mut ids, key);
            proof {
                assert(key == *keys[i]);
                if before.contains(key) {
                    let j = choose|j: int| 0 <= j < i && *keys[j] == key;
                    assert(keys[j] == keys[i]);
                }
            }
        }
        proof {
            assert(keys.unref().to_set() == self.documents@.dom());
            assert forall|id: u64| ids@.contains(id) <==> self.documents@.contains_key(id) by {
                if ids@.contains(id) {
                    let j = choose|j: int| 0 <= j < keys.len() && *keys[j] == id;
                    assert(keys.unref()[j] == id);
                    assert(keys.unref().to_set().contains(id));
                }
                if self.documents@.contains_key(id) {
                    assert(keys.unref().to_set().contains(id));
                    let j = choose|j: int| 0 <= j < keys.unref().len() && keys.unref()[j] == id;
                    assert(*keys[j] == id);
                }
            }
        }
        ids
    }
}

} // verus!
