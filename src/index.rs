//! The vector index as the maintainer sees it: points keyed by document id, each with a
//! text vector, an image vector and the document's publish status; and the writes that keep
//! it a projection of the published documents.

use std::collections::HashMap;
use crate::model::{Meme, PublishStatus, Translation};
use crate::text::{embedding_text, get_text_for_embedding};
use vstd::prelude::*;

verus! {

broadcast use vstd::std_specs::hash::group_hash_axioms;

/// One point of the index.
pub struct IndexedPoint<V> {
    pub text: V,
    pub image: V,
    pub publish_status: PublishStatus,
}

/// A write to the index: replace a point whole, or remove it (a no-op when absent).
pub enum IndexWrite<V> {
    Upsert { id: u64, point: IndexedPoint<V> },
    Delete { id: u64 },
}

/// Why a document could not be synced.
#[derive(Clone, Copy, Debug, PartialEq, Eq, Structural)]
pub enum SyncError {
    /// A negative document id names no point.
    IdNotRepresentable,
    /// A published document came without both of its vectors.
    MissingEmbeddings,
}

/// The points after `w`.
pub open spec fn write_effect<V>(m: Map<u64, IndexedPoint<V>>, w: IndexWrite<V>) -> Map<u64, IndexedPoint<V>> {
    match w {
        IndexWrite::Upsert { id, point } => m.insert(id, point),
        IndexWrite::Delete { id } => m.remove(id),
    }
}

/// The point id of a document.
pub open spec fn point_of(doc: Meme) -> u64 {
    doc.id as u64
}

/// The write that brings the index in line with `doc`, given its text and image vectors:
/// a published document is upserted with both, any other is deleted.
pub open spec fn sync_write_of<V>(doc: Meme, vectors: Option<(V, V)>) -> Result<IndexWrite<V>, SyncError> {
    if doc.id < 0 {
        Err(SyncError::IdNotRepresentable)
    } else if doc.publish_status != PublishStatus::Published {
        Ok(IndexWrite::Delete { id: point_of(doc) })
    } else {
        match vectors {
            Some(v) => Ok(
                IndexWrite::Upsert {
                    id: point_of(doc),
                    point: IndexedPoint { text: v.0, image: v.1, publish_status: PublishStatus::Published },
                },
            ),
            None => Err(SyncError::MissingEmbeddings),
        }
    }
}

/// The points after syncing `doc`; a failed sync writes nothing.
pub open spec fn after_sync<V>(m: Map<u64, IndexedPoint<V>>, doc: Meme, vectors: Option<(V, V)>) -> Map<u64, IndexedPoint<V>> {
    match sync_write_of(doc, vectors) {
        Ok(w) => write_effect(m, w),
        Err(_) => m,
    }
}

/// The write that syncs `doc`; both vectors travel together, so a write never carries one
/// space updated and the other stale.
pub fn sync_write<V>(doc: &Meme, vectors: Option<(V, V)>) -> (r: Result<IndexWrite<V>, SyncError>)
    ensures
        r == sync_write_of(*doc, vectors),
{
    if doc.id < 0 {
        Err(SyncError::IdNotRepresentable)
    } else if doc.publish_status != PublishStatus::Published {
        Ok(IndexWrite::Delete { id: doc.id as u64 })
    } else {
        match vectors {
            Some(v) => Ok(
                IndexWrite::Upsert {
                    id: doc.id as u64,
                    point: IndexedPoint { text: v.0, image: v.1, publish_status: PublishStatus::Published },
                },
            ),
            None => Err(SyncError::MissingEmbeddings),
        }
    }
}

/// The outside work that syncing a document needs: removing its point, or embedding its
/// text (and its thumbnail) and upserting.
pub enum SyncPlan {
    Remove { point: u64 },
    Embed { point: u64, text: String },
}

/// Decides how to sync a document: an unpublished one is removed from the index, a
/// published one is embedded from the text that `embedding_text` gives.
pub fn sync_plan(doc: &Meme, translations: &Vec<Translation>) -> (r: Result<SyncPlan, SyncError>)
    ensures
        doc.id < 0 ==> r == Err::<SyncPlan, SyncError>(SyncError::IdNotRepresentable),
        doc.id >= 0 && doc.publish_status != PublishStatus::Published ==> r == Ok::<SyncPlan, SyncError>(
            SyncPlan::Remove { point: point_of(*doc) },
        ),
        doc.id >= 0 && doc.publish_status == PublishStatus::Published ==> (r matches Ok(
            SyncPlan::Embed { point, text },
        ) && point == point_of(*doc) && text@ == embedding_text(*doc, translations@)),
{
    if doc.id < 0 {
        Err(SyncError::IdNotRepresentable)
    } else if doc.publish_status != PublishStatus::Published {
        Ok(SyncPlan::Remove { point: doc.id as u64 })
    } else {
        Ok(SyncPlan::Embed { point: doc.id as u64, text: get_text_for_embedding(doc, translations) })
    }
}

/// An in-memory index of points.
pub struct PointStore<V> {
    points: HashMap<u64, IndexedPoint<V>>,
}

impl<V> View for PointStore<V> {
    type V = Map<u64, IndexedPoint<V>>;

    closed spec fn view(&self) -> Map<u64, IndexedPoint<V>> {
        self.points@
    }
}

impl<V> PointStore<V> {
    /// An index with no points.
    pub fn new() -> (s: Self)
        ensures
            s@ == Map::<u64, IndexedPoint<V>>::empty(),
    {
        PointStore { points: HashMap::new() }
    }

    /// Whether a point with this id exists.
    pub fn point_exists(&self, id: u64) -> (r: bool)
        ensures
            r == self@.contains_key(id),
    {
        self.points.contains_key(&id)
    }

    /// The point with this id.
    pub fn get(&self, id: u64) -> (r: Option<&IndexedPoint<V>>)
        ensures
            r matches Some(p) ==> self@.contains_key(id) && *p == self@[id],
            r is None ==> !self@.contains_key(id),
    {
        self.points.get(&id)
    }

    /// Performs a write.
    pub fn apply(&mut self, w: IndexWrite<V>)
        ensures
            final(self)@ == write_effect(old(self)@, w),
    {
        match w {
            IndexWrite::Upsert { id, point } => {
                self.points.insert(id, point);
            },
            IndexWrite::Delete { id } => {
                self.points.remove(&id);
            },
        }
    }
}

/// Syncs one document into the index: a published document is upserted with its vectors,
/// any other is deleted. On error nothing is written. After success the document's point
/// exists exactly when the document is published.
pub fn sync_document<V>(index: &mut PointStore<V>, doc: &Meme, vectors: Option<(V, V)>) -> (r: Result<(), SyncError>)
    ensures
        final(index)@ == after_sync(old(index)@, *doc, vectors),
        r == (match sync_write_of(*doc, vectors) {
            Ok(_) => Ok(()),
            Err(e) => Err(e),
        }),
        r is Ok ==> (final(index)@.contains_key(point_of(*doc)) <==> doc.publish_status == PublishStatus::Published),
        doc.id >= 0 && doc.publish_status != PublishStatus::Published ==> r is Ok
            && !final(index)@.contains_key(point_of(*doc)),
{
    match sync_write(doc, vectors) {
        Ok(w) => {
            index.apply(w);
            Ok(())
        },
        Err(e) => Err(e),
    }
}

/// The healing sweep restores a document's point when it is published and its point is
/// missing; a missing point of an unpublished document is already right.
pub open spec fn needs_heal(doc: Meme, exists: bool) -> bool {
    doc.publish_status == PublishStatus::Published && !exists
}

/// Whether the healing sweep must sync `doc`, given whether its point exists.
pub fn needs_heal_exec(doc: &Meme, exists: bool) -> (r: bool)
    ensures
        r == needs_heal(*doc, exists),
{
    doc.publish_status == PublishStatus::Published && !exists
}

/// One step of the healing sweep: syncs `doc` if its point is missing and it is published.
/// Returns whether it synced.
pub fn heal_document<V>(index: &mut PointStore<V>, doc: &Meme, vectors: Option<(V, V)>) -> (r: Result<bool, SyncError>)
    ensures
        needs_heal(*doc, old(index)@.contains_key(point_of(*doc))) ==> {
            &&& final(index)@ == after_sync(old(index)@, *doc, vectors)
            &&& r == (match sync_write_of(*doc, vectors) {
                Ok(_) => Ok(true),
                Err(e) => Err(e),
            })
        },
        !needs_heal(*doc, old(index)@.contains_key(point_of(*doc))) ==> final(index)@ == old(index)@
            && r == Ok::<bool, SyncError>(false),
{
    if needs_heal_exec(doc, index.point_exists(doc.id as u64)) {
        match sync_document(index, doc, vectors) {
            Ok(()) => Ok(true),
            Err(e) => Err(e),
        }
    } else {
        Ok(false)
    }
}


/// After a successful sync the document's point exists exactly when the document is
/// published, and no other point changes.
pub proof fn lemma_sync_publish_invariant<V>(m: Map<u64, IndexedPoint<V>>, doc: Meme, vectors: Option<(V, V)>)
    requires
        sync_write_of(doc, vectors) is Ok,
    ensures
        after_sync(m, doc, vectors).contains_key(point_of(doc)) <==> doc.publish_status
            == PublishStatus::Published,
        forall|p: u64|
            p != point_of(doc) ==> (#[trigger] after_sync(m, doc, vectors).contains_key(p)
                <==> m.contains_key(p)) && (m.contains_key(p) ==> after_sync(m, doc, vectors)[p]
                == m[p]),
{
}

/// Syncing an unpublished document always succeeds, needs no vectors, and leaves it without
/// a point, whether or not it had one.
pub proof fn lemma_unpublished_sync_removes<V>(m: Map<u64, IndexedPoint<V>>, doc: Meme, vectors: Option<(V, V)>)
    requires
        doc.id >= 0,
        doc.publish_status != PublishStatus::Published,
    ensures
        sync_write_of(doc, vectors) is Ok,
        !after_sync(m, doc, vectors).contains_key(point_of(doc)),
        after_sync(m, doc, vectors) == m.remove(point_of(doc)),
{
}

/// Syncing a document twice with the same input leaves the index as syncing it once.
pub proof fn lemma_sync_idempotent<V>(m: Map<u64, IndexedPoint<V>>, doc: Meme, vectors: Option<(V, V)>)
    ensures
        after_sync(after_sync(m, doc, vectors), doc, vectors) == after_sync(m, doc, vectors),
{
    match sync_write_of(doc, vectors) {
        Ok(IndexWrite::Upsert { id, point }) => {
            assert(m.insert(id, point).insert(id, point) =~= m.insert(id, point));
        },
        Ok(IndexWrite::Delete { id }) => {
            assert(m.remove(id).remove(id) =~= m.remove(id));
        },
        Err(_) => {},
    }
}

/// When the point of a published document has been deleted by hand, the healing sweep
/// selects the document, and syncing it gives the index that a sync would have given had the
/// point never been lost: the point is back, with the vectors a sync writes.
pub proof fn lemma_heal_restores_point<V>(before: Map<u64, IndexedPoint<V>>, doc: Meme, text: V, image: V)
    requires
        doc.publish_status == PublishStatus::Published,
        doc.id >= 0,
    ensures
        needs_heal(doc, before.remove(point_of(doc)).contains_key(point_of(doc))),
        after_sync(before.remove(point_of(doc)), doc, Some((text, image))) == after_sync(
            before,
            doc,
            Some((text, image)),
        ),
        after_sync(before.remove(point_of(doc)), doc, Some((text, image))).contains_key(point_of(doc)),
        after_sync(before.remove(point_of(doc)), doc, Some((text, image)))[point_of(doc)] == (IndexedPoint {
            text,
            image,
            publish_status: PublishStatus::Published,
        }),
{
    let id = point_of(doc);
    let point = IndexedPoint { text, image, publish_status: PublishStatus::Published };
    assert(before.remove(id).insert(id, point) =~= before.insert(id, point));
}

} // verus!
