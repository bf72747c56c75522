//! The query engine: turning ranked index hits into a page of published documents.

use crate::fusion::{is_rrf_fusion, lists_view, rrf_fuse, MAX_RANK_SPAN, RRF_K};
use crate::model::{Meme, PublishStatus, SearchParams};
use vstd::prelude::*;

verus! {

/// `s` without repeated values, each kept at its first occurrence.
pub open spec fn dedup(s: Seq<i32>) -> Seq<i32>
    decreases s.len(),
{
    if s.len() == 0 {
        s
    } else {
        let d = dedup(s.drop_last());
        if d.contains(s.last()) {
            d
        } else {
            d.push(s.last())
        }
    }
}

/// Ids strictly ascending, as the bulk lookup returns documents.
pub open spec fn ids_ascending(docs: Seq<Meme>) -> bool {
    forall|i: int, j: int| 0 <= i < j < docs.len() ==> (#[trigger] docs[i]).id < (#[trigger] docs[j]).id
}

/// The first document with the given id.
pub open spec fn lookup(docs: Seq<Meme>, id: i32) -> Option<Meme>
    decreases docs.len(),
{
    if docs.len() == 0 {
        None
    } else if docs[0].id == id {
        Some(docs[0])
    } else {
        lookup(docs.drop_first(), id)
    }
}

/// The published documents that the ids resolve to, in the order of the ids.
pub open spec fn hydrate(ids: Seq<i32>, docs: Seq<Meme>) -> Seq<Meme>
    decreases ids.len(),
{
    if ids.len() == 0 {
        Seq::empty()
    } else {
        let h = hydrate(ids.drop_last(), docs);
        match lookup(docs, ids.last()) {
            Some(m) => if m.publish_status == PublishStatus::Published {
                h.push(m)
            } else {
                h
            },
            None => h,
        }
    }
}

/// The first `n` items of `s`, or all of them when there are fewer.
pub open spec fn take<T>(s: Seq<T>, n: nat) -> Seq<T> {
    if s.len() <= n {
        s
    } else {
        s.subrange(0, n as int)
    }
}

proof fn lemma_lookup_at(docs: Seq<Meme>, id: i32, j: int)
    requires
        0 <= j < docs.len(),
        docs[j].id == id,
        forall|q: int| 0 <= q < j ==> docs[q].id != id,
    ensures
        lookup(docs, id) == Some(docs[j]),
    decreases j,
{
    if j > 0 {
        let t = docs.drop_first();
        assert forall|q: int| 0 <= q < j - 1 implies t[q].id != id by {
            assert(t[q] == docs[q + 1]);
        }
        lemma_lookup_at(t, id, j - 1);
    }
}

proof fn lemma_lookup_absent(docs: Seq<Meme>, id: i32)
    requires
        forall|q: int| 0 <= q < docs.len() ==> docs[q].id != id,
    ensures
        lookup(docs, id) is None,
    decreases docs.len(),
{
    if docs.len() > 0 {
        let t = docs.drop_first();
        assert forall|q: int| 0 <= q < t.len() implies t[q].id != id by {
            assert(t[q] == docs[q + 1]);
        }
        lemma_lookup_absent(t, id);
    }
}

/// Keeps the first occurrence of each id, in order.
pub fn dedup_ids(ids: &Vec<i32>) -> (r: Vec<i32>)
    ensures
        r@ == dedup(ids@),
{
    let mut r: Vec<i32> = Vec::new();
    let mut i: usize = 0;
    while i < ids.len()
        invariant
            i <= ids.len(),
            r@ == dedup(ids@.subrange(0, i as int)),
        decreases ids.len() - i,
    {
        let x = ids[i];
        let ghost pre = ids@.subrange(0, i as int);
        assert(ids@.subrange(0, i + 1).drop_last() =~= pre);
        let mut seen = false;
        let mut j: usize = 0;
        while j < r.len()
            invariant
                j <= r.len(),
                seen == (exists|q: int| 0 <= q < j && r@[q] == x),
            decreases r.len() - j,
        {
            if r[j] == x {
                seen = true;
            }
            j += 1;
        }
        if !seen {
            r.push(x);
        }
        i += 1;
    }
    assert(ids@.subrange(0, ids.len() as int) =~= ids@);
    r
}

/// The index of the document with id `id` in `docs`, by binary search.
fn find_doc(docs: &Vec<Meme>, id: i32) -> (r: Option<usize>)
    requires
        ids_ascending(docs@),
    ensures
        r matches Some(i) ==> i < docs.len() && lookup(docs@, id) == Some(docs@[i as int]),
        r is None ==> lookup(docs@, id) is None,
{
    let mut lo: usize = 0;
    let mut hi: usize = docs.len();
    while lo < hi
        invariant
            lo <= hi <= docs.len(),
            ids_ascending(docs@),
            forall|q: int| 0 <= q < lo ==> docs@[q].id < id,
            forall|q: int| hi <= q < docs.len() ==> docs@[q].id > id,
        decreases hi - lo,
    {
        let mid = lo + (hi - lo) / 2;
        let mid_id = docs[mid].id;
        if mid_id == id {
            proof {
                lemma_lookup_at(docs@, id, mid as int);
            }
            return Some(mid);
        } else if mid_id < id {
            lo = mid + 1;
        } else {
            hi = mid;
        }
    }
    proof {
        lemma_lookup_absent(docs@, id);
    }
    None
}

proof fn lemma_hydrate_prefix(ids: Seq<i32>, docs: Seq<Meme>, i: int)
    requires
        0 <= i <= ids.len(),
    ensures
        hydrate(ids.subrange(0, i), docs).len() <= hydrate(ids, docs).len(),
        hydrate(ids, docs).subrange(0, hydrate(ids.subrange(0, i), docs).len() as int)
            == hydrate(ids.subrange(0, i), docs),
    decreases ids.len() - i,
{
    if i < ids.len() {
        lemma_hydrate_prefix(ids, docs, i + 1);
        let s1 = ids.subrange(0, i + 1);
        assert(s1.drop_last() =~= ids.subrange(0, i));
        let a = hydrate(ids.subrange(0, i), docs);
        let b = hydrate(s1, docs);
        let c = hydrate(ids, docs);
        assert(b.subrange(0, a.len() as int) =~= a);
        assert(c.subrange(0, a.len() as int) =~= b.subrange(0, b.len() as int).subrange(
            0,
            a.len() as int,
        ));
    } else {
        assert(ids.subrange(0, i) =~= ids);
        assert(hydrate(ids, docs).subrange(0, hydrate(ids, docs).len() as int) =~= hydrate(
            ids,
            docs,
        ));
    }
}

/// Resolves ids to published documents, keeping the order of the ids: repeated ids count
/// once, ids without a published document are dropped, and at most `limit` are kept.
/// `docs` is the bulk lookup's answer, ascending by id.
pub fn memes_by_ids(ids: &Vec<i32>, docs: &Vec<Meme>, limit: usize) -> (r: Vec<Meme>)
    requires
        ids_ascending(docs@),
    ensures
        r@ == take(hydrate(dedup(ids@), docs@), limit as nat),
{
    let d = dedup_ids(ids);
    let mut r: Vec<Meme> = Vec::new();
    let mut i: usize = 0;
    while i < d.len() && r.len() < limit
        invariant
            i <= d.len(),
            r.len() <= limit,
            ids_ascending(docs@),
            r@ == hydrate(d@.subrange(0, i as int), docs@),
        decreases d.len() - i,
    {
        let ghost pre = d@.subrange(0, i as int);
        assert(d@.subrange(0, i + 1).drop_last() =~= pre);
        assert(d@.subrange(0, i + 1).last() == d@[i as int]);
        match find_doc(docs, d[i]) {
            Some(j) => {
                if docs[j].publish_status == PublishStatus::Published {
                    r.push(docs[j].copied());
                }
            },
            None => {},
        }
        i += 1;
    }
    proof {
        lemma_hydrate_prefix(d@, docs@, i as int);
        if i == d.len() {
            assert(d@.subrange(0, i as int) =~= d@);
        }
    }
    r
}


/// The first `n` ids of `v`, or all of them when there are fewer.
fn take_ids(v: &Vec<u64>, n: usize) -> (r: Vec<u64>)
    ensures
        r@ == take(v@, n as nat),
{
    let mut r: Vec<u64> = Vec::new();
    let mut i: usize = 0;
    while i < v.len() && i < n
        invariant
            i <= v.len(),
            i <= n,
            r@ == v@.subrange(0, i as int),
        decreases v.len() - i,
    {
        r.push(v[i]);
        assert(r@ =~= v@.subrange(0, i + 1));
        i += 1;
    }
    assert(v.len() <= n ==> v@.subrange(0, i as int) =~= v@);
    r
}

/// The prefetch lists of a search: the text hits and the image hits, each cut to its limit.
pub open spec fn search_prefetches(text_hits: Seq<u64>, image_hits: Seq<u64>, params: SearchParams) -> Seq<Seq<u64>> {
    seq![take(text_hits, params.text_limit as nat), take(image_hits, params.clip_limit as nat)]
}

/// Fuses the ranked hits of the text space and of the image space (both already restricted
/// to published points) and keeps the best `page_size` point ids, best first.
pub fn fuse_search_hits(text_hits: &Vec<u64>, image_hits: &Vec<u64>, params: &SearchParams) -> (r: Vec<u64>)
    ensures
        is_rrf_fusion(
            search_prefetches(text_hits@, image_hits@, *params),
            RRF_K as nat,
            params.page_size as nat,
            r@,
        ),
{
    let mut lists: Vec<Vec<u64>> = Vec::new();
    lists.push(take_ids(text_hits, params.text_limit as usize));
    lists.push(take_ids(image_hits, params.clip_limit as usize));
    assert(lists_view(lists@) =~= search_prefetches(text_hits@, image_hits@, *params));
    assert forall|i: int| 0 <= i < lists.len() implies RRF_K + (#[trigger] lists@[i]).len() <= MAX_RANK_SPAN by {
        assert(lists@[i]@ == lists_view(lists@)[i]);
    }
    rrf_fuse(&lists, RRF_K, params.page_size as usize)
}

/// `s` without any occurrence of `x`.
pub open spec fn without(s: Seq<u64>, x: u64) -> Seq<u64>
    decreases s.len(),
{
    if s.len() == 0 {
        s
    } else if s.last() == x {
        without(s.drop_last(), x)
    } else {
        without(s.drop_last(), x).push(s.last())
    }
}

/// The first `n` ids of `v` other than `x`.
fn take_ids_without(v: &Vec<u64>, x: u64, n: usize) -> (r: Vec<u64>)
    ensures
        r@ == take(without(v@, x), n as nat),
{
    let mut all: Vec<u64> = Vec::new();
    let mut i: usize = 0;
    while i < v.len()
        invariant
            i <= v.len(),
            all@ == without(v@.subrange(0, i as int), x),
        decreases v.len() - i,
    {
        assert(v@.subrange(0, i + 1).drop_last() =~= v@.subrange(0, i as int));
        if v[i] != x {
            all.push(v[i]);
        }
        i += 1;
    }
    assert(v@.subrange(0, v.len() as int) =~= v@);
    take_ids(&all, n)
}

/// The prefetch lists for the neighbours of a document: its text neighbours cut to two
/// thirds of the limit and its image neighbours cut to half of it, the document itself left
/// out of both.
pub open spec fn similar_prefetches(target: u64, text_hits: Seq<u64>, image_hits: Seq<u64>, limit: u8) -> Seq<Seq<u64>> {
    seq![
        take(without(text_hits, target), (limit / 3 * 2) as nat),
        take(without(image_hits, target), (limit / 2) as nat),
    ]
}

/// Fuses the nearest neighbours of document `target` in the text space and in the image
/// space (both restricted to published points) and keeps the best `limit` point ids.
pub fn fuse_similar_hits(target: u64, text_hits: &Vec<u64>, image_hits: &Vec<u64>, limit: u8) -> (r: Vec<u64>)
    ensures
        is_rrf_fusion(similar_prefetches(target, text_hits@, image_hits@, limit), RRF_K as nat, limit as nat, r@),
        !r@.contains(target),
{
    let mut lists: Vec<Vec<u64>> = Vec::new();
    lists.push(take_ids_without(text_hits, target, (limit / 3 * 2) as usize));
    lists.push(take_ids_without(image_hits, target, (limit / 2) as usize));
    let ghost lv = lists_view(lists@);
    assert(lv =~= similar_prefetches(target, text_hits@, image_hits@, limit));
    assert forall|i: int| 0 <= i < lists.len() implies RRF_K + (#[trigger] lists@[i]).len() <= MAX_RANK_SPAN by {
        assert(lists@[i]@ == lv[i]);
    }
    let r = rrf_fuse(&lists, RRF_K, limit as usize);
    proof {
        lemma_without_absent(text_hits@, target);
        lemma_without_absent(image_hits@, target);
        if r@.contains(target) {
            let q = choose|q: int| 0 <= q < r@.len() && r@[q] == target;
            assert(crate::fusion::is_candidate(lv, r@[q]));
            let p = choose|p: int| 0 <= p < lv.len() && #[trigger] lv[p].contains(target);
            let w = choose|w: int| 0 <= w < lv[p].len() && lv[p][w] == target;
            if p == 0 {
                let s0 = without(text_hits@, target);
                assert(lv[0] == take(s0, (limit / 3 * 2) as nat));
                assert(s0.contains(target));
            } else {
                let s1 = without(image_hits@, target);
                assert(lv[1] == take(s1, (limit / 2) as nat));
                assert(s1.contains(target));
            }
        }
    }
    r
}

proof fn lemma_without_absent(s: Seq<u64>, x: u64)
    ensures
        !without(s, x).contains(x),
    decreases s.len(),
{
    if s.len() > 0 {
        lemma_without_absent(s.drop_last(), x);
        let w = without(s.drop_last(), x);
        if s.last() != x {
            assert forall|q: int| 0 <= q < w.push(s.last()).len() implies w.push(s.last())[q] != x by {
                if q < w.len() {
                    assert(w.push(s.last())[q] == w[q]);
                }
            }
        }
    }
}

/// The point ids that name a document, as document ids; others cannot resolve.
pub open spec fn meme_ids_of_points(points: Seq<u64>) -> Seq<i32>
    decreases points.len(),
{
    if points.len() == 0 {
        Seq::empty()
    } else {
        let rest = meme_ids_of_points(points.drop_last());
        if points.last() <= i32::MAX {
            rest.push(points.last() as i32)
        } else {
            rest
        }
    }
}

/// Converts point ids to document ids, dropping those outside the document id range.
pub fn point_ids_to_meme_ids(points: &Vec<u64>) -> (r: Vec<i32>)
    ensures
        r@ == meme_ids_of_points(points@),
{
    let mut r: Vec<i32> = Vec::new();
    let mut i: usize = 0;
    while i < points.len()
        invariant
            i <= points.len(),
            r@ == meme_ids_of_points(points@.subrange(0, i as int)),
        decreases points.len() - i,
    {
        assert(points@.subrange(0, i + 1).drop_last() =~= points@.subrange(0, i as int));
        if points[i] <= i32::MAX as u64 {
            r.push(points[i] as i32);
        }
        i += 1;
    }
    assert(points@.subrange(0, points.len() as int) =~= points@);
    r
}

/// The page of a non-empty query: fused point ids resolved against the bulk lookup `docs`
/// (ascending by id), stale or unpublished ones dropped, at most `page_size` kept.
pub fn hydrate_search_hits(fused: &Vec<u64>, docs: &Vec<Meme>, params: &SearchParams) -> (r: Vec<Meme>)
    requires
        ids_ascending(docs@),
    ensures
        r@ == take(hydrate(dedup(meme_ids_of_points(fused@)), docs@), params.page_size as nat),
        forall|i: int| 0 <= i < r.len() ==> (#[trigger] r@[i]).publish_status == PublishStatus::Published,
{
    let ids = point_ids_to_meme_ids(fused);
    let r = memes_by_ids(&ids, docs, params.page_size as usize);
    proof {
        lemma_hydrate_published(dedup(ids@), docs@);
    }
    r
}

/// Everything that `hydrate` yields is published.
pub proof fn lemma_hydrate_published(ids: Seq<i32>, docs: Seq<Meme>)
    ensures
        forall|i: int| 0 <= i < hydrate(ids, docs).len() ==> (#[trigger] hydrate(ids, docs)[i]).publish_status == PublishStatus::Published,
    decreases ids.len(),
{
    if ids.len() > 0 {
        lemma_hydrate_published(ids.drop_last(), docs);
    }
}

/// A document that is not published never appears on the page of a non-empty query,
/// whatever the index returned and however it ranked.
pub proof fn lemma_unpublished_never_found(fused: Seq<u64>, docs: Seq<Meme>, page_size: nat, m: Meme)
    requires
        m.publish_status != PublishStatus::Published,
    ensures
        !take(hydrate(dedup(meme_ids_of_points(fused)), docs), page_size).contains(m),
{
    let h = hydrate(dedup(meme_ids_of_points(fused)), docs);
    lemma_hydrate_published(dedup(meme_ids_of_points(fused)), docs);
    let t = take(h, page_size);
    if t.contains(m) {
        let i = choose|i: int| 0 <= i < t.len() && t[i] == m;
        assert(h[i] == t[i]);
    }
}

} // verus!
