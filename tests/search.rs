use memexpert::model::{MediaType, Meme, PublishStatus};
use memexpert::results::{fallback_results, query_results, ResultSource};
use memexpert::search::{dedup_ids, hydrate_search_hits, memes_by_ids, point_ids_to_meme_ids};
use memexpert::model::SearchParams;

fn meme(id: i32, status: PublishStatus) -> Meme {
    Meme {
        id,
        slug: format!("meme-{id}"),
        publish_status: status,
        media_type: MediaType::Photo,
        text: None,
        source: None,
        tg_id: format!("tg{id}"),
        tg_unique_id: format!("u{id}"),
        mime_type: "image/jpeg".to_string(),
        content_length: 100,
        thumb_tg_id: format!("th{id}"),
        thumb_content_length: 10,
        thumb_width: 320,
        thumb_height: 240,
        created_by: 1,
        last_edited_by: 1,
        control_message_id: -1,
    }
}

fn ids(v: &[Meme]) -> Vec<i32> {
    v.iter().map(|m| m.id).collect()
}

#[test]
fn dedup_keeps_first_occurrence() {
    assert_eq!(dedup_ids(&vec![3, 1, 3, 2, 1]), vec![3, 1, 2]);
    assert_eq!(dedup_ids(&vec![]), Vec::<i32>::new());
}

#[test]
fn memes_by_ids_keeps_id_order_and_drops_stale() {
    let docs = vec![
        meme(1, PublishStatus::Published),
        meme(2, PublishStatus::Draft),
        meme(5, PublishStatus::Published),
        meme(9, PublishStatus::Published),
    ];
    // 7 is stale (no document), 2 is a draft, 5 repeats.
    let r = memes_by_ids(&vec![9, 7, 5, 2, 1, 5], &docs, 10);
    assert_eq!(ids(&r), vec![9, 5, 1]);
    assert_eq!(r[0].slug, "meme-9");
}

#[test]
fn memes_by_ids_limit() {
    let docs = vec![meme(1, PublishStatus::Published), meme(2, PublishStatus::Published), meme(3, PublishStatus::Published)];
    assert_eq!(ids(&memes_by_ids(&vec![3, 2, 1], &docs, 2)), vec![3, 2]);
    assert_eq!(ids(&memes_by_ids(&vec![3, 2, 1], &docs, 0)), Vec::<i32>::new());
}

#[test]
fn point_ids_outside_document_range_are_dropped() {
    let points = vec![4, u64::MAX, 2147483647, 2147483648];
    assert_eq!(point_ids_to_meme_ids(&points), vec![4, 2147483647]);
}

#[test]
fn draft_never_in_query_results() {
    // The draft ranks first in the index, yet never reaches the page.
    let docs = vec![meme(1, PublishStatus::Draft), meme(2, PublishStatus::Published), meme(3, PublishStatus::Trash)];
    let params = SearchParams { text_limit: 50, clip_limit: 5, page_size: 50 };
    let page = hydrate_search_hits(&vec![1, 2, 3], &docs, &params);
    assert_eq!(ids(&page), vec![2]);
    assert!(page.iter().all(|m| m.publish_status == PublishStatus::Published));
}

#[test]
fn hydrate_page_size() {
    let docs = vec![meme(1, PublishStatus::Published), meme(2, PublishStatus::Published)];
    let params = SearchParams { text_limit: 50, clip_limit: 5, page_size: 1 };
    assert_eq!(ids(&hydrate_search_hits(&vec![2, 1], &docs, &params)), vec![2]);
}

#[test]
fn empty_query_fallback_composition() {
    let recent = vec![meme(4, PublishStatus::Published), meme(2, PublishStatus::Published), meme(7, PublishStatus::Published)];
    let popular = vec![
        meme(1, PublishStatus::Published),
        meme(2, PublishStatus::Published),
        meme(3, PublishStatus::Published),
        meme(4, PublishStatus::Published),
        meme(5, PublishStatus::Published),
    ];
    let page = fallback_results(&recent, &popular, 50);
    let got: Vec<(i32, char)> = page.iter().map(|h| (h.meme.id, h.source.tag())).collect();
    assert_eq!(got, vec![(4, 'r'), (2, 'r'), (7, 'r'), (1, 'p'), (3, 'p'), (5, 'p')]);

    let short = fallback_results(&recent, &popular, 4);
    let got: Vec<(i32, char)> = short.iter().map(|h| (h.meme.id, h.source.tag())).collect();
    assert_eq!(got, vec![(4, 'r'), (2, 'r'), (7, 'r'), (1, 'p')]);
}

#[test]
fn fallback_with_repeated_recent_picks() {
    let recent = vec![meme(2, PublishStatus::Published), meme(2, PublishStatus::Published)];
    let popular = vec![];
    let page = fallback_results(&recent, &popular, 10);
    assert_eq!(page.len(), 1);
    assert_eq!(page[0].source, ResultSource::Recent);
}

#[test]
fn query_results_are_tagged_q() {
    let found = vec![meme(3, PublishStatus::Published), meme(1, PublishStatus::Published), meme(3, PublishStatus::Published)];
    let page = query_results(&found, 50);
    let got: Vec<(i32, char)> = page.iter().map(|h| (h.meme.id, h.source.tag())).collect();
    assert_eq!(got, vec![(3, 'q'), (1, 'q')]);
}

#[test]
fn source_tags_round_trip() {
    for s in [ResultSource::Recent, ResultSource::Popular, ResultSource::Query] {
        assert_eq!(ResultSource::from_tag(s.tag()), Some(s));
    }
    assert_eq!(ResultSource::from_tag('x'), None);
}
