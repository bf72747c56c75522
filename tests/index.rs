use memexpert::index::{heal_document, needs_heal_exec, sync_document, sync_plan, sync_write, IndexWrite, PointStore, SyncError, SyncPlan};
use memexpert::model::{MediaType, Meme, PublishStatus, Translation};

fn meme(id: i32, status: PublishStatus) -> Meme {
    Meme {
        id,
        slug: format!("meme-{id}"),
        publish_status: status,
        media_type: MediaType::Photo,
        text: Some("Hello".to_string()),
        source: None,
        tg_id: format!("tg{id}"),
        tg_unique_id: format!("u{id}"),
        mime_type: "image/jpeg".to_string(),
        content_length: 100,
        thumb_tg_id: format!("th{id}"),
        thumb_content_length: 10,
        thumb_width: 320,
        thumb_height: 240,
        created_by: 1,
        last_edited_by: 1,
        control_message_id: -1,
    }
}

fn vectors() -> Option<(Vec<f32>, Vec<f32>)> {
    Some((vec![0.6, 0.8], vec![1.0, 0.0]))
}

#[test]
fn sync_published_creates_point() {
    let mut index = PointStore::new();
    let doc = meme(3, PublishStatus::Published);
    assert_eq!(sync_document(&mut index, &doc, vectors()), Ok(()));
    assert!(index.point_exists(3));
    let p = index.get(3).unwrap();
    assert_eq!(p.text, vec![0.6, 0.8]);
    assert_eq!(p.image, vec![1.0, 0.0]);
    assert_eq!(p.publish_status, PublishStatus::Published);
}

#[test]
fn sync_unpublished_removes_point() {
    let mut index = PointStore::new();
    let mut doc = meme(3, PublishStatus::Published);
    sync_document(&mut index, &doc, vectors()).unwrap();
    doc.publish_status = PublishStatus::Draft;
    assert_eq!(sync_document::<Vec<f32>>(&mut index, &doc, None), Ok(()));
    assert!(!index.point_exists(3));
    doc.publish_status = PublishStatus::Trash;
    assert_eq!(sync_document::<Vec<f32>>(&mut index, &doc, None), Ok(()));
    assert!(!index.point_exists(3));
}

#[test]
fn publish_status_invariant_after_sync() {
    for status in [PublishStatus::Draft, PublishStatus::Published, PublishStatus::Trash] {
        let mut index = PointStore::new();
        let doc = meme(8, status);
        sync_document(&mut index, &doc, vectors()).unwrap();
        assert_eq!(index.point_exists(8), status == PublishStatus::Published);
    }
}

#[test]
fn sync_twice_is_sync_once() {
    let doc = meme(4, PublishStatus::Published);
    let mut once = PointStore::new();
    sync_document(&mut once, &doc, vectors()).unwrap();
    let mut twice = PointStore::new();
    sync_document(&mut twice, &doc, vectors()).unwrap();
    sync_document(&mut twice, &doc, vectors()).unwrap();
    assert_eq!(once.point_exists(4), twice.point_exists(4));
    assert_eq!(once.get(4).unwrap().text, twice.get(4).unwrap().text);
    assert_eq!(once.get(4).unwrap().image, twice.get(4).unwrap().image);
    assert!(!twice.point_exists(5));
}

#[test]
fn sync_errors_write_nothing() {
    let mut index = PointStore::new();
    let bad = meme(-1, PublishStatus::Published);
    assert_eq!(sync_document(&mut index, &bad, vectors()), Err(SyncError::IdNotRepresentable));
    let doc = meme(2, PublishStatus::Published);
    assert_eq!(sync_document::<Vec<f32>>(&mut index, &doc, None), Err(SyncError::MissingEmbeddings));
    assert!(!index.point_exists(2));
}

#[test]
fn sync_write_shapes() {
    let doc = meme(6, PublishStatus::Draft);
    assert!(matches!(sync_write::<u8>(&doc, None), Ok(IndexWrite::Delete { id: 6 })));
    let doc = meme(6, PublishStatus::Published);
    match sync_write(&doc, Some((1u8, 2u8))) {
        Ok(IndexWrite::Upsert { id, point }) => {
            assert_eq!(id, 6);
            assert_eq!((point.text, point.image), (1, 2));
        }
        _ => panic!("expected an upsert"),
    }
}

#[test]
fn heal_recovers_missing_point() {
    let doc = meme(11, PublishStatus::Published);
    let mut index = PointStore::new();
    sync_document(&mut index, &doc, vectors()).unwrap();
    index.apply(IndexWrite::Delete { id: 11 });
    assert!(!index.point_exists(11));
    assert_eq!(heal_document(&mut index, &doc, vectors()), Ok(true));
    assert!(index.point_exists(11));
    assert_eq!(index.get(11).unwrap().text, vec![0.6, 0.8]);
    // Nothing left to heal.
    assert_eq!(heal_document(&mut index, &doc, vectors()), Ok(false));
}

#[test]
fn heal_skips_drafts() {
    let doc = meme(12, PublishStatus::Draft);
    let mut index: PointStore<Vec<f32>> = PointStore::new();
    assert!(!needs_heal_exec(&doc, false));
    assert_eq!(heal_document(&mut index, &doc, None), Ok(false));
    assert!(!index.point_exists(12));
}

#[test]
fn plan_for_published_embeds_text() {
    let doc = meme(5, PublishStatus::Published);
    let trs = vec![Translation {
        meme_id: 5,
        language: "ru".to_string(),
        title: "Title".to_string(),
        caption: "Caption!".to_string(),
        description: "Long text".to_string(),
    }];
    match sync_plan(&doc, &trs) {
        Ok(SyncPlan::Embed { point, text }) => {
            assert_eq!(point, 5);
            assert_eq!(text, "Hello.Title.Caption!Long text.");
        }
        _ => panic!("expected an embed plan"),
    }
    let draft = meme(5, PublishStatus::Draft);
    assert!(matches!(sync_plan(&draft, &trs), Ok(SyncPlan::Remove { point: 5 })));
    let bad = meme(-3, PublishStatus::Published);
    assert!(matches!(sync_plan(&bad, &trs), Err(SyncError::IdNotRepresentable)));
}
