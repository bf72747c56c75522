use memexpert::embedding::clip_needs_resize;
use memexpert::model::{translations_belong, AiMetadata, MediaType, Meme, PublishStatus, Translation};
use memexpert::results::logged_query;
use memexpert::search::fuse_similar_hits;

fn meme(id: i32, text: Option<&str>) -> Meme {
    Meme {
        id,
        slug: format!("slug-{id}"),
        publish_status: PublishStatus::Published,
        media_type: MediaType::Animation,
        text: text.map(|t| t.to_string()),
        source: Some("src".to_string()),
        tg_id: "tg".to_string(),
        tg_unique_id: "u".to_string(),
        mime_type: "video/mp4".to_string(),
        content_length: 5,
        thumb_tg_id: "th".to_string(),
        thumb_content_length: 6,
        thumb_width: 7,
        thumb_height: 8,
        created_by: 9,
        last_edited_by: 10,
        control_message_id: 11,
    }
}

fn translation() -> Translation {
    Translation {
        meme_id: 1,
        language: "ru".to_string(),
        title: "Title".to_string(),
        caption: "Caption".to_string(),
        description: "Description".to_string(),
    }
}

#[test]
fn similar_hits_leave_out_the_document() {
    // limit 6: text neighbours cut to 4, image neighbours to 3, the target dropped first.
    let text = vec![5, 1, 2, 3, 4, 9];
    let image = vec![5, 2, 7, 8];
    let r = fuse_similar_hits(5, &text, &image, 6);
    assert!(!r.contains(&5));
    // text [1, 2, 3, 4], image [2, 7, 8]: 2 scores 1/62 + 1/61, 1 scores 1/61,
    // 7 scores 1/62, 3 and 8 tie at 1/63 (3 first), 4 scores 1/64.
    assert_eq!(r, vec![2, 1, 7, 3, 8, 4]);
}

#[test]
fn similar_hits_small_limit() {
    let r = fuse_similar_hits(1, &vec![1, 2, 3], &vec![3], 2);
    // limit 2: text cut to 0 ids (2 / 3 * 2 = 0), image cut to 1.
    assert_eq!(r, vec![3]);
}

#[test]
fn ai_metadata_from_document() {
    let m = AiMetadata::from_meme_with_translation(meme(1, Some("On image")), translation());
    assert_eq!(m.title, "Title");
    assert_eq!(m.slug, "slug-1");
    assert_eq!(m.subtitle, "Caption");
    assert_eq!(m.description, "Description");
    assert_eq!(m.text_on_meme, "On image");
    let m = AiMetadata::from_meme_with_translation(meme(1, None), translation());
    assert_eq!(m.text_on_meme, "");
}

#[test]
fn ai_metadata_apply() {
    let mut doc = meme(1, Some("old"));
    let mut tr = translation();
    let md = AiMetadata {
        title: "T".to_string(),
        slug: "new-slug".to_string(),
        subtitle: "S".to_string(),
        description: "D".to_string(),
        text_on_meme: String::new(),
    };
    md.apply(&mut doc, &mut tr);
    assert_eq!(doc.text, None);
    assert_eq!(doc.slug, "new-slug");
    assert_eq!(doc.source.as_deref(), Some("src"));
    assert_eq!((tr.title.as_str(), tr.caption.as_str(), tr.description.as_str()), ("T", "S", "D"));
    assert_eq!(tr.language, "ru");
    let md = AiMetadata {
        title: "T".to_string(),
        slug: "s".to_string(),
        subtitle: "S".to_string(),
        description: "D".to_string(),
        text_on_meme: "Hi".to_string(),
    };
    md.apply(&mut doc, &mut tr);
    assert_eq!(doc.text.as_deref(), Some("Hi"));
}

#[test]
fn query_log_text() {
    assert_eq!(logged_query(""), None);
    assert_eq!(logged_query("огурец"), Some("огурец".to_string()));
}

#[test]
fn translations_must_belong_to_the_document() {
    let mut other = translation();
    other.meme_id = 2;
    assert!(translations_belong(1, &vec![translation()]));
    assert!(translations_belong(1, &vec![]));
    assert!(!translations_belong(1, &vec![translation(), other]));
}

#[test]
fn clip_images_over_512_are_resized() {
    assert!(!clip_needs_resize(512, 512));
    assert!(clip_needs_resize(513, 10));
    assert!(clip_needs_resize(10, 1024));
    assert!(!clip_needs_resize(0, 0));
}
