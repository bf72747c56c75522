use memexpert::gallery::memes_to_gallery;
use memexpert::model::{MediaType, Meme, PublishStatus, Translation};
use memexpert::slugs::slug_candidate;
use memexpert::text::{decimal_string, ensure_ends_with_punctuation, get_text_for_embedding};

fn meme(id: i32, slug: &str, text: Option<&str>) -> Meme {
    Meme {
        id,
        slug: slug.to_string(),
        publish_status: PublishStatus::Published,
        media_type: MediaType::Video,
        text: text.map(|t| t.to_string()),
        source: None,
        tg_id: String::new(),
        tg_unique_id: String::new(),
        mime_type: "video/mp4".to_string(),
        content_length: 1,
        thumb_tg_id: String::new(),
        thumb_content_length: 1,
        thumb_width: 90,
        thumb_height: 160,
        created_by: 1,
        last_edited_by: 2,
        control_message_id: 0,
    }
}

#[test]
fn punctuation_is_added_when_missing() {
    assert_eq!(ensure_ends_with_punctuation("Hello"), "Hello.");
    assert_eq!(ensure_ends_with_punctuation("Hello?"), "Hello?");
    assert_eq!(ensure_ends_with_punctuation("Hi)"), "Hi)");
    assert_eq!(ensure_ends_with_punctuation(""), "");
    assert_eq!(ensure_ends_with_punctuation("Привет"), "Привет.");
    // Non-ASCII punctuation does not count.
    assert_eq!(ensure_ends_with_punctuation("Так…"), "Так….");
}

#[test]
fn embedding_text_concatenates_translations() {
    let trs = vec![
        Translation {
            meme_id: 1,
            language: "ru".to_string(),
            title: "Огурец".to_string(),
            caption: "Вопрос".to_string(),
            description: "Описание.".to_string(),
        },
        Translation {
            meme_id: 1,
            language: "en".to_string(),
            title: "Cucumber".to_string(),
            caption: "Question?".to_string(),
            description: "".to_string(),
        },
    ];
    let m = meme(1, "cucumber", Some("ТЕКСТ"));
    assert_eq!(
        get_text_for_embedding(&m, &trs),
        "ТЕКСТ.Огурец.Вопрос.Описание.Cucumber.Question?"
    );
    let m = meme(1, "cucumber", None);
    assert_eq!(get_text_for_embedding(&m, &vec![]), "");
}

#[test]
fn embedding_text_is_plain_concatenation() {
    let trs = vec![Translation {
        meme_id: 1,
        language: "ru".to_string(),
        title: "a".to_string(),
        caption: "b".to_string(),
        description: "c".to_string(),
    }];
    assert_eq!(get_text_for_embedding(&meme(1, "x", None), &trs), "a.b.c.");
    assert_eq!(get_text_for_embedding(&meme(1, "x", Some("")), &trs), "a.b.c.");
    assert_eq!(get_text_for_embedding(&meme(1, "x", Some("t!")), &trs), "t!a.b.c.");
}

#[test]
fn decimal_strings() {
    assert_eq!(decimal_string(0), "0");
    assert_eq!(decimal_string(7), "7");
    assert_eq!(decimal_string(1203), "1203");
    assert_eq!(decimal_string(u64::MAX), "18446744073709551615");
}

#[test]
fn slug_candidates() {
    assert_eq!(slug_candidate("cat", 0), "cat");
    assert_eq!(slug_candidate("cat", 1), "cat-1");
    assert_eq!(slug_candidate("cat", 12), "cat-12");
}

#[test]
fn gallery_tiles() {
    let g = memes_to_gallery(&[meme(1, "a-cat", None), meme(2, "dog", None)]);
    assert_eq!(g.len(), 2);
    assert_eq!(g[0].filename, "a-cat.thumb.jpg");
    assert_eq!(g[0].href, "/ru/a-cat");
    assert_eq!((g[1].width, g[1].height), (90, 160));
    assert_eq!(g[1].filename, "dog.thumb.jpg");
    assert!(memes_to_gallery(&[]).is_empty());
}
