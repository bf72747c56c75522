//! Documents (memes), their translations, and search parameters.

use std::collections::HashMap;
use vstd::prelude::*;
use vstd::string::StrSliceExecFns;

verus! {

/// Where a document stands in its life cycle; only published ones are searchable.
#[derive(Clone, Copy, Debug, PartialEq, Eq, Structural)]
pub enum PublishStatus {
    Draft,
    Published,
    Trash,
}

/// The kind of media a document carries.
#[derive(Clone, Copy, Debug, PartialEq, Eq, Structural)]
pub enum MediaType {
    Animation,
    Photo,
    Video,
}

/// A document: one meme with its media references and metadata.
#[derive(Debug)]
pub struct Meme {
    pub id: i32,
    pub slug: String,
    pub publish_status: PublishStatus,
    pub media_type: MediaType,
    pub text: Option<String>,
    pub source: Option<String>,
    pub tg_id: String,
    pub tg_unique_id: String,
    pub mime_type: String,
    pub content_length: i32,
    pub thumb_tg_id: String,
    pub thumb_content_length: i32,
    pub thumb_width: i32,
    pub thumb_height: i32,
    pub created_by: i64,
    pub last_edited_by: i64,
    pub control_message_id: i32,
}

fn copy_opt_string(s: &Option<String>) -> (r: Option<String>)
    ensures
        r == *s,
{
    match s {
        Some(t) => Some(t.clone()),
        None => None,
    }
}

impl Meme {
    /// A field-by-field copy.
    pub fn copied(&self) -> (r: Meme)
        ensures
            r == *self,
    {
        Meme {
            id: self.id,
            slug: self.slug.clone(),
            publish_status: self.publish_status,
            media_type: self.media_type,
            text: copy_opt_string(&self.text),
            source: copy_opt_string(&self.source),
            tg_id: self.tg_id.clone(),
            tg_unique_id: self.tg_unique_id.clone(),
            mime_type: self.mime_type.clone(),
            content_length: self.content_length,
            thumb_tg_id: self.thumb_tg_id.clone(),
            thumb_content_length: self.thumb_content_length,
            thumb_width: self.thumb_width,
            thumb_height: self.thumb_height,
            created_by: self.created_by,
            last_edited_by: self.last_edited_by,
            control_message_id: self.control_message_id,
        }
    }
}

/// The title, caption and description of a document in one language.
#[derive(Debug)]
pub struct Translation {
    pub meme_id: i32,
    pub language: String,
    pub title: String,
    pub caption: String,
    pub description: String,
}

/// Every translation belongs to document `id`.
pub open spec fn all_belong_to(trs: Seq<Translation>, id: i32) -> bool {
    forall|i: int| 0 <= i < trs.len() ==> (#[trigger] trs[i]).meme_id == id
}

/// Whether every translation belongs to document `id`; an edit is refused otherwise.
pub fn translations_belong(id: i32, trs: &Vec<Translation>) -> (r: bool)
    ensures
        r == all_belong_to(trs@, id),
{
    let mut i: usize = 0;
    while i < trs.len()
        invariant
            i <= trs.len(),
            forall|q: int| 0 <= q < i ==> (#[trigger] trs@[q]).meme_id == id,
        decreases trs.len() - i,
    {
        if trs[i].meme_id != id {
            return false;
        }
        i += 1;
    }
    true
}

/// A document as the search front end lists it, with its translations keyed by language.
pub struct MsMeme {
    pub id: i32,
    pub text: Option<String>,
    pub translations: HashMap<String, MsMemeTranslation>,
}

/// One translation inside an `MsMeme`.
pub struct MsMemeTranslation {
    pub title: String,
    pub caption: String,
    pub description: String,
}

/// Page content proposed for a document: its title, slug, subtitle, description and the
/// text on its image (empty when there is none).
#[derive(Debug)]
pub struct AiMetadata {
    pub title: String,
    pub slug: String,
    pub subtitle: String,
    pub description: String,
    pub text_on_meme: String,
}

impl AiMetadata {
    /// The current content of a document and its reference translation.
    pub fn from_meme_with_translation(meme: Meme, ru_translation: Translation) -> (r: Self)
        ensures
            r.title == ru_translation.title,
            r.slug == meme.slug,
            r.subtitle == ru_translation.caption,
            r.description == ru_translation.description,
            r.text_on_meme@ == (match meme.text {
                Some(t) => t@,
                None => Seq::<char>::empty(),
            }),
    {
        let text_on_meme = match meme.text {
            Some(t) => t,
            None => String::new(),
        };
        AiMetadata {
            title: ru_translation.title,
            slug: meme.slug,
            subtitle: ru_translation.caption,
            description: ru_translation.description,
            text_on_meme,
        }
    }

    /// Writes the content into a document and its translation; an empty text on the image
    /// clears the document's text. Other fields are left as they were.
    pub fn apply(self, meme: &mut Meme, translation: &mut Translation)
        ensures
            final(meme).slug == self.slug,
            final(meme).text == (if self.text_on_meme@.len() == 0 {
                None::<String>
            } else {
                Some(self.text_on_meme)
            }),
            final(meme).id == old(meme).id,
            final(meme).publish_status == old(meme).publish_status,
            final(meme).media_type == old(meme).media_type,
            final(meme).source == old(meme).source,
            final(meme).tg_id == old(meme).tg_id,
            final(meme).tg_unique_id == old(meme).tg_unique_id,
            final(meme).mime_type == old(meme).mime_type,
            final(meme).content_length == old(meme).content_length,
            final(meme).thumb_tg_id == old(meme).thumb_tg_id,
            final(meme).thumb_content_length == old(meme).thumb_content_length,
            final(meme).thumb_width == old(meme).thumb_width,
            final(meme).thumb_height == old(meme).thumb_height,
            final(meme).created_by == old(meme).created_by,
            final(meme).last_edited_by == old(meme).last_edited_by,
            final(meme).control_message_id == old(meme).control_message_id,
            final(translation).title == self.title,
            final(translation).caption == self.subtitle,
            final(translation).description == self.description,
            final(translation).meme_id == old(translation).meme_id,
            final(translation).language == old(translation).language,
    {
        meme.text = if self.text_on_meme.unicode_len() == 0 {
            None
        } else {
            Some(self.text_on_meme)
        };
        meme.slug = self.slug;
        translation.title = self.title;
        translation.caption = self.subtitle;
        translation.description = self.description;
    }
}

/// Candidate limits of the two prefetches, and the size of a page of results.
pub struct SearchParams {
    pub text_limit: u8,
    pub clip_limit: u8,
    pub page_size: u8,
}

impl Default for SearchParams {
    fn default() -> (r: Self)
        ensures
            r.text_limit == 50,
            r.clip_limit == 5,
            r.page_size == 50,
    {
        SearchParams { text_limit: 50, clip_limit: 5, page_size: 50 }
    }
}

} // verus!
