//! Gallery tiles for lists of documents on the web pages.

use crate::model::Meme;
use vstd::prelude::*;
use vstd::string::StringExecFns;

verus! {

/// One thumbnail of a gallery, linking to its document's page.
#[derive(Debug)]
pub struct GalleryImage {
    pub filename: String,
    pub width: i32,
    pub height: i32,
    pub href: String,
}

/// The tile of a document: its thumbnail `<slug>.thumb.jpg` and a link to `/ru/<slug>`.
pub open spec fn gallery_tile(m: Meme) -> (Seq<char>, i32, i32, Seq<char>) {
    (m.slug@ + ".thumb.jpg"@, m.thumb_width, m.thumb_height, "/ru/"@ + m.slug@)
}

/// The tile of a document.
pub fn gallery_image(m: &Meme) -> (g: GalleryImage)
    ensures
        (g.filename@, g.width, g.height, g.href@) == gallery_tile(*m),
{
    let filename = m.slug.clone().concat(".thumb.jpg");
    let href = String::from_str("/ru/").concat(m.slug.as_str());
    GalleryImage { filename, width: m.thumb_width, height: m.thumb_height, href }
}

/// The tiles of the documents, in order.
pub fn memes_to_gallery(memes: &[Meme]) -> (r: Vec<GalleryImage>)
    ensures
        r.len() == memes.len(),
        forall|i: int|
            0 <= i < r.len() ==> ((#[trigger] r@[i]).filename@, r@[i].width, r@[i].height, r@[i].href@)
                == gallery_tile(memes@[i]),
{
    let mut r: Vec<GalleryImage> = Vec::new();
    let mut i: usize = 0;
    while i < memes.len()
        invariant
            i <= memes.len(),
            r.len() == i,
            forall|q: int|
                0 <= q < i ==> ((#[trigger] r@[q]).filename@, r@[q].width, r@[q].height, r@[q].href@)
                    == gallery_tile(memes@[q]),
        decreases memes.len() - i,
    {
        r.push(gallery_image(&memes[i]));
        i += 1;
    }
    r
}

} // verus!
