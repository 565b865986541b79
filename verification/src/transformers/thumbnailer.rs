//! The thumbnailer: it keeps a thumbnail beside the default variant of an
//! image.

use crate::common::{Variant, VariantContent, VariantModel};
use crate::strings::{chars_of, same_text};
use crate::transformers::{TransformationResult, VariantChange, VariantTransformer};
use vstd::prelude::*;

verus! {

/// The side of the square in which a thumbnail fits, unless another is
/// asked for.
pub const DEFAULT_THUMBNAIL_SIZE: u32 = 128;

/// The largest side that can be asked for.
pub const MAX_THUMBNAIL_SIZE: u32 = 1024;

/// The quality of the thumbnails, from 1, the worst, to 100, the best.
pub const THUMBNAIL_QUALITY: u8 = 90;

/// Makes the thumbnails of images.
pub struct Thumbnailer {
    size: u32,
}

/// Whether a text starts with another.
pub open spec fn has_prefix(text: Seq<char>, prefix: Seq<char>) -> bool {
    prefix.len() <= text.len() && text.take(prefix.len() as int) == prefix
}

/// Whether a variant is one of which a thumbnail is kept: the default
/// variant of an image.
pub open spec fn is_default_image(variant: VariantModel) -> bool {
    variant.name == "default"@ && has_prefix(variant.mime_type, "image/"@)
}

/// Whether a text starts with another.
pub fn starts_with(text: &str, prefix: &str) -> (starts: bool)
    ensures
        starts == has_prefix(text@, prefix@),
{
    let chars = chars_of(text);
    let wanted = chars_of(prefix);
    if wanted.len() > chars.len() {
        return false;
    }
    let mut i: usize = 0;
    while i < wanted.len()
        invariant
            i <= wanted@.len() <= chars@.len(),
            chars@ == text@,
            wanted@ == prefix@,
            forall|j: int| 0 <= j < i ==> chars@[j] == wanted@[j],
        decreases wanted@.len() - i,
    {
        if chars[i] != wanted[i] {
            assert(text@.take(prefix@.len() as int)[i as int] != prefix@[i as int]);
            return false;
        }
        i += 1;
    }
    assert(text@.take(prefix@.len() as int) =~= prefix@);
    true
}

/// Reads an image with `image::io::Reader`, which guesses the format from
/// the bytes, scales it with `DynamicImage::thumbnail` to fit in a square
/// of `size` pixels, and writes it with `DynamicImage::write_to` as a JPEG
/// of a quality. Gives nothing if the bytes cannot be read as an image or
/// the thumbnail cannot be written. Nothing is claimed of the bytes: the
/// decoder of JPEG images takes another path on a processor with vector
/// instructions, and its pixels are not the same on every machine.
#[verifier::external_body]
fn thumbnail_jpeg(content: &[u8], size: u32, quality: u8) -> (thumbnail: Option<Vec<u8>>)
    requires
        0 < size <= MAX_THUMBNAIL_SIZE,
        1 <= quality <= 100,
{
    let reader = image::io::Reader::new(std::io::Cursor::new(content));
    let picture = reader.with_guessed_format().ok()?.decode().ok()?;
    let mut bytes: Vec<u8> = Vec::new();
    let format = image::ImageOutputFormat::Jpeg(quality);
    picture.thumbnail(size, size).write_to(&mut std::io::Cursor::new(&mut bytes), format).ok()?;
    Some(bytes)
}

/// Whether a result is what the thumbnailer asks for when a variant
/// changes and a thumbnail could, or could not, be made of its payload.
pub open spec fn is_thumbnail_result(
    change: VariantChange,
    thumbnail: Option<Vec<u8>>,
    result: TransformationResult,
) -> bool {
    if !is_default_image(change.subject().0@) {
        result is Noop
    } else if change is Deleted {
        result matches TransformationResult::Delete(name) && name@ == "thumbnail"@
    } else {
        match thumbnail {
            Some(bytes) => if bytes@.len() <= u32::MAX {
                let made = match result {
                    TransformationResult::Create(content) => Some(content),
                    TransformationResult::Update(content) => Some(content),
                    _ => None,
                };
                &&& (change is Created ==> result is Create)
                &&& (change is Updated ==> result is Update)
                &&& made matches Some(content) && content.1 == bytes && content.0@ == (VariantModel {
                    name: "thumbnail"@,
                    mime_type: "image/jpeg"@,
                    size: bytes@.len() as u32,
                })
            } else {
                result is Noop
            },
            None => result is Noop,
        }
    }
}

/// What the thumbnailer asks for when a variant changes, given the
/// thumbnail that could, or could not, be made of its payload: nothing
/// unless the variant is the default variant of an image; the end of the
/// thumbnail when the variant is deleted; else the thumbnail, if there is
/// one.
pub fn thumbnail_result(change: &VariantChange, thumbnail: Option<Vec<u8>>) -> (result:
    TransformationResult)
    ensures
        is_thumbnail_result(*change, thumbnail, result),
{
    let subject = change.content();
    if !(same_text(subject.0.name().as_str(), "default") && starts_with(
        subject.0.mime_type().as_str(),
        "image/",
    )) {
        return TransformationResult::Noop;
    }
    if change.is_deleted() {
        return TransformationResult::Delete("thumbnail".to_owned());
    }
    match thumbnail {
        Some(bytes) => {
            if bytes.len() > u32::MAX as usize {
                return TransformationResult::Noop;
            }
            let variant = Variant::new("thumbnail", "image/jpeg", bytes.len() as u32);
            let content = VariantContent::new(variant, bytes);
            match change {
                VariantChange::Created(_) => TransformationResult::Create(content),
                _ => TransformationResult::Update(content),
            }
        },
        None => TransformationResult::Noop,
    }
}

impl Default for Thumbnailer {
    fn default() -> (thumbnailer: Self)
        ensures
            thumbnailer.size() == DEFAULT_THUMBNAIL_SIZE,
            thumbnailer.wf(),
    {
        Thumbnailer { size: DEFAULT_THUMBNAIL_SIZE }
    }
}

impl Thumbnailer {
    /// The side of the square in which the thumbnails fit.
    pub closed spec fn size(&self) -> u32 {
        self.size
    }

    /// The side is a size that can be asked for.
    pub open spec fn wf(&self) -> bool {
        0 < self.size() <= MAX_THUMBNAIL_SIZE
    }

    /// A thumbnailer for thumbnails of another size, if the size can be
    /// asked for.
    pub fn with_size(size: u32) -> (thumbnailer: Option<Self>)
        ensures
            match thumbnailer {
                Some(t) => t.wf() && t.size() == size,
                None => size == 0 || size > MAX_THUMBNAIL_SIZE,
            },
    {
        if 0 < size && size <= MAX_THUMBNAIL_SIZE {
            Some(Thumbnailer { size })
        } else {
            None
        }
    }
}

impl VariantTransformer for Thumbnailer {
    /// Asks for the thumbnail of the default variant of an image to be
    /// created or updated with the image, and deleted with it.
    fn transform_variant(&self, change: &VariantChange) -> (results: Vec<TransformationResult>)
        ensures
            self.wf() ==> results@.len() == 1 && exists|thumbnail: Option<Vec<u8>>|
                is_thumbnail_result(*change, thumbnail, #[trigger] results@[0]),
            !self.wf() ==> results@.len() == 0,
    {
        let mut results: Vec<TransformationResult> = Vec::new();
        if self.size == 0 || self.size > MAX_THUMBNAIL_SIZE {
            return results;
        }
        // Only the default variant of an image is read as an image.
        let subject = change.content();
        let wanted = same_text(subject.0.name().as_str(), "default") && starts_with(
            subject.0.mime_type().as_str(),
            "image/",
        );
        let thumbnail = if wanted && !change.is_deleted() {
            thumbnail_jpeg(subject.1.as_slice(), self.size, THUMBNAIL_QUALITY)
        } else {
            None
        };
        let result = thumbnail_result(change, thumbnail);
        results.push(result);
        assert(is_thumbnail_result(*change, thumbnail, results@[0]));
        results
    }
}

} // verus!
