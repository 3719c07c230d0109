//! The decisions of the clipboard watcher: which clipboard contents are new
//! and get recorded, what pasting an item puts on the clipboard, how image
//! files are named and how large their thumbnails are.

use vstd::prelude::*;
use crate::db::Database;
use crate::db::items::{hash_text, text_hash};
use crate::model::{ClipboardItem, ExportItem, ItemV, ov};
use crate::outside::{base64_decode, base64_encode, sha256_digest, spec_base64_decode, spec_base64_encode, spec_sha256};
use crate::text::{hex_lower, same_text, to_hex_lower, trim_seq, trim_str};

verus! {

/// The content hash of image bytes: lower-case hex SHA-256.
pub open spec fn bytes_hash(data: Seq<u8>) -> Seq<char> {
    hex_lower(spec_sha256(data))
}

/// The hash of image bytes.
pub fn hash_bytes(data: &[u8]) -> (r: String)
    ensures
        r@ == bytes_hash(data@),
{
    let d = sha256_digest(data);
    to_hex_lower(d.as_slice())
}

/// One poll that finds a text, from the hash of the last content seen:
/// what is to be recorded (the trimmed text, or nothing) and the hash seen
/// afterwards. A blank text changes nothing; a text with the last hash is
/// not recorded again.
pub open spec fn text_step(last: Seq<char>, text: Seq<char>) -> (Option<Seq<char>>, Seq<char>) {
    let t = trim_seq(text);
    if t.len() == 0 {
        (None, last)
    } else if text_hash(t) == last {
        (None, last)
    } else {
        (Some(t), text_hash(t))
    }
}

/// One poll that finds an image (PNG bytes): the hash to store it under,
/// or nothing, and the hash seen afterwards. Empty data changes nothing.
pub open spec fn image_step(last: Seq<char>, png: Seq<u8>) -> (Option<Seq<char>>, Seq<char>) {
    if png.len() == 0 {
        (None, last)
    } else if bytes_hash(png) == last {
        (None, last)
    } else {
        (Some(bytes_hash(png)), bytes_hash(png))
    }
}

/// One poll that finds a text copied in an application that is excluded
/// or not: an excluded application's text is only remembered.
pub open spec fn poll_text_step(last: Seq<char>, text: Seq<char>, excluded: bool) -> (Option<Seq<char>>, Seq<char>) {
    if excluded {
        (None, text_step(last, text).1)
    } else {
        text_step(last, text)
    }
}

/// One poll that finds an image copied in an application that is excluded
/// or not: an excluded application's image is only remembered.
pub open spec fn poll_image_step(last: Seq<char>, png: Seq<u8>, excluded: bool) -> (Option<Seq<char>>, Seq<char>) {
    if excluded {
        (None, image_step(last, png).1)
    } else {
        image_step(last, png)
    }
}

/// Whether a poll reads the clipboard: not when the application has just
/// written the clipboard itself and asked for the next poll to be skipped.
pub fn poll_due(skip_requested: bool) -> (r: bool)
    ensures
        r == !skip_requested,
{
    !skip_requested
}

/// What the watcher remembers between polls: the hash of the last content
/// it saw.
pub struct MonitorState {
    pub last_hash: String,
}

impl MonitorState {
    /// Nothing seen yet.
    pub fn new() -> (r: MonitorState)
        ensures
            r.last_hash@.len() == 0,
    {
        MonitorState { last_hash: String::new() }
    }

    /// A text was found on the clipboard. Whitespace around it is dropped;
    /// an empty text is ignored. A text whose hash differs from the last
    /// one seen becomes the last one seen and is returned, trimmed, to be
    /// recorded.
    pub fn observe_text(&mut self, text: &str) -> (r: Option<String>)
        ensures
            (ov(r), final(self).last_hash@) == text_step(old(self).last_hash@, text@),
    {
        let t = trim_str(text);
        if t.as_str().is_empty() {
            return None;
        }
        let h = hash_text(t.as_str());
        if self.last_hash != h {
            self.last_hash = h;
            Some(t)
        } else {
            None
        }
    }

    /// An image (as PNG bytes) was found on the clipboard. Empty data is
    /// ignored. An image whose hash differs from the last one seen becomes
    /// the last one seen, and its hash is returned so the image is stored.
    pub fn observe_image(&mut self, png: &[u8]) -> (r: Option<String>)
        ensures
            (ov(r), final(self).last_hash@) == image_step(old(self).last_hash@, png@),
    {
        if png.len() == 0 {
            return None;
        }
        let h = hash_bytes(png);
        if self.last_hash != h {
            self.last_hash = h.clone();
            Some(h)
        } else {
            None
        }
    }

    /// A text copied in an excluded application: it is not recorded, but
    /// becomes the last one seen (unless it is blank).
    pub fn remember_text(&mut self, text: &str)
        ensures
            final(self).last_hash@ == text_step(old(self).last_hash@, text@).1,
    {
        let t = trim_str(text);
        if !t.as_str().is_empty() {
            self.last_hash = hash_text(t.as_str());
        }
    }

    /// An image copied in an excluded application: it is not recorded, but
    /// becomes the last one seen (unless it is empty).
    pub fn remember_image(&mut self, png: &[u8])
        ensures
            final(self).last_hash@ == image_step(old(self).last_hash@, png@).1,
    {
        if png.len() > 0 {
            self.last_hash = hash_bytes(png);
        }
    }

    /// A poll found a text, copied in an excluded application or not: the
    /// trimmed text to record, if any.
    pub fn poll_text(&mut self, text: &str, excluded: bool) -> (r: Option<String>)
        ensures
            (ov(r), final(self).last_hash@) == poll_text_step(old(self).last_hash@, text@, excluded),
    {
        if excluded {
            self.remember_text(text);
            None
        } else {
            self.observe_text(text)
        }
    }

    /// A poll found an image, copied in an excluded application or not: the
    /// hash to store it under, if it is to be stored.
    pub fn poll_image(&mut self, png: &[u8], excluded: bool) -> (r: Option<String>)
        ensures
            (ov(r), final(self).last_hash@) == poll_image_step(old(self).last_hash@, png@, excluded),
    {
        if excluded {
            self.remember_image(png);
            None
        } else {
            self.observe_image(png)
        }
    }
}

/// The size of the thumbnail of a `w` by `h` image: 200 pixels wide with
/// the height scaled down (integer division), or `None` when the image is
/// at most 200 pixels wide and is its own thumbnail.
pub fn thumbnail_size(w: u32, h: u32) -> (r: Option<(u32, u32)>)
    requires
        200 * h <= u32::MAX,
    ensures
        w > 200 ==> r == Some((200u32, ((200 * h) / (w as int)) as u32)),
        w <= 200 ==> r is None,
{
    if w > 200 {
        Some((200, (200 * h) / w))
    } else {
        None
    }
}

/// The file names of a stored image and of its thumbnail.
pub fn blob_file_names(file_id: &str) -> (r: (String, String))
    ensures
        r.0@ == file_id@ + ".png"@,
        r.1@ == file_id@ + "_thumb.png"@,
{
    let mut a = file_id.to_owned();
    a.append(".png");
    let mut b = file_id.to_owned();
    b.append("_thumb.png");
    (a, b)
}

/// What pasting puts on the clipboard.
pub enum PasteSource {
    /// This text.
    Text(String),
    /// The image stored in this file (a name in the image directory).
    ImageFile(String),
}

/// What pasting an item puts on the clipboard: the stored image of an
/// image item, the text of any other item.
pub open spec fn paste_source_spec(x: ItemV) -> Result<(bool, Seq<char>), Seq<char>> {
    if x.content_type == "image"@ {
        match x.blob_path {
            Some(b) => Ok((true, b)),
            None => Err("Image item has no blob path"@),
        }
    } else {
        Ok((false, x.content))
    }
}

pub open spec fn source_view(s: PasteSource) -> (bool, Seq<char>) {
    match s {
        PasteSource::Text(t) => (false, t@),
        PasteSource::ImageFile(f) => (true, f@),
    }
}

/// Prepares pasting item `id` at time `now`: the item is marked as used,
/// and what goes on the clipboard is returned.
pub fn paste_item_at(db: &mut Database, id: i64, now: i64) -> (r: Result<PasteSource, String>)
    requires
        old(db).wf(),
    ensures
        final(db).wf(),
        match old(db)@.item(id) {
            None => final(db)@ == old(db)@ && (r matches Err(e) && e@ == "Item not found"@),
            Some(x) => final(db)@ == old(db)@.touch(id, now) && match paste_source_spec(x) {
                Ok(s) => r matches Ok(p) && source_view(p) == s,
                Err(m) => r matches Err(e) && e@ == m,
            },
        },
{
    let item = match db.get_item_by_id(id) {
        Ok(Some(x)) => x,
        _ => {
            return Err("Item not found".to_owned());
        },
    };
    db.touch_item_at(id, now);
    if same_text(item.content_type.as_str(), "image") {
        match item.blob_path {
            Some(b) => Ok(PasteSource::ImageFile(b)),
            None => Err("Image item has no blob path".to_owned()),
        }
    } else {
        Ok(PasteSource::Text(item.content))
    }
}

/// Prepares pasting item `id` now.
pub fn paste_item(db: &mut Database, id: i64) -> (r: Result<PasteSource, String>)
    requires
        old(db).wf(),
    ensures
        final(db).wf(),
        old(db)@.item(id) is None ==> (r matches Err(e) && e@ == "Item not found"@ && final(db)@ == old(db)@),
        (r matches Err(e0) && e0@ == crate::db::clock_msg() && final(db)@ == old(db)@) || exists|now: i64|
            now >= 0 && match old(db)@.item(id) {
                None => final(db)@ == old(db)@ && (r matches Err(e) && e@ == "Item not found"@),
                Some(x) => final(db)@ == #[trigger] old(db)@.touch(id, now) && match paste_source_spec(x) {
                    Ok(s) => r matches Ok(p) && source_view(p) == s,
                    Err(m) => r matches Err(e) && e@ == m,
                },
            },
{
    match db.get_item_by_id(id) {
        Ok(Some(_)) => {},
        _ => {
            proof {
                let _w = old(db)@.touch(id, 0);
            }
            return Err("Item not found".to_owned());
        },
    }
    let now = match crate::db::clock_now() {
        Ok(n) => n,
        Err(e) => {
            return Err(e);
        },
    };
    let r = paste_item_at(db, id, now);
    proof {
        let _t = old(db)@.touch(id, now);
    }
    r
}

/// The stored image file of an export item that should be embedded: image
/// items with a stored file.
pub fn image_to_embed(item: &ExportItem) -> (r: Option<String>)
    ensures
        ov(r) == if item@.content_type == "image"@ {
            item@.blob_path
        } else {
            None
        },
{
    if same_text(item.content_type.as_str(), "image") {
        crate::model::copy_opt(&item.blob_path)
    } else {
        None
    }
}

/// Embeds image bytes in an export item, base64 encoded; the embedded
/// text decodes back to the same bytes.
pub fn embed_image(item: &mut ExportItem, bytes: &[u8])
    ensures
        final(item)@ == (crate::model::ExportItemV { image_base64: Some(spec_base64_encode(bytes@)), ..old(item)@ }),
        spec_base64_decode(spec_base64_encode(bytes@)) == Some(bytes@),
{
    item.image_base64 = Some(base64_encode(bytes));
}

/// The image bytes embedded in an export item that should be written back
/// to a file: those of image items whose base64 text decodes.
pub fn image_to_restore(item: &ExportItem) -> (r: Option<Vec<u8>>)
    ensures
        match r {
            Some(v) => item@.content_type == "image"@ && (item@.image_base64 matches Some(t)
                && spec_base64_decode(t) == Some(v@)),
            None => !(item@.content_type == "image"@ && (item@.image_base64 matches Some(t)
                && spec_base64_decode(t) is Some)),
        },
{
    if !same_text(item.content_type.as_str(), "image") {
        return None;
    }
    match &item.image_base64 {
        Some(t) => base64_decode(t.as_str()),
        None => None,
    }
}

/// Records where a restored image was written.
pub fn set_blob_path(item: &mut ExportItem, name: &str)
    ensures
        final(item)@ == (crate::model::ExportItemV { blob_path: Some(name@), ..old(item)@ }),
{
    item.blob_path = Some(name.to_owned());
}

} // verus!
