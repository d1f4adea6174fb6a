//! The media type that goes out with a file.

use vstd::prelude::*;
use crate::model::LocalEntry;

verus! {

/// The media type that `mime_guess` gives for a key: the first type that its
/// table lists for the key's extension, or `text/plain` where the key has no
/// extension or the table does not know it.
pub uninterp spec fn guessed_media_type(key: Seq<char>) -> Seq<char>;

/// Calls `mime_guess::from_path(key).first_or_text_plain()` and renders the
/// result as text. The guess reads nothing but the key: it takes the
/// extension as `std::path::Path::extension` does and looks it up, without
/// regard to case, in a table compiled into the crate. Nothing more of the
/// result is claimed than that it is this function of the key.
#[verifier::external_body]
fn guess_media_type(key: &str) -> (r: String)
    ensures
        r@ == guessed_media_type(key@),
{
    mime_guess::from_path(key).first_or_text_plain().to_string()
}

impl LocalEntry {
    /// A local entry with the media type given.
    pub fn with_content_type(
        key: String,
        size: u64,
        modified_at_millis: u64,
        content_type: String,
    ) -> (e: LocalEntry)
        ensures
            e.key == key,
            e.size == size,
            e.modified_at_millis == modified_at_millis,
            e.content_type == content_type,
    {
        LocalEntry { key, size, modified_at_millis, content_type }
    }

    /// A local entry whose media type is guessed from its key.
    pub fn new(key: String, size: u64, modified_at_millis: u64) -> (e: LocalEntry)
        ensures
            e.key == key,
            e.size == size,
            e.modified_at_millis == modified_at_millis,
            e.content_type@ == guessed_media_type(key@),
    {
        let content_type = guess_media_type(key.as_str());
        LocalEntry::with_content_type(key, size, modified_at_millis, content_type)
    }
}

} // verus!
