//! Content types of the static assets, guessed from the file extension by
//! the `mime_guess` crate.

use vstd::prelude::*;
use vstd::string::*;

use crate::text::{after_last_dot, after_last_dot_start, chars_of};

verus! {

/// The essence (type and subtype, without parameters) of the first media type
/// that `mime_guess::from_ext` guesses for an extension, if it guesses any.
pub uninterp spec fn guessed_media_type(ext: Seq<char>) -> Option<Seq<char>>;

/// Calls `mime_guess::from_ext(ext).first()` and takes the essence of the
/// media type. Claimed of it: the result is the guess named
/// [`guessed_media_type`] of `ext`, and an empty extension gets no guess (the
/// source returns an empty guess for it). Which extensions get which media
/// types is left unsaid.
#[verifier::external_body]
fn media_type_for_extension(ext: &str) -> (r: Option<String>)
    ensures
        match r {
            Some(m) => guessed_media_type(ext@) == Some(m@),
            None => guessed_media_type(ext@) is None,
        },
        ext@.len() == 0 ==> r is None,
{
    match mime_guess::from_ext(ext).first() {
        Some(m) => Some(m.essence_str().to_string()),
        None => None,
    }
}

/// Reads the essence of `mime::TEXT_PLAIN_UTF_8`. Claimed of it: it is
/// `text/plain` (the constant's source text is `text/plain; charset=utf-8`
/// and its essence ends before the `;`).
#[verifier::external_body]
fn plain_text_media_type() -> (r: String)
    ensures
        r@ == "text/plain"@,
{
    mime_guess::mime::TEXT_PLAIN_UTF_8.essence_str().to_string()
}

/// The content type for a guessed media type: the guess itself, or
/// `text/plain` when there is none.
pub fn content_type_from_guess(guess: Option<String>) -> (r: String)
    ensures
        r@ == match guess {
            Some(m) => m@,
            None => "text/plain"@,
        },
{
    match guess {
        Some(m) => m,
        None => plain_text_media_type(),
    }
}

/// The content type that the asset at `path` is served with: the media type
/// guessed from the text after the last `.` of the path (all of the path when
/// it holds no `.`), or `text/plain`.
pub fn content_type_for(path: &str) -> (r: String)
    ensures
        r@ == match guessed_media_type(after_last_dot(path@)) {
            Some(m) => m,
            None => "text/plain"@,
        },
{
    let chars = chars_of(path);
    let start = after_last_dot_start(&chars);
    let ext = path.substring_char(start, chars.len());
    let guess = media_type_for_extension(ext);
    content_type_from_guess(guess)
}

} // verus!
