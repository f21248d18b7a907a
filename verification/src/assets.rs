//! The reply to a request for one of the site's built-in files.

use vstd::prelude::*;

verus! {

/// The media type that `mime_guess` gives for `path`, by its extension
/// (`application/octet-stream` where it knows none).
pub uninterp spec fn mime_type_of_path(path: Seq<char>) -> Seq<char>;

/// Calls `mime_guess::from_path(path).first_or_octet_stream()` and gives the
/// media type as text. Its contract claims only that the result is a function
/// of `path`.
#[verifier::external_body]
fn guess_mime_type(path: &str) -> (r: String)
    ensures
        r@ == mime_type_of_path(path@),
{
    mime_guess::from_path(path).first_or_octet_stream().as_ref().to_string()
}

/// The reply to a request for a built-in file.
#[derive(Debug)]
pub enum FileReply {
    /// The file, with its media type.
    Found { content_type: String, body: Vec<u8> },
    /// There is no such file.
    NotFound { message: String },
}

/// The reply for a built-in file whose media type is `content_type`: the file
/// where there is one, else a "404 Not Found" page.
pub fn file_reply(content_type: String, content: Option<Vec<u8>>) -> (r: FileReply)
    ensures
        match content {
            Some(b) => r matches FileReply::Found { content_type: t, body } && t@ == content_type@ && body@ == b@,
            None => r matches FileReply::NotFound { message } && message@ == "404 Not Found"@,
        },
{
    match content {
        Some(b) => FileReply::Found { content_type, body: b },
        None => FileReply::NotFound { message: String::from_str("404 Not Found") },
    }
}

/// The reply for the built-in file at `path` whose content is `content`, if
/// there is such a file: the file with the media type of its path, or a
/// "404 Not Found" page.
pub fn handle_embedded_file(path: &str, content: Option<Vec<u8>>) -> (r: FileReply)
    ensures
        match content {
            Some(b) => r matches FileReply::Found { content_type: t, body } && t@ == mime_type_of_path(path@) && body@ == b@,
            None => r matches FileReply::NotFound { message } && message@ == "404 Not Found"@,
        },
{
    match content {
        Some(b) => file_reply(guess_mime_type(path), Some(b)),
        None => file_reply(String::new(), None),
    }
}

} // verus!
