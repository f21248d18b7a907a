//! Where the catalogue keeps an item's files, and the addresses it sends
//! browsers to.

use vstd::prelude::*;

use vstd::string::StringSliceAdditionalSpecFns;
use vstd::utf8::{decode_utf8, encode_utf8, encode_utf8_decode_utf8, is_ascii_chars, is_char_boundary};

use crate::form::FormFields;
use crate::index::{free_manual_item_id, is_first_free};
use crate::text::{decimal, decimal_text, has_prefix, join3, same_text};

verus! {

/// The folder that holds one folder per item.
pub const DATA_DIR: &'static str = "data";

/// The folder of item `item_id`: `data/<id>`.
pub open spec fn item_dir_spec(item_id: u32) -> Seq<char> {
    DATA_DIR@ + "/"@ + decimal(item_id as nat)
}

/// The folder of item `item_id`.
pub fn item_dir(item_id: u32) -> (r: String)
    ensures
        r@ == item_dir_spec(item_id),
{
    let id = decimal_text(item_id);
    join3(DATA_DIR, "/", id.as_str())
}

/// The folder of item `item_id`, with a closing `/`.
pub open spec fn item_path_spec(item_id: u32) -> Seq<char> {
    item_dir_spec(item_id) + "/"@
}

/// The folder of item `item_id`, with a closing `/`.
pub fn item_path(item_id: u32) -> (r: String)
    ensures
        r@ == item_path_spec(item_id),
{
    item_dir(item_id).concat("/")
}

/// The address of item `item_id`'s page, relative to the site's root:
/// `./item/<id>/`.
pub open spec fn item_location_spec(item_id: u32) -> Seq<char> {
    "./item/"@ + decimal(item_id as nat) + "/"@
}

/// The address of item `item_id`'s page.
pub fn item_location(item_id: u32) -> (r: String)
    ensures
        r@ == item_location_spec(item_id),
{
    let id = decimal_text(item_id);
    join3("./item/", id.as_str(), "/")
}

/// Where a request for a new item leads: the page of the first free number
/// from 999 down to 800, or a page that says that none is left.
pub fn new_item_location(existing: &Vec<u32>) -> (r: String)
    ensures
        match free_manual_item_id_spec(existing@) {
            Some(id) => r@ == item_location_spec(id),
            None => r@ == "./no-more-manual-items-available"@,
        },
{
    match free_manual_item_id(existing) {
        Some(id) => {
            proof {
                lemma_first_free_unique(existing@, id);
            }
            item_location(id)
        },
        None => String::from_str("./no-more-manual-items-available"),
    }
}

/// The first free number for an item entered by hand, if any.
pub open spec fn free_manual_item_id_spec(existing: Seq<u32>) -> Option<u32> {
    if exists|id: u32| is_first_free(existing, id) {
        Some(choose|id: u32| is_first_free(existing, id))
    } else {
        None
    }
}

proof fn lemma_first_free_unique(existing: Seq<u32>, id: u32)
    requires
        is_first_free(existing, id),
    ensures
        free_manual_item_id_spec(existing) == Some(id),
{
    let other = choose|o: u32| is_first_free(existing, o);
    if other < id {
        assert(existing.contains(id));
    } else if other > id {
        assert(existing.contains(other));
    }
}

/// Where the form that asks for an item by number leads: the page of the item
/// that its field `goto_item` names; `None` where the form has no such field.
pub fn goto_location(form: &FormFields) -> (r: Option<String>)
    ensures
        match r {
            Some(l) => form@.contains_key("goto_item"@) && l@ == "./item/"@ + form@["goto_item"@] + "/"@,
            None => !form@.contains_key("goto_item"@),
        },
{
    match form.get("goto_item") {
        Some(v) => Some(join3("./item/", v.as_str(), "/")),
        None => None,
    }
}

/// Where the address of an item's page without the closing `/` leads:
/// `./<id>/`, relative to that address.
pub fn forward_location(item_id: u32) -> (r: String)
    ensures
        r@ == "./"@ + decimal(item_id as nat) + "/"@,
{
    let id = decimal_text(item_id);
    join3("./", id.as_str(), "/")
}

/// The start of the name of an uploaded picture, by the name of the form field
/// that carries it.
pub open spec fn upload_prefix_spec(field_name: Seq<char>) -> Option<Seq<char>> {
    if field_name == "content_img"@ {
        Some("content_"@)
    } else if field_name == "package_img"@ {
        Some("package_"@)
    } else if field_name == "location_img"@ {
        Some("location_"@)
    } else {
        None
    }
}

/// The start of the name of an uploaded picture, by the form field that
/// carries it; `None` for any other field, which is ignored.
pub fn upload_prefix(field_name: &str) -> (r: Option<&'static str>)
    ensures
        match r {
            Some(p) => upload_prefix_spec(field_name@) == Some(p@),
            None => upload_prefix_spec(field_name@) is None,
        },
{
    proof {
        reveal_strlit("content_img");
        reveal_strlit("package_img");
        reveal_strlit("location_img");
        assert("content_img"@[0] != "package_img"@[0]);
        assert("content_img"@[0] != "location_img"@[0]);
        assert("package_img"@[0] != "location_img"@[0]);
    }
    if same_text(field_name, "content_img") {
        Some("content_")
    } else if same_text(field_name, "package_img") {
        Some("package_")
    } else if same_text(field_name, "location_img") {
        Some("location_")
    } else {
        None
    }
}

/// The file that an uploaded picture is written to:
/// `data/<id>/<prefix><timestamp>.jpg`.
pub fn upload_path(item_id: u32, prefix: &str, timestamp: &str) -> (r: String)
    ensures
        r@ == item_path_spec(item_id) + prefix@ + timestamp@ + ".jpg"@,
{
    item_path(item_id).concat(prefix).concat(timestamp).concat(".jpg")
}

/// Where an uploaded form field is stored: a picture field (see
/// `upload_prefix`) with some content goes to
/// `data/<id>/<prefix><timestamp>.jpg`; any other field, and an empty picture,
/// is not stored (`None`).
pub fn upload_target(item_id: u32, field_name: &str, content: &Vec<u8>, timestamp: &str) -> (r: Option<String>)
    ensures
        match upload_prefix_spec(field_name@) {
            Some(prefix) => if content@.len() == 0 {
                r is None
            } else {
                r matches Some(path) && path@ == item_path_spec(item_id) + prefix + timestamp@ + ".jpg"@
            },
            None => r is None,
        },
{
    match upload_prefix(field_name) {
        Some(prefix) => {
            if content.len() == 0 {
                None
            } else {
                Some(upload_path(item_id, prefix, timestamp))
            }
        },
        None => None,
    }
}

/// What a failed write of an item's file was.
#[derive(PartialEq, Eq, Structural, Clone, Copy, Debug)]
pub enum WriteFailure {
    /// The item's folder does not exist.
    NotFound,
    /// Any other failure.
    Other,
}

/// What to do after a write of a file of item `item_id` failed.
#[derive(Debug)]
pub enum WriteRecovery {
    /// Create this folder (the item's), then write the file once more.
    CreateFolderAndRetry(String),
    /// Give up.
    Fail,
}

/// After a failed write: where the item's folder is missing, create it and
/// write again; after any other failure, give up.
pub fn after_failed_write(item_id: u32, failure: WriteFailure) -> (r: WriteRecovery)
    ensures
        failure == WriteFailure::NotFound ==> (r matches WriteRecovery::CreateFolderAndRetry(dir) && dir@
            == item_dir_spec(item_id)),
        failure == WriteFailure::Other ==> r is Fail,
{
    match failure {
        WriteFailure::NotFound => WriteRecovery::CreateFolderAndRetry(item_dir(item_id)),
        WriteFailure::Other => WriteRecovery::Fail,
    }
}

/// The file that a location link is written to:
/// `data/<id>/<prefix><timestamp>.link`.
pub fn link_path(item_id: u32, prefix: &str, timestamp: &str) -> (r: String)
    ensures
        r@ == item_path_spec(item_id) + prefix@ + timestamp@ + ".link"@,
{
    item_path(item_id).concat(prefix).concat(timestamp).concat(".link")
}

/// What the form that links a location asks for: the start of the file's name
/// and the link, from the first of the fields `content_link`, `package_link`,
/// `location_link` that it has; `unknown` and `0` where it has none.
pub fn link_request(form: &FormFields) -> (r: (&'static str, String))
    ensures
        form@.contains_key("content_link"@) ==> r.0@ == "content_link_"@ && r.1@ == form@["content_link"@],
        !form@.contains_key("content_link"@) && form@.contains_key("package_link"@) ==> r.0@
            == "package_link_"@ && r.1@ == form@["package_link"@],
        !form@.contains_key("content_link"@) && !form@.contains_key("package_link"@)
            && form@.contains_key("location_link"@) ==> r.0@ == "location_link_"@ && r.1@
            == form@["location_link"@],
        !form@.contains_key("content_link"@) && !form@.contains_key("package_link"@)
            && !form@.contains_key("location_link"@) ==> r.0@ == "unknown"@ && r.1@ == "0"@,
{
    if let Some(v) = form.get("content_link") {
        ("content_link_", v.clone())
    } else if let Some(v) = form.get("package_link") {
        ("package_link_", v.clone())
    } else if let Some(v) = form.get("location_link") {
        ("location_link_", v.clone())
    } else {
        ("unknown", String::from_str("0"))
    }
}

/// A file of an item's folder to rename: from the first path to the second.
pub struct Rename {
    pub from: String,
    pub to: String,
}

/// Hiding file `name` of item `item_id` renames it to
/// `removed_<timestamp>_<name>` in the same folder; a file whose name starts
/// with `removed_` is already hidden and stays as it is (`None`).
pub fn removal_rename(item_id: u32, name: &str, timestamp: &str) -> (r: Option<Rename>)
    ensures
        "removed_"@.is_prefix_of(name@) ==> r is None,
        !"removed_"@.is_prefix_of(name@) ==> (r matches Some(m) && m.from@ == item_path_spec(item_id)
            + name@ && m.to@ == item_path_spec(item_id) + "removed_"@ + timestamp@ + "_"@ + name@),
{
    if has_prefix(name, "removed_") {
        None
    } else {
        let dir = item_path(item_id);
        let from = dir.clone().concat(name);
        let to = dir.concat("removed_").concat(timestamp).concat("_").concat(name);
        Some(Rename { from, to })
    }
}

/// Showing again hidden file `name` of item `item_id` renames it to the name
/// that follows its first 28 bytes (`removed_`, a timestamp and `_`); a file
/// whose name does not start with `removed_` stays as it is (`None`).
pub fn restore_rename(item_id: u32, name: &str) -> (r: Option<Rename>)
    requires
        "removed_"@.is_prefix_of(name@) ==> is_char_boundary(name.spec_bytes(), 28),
    ensures
        !"removed_"@.is_prefix_of(name@) ==> r is None,
        "removed_"@.is_prefix_of(name@) ==> (r matches Some(m) && m.from@ == item_path_spec(item_id)
            + name@ && m.to@ == item_path_spec(item_id) + decode_utf8(
            name.spec_bytes().subrange(28, name.spec_bytes().len() as int),
        )),
{
    if has_prefix(name, "removed_") {
        let (_head, rest) = name.split_at(28);
        proof {
            encode_utf8_decode_utf8(rest@);
        }
        let dir = item_path(item_id);
        let from = dir.clone().concat(name);
        let to = dir.concat(rest);
        Some(Rename { from, to })
    } else {
        None
    }
}

proof fn lemma_encode_utf8_concat(a: Seq<char>, b: Seq<char>)
    ensures
        encode_utf8(a + b) == encode_utf8(a) + encode_utf8(b),
    decreases a.len(),
{
    if a.len() > 0 {
        lemma_encode_utf8_concat(a.drop_first(), b);
        assert((a + b).drop_first() =~= a.drop_first() + b);
        assert((a + b)[0] == a[0]);
        assert(encode_utf8(a + b) =~= encode_utf8(a) + encode_utf8(b));
    } else {
        assert(a + b =~= b);
        assert(encode_utf8(a) + encode_utf8(b) =~= encode_utf8(b));
    }
}

/// The name that hiding gives a file: `removed_<timestamp>_<name>`.
pub open spec fn hidden_name(name: Seq<char>, timestamp: Seq<char>) -> Seq<char> {
    "removed_"@ + timestamp + "_"@ + name
}

/// Showing a hidden file again gives it back its name, where the timestamp
/// is 19 ASCII characters (the form `YYYY-MM-DD_hh:mm:ss`): the hidden name
/// starts with `removed_`, has a character boundary after its first 28 bytes,
/// and what follows them is the old name.
pub proof fn lemma_restore_undoes_removal(name: Seq<char>, timestamp: Seq<char>)
    requires
        timestamp.len() == 19,
        is_ascii_chars(timestamp),
    ensures
        "removed_"@.is_prefix_of(hidden_name(name, timestamp)),
        is_char_boundary(encode_utf8(hidden_name(name, timestamp)), 28),
        decode_utf8(
            encode_utf8(hidden_name(name, timestamp)).subrange(
                28,
                encode_utf8(hidden_name(name, timestamp)).len() as int,
            ),
        ) == name,
{
    reveal_strlit("removed_");
    reveal_strlit("_");
    let head = "removed_"@ + timestamp + "_"@;
    let hidden = hidden_name(name, timestamp);
    assert(hidden == head + name);
    assert(head.subrange(0, 8) =~= "removed_"@);
    assert(hidden.subrange(0, 8) =~= "removed_"@);
    assert(is_ascii_chars(head)) by {
        assert forall|i: int| 0 <= i < head.len() implies '\0' <= #[trigger] head[i] <= '\u{7f}' by {
            if 8 <= i < 27 {
                assert(head[i] == timestamp[i - 8]);
            }
        }
    }
    vstd::utf8::is_ascii_chars_encode_utf8(head);
    lemma_encode_utf8_concat(head, name);
    let bytes = encode_utf8(hidden);
    assert(encode_utf8(head).len() == 28);
    assert(bytes.subrange(28, bytes.len() as int) =~= encode_utf8(name));
    encode_utf8_decode_utf8(name);
    vstd::utf8::encode_utf8_valid_utf8(hidden);
    vstd::utf8::encode_utf8_valid_utf8(name);
    if name.len() == 0 {
        assert(bytes.len() == 28);
        vstd::utf8::is_char_boundary_start_end_of_seq(bytes);
    } else {
        let tail = encode_utf8(name);
        assert(tail.len() > 0) by {
            assert(tail =~= vstd::utf8::encode_scalar(name[0] as u32) + encode_utf8(name.drop_first()));
        }
        vstd::utf8::is_char_boundary_start_end_of_seq(tail);
        vstd::utf8::is_char_boundary_iff_not_is_continuation_byte(tail, 0);
        assert(bytes[28] == tail[0]);
        vstd::utf8::is_char_boundary_iff_not_is_continuation_byte(bytes, 28);
    }
}

} // verus!
