//! Names used by the project-board backup: which attachments are files to
//! download, and the names of the files it writes.

use vstd::prelude::*;
use vstd::string::StringExecFns;

verus! {

/// Relies on `str::starts_with` with a string pattern: whether `p` is a
/// prefix of `s`.
#[verifier::external_body]
fn starts_with(s: &str, p: &str) -> (r: bool)
    ensures
        r == p@.is_prefix_of(s@),
{
    s.starts_with(p)
}

/// An attachment is downloaded unless its name is a link (starts with `http`).
pub fn is_downloadable_attachment(name: &str) -> (r: bool)
    ensures
        r == !seq!['h', 't', 't', 'p'].is_prefix_of(name@),
{
    proof {
        reveal_strlit("http");
    }
    !starts_with(name, "http")
}

/// The file a board's JSON is saved to: its name with `.json`.
pub fn board_file_name(name: &str) -> (r: String)
    ensures
        r@ == name@ + seq!['.', 'j', 's', 'o', 'n'],
{
    proof {
        reveal_strlit(".json");
    }
    String::from_str(name).concat(".json")
}

/// The archive file for a date: the date with `.tar.zst`.
pub fn archive_file_name(date: &str) -> (r: String)
    ensures
        r@ == date@ + seq!['.', 't', 'a', 'r', '.', 'z', 's', 't'],
{
    proof {
        reveal_strlit(".tar.zst");
    }
    String::from_str(date).concat(".tar.zst")
}

} // verus!
