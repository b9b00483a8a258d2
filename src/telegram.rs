//! The messaging-service backup's data: dialogs with their messages, as
//! stored in each dialog's metadata file, and the file extension of a
//! message's media.

use vstd::prelude::*;
use vstd::string::StringExecFns;

verus! {

/// The kind of a backed-up dialog.
#[derive(Clone, Copy, Debug, PartialEq, Eq, Structural)]
pub enum DialogType {
    User,
    Group,
}

/// A user, chat or channel, by id.
#[derive(Clone, Copy, Debug, PartialEq, Eq, Structural)]
pub enum Peer {
    User(i64),
    Chat(i64),
    Channel(i64),
}

/// Where a forwarded message came from.
pub struct MessageFwdHeader {
    pub imported: bool,
    pub from_id: Option<Peer>,
    pub from_name: Option<String>,
    pub date: i32,
    pub channel_post: Option<i32>,
    pub post_author: Option<String>,
    pub saved_from_peer: Option<Peer>,
    pub saved_from_msg_id: Option<i32>,
    pub psa_type: Option<String>,
}

/// The message a reply answers.
pub struct MessageReplyHeader {
    pub reply_to_scheduled: bool,
    pub reply_to_msg_id: i32,
    pub reply_to_peer_id: Option<Peer>,
    pub reply_to_top_id: Option<i32>,
}

/// The replies to a message.
pub struct MessageReplies {
    pub comments: bool,
    pub replies: i32,
    pub replies_pts: i32,
    pub recent_repliers: Option<Vec<Peer>>,
    pub channel_id: Option<i64>,
    pub max_id: Option<i32>,
    pub read_max_id: Option<i32>,
}

/// Who sent a message, by display name.
pub enum Sender {
    User(String),
    Group(String),
    Channel(String),
}

/// One backed-up message. Times are seconds since the Unix epoch, in UTC.
pub struct Message {
    pub id: i32,
    pub text: String,
    pub date: i64,
    pub out: bool,
    pub mentioned: bool,
    pub media_unread: bool,
    pub silent: bool,
    pub post: bool,
    pub from_scheduled: bool,
    pub edit_hide: bool,
    pub pinned: bool,
    pub sender: Option<Sender>,
    pub forward_header: Option<MessageFwdHeader>,
    pub via_bot_id: Option<i64>,
    pub reply_to: Option<MessageReplyHeader>,
    pub forward_count: Option<i32>,
    pub reply_count: Option<MessageReplies>,
    pub edit_date: Option<i64>,
    pub post_author: Option<String>,
    pub grouped_id: Option<i64>,
}

/// A dialog and its messages.
pub struct DialogBackup {
    pub name: String,
    pub username: Option<String>,
    pub last_name: Option<String>,
    pub messages: Vec<Message>,
    pub dialog_type: DialogType,
}

impl DialogBackup {
    /// The dialog has no messages.
    pub fn is_empty(&self) -> (r: bool)
        ensures
            r == (self.messages@.len() == 0),
    {
        self.messages.len() == 0
    }
}

/// Whether a flag is unset; such flags are left out of the metadata file.
pub fn is_false(b: &bool) -> (r: bool)
    ensures
        r == !*b,
{
    !*b
}

/// The media attached to a message, as far as its file name depends on it.
pub enum MediaKind {
    Photo,
    Sticker { mime_type: Option<String> },
    Document { mime_type: Option<String>, name: String },
    Contact,
    Other,
}

/// The subtype of a media type (`png` of `image/png`); `None` where the
/// text is not a media type.
pub uninterp spec fn mime_subtype(m: Seq<char>) -> Option<Seq<char>>;

/// Relies on `mime::Mime`'s `FromStr` impl and `Mime::subtype`: parsing
/// fails on text that is not a media type, and the subtype depends on the
/// text alone.
#[verifier::external_body]
fn parse_mime_subtype(m: &str) -> (r: Option<String>)
    ensures
        match r {
            Some(t) => mime_subtype(m@) == Some(t@),
            None => mime_subtype(m@) is None,
        },
{
    match m.parse::<mime::Mime>() {
        Ok(mime) => Some(mime.subtype().as_str().to_string()),
        Err(_) => None,
    }
}

pub open spec fn opt_str_view(s: Option<&str>) -> Option<Seq<char>> {
    match s {
        Some(s) => Some(s@),
        None => None,
    }
}

pub open spec fn opt_string_view(s: Option<String>) -> Option<Seq<char>> {
    match s {
        Some(s) => Some(s@),
        None => None,
    }
}

/// The file extension for a media subtype: a dot, then the subtype.
pub open spec fn subtype_extension(subtype: Seq<char>) -> Seq<char> {
    seq!['.'] + subtype
}

/// The file extension for an optional media type; `None` without one, or
/// where it does not parse.
pub open spec fn mime_extension(mime_type: Option<Seq<char>>) -> Option<Seq<char>> {
    match mime_type {
        None => None,
        Some(m) => match mime_subtype(m) {
            Some(t) => Some(subtype_extension(t)),
            None => None,
        },
    }
}

/// The file extension for a media subtype.
pub fn extension_of_subtype(subtype: &str) -> (r: String)
    ensures
        r@ == subtype_extension(subtype@),
{
    proof {
        reveal_strlit(".");
    }
    String::from_str(".").concat(subtype)
}

/// The file extension for an optional media type.
pub fn get_mime_extension(mime_type: Option<&str>) -> (r: Option<String>)
    ensures
        opt_string_view(r) == mime_extension(opt_str_view(mime_type)),
{
    match mime_type {
        None => None,
        Some(m) => match parse_mime_subtype(m) {
            Some(subtype) => Some(extension_of_subtype(subtype.as_str())),
            None => None,
        },
    }
}

/// The suffix of a document's file: the extension of its media type, or a
/// dash and its own name.
pub open spec fn document_suffix(mime_type: Option<Seq<char>>, name: Seq<char>) -> Seq<char> {
    match mime_extension(mime_type) {
        Some(e) => e,
        None => seq!['-'] + name,
    }
}

fn get_document_suffix(mime_type: Option<&str>, name: &str) -> (r: String)
    ensures
        r@ == document_suffix(opt_str_view(mime_type), name@),
{
    match get_mime_extension(mime_type) {
        Some(e) => e,
        None => {
            proof {
                reveal_strlit("-");
            }
            String::from_str("-").concat(name)
        },
    }
}


/// The extension of the file a message's media is saved to.
pub open spec fn file_extension(media: MediaKind) -> Seq<char> {
    match media {
        MediaKind::Photo => seq!['.', 'j', 'p', 'g'],
        MediaKind::Sticker { mime_type } => match mime_extension(opt_string_view(mime_type)) {
            Some(e) => e,
            None => Seq::empty(),
        },
        MediaKind::Document { mime_type, name } => document_suffix(
            opt_string_view(mime_type),
            name@,
        ),
        MediaKind::Contact => seq!['.', 'v', 'c', 'f'],
        MediaKind::Other => Seq::empty(),
    }
}

fn opt_as_str(s: &Option<String>) -> (r: Option<&str>)
    ensures
        opt_str_view(r) == opt_string_view(*s),
{
    match s {
        Some(s) => Some(s.as_str()),
        None => None,
    }
}

/// The extension of the file a message's media is saved to.
pub fn get_file_extension(media: &MediaKind) -> (r: String)
    ensures
        r@ == file_extension(*media),
{
    match media {
        MediaKind::Photo => {
            proof {
                reveal_strlit(".jpg");
            }
            String::from_str(".jpg")
        },
        MediaKind::Sticker { mime_type } => match get_mime_extension(opt_as_str(mime_type)) {
            Some(e) => e,
            None => String::new(),
        },
        MediaKind::Document { mime_type, name } => get_document_suffix(
            opt_as_str(mime_type),
            name.as_str(),
        ),
        MediaKind::Contact => {
            proof {
                reveal_strlit(".vcf");
            }
            String::from_str(".vcf")
        },
        MediaKind::Other => String::new(),
    }
}


/// Photos and documents are saved to files; other media only appear in the
/// metadata.
pub fn is_downloaded_media(media: &MediaKind) -> (r: bool)
    ensures
        r == (*media is Photo || *media is Document),
{
    match media {
        MediaKind::Photo => true,
        MediaKind::Document { .. } => true,
        _ => false,
    }
}

/// Seconds to wait after a flood-wait refusal: what the service asked for,
/// or 3 when it named no value.
pub fn flood_wait_seconds(value: Option<u32>) -> (r: u64)
    ensures
        r == match value {
            Some(v) => v as u64,
            None => 3u64,
        },
{
    match value {
        Some(v) => v as u64,
        None => 3,
    }
}

} // verus!
