//! Syncing projects with places outside the browser's storage: the status of
//! a synced file, what importing a local directory does with each entry and
//! how exporting lays files out, the token that Google Drive's sign-in
//! leaves in the address, and the requests sent to Drive.
use vstd::prelude::*;
use crate::file_tree::{split_on, split_text};
use crate::installer::holds_text;
use crate::project::{ends_with_any, is_text_file, text_extensions};
use crate::records::{json_quote, json_string};
use crate::registry::{drop_leading, drop_leading_exec, split_once, split_once_exec};
use crate::storage::strings_view;
use crate::text::{
    append_bytes, append_chars, chars_of, find_chars, format_radix, lowercase, radix_digits, str_equal, string_of,
    utf8_bytes,
};
use vstd::utf8::encode_utf8;

verus! {

/// The sync status of a file.
#[derive(Clone, Debug, PartialEq, Eq, Structural)]
pub enum SyncStatus {
    Synced,
    ModifiedLocally,
    ModifiedRemotely,
    Conflict,
    Syncing,
}

// ---------------------------------------------------------------------------
// Local directories
// ---------------------------------------------------------------------------
/// The path of an entry `name` of the directory at `base` (the root where
/// `base` is empty).
pub open spec fn child_path_text(base: Seq<char>, name: Seq<char>) -> Seq<char> {
    if base.len() == 0 {
        name
    } else {
        base + seq!['/'] + name
    }
}

/// What importing a directory does with one of its entries.
pub enum EntryAction {
    /// Read the file at this path as text.
    ReadText(String),
    /// Read the file at this path as bytes.
    ReadBinary(String),
    /// Import the directory at this path too.
    Descend(String),
    /// Leave the entry out: a hidden directory, or neither file nor directory.
    Skip,
}

/// What importing does with the entry `name` of kind `kind` in the directory
/// at `base`: a file is read, as text where its name says so; a directory is
/// imported too unless its name starts with `.`; anything else is left out.
pub fn entry_action(base: &str, name: &str, kind: &str) -> (r: EntryAction)
    ensures
        kind@ == "file"@ ==> if ends_with_any(lowercase(name@), text_extensions()) {
            r matches EntryAction::ReadText(p) && p@ == child_path_text(base@, name@)
        } else {
            r matches EntryAction::ReadBinary(p) && p@ == child_path_text(base@, name@)
        },
        kind@ != "file"@ && kind@ == "directory"@ ==> if name@.len() > 0 && name@[0] == '.' {
            r is Skip
        } else {
            r matches EntryAction::Descend(p) && p@ == child_path_text(base@, name@)
        },
        kind@ != "file"@ && kind@ != "directory"@ ==> r is Skip,
{
    let base_chars = chars_of(base);
    let name_chars = chars_of(name);
    let path = if base_chars.len() == 0 {
        string_of(&name_chars)
    } else {
        let mut v = base_chars;
        v.push('/');
        append_chars(&mut v, &name_chars);
        string_of(&v)
    };
    if str_equal(kind, "file") {
        if is_text_file(name) {
            EntryAction::ReadText(path)
        } else {
            EntryAction::ReadBinary(path)
        }
    } else if str_equal(kind, "directory") {
        if name_chars.len() > 0 && name_chars[0] == '.' {
            EntryAction::Skip
        } else {
            EntryAction::Descend(path)
        }
    } else {
        EntryAction::Skip
    }
}

/// Where exporting writes a file: the directories to open or create on the
/// way, and the file's name in the last of them.
pub fn export_location(path: &str) -> (r: (Vec<String>, String))
    ensures
        strings_view(r.0@).push(r.1@) == split_on(path@, '/'),
{
    let chars = chars_of(path);
    let mut parts = split_text(&chars, '/');
    proof {
        crate::file_tree::lemma_join_split(path@, '/');
    }
    let ghost all = strings_view(parts@);
    let name = match parts.pop() {
        Some(n) => n,
        None => String::new(),
    };
    assert(strings_view(parts@).push(name@) =~= all);
    (parts, name)
}

// ---------------------------------------------------------------------------
// Google Drive sign-in
// ---------------------------------------------------------------------------
/// The value of the last `key=value` pair whose key is `key`; pairs without
/// `=` do not count.
pub open spec fn last_value(pairs: Seq<Seq<char>>, key: Seq<char>) -> Option<Seq<char>>
    decreases pairs.len(),
{
    if pairs.len() == 0 {
        None
    } else {
        match split_once(pairs.last(), '=') {
            Some((k, v)) => if k == key {
                Some(v)
            } else {
                last_value(pairs.drop_last(), key)
            },
            None => last_value(pairs.drop_last(), key),
        }
    }
}

/// The access token a sign-in redirect leaves in the address's fragment
/// (`#access_token=…&token_type=…`): where the fragment mentions
/// `access_token=`, the value of the last `access_token` among its
/// `&`-separated pairs, after the leading `#`s.
pub open spec fn access_token_text(hash: Seq<char>) -> Option<Seq<char>> {
    if holds_text(hash, "access_token="@) {
        last_value(split_on(drop_leading(hash, '#'), '&'), "access_token"@)
    } else {
        None
    }
}

/// The access token in a sign-in redirect's fragment, if any.
pub fn fragment_access_token(hash: &str) -> (r: Option<String>)
    ensures
        r matches Some(t) ==> access_token_text(hash@) == Some(t@),
        r is None ==> access_token_text(hash@) is None,
{
    let chars = chars_of(hash);
    let found = find_chars(&chars, &chars_of("access_token="));
    if found.is_none() {
        return None;
    }
    assert(holds_text(hash@, "access_token="@));
    let body = drop_leading_exec(&chars, '#');
    let pairs = split_text(&body, '&');
    let ghost pv = strings_view(pairs@);
    assert(pv =~= split_on(drop_leading(hash@, '#'), '&'));
    let mut i = pairs.len();
    assert(pv.take(pairs.len() as int) =~= pv);
    while i > 0
        invariant
            i <= pairs.len(),
            pv == strings_view(pairs@),
            pv == split_on(drop_leading(hash@, '#'), '&'),
            holds_text(hash@, "access_token="@),
            last_value(pv, "access_token"@) == last_value(pv.take(i as int), "access_token"@),
        decreases i,
    {
        assert(pv.take(i as int).drop_last() =~= pv.take(i - 1));
        assert(pv.take(i as int).last() == pairs@[i - 1]@);
        let pair = chars_of(pairs[i - 1].as_str());
        match split_once_exec(&pair, '=') {
            Some((k, v)) => {
                if str_equal(string_of(&k).as_str(), "access_token") {
                    assert(split_once(pv.take(i as int).last(), '=') == Some((k@, v@)));
                    assert(last_value(pv.take(i as int), "access_token"@) == Some(v@));
                    return Some(string_of(&v));
                }
            },
            None => {},
        }
        i = i - 1;
    }
    None
}

// ---------------------------------------------------------------------------
// Google Drive requests
// ---------------------------------------------------------------------------
/// The search for the files in a Drive folder that are not in the trash.
pub open spec fn folder_query_text(folder_id: Seq<char>) -> Seq<char> {
    "'"@ + folder_id + "' in parents and trashed = false"@
}

/// The search Drive is sent to list a folder's files.
pub fn folder_query(folder_id: &str) -> (r: String)
    ensures
        r@ == folder_query_text(folder_id@),
{
    let mut v = chars_of("'");
    append_chars(&mut v, &chars_of(folder_id));
    append_chars(&mut v, &chars_of("' in parents and trashed = false"));
    string_of(&v)
}

/// The metadata of a file uploaded to a folder, as a JSON object.
pub open spec fn upload_metadata_text(name: Seq<char>, folder_id: Seq<char>) -> Seq<char> {
    "{\"name\":"@ + json_string(name) + ",\"parents\":["@ + json_string(folder_id) + "]}"@
}

/// The metadata of a new folder, as a JSON object.
pub open spec fn folder_metadata_text(name: Seq<char>, parent_id: Seq<char>) -> Seq<char> {
    "{\"mimeType\":\"application/vnd.google-apps.folder\",\"name\":"@ + json_string(name) + ",\"parents\":["@
        + json_string(parent_id) + "]}"@
}

/// The body of the request that creates a folder in Drive.
pub fn folder_metadata(name: &str, parent_id: &str) -> (r: String)
    ensures
        r@ == folder_metadata_text(name@, parent_id@),
{
    let mut v = chars_of("{\"mimeType\":\"application/vnd.google-apps.folder\",\"name\":");
    append_chars(&mut v, &chars_of(json_quote(name).as_str()));
    append_chars(&mut v, &chars_of(",\"parents\":["));
    append_chars(&mut v, &chars_of(json_quote(parent_id).as_str()));
    append_chars(&mut v, &chars_of("]}"));
    string_of(&v)
}

/// The boundary between the parts of an upload.
pub open spec fn boundary() -> Seq<char> {
    "typst_studio_boundary"@
}

/// The text before an upload's data: the metadata part, and the head of the
/// data part with its content type.
pub open spec fn upload_head_text(name: Seq<char>, folder_id: Seq<char>, mime_type: Seq<char>) -> Seq<char> {
    "--"@ + boundary() + "\r\nContent-Type: application/json; charset=UTF-8\r\n\r\n"@ + upload_metadata_text(
        name,
        folder_id,
    ) + "\r\n--"@ + boundary() + "\r\nContent-Type: "@ + mime_type + "\r\n\r\n"@
}

/// The text after an upload's data: the closing boundary.
pub open spec fn upload_tail_text() -> Seq<char> {
    "\r\n--"@ + boundary() + "--"@
}

/// The body of a multipart upload of `data` as the file `name` in the folder
/// `folder_id`: the head's bytes, the data, and the tail's bytes.
pub fn upload_body(name: &str, folder_id: &str, data: &[u8], mime_type: &str) -> (r: Vec<u8>)
    ensures
        r@ == encode_utf8(upload_head_text(name@, folder_id@, mime_type@)) + data@ + encode_utf8(upload_tail_text()),
{
    let mut head = chars_of("--");
    append_chars(&mut head, &chars_of("typst_studio_boundary"));
    append_chars(&mut head, &chars_of("\r\nContent-Type: application/json; charset=UTF-8\r\n\r\n"));
    append_chars(&mut head, &chars_of("{\"name\":"));
    append_chars(&mut head, &chars_of(json_quote(name).as_str()));
    append_chars(&mut head, &chars_of(",\"parents\":["));
    append_chars(&mut head, &chars_of(json_quote(folder_id).as_str()));
    append_chars(&mut head, &chars_of("]}"));
    append_chars(&mut head, &chars_of("\r\n--"));
    append_chars(&mut head, &chars_of("typst_studio_boundary"));
    append_chars(&mut head, &chars_of("\r\nContent-Type: "));
    append_chars(&mut head, &chars_of(mime_type));
    append_chars(&mut head, &chars_of("\r\n\r\n"));
    assert(head@ =~= upload_head_text(name@, folder_id@, mime_type@));
    let mut tail = chars_of("\r\n--");
    append_chars(&mut tail, &chars_of("typst_studio_boundary"));
    append_chars(&mut tail, &chars_of("--"));
    assert(tail@ =~= upload_tail_text());
    let mut body = utf8_bytes(string_of(&head).as_str());
    append_bytes(&mut body, data);
    append_bytes(&mut body, utf8_bytes(string_of(&tail).as_str()).as_slice());
    body
}

/// The content type of a multipart upload.
pub fn upload_content_type() -> (r: &'static str)
    ensures
        r@ == "multipart/related; boundary="@ + boundary(),
{
    proof {
        reveal_strlit("multipart/related; boundary=typst_studio_boundary");
        reveal_strlit("multipart/related; boundary=");
        reveal_strlit("typst_studio_boundary");
    }
    assert("multipart/related; boundary=typst_studio_boundary"@ =~= "multipart/related; boundary="@ + "typst_studio_boundary"@);
    "multipart/related; boundary=typst_studio_boundary"
}

/// The address of Drive's files.
pub open spec fn drive_files() -> Seq<char> {
    "https://www.googleapis.com/drive/v3/files"@
}

/// The address of Drive's uploads.
pub open spec fn drive_uploads() -> Seq<char> {
    "https://www.googleapis.com/upload/drive/v3/files"@
}

/// The request that lists the files an (already URL-encoded) search finds.
pub fn drive_list_url(encoded_query: &str) -> (r: String)
    ensures
        r@ == drive_files() + "?q="@ + encoded_query@ + "&fields=files(id,name,mimeType,modifiedTime,size)&pageSize=100"@,
{
    let mut v = chars_of("https://www.googleapis.com/drive/v3/files");
    append_chars(&mut v, &chars_of("?q="));
    append_chars(&mut v, &chars_of(encoded_query));
    append_chars(&mut v, &chars_of("&fields=files(id,name,mimeType,modifiedTime,size)&pageSize=100"));
    string_of(&v)
}

/// The address of a Drive file, and of its content where `media` is set.
pub fn drive_file_url(file_id: &str, media: bool) -> (r: String)
    ensures
        r@ == drive_files() + "/"@ + file_id@ + if media {
            "?alt=media"@
        } else {
            Seq::empty()
        },
{
    proof {
        reveal_strlit("");
    }
    let mut v = chars_of("https://www.googleapis.com/drive/v3/files");
    append_chars(&mut v, &chars_of("/"));
    append_chars(&mut v, &chars_of(file_id));
    if media {
        append_chars(&mut v, &chars_of("?alt=media"));
    } else {
        append_chars(&mut v, &chars_of(""));
    }
    string_of(&v)
}

/// The request that replaces a Drive file's content.
pub fn drive_update_url(file_id: &str) -> (r: String)
    ensures
        r@ == drive_uploads() + "/"@ + file_id@ + "?uploadType=media"@,
{
    let mut v = chars_of("https://www.googleapis.com/upload/drive/v3/files");
    append_chars(&mut v, &chars_of("/"));
    append_chars(&mut v, &chars_of(file_id));
    append_chars(&mut v, &chars_of("?uploadType=media"));
    string_of(&v)
}

/// The sign-in page for an app, with the (already URL-encoded) address to
/// come back to and the access asked for.
pub fn consent_url(client_id: &str, encoded_redirect: &str, encoded_scope: &str) -> (r: String)
    ensures
        r@ == "https://accounts.google.com/o/oauth2/v2/auth?client_id="@ + client_id@ + "&redirect_uri="@
            + encoded_redirect@ + "&response_type=token&scope="@ + encoded_scope@ + "&prompt=consent"@,
{
    let mut v = chars_of("https://accounts.google.com/o/oauth2/v2/auth?client_id=");
    append_chars(&mut v, &chars_of(client_id));
    append_chars(&mut v, &chars_of("&redirect_uri="));
    append_chars(&mut v, &chars_of(encoded_redirect));
    append_chars(&mut v, &chars_of("&response_type=token&scope="));
    append_chars(&mut v, &chars_of(encoded_scope));
    append_chars(&mut v, &chars_of("&prompt=consent"));
    string_of(&v)
}

/// The address Drive's sign-in sends the browser back to: the page's
/// origin, or the development server's where the page has none.
pub fn redirect_origin(origin: Option<&str>) -> (r: String)
    ensures
        r@ == match origin {
            Some(o) => o@,
            None => "http://localhost:1420"@,
        },
{
    match origin {
        Some(o) => string_of(&chars_of(o)),
        None => string_of(&chars_of("http://localhost:1420")),
    }
}

/// A request to Drive.
#[derive(Clone, Copy, Debug, PartialEq, Eq, Structural)]
pub enum DriveCall {
    /// A read through the files API: listing or downloading.
    Api,
    Upload,
    Update,
    Delete,
    CreateFolder,
}

/// The words that open the message of a Drive request answered with an
/// error status.
pub open spec fn drive_error_prefix(call: DriveCall) -> Seq<char> {
    match call {
        DriveCall::Api => "Drive API error: "@,
        DriveCall::Upload => "Upload error: "@,
        DriveCall::Update => "Update error: "@,
        DriveCall::Delete => "Delete error: "@,
        DriveCall::CreateFolder => "Create folder error: "@,
    }
}

/// The message of a Drive request answered with `status`, which is no
/// success.
pub fn drive_status_error(call: DriveCall, status: u16) -> (r: String)
    ensures
        r@ == drive_error_prefix(call) + radix_digits(status as nat, 10),
{
    let mut v = match call {
        DriveCall::Api => chars_of("Drive API error: "),
        DriveCall::Upload => chars_of("Upload error: "),
        DriveCall::Update => chars_of("Update error: "),
        DriveCall::Delete => chars_of("Delete error: "),
        DriveCall::CreateFolder => chars_of("Create folder error: "),
    };
    append_chars(&mut v, &format_radix(status as u128, 10));
    string_of(&v)
}

/// The `Authorization` header of a Drive request.
pub fn drive_auth_header(access_token: &str) -> (r: String)
    ensures
        r@ == "Bearer "@ + access_token@,
{
    let mut v = chars_of("Bearer ");
    append_chars(&mut v, &chars_of(access_token));
    string_of(&v)
}

} // verus!
