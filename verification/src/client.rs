//! The requests the editor sends to the file server: its address and token
//! from the settings, the paths of projects and files, the bodies of the
//! requests that carry JSON, and the message of a failed request.
use vstd::prelude::*;
use crate::installer::dec;
use crate::records::{json_quote, json_string};
use crate::text::{append_chars, chars_of, format_radix, string_of};

verus! {

/// The server's address and token, as the settings give them.
pub struct ServerConfig {
    pub base_url: String,
    pub auth_token: Option<String>,
}

/// The address used where the setting is missing or empty.
pub open spec fn default_server_url() -> Seq<char> {
    "http://localhost:3001/api"@
}

impl ServerConfig {
    /// The configuration from the saved settings: an empty setting counts
    /// as missing; without an address the local default is used.
    pub fn from_settings(url: Option<String>, token: Option<String>) -> (r: Self)
        ensures
            r.base_url@ == match url {
                Some(u) => if u@.len() > 0 {
                    u@
                } else {
                    default_server_url()
                },
                None => default_server_url(),
            },
            match token {
                Some(t) => if t@.len() > 0 {
                    r.auth_token matches Some(x) && x@ == t@
                } else {
                    r.auth_token is None
                },
                None => r.auth_token is None,
            },
    {
        let base_url = match url {
            Some(u) => if chars_of(u.as_str()).len() > 0 {
                u
            } else {
                string_of(&chars_of("http://localhost:3001/api"))
            },
            None => string_of(&chars_of("http://localhost:3001/api")),
        };
        let auth_token = match token {
            Some(t) => if chars_of(t.as_str()).len() > 0 {
                Some(t)
            } else {
                None
            },
            None => None,
        };
        ServerConfig { base_url, auth_token }
    }

    /// The address of a request to `path`.
    pub fn request_url(&self, path: &str) -> (r: String)
        ensures
            r@ == self.base_url@ + path@,
    {
        let mut v = chars_of(self.base_url.as_str());
        append_chars(&mut v, &chars_of(path));
        string_of(&v)
    }

    /// The `Authorization` header, where there is a token.
    pub fn auth_header(&self) -> (r: Option<String>)
        ensures
            match self.auth_token {
                Some(t) => r matches Some(h) && h@ == "Bearer "@ + t@,
                None => r is None,
            },
    {
        match &self.auth_token {
            Some(t) => {
                let mut v = chars_of("Bearer ");
                append_chars(&mut v, &chars_of(t.as_str()));
                Some(string_of(&v))
            },
            None => None,
        }
    }
}

/// The path of a project.
pub fn project_path(id: &str) -> (r: String)
    ensures
        r@ == "/projects/"@ + id@,
{
    let mut v = chars_of("/projects/");
    append_chars(&mut v, &chars_of(id));
    string_of(&v)
}

/// The path of a project's file list.
pub fn files_path(id: &str) -> (r: String)
    ensures
        r@ == "/projects/"@ + id@ + "/files"@,
{
    let mut v = chars_of("/projects/");
    append_chars(&mut v, &chars_of(id));
    append_chars(&mut v, &chars_of("/files"));
    string_of(&v)
}

/// The path of a project's file.
pub fn file_path(id: &str, path: &str) -> (r: String)
    ensures
        r@ == "/projects/"@ + id@ + "/files/"@ + path@,
{
    let mut v = chars_of("/projects/");
    append_chars(&mut v, &chars_of(id));
    append_chars(&mut v, &chars_of("/files/"));
    append_chars(&mut v, &chars_of(path));
    string_of(&v)
}

/// The body of the request that creates a project.
pub fn create_project_body(name: &str) -> (r: String)
    ensures
        r@ == "{\"name\":"@ + json_string(name@) + "}"@,
{
    let mut v = chars_of("{\"name\":");
    append_chars(&mut v, &chars_of(json_quote(name).as_str()));
    append_chars(&mut v, &chars_of("}"));
    string_of(&v)
}

/// The body of the request that renames a file.
pub fn rename_body(new_path: &str) -> (r: String)
    ensures
        r@ == "{\"new_path\":"@ + json_string(new_path@) + "}"@,
{
    let mut v = chars_of("{\"new_path\":");
    append_chars(&mut v, &chars_of(json_quote(new_path).as_str()));
    append_chars(&mut v, &chars_of("}"));
    string_of(&v)
}

/// The message of a request the server refused: its status and the text it
/// answered.
pub fn server_error(status: u16, text: &str) -> (r: String)
    ensures
        r@ == "Server error "@ + dec(status as nat) + ": "@ + text@,
{
    let mut v = chars_of("Server error ");
    append_chars(&mut v, &format_radix(status as u128, 10));
    append_chars(&mut v, &chars_of(": "));
    append_chars(&mut v, &chars_of(text));
    string_of(&v)
}

} // verus!
