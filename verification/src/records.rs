//! The records the storage backends keep for a project file: a JSON object
//! with the file's kind (`text` or `binary`) and its content (the text, or
//! the bytes in base64), and the reading of such a record back.
use vstd::prelude::*;
use crate::encoding::{base64_decode, base64_encode, base64_error_text, base64_text, is_base64_text};
use crate::project::FileContent;
use crate::state::opt_view;
use crate::text::{append_chars, chars_of, str_equal, string_of};

verus! {

// ---------------------------------------------------------------------------
// JSON strings
// ---------------------------------------------------------------------------
/// The lower-case hexadecimal digit of `d` (below 16).
pub open spec fn hex_digit(d: nat) -> char {
    if d < 10 {
        ('0' as u32 + d) as char
    } else {
        ('a' as u32 + (d - 10)) as char
    }
}

/// How a JSON string writes `c`: quote and backslash escaped, the control
/// characters with a short escape where JSON has one and as `\u00XX`
/// otherwise, every other character as itself.
pub open spec fn json_char(c: char) -> Seq<char> {
    if c == '"' {
        seq!['\\', '"']
    } else if c == '\\' {
        seq!['\\', '\\']
    } else if c == '\u{8}' {
        seq!['\\', 'b']
    } else if c == '\t' {
        seq!['\\', 't']
    } else if c == '\n' {
        seq!['\\', 'n']
    } else if c == '\u{c}' {
        seq!['\\', 'f']
    } else if c == '\r' {
        seq!['\\', 'r']
    } else if (c as u32) < 0x20 {
        seq!['\\', 'u', '0', '0', hex_digit((c as u32 / 16) as nat), hex_digit((c as u32 % 16) as nat)]
    } else {
        seq![c]
    }
}

/// The characters of `s`, each as a JSON string writes it.
pub open spec fn json_chars(s: Seq<char>) -> Seq<char>
    decreases s.len(),
{
    if s.len() == 0 {
        Seq::empty()
    } else {
        json_chars(s.drop_last()) + json_char(s.last())
    }
}

/// `s` as a JSON string literal.
pub open spec fn json_string(s: Seq<char>) -> Seq<char> {
    seq!['"'] + json_chars(s) + seq!['"']
}

/// `serde_json::to_string` on a string: the compact JSON string literal.
/// Its serializer escapes `"` and `\`, writes `\b`, `\t`, `\n`, `\f` and
/// `\r` for those control characters and `\u00xx` (lower-case hexadecimal)
/// for the other characters below U+0020, and copies every other character;
/// it writes into a vector, which cannot fail, so the error arm is never
/// taken.
#[verifier::external_body]
pub(crate) fn json_quote(s: &str) -> (r: String)
    ensures
        r@ == json_string(s@),
{
    match serde_json::to_string(s) {
        Ok(t) => t,
        Err(_) => String::new(),
    }
}

// ---------------------------------------------------------------------------
// File records
// ---------------------------------------------------------------------------
/// The record of a file: `{"content":…,"type":"text"}` with the text, or
/// `{"content":…,"type":"binary"}` with the bytes in base64 (the keys in the
/// order JSON objects are written).
pub open spec fn file_record_text(content: FileContent) -> Seq<char> {
    record_object(record_payload(content), record_kind(content))
}

/// The JSON object `{"content":…,"type":…}` with the two strings.
pub open spec fn record_object(content: Seq<char>, kind: Seq<char>) -> Seq<char> {
    "{\"content\":"@ + json_string(content) + ",\"type\":"@ + json_string(kind) + "}"@
}

/// The kind a record gives a file: `text` or `binary`.
pub open spec fn record_kind(content: FileContent) -> Seq<char> {
    match content {
        FileContent::Text(_) => "text"@,
        FileContent::Binary(_) => "binary"@,
    }
}

/// The content a record holds: the text, or the bytes in base64.
pub open spec fn record_payload(content: FileContent) -> Seq<char> {
    match content {
        FileContent::Text(t) => t@,
        FileContent::Binary(b) => base64_text(b@),
    }
}

/// Content short enough to encode.
pub open spec fn recordable(content: FileContent) -> bool {
    match content {
        FileContent::Binary(b) => b.len() <= usize::MAX / 2,
        FileContent::Text(_) => true,
    }
}

/// The record a storage backend keeps for a file.
pub fn file_record(content: &FileContent) -> (r: String)
    requires
        recordable(*content),
    ensures
        r@ == file_record_text(*content),
{
    let mut out = chars_of("{\"content\":");
    match content {
        FileContent::Text(t) => {
            append_chars(&mut out, &chars_of(json_quote(t.as_str()).as_str()));
            append_chars(&mut out, &chars_of(",\"type\":"));
            append_chars(&mut out, &chars_of(json_quote("text").as_str()));
        },
        FileContent::Binary(b) => {
            let encoded = base64_encode(b.as_slice());
            append_chars(&mut out, &chars_of(json_quote(encoded.as_str()).as_str()));
            append_chars(&mut out, &chars_of(",\"type\":"));
            append_chars(&mut out, &chars_of(json_quote("binary").as_str()));
        },
    }
    append_chars(&mut out, &chars_of("}"));
    string_of(&out)
}

/// What reading a file's record gives, from its `type` and `content` fields
/// where they are strings: a text (empty without content), the bytes of a
/// base64 content, the decoder's error, or an unknown kind.
pub open spec fn record_content(path: Seq<char>, kind: Option<Seq<char>>, content: Option<Seq<char>>) -> Result<
    (bool, Seq<char>, Seq<u8>),
    Seq<char>,
> {
    let c = match content {
        Some(c) => c,
        None => Seq::empty(),
    };
    if kind == Some("text"@) {
        Ok((true, c, Seq::empty()))
    } else if kind == Some("binary"@) {
        if is_base64_text(c) {
            Ok((false, Seq::empty(), choose|b: Seq<u8>| base64_text(b) == c))
        } else {
            Err("Base64 decode error: "@ + base64_error_text(c))
        }
    } else {
        Err("Unknown file type for: "@ + path)
    }
}

/// The content of a text or binary file as a record reading gives it.
pub open spec fn content_parts(c: FileContent) -> (bool, Seq<char>, Seq<u8>) {
    match c {
        FileContent::Text(t) => (true, t@, Seq::empty()),
        FileContent::Binary(b) => (false, Seq::empty(), b@),
    }
}

/// Reads a file's record from its `type` and `content` fields.
pub fn file_from_record(path: &str, kind: Option<&str>, content: Option<&str>) -> (r: Result<FileContent, String>)
    ensures
        match (r, record_content(
            path@,
            match kind {
                Some(k) => Some(k@),
                None => None,
            },
            match content {
                Some(c) => Some(c@),
                None => None,
            },
        )) {
            (Ok(f), Ok(parts)) => content_parts(f) == parts,
            (Err(m), Err(e)) => m@ == e,
            _ => false,
        },
{
    let c: &str = match content {
        Some(c) => c,
        None => "",
    };
    proof {
        reveal_strlit("");
    }
    let is_text = match kind {
        Some(k) => str_equal(k, "text"),
        None => false,
    };
    let is_binary = match kind {
        Some(k) => str_equal(k, "binary"),
        None => false,
    };
    let ghost kv = match kind {
        Some(k) => Some(k@),
        None => None,
    };
    let ghost cv = match content {
        Some(x) => Some(x@),
        None => None,
    };
    assert(c@ == match cv { Some(x) => x, None => Seq::<char>::empty() });
    if is_text {
        assert(kv == Some("text"@));
        let r = FileContent::Text(string_of(&chars_of(c)));
        assert(record_content(path@, kv, cv) == Ok::<(bool, Seq<char>, Seq<u8>), Seq<char>>((true, c@, Seq::empty())));
        Ok(r)
    } else if is_binary {
        match base64_decode(c) {
            Ok(bytes) => {
                proof {
                    let chosen = choose|b: Seq<u8>| base64_text(b) == c@;
                    crate::encoding::lemma_base64_injective(chosen, bytes@);
                }
                Ok(FileContent::Binary(bytes))
            },
            Err(e) => {
                let mut m = chars_of("Base64 decode error: ");
                append_chars(&mut m, &chars_of(e.as_str()));
                Err(string_of(&m))
            },
        }
    } else {
        let mut m = chars_of("Unknown file type for: ");
        append_chars(&mut m, &chars_of(path));
        Err(string_of(&m))
    }
}

/// Reading the kind and content a file's record holds gives the file's
/// content back.
pub proof fn law_record_round_trip(path: Seq<char>, content: FileContent)
    ensures
        record_content(path, Some(record_kind(content)), Some(record_payload(content))) == Ok::<
            (bool, Seq<char>, Seq<u8>),
            Seq<char>,
        >(content_parts(content)),
{
    reveal_strlit("text");
    reveal_strlit("binary");
    assert("text"@ != "binary"@) by {
        assert("text"@.len() != "binary"@.len());
    }
    match content {
        FileContent::Text(_) => {},
        FileContent::Binary(b) => {
            let t = base64_text(b@);
            assert(is_base64_text(t));
            let chosen = choose|x: Seq<u8>| base64_text(x) == t;
            crate::encoding::lemma_base64_injective(chosen, b@);
        },
    }
}

// ---------------------------------------------------------------------------
// Parsing stored records
// ---------------------------------------------------------------------------
/// What `serde_json::from_str::<serde_json::Value>` makes of a stored file
/// record: the `type` and `content` members where they are strings (each
/// `None` where the member is missing or no string), or the text of the
/// parser's error where the text is no JSON.
pub uninterp spec fn json_record_fields(text: Seq<char>) -> Result<(Option<Seq<char>>, Option<Seq<char>>), Seq<char>>;

/// The parse found the `type` member `kind` and the `content` member
/// `content`.
pub open spec fn fields_read(r: Result<(Option<String>, Option<String>), String>, kind: Seq<char>, content: Seq<char>) -> bool {
    r matches Ok((Some(k), Some(c))) && k@ == kind && c@ == content
}

/// `serde_json::from_str::<serde_json::Value>` on a stored file record,
/// then `Value::get` and `Value::as_str` on its `type` and `content`
/// members. The contract names the outcome, and states what the parser
/// does with an object written as `{"content":S,"type":K}` with two JSON
/// strings in the form `serde_json::to_string` writes them: it reads the
/// two strings back.
#[verifier::external_body]
pub(crate) fn parse_record_fields(text: &str) -> (r: Result<(Option<String>, Option<String>), String>)
    ensures
        match (r, json_record_fields(text@)) {
            (Ok((k, c)), Ok((k2, c2))) => opt_view(k) == k2 && opt_view(c) == c2,
            (Err(m), Err(e)) => m@ == e,
            _ => false,
        },
        forall|content: Seq<char>, kind: Seq<char>|
            #[trigger] record_object(content, kind) == text@ ==> fields_read(r, kind, content),
{
    match serde_json::from_str::<serde_json::Value>(text) {
        Ok(v) => Ok((
            v.get("type").and_then(serde_json::Value::as_str).map(str::to_string),
            v.get("content").and_then(serde_json::Value::as_str).map(str::to_string),
        )),
        Err(e) => Err(e.to_string()),
    }
}

/// What reading a stored file record gives: the parser's error, or what
/// its `type` and `content` members give.
pub open spec fn stored_record_content(path: Seq<char>, json: Seq<char>) -> Result<(bool, Seq<char>, Seq<u8>), Seq<char>> {
    match json_record_fields(json) {
        Err(e) => Err("Parse error: "@ + e),
        Ok((kind, content)) => record_content(path, kind, content),
    }
}

/// Reads the file that a storage backend keeps as the JSON record `json`.
/// A record written by `file_record` reads back as the content it was
/// written from: the same text, or the same bytes.
pub fn read_file_record(path: &str, json: &str) -> (r: Result<FileContent, String>)
    ensures
        match (r, stored_record_content(path@, json@)) {
            (Ok(f), Ok(parts)) => content_parts(f) == parts,
            (Err(m), Err(e)) => m@ == e,
            _ => false,
        },
        forall|c: FileContent|
            #[trigger] file_record_text(c) == json@ ==> (r matches Ok(f) && content_parts(f) == content_parts(c)),
{
    let parsed = parse_record_fields(json);
    match parsed {
        Ok((kind, content)) => {
            let k: Option<&str> = match &kind {
                Some(x) => Some(x.as_str()),
                None => None,
            };
            let c: Option<&str> = match &content {
                Some(x) => Some(x.as_str()),
                None => None,
            };
            let res = file_from_record(path, k, c);
            proof {
                assert forall|f: FileContent| #[trigger] file_record_text(f) == json@ implies (res matches Ok(g)
                    && content_parts(g) == content_parts(f)) by {
                    assert(record_object(record_payload(f), record_kind(f)) == json@);
                    assert(fields_read(parsed, record_kind(f), record_payload(f)));
                    law_record_round_trip(path@, f);
                }
            }
            res
        },
        Err(e) => {
            proof {
                assert forall|f: FileContent| #[trigger] file_record_text(f) == json@ implies (false) by {
                    assert(record_object(record_payload(f), record_kind(f)) == json@);
                }
            }
            let mut m = chars_of("Parse error: ");
            append_chars(&mut m, &chars_of(e.as_str()));
            Err(string_of(&m))
        },
    }
}

// ---------------------------------------------------------------------------
// JSON objects of strings
// ---------------------------------------------------------------------------
/// The members `"key":"value"` of a JSON object of strings, separated by
/// commas.
pub open spec fn json_members(ps: Seq<(Seq<char>, Seq<char>)>) -> Seq<char>
    decreases ps.len(),
{
    if ps.len() == 0 {
        Seq::empty()
    } else if ps.len() == 1 {
        json_string(ps[0].0) + seq![':'] + json_string(ps[0].1)
    } else {
        json_members(ps.drop_last()) + seq![','] + json_string(ps.last().0) + seq![':'] + json_string(
            ps.last().1,
        )
    }
}

/// The compact JSON object of the pairs, in their order.
pub open spec fn json_object(ps: Seq<(Seq<char>, Seq<char>)>) -> Seq<char> {
    seq!['{'] + json_members(ps) + seq!['}']
}

/// The pairs as a compact JSON object of strings, as `serde_json` writes a
/// map: `{"key":"value",…}`.
pub fn json_object_text(pairs: &[(String, String)]) -> (r: String)
    ensures
        r@ == json_object(crate::assoc::assoc_view(pairs@)),
{
    let ghost pv = crate::assoc::assoc_view(pairs@);
    let mut out: Vec<char> = Vec::new();
    let mut i: usize = 0;
    while i < pairs.len()
        invariant
            i <= pairs.len(),
            pv == crate::assoc::assoc_view(pairs@),
            out@ == json_members(pv.take(i as int)),
        decreases pairs.len() - i,
    {
        assert(pv.take(i + 1).drop_last() =~= pv.take(i as int));
        assert(pv.take(i + 1).last() == (pairs@[i as int].0@, pairs@[i as int].1@));
        if i > 0 {
            out.push(',');
        }
        append_chars(&mut out, &chars_of(json_quote(pairs[i].0.as_str()).as_str()));
        out.push(':');
        append_chars(&mut out, &chars_of(json_quote(pairs[i].1.as_str()).as_str()));
        proof {
            if i == 0 {
                assert(pv.take(1).len() == 1);
                assert(out@ =~= json_members(pv.take(1)));
            } else {
                assert(out@ =~= json_members(pv.take(i + 1)));
            }
        }
        i = i + 1;
    }
    assert(pv.take(pairs.len() as int) =~= pv);
    let mut r: Vec<char> = Vec::new();
    r.push('{');
    append_chars(&mut r, &out);
    r.push('}');
    assert(r@ =~= json_object(pv));
    string_of(&r)
}

/// What `serde_json::from_str::<BTreeMap<String, String>>` makes of a text:
/// the members of a JSON object of strings, in key order, or nothing where
/// the text is no such object.
pub uninterp spec fn json_string_map(text: Seq<char>) -> Option<Seq<(Seq<char>, Seq<char>)>>;

/// The parse gave a map holding exactly the pairs `ps`, in some order.
pub open spec fn map_read(r: Option<Vec<(String, String)>>, ps: Seq<(Seq<char>, Seq<char>)>) -> bool {
    r matches Some(v) && crate::assoc::assoc_view(v@).to_multiset() == ps.to_multiset()
}

/// `serde_json::from_str::<BTreeMap<String, String>>`, its map taken apart
/// into pairs in key order; `None` where the parser refuses the text. The
/// contract names the outcome, and states what the parser makes of a JSON
/// object written by `json_object` with distinct keys: a map of exactly
/// those pairs (the order, which is the map's key order, left unsaid).
#[verifier::external_body]
pub(crate) fn parse_string_map(text: &str) -> (r: Option<Vec<(String, String)>>)
    ensures
        match (r, json_string_map(text@)) {
            (Some(v), Some(ps)) => crate::assoc::assoc_view(v@) == ps,
            (None, None) => true,
            _ => false,
        },
        forall|ps: Seq<(Seq<char>, Seq<char>)>|
            #[trigger] json_object(ps) == text@ && crate::assoc::distinct_keys(ps) ==> map_read(r, ps),
{
    match serde_json::from_str::<std::collections::BTreeMap<String, String>>(text) {
        Ok(m) => Some(m.into_iter().collect()),
        Err(_) => None,
    }
}

} // verus!
