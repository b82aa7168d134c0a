//! Project files: their contents, the file kinds the editor recognises, and
//! project identifiers.
use vstd::prelude::*;
use vstd::utf8::encode_utf8;
use crate::text::{
    all_ascii, ascii_lowered, append_chars, chars_of, ends_with_chars, format_radix, has_suffix, lowercase, pad_zeros,
    radix_digits, string_of, to_lowercase, utf8_bytes, zero_pad,
};

verus! {

/// The content of a project file: text or bytes.
#[derive(Clone, Debug)]
pub enum FileContent {
    Text(String),
    Binary(Vec<u8>),
}

/// A file of a project: its path and content.
#[derive(Clone, Debug)]
pub struct ProjectFile {
    pub path: String,
    pub content: FileContent,
}

/// The bytes a content stands for: a text's UTF-8 encoding, or the bytes.
pub open spec fn content_bytes(c: FileContent) -> Seq<u8> {
    match c {
        FileContent::Text(s) => encode_utf8(s@),
        FileContent::Binary(b) => b@,
    }
}

impl FileContent {
    /// The text, for a text file.
    pub fn as_text(&self) -> (r: Option<&str>)
        ensures
            match self {
                FileContent::Text(s) => r matches Some(t) && t@ == s@,
                FileContent::Binary(_) => r is None,
            },
    {
        match self {
            FileContent::Text(s) => Some(s.as_str()),
            FileContent::Binary(_) => None,
        }
    }

    /// The content's bytes.
    pub fn as_bytes(&self) -> (r: Vec<u8>)
        ensures
            r@ == content_bytes(*self),
    {
        match self {
            FileContent::Text(s) => utf8_bytes(s.as_str()),
            FileContent::Binary(b) => vstd::slice::slice_to_vec(b.as_slice()),
        }
    }

    /// The content is text.
    pub fn is_text(&self) -> (r: bool)
        ensures
            r == (*self is Text),
    {
        match self {
            FileContent::Text(_) => true,
            FileContent::Binary(_) => false,
        }
    }
}

/// `s` ends with one of the given endings.
pub open spec fn ends_with_any(s: Seq<char>, endings: Seq<Seq<char>>) -> bool {
    exists|i: int| 0 <= i < endings.len() && has_suffix(s, #[trigger] endings[i])
}

/// The endings of the file names that the editor opens as text.
pub open spec fn text_extensions() -> Seq<Seq<char>> {
    seq![".typ"@, ".yml"@, ".yaml"@, ".bib"@, ".txt"@, ".csv"@, ".json"@, ".toml"@]
}

/// The endings of the file names that the editor shows as images.
pub open spec fn image_extensions() -> Seq<Seq<char>> {
    seq![".png"@, ".jpg"@, ".jpeg"@, ".gif"@, ".svg"@, ".webp"@]
}

fn ends_with_one_of(s: &[char], endings: &Vec<Vec<char>>) -> (r: bool)
    ensures
        r == exists|i: int| 0 <= i < endings.len() && has_suffix(s@, #[trigger] endings@[i]@),
{
    let mut i: usize = 0;
    while i < endings.len()
        invariant
            i <= endings.len(),
            forall|j: int| 0 <= j < i ==> !has_suffix(s@, #[trigger] endings@[j]@),
        decreases endings.len() - i,
    {
        if ends_with_chars(s, &endings[i]) {
            return true;
        }
        i = i + 1;
    }
    false
}

/// The path names a text file: its lower-cased form ends with `.typ`,
/// `.yml`, `.yaml`, `.bib`, `.txt`, `.csv`, `.json` or `.toml`.
pub fn is_text_file(path: &str) -> (r: bool)
    ensures
        r == ends_with_any(lowercase(path@), text_extensions()),
        all_ascii(path@) ==> r == ends_with_any(ascii_lowered(path@), text_extensions()),
{
    let lower = chars_of(to_lowercase(path).as_str());
    let mut endings: Vec<Vec<char>> = Vec::new();
    endings.push(chars_of(".typ"));
    endings.push(chars_of(".yml"));
    endings.push(chars_of(".yaml"));
    endings.push(chars_of(".bib"));
    endings.push(chars_of(".txt"));
    endings.push(chars_of(".csv"));
    endings.push(chars_of(".json"));
    endings.push(chars_of(".toml"));
    let r = ends_with_one_of(&lower, &endings);
    proof {
        assert(endings@.map_values(|e: Vec<char>| e@) =~= text_extensions());
        if r {
            let i = choose|i: int| 0 <= i < endings.len() && has_suffix(lower@, #[trigger] endings@[i]@);
            assert(text_extensions()[i] == endings@[i]@);
        }
        if ends_with_any(lowercase(path@), text_extensions()) {
            let i = choose|i: int| 0 <= i < text_extensions().len() && has_suffix(lowercase(path@), #[trigger] text_extensions()[i]);
            assert(text_extensions()[i] == endings@[i]@);
        }
    }
    r
}

/// The path names an image: its lower-cased form ends with `.png`, `.jpg`,
/// `.jpeg`, `.gif`, `.svg` or `.webp`.
pub fn is_image_file(path: &str) -> (r: bool)
    ensures
        r == ends_with_any(lowercase(path@), image_extensions()),
        all_ascii(path@) ==> r == ends_with_any(ascii_lowered(path@), image_extensions()),
{
    let lower = chars_of(to_lowercase(path).as_str());
    let mut endings: Vec<Vec<char>> = Vec::new();
    endings.push(chars_of(".png"));
    endings.push(chars_of(".jpg"));
    endings.push(chars_of(".jpeg"));
    endings.push(chars_of(".gif"));
    endings.push(chars_of(".svg"));
    endings.push(chars_of(".webp"));
    let r = ends_with_one_of(&lower, &endings);
    proof {
        assert(endings@.map_values(|e: Vec<char>| e@) =~= image_extensions());
        if r {
            let i = choose|i: int| 0 <= i < endings.len() && has_suffix(lower@, #[trigger] endings@[i]@);
            assert(image_extensions()[i] == endings@[i]@);
        }
        if ends_with_any(lowercase(path@), image_extensions()) {
            let i = choose|i: int| 0 <= i < image_extensions().len() && has_suffix(lowercase(path@), #[trigger] image_extensions()[i]);
            assert(image_extensions()[i] == endings@[i]@);
        }
    }
    r
}

/// A project identifier: the time in lower-case hexadecimal, `_`, and the
/// random part in lower-case hexadecimal padded with zeros to six digits.
pub open spec fn project_id_text(timestamp: nat, random: nat) -> Seq<char> {
    radix_digits(timestamp, 16) + seq!['_'] + zero_pad(radix_digits(random, 16), 6)
}

/// Formats a project identifier from a millisecond timestamp and a random
/// number, as `{:x}_{:06x}`.
pub fn format_project_id(timestamp: u128, random: u32) -> (r: String)
    ensures
        r@ == project_id_text(timestamp as nat, random as nat),
{
    let mut v = format_radix(timestamp, 16);
    v.push('_');
    let tail = pad_zeros(format_radix(random as u128, 16), 6);
    append_chars(&mut v, &tail);
    string_of(&v)
}

} // verus!
