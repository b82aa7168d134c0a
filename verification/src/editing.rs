//! The editor's logic around the text it shows: compile errors that name the
//! packages they miss, the cursor's line and column, the line count, and the
//! plain rendering of very large sources.
use vstd::prelude::*;
use crate::file_tree::{join_on, lemma_split_join, split_chars, split_on};
use crate::assoc::{assoc_view, find_key, lemma_key_index};
use crate::cache::PackageCache;
use crate::imports::{missing_in, scan_all_missing_packages, scanned_texts, specs_view};
use crate::registry::{spec_text, PkgSpec, SpecParts};
use crate::installer::dec;
use crate::state::lookup;
use crate::storage::strings_view;
use crate::text::{
    append_bytes, append_chars, chars_of, find_bytes, find_chars, find_text, lemma_find_text_from,
    format_radix, lemma_replace_first, lemma_replace_none, occurs_at, replace_all, replace_chars,
    slice_bytes, slice_chars, str_equal, string_of, utf8_bytes, utf8_decode,
};
use vstd::utf8::{decode_utf8, encode_utf8, is_char_boundary};

verus! {

// ---------------------------------------------------------------------------
// Compile errors that name missing packages
// ---------------------------------------------------------------------------
/// The marker that separates a compile error from the packages it misses.
pub open spec fn missing_marker() -> Seq<char> {
    "\n\n[MISSING_PACKAGES:"@
}

/// The texts of package specifications.
pub open spec fn spec_names(v: Seq<PkgSpec>) -> Seq<Seq<char>> {
    v.map_values(|p: PkgSpec| spec_text(p@))
}

/// A compile error followed, where packages are missing, by the marker, their
/// names separated by commas, and a closing bracket.
pub open spec fn decorated_error(e: Seq<char>, names: Seq<Seq<char>>) -> Seq<char> {
    if names.len() == 0 {
        e
    } else {
        e + missing_marker() + join_on(names, ',') + seq![']']
    }
}

/// The error the preview shows, and the package names it offers to install:
/// what precedes the first marker, and the comma-separated pieces between the
/// marker and the last character.
pub open spec fn error_parts(err: Seq<char>) -> (Seq<char>, Seq<Seq<char>>) {
    match find_text(err, missing_marker()) {
        Some(i) => (
            err.take(i),
            split_on(err.subrange(i + missing_marker().len(), err.len() - 1), ','),
        ),
        None => (err, Seq::empty()),
    }
}

/// An error the preview can take apart: where it holds the marker, at least
/// one character follows it and the last character is ASCII, so that dropping
/// the last byte drops the last character.
pub open spec fn splittable_error(err: Seq<char>) -> bool {
    match find_text(err, missing_marker()) {
        Some(i) => i + missing_marker().len() < err.len() && (err.last() as u32) < 128,
        None => true,
    }
}

/// A compile error with the missing packages appended after the marker, when
/// there are any.
pub fn decorate_error(error: &str, missing: &[PkgSpec]) -> (r: String)
    ensures
        r@ == decorated_error(error@, spec_names(missing@)),
{
    if missing.len() == 0 {
        return string_of(&chars_of(error));
    }
    let ghost names = spec_names(missing@);
    let mut out = chars_of(error);
    append_chars(&mut out, &chars_of("\n\n[MISSING_PACKAGES:"));
    let ghost head = out@;
    let mut joined = missing[0].text_chars();
    let mut i: usize = 1;
    assert(names.take(1) =~= seq![names[0]]);
    while i < missing.len()
        invariant
            1 <= i <= missing.len(),
            names == spec_names(missing@),
            joined@ == join_on(names.take(i as int), ','),
        decreases missing.len() - i,
    {
        proof {
            crate::file_tree::lemma_join_on_push(names.take(i as int), names[i as int], ',');
            assert(names.take(i + 1) =~= names.take(i as int).push(names[i as int]));
        }
        joined.push(',');
        append_chars(&mut joined, &missing[i].text_chars());
        i = i + 1;
    }
    assert(names.take(missing.len() as int) =~= names);
    append_chars(&mut out, &joined);
    out.push(']');
    assert(out@ =~= decorated_error(error@, names));
    string_of(&out)
}

/// The error as the preview shows it, and the names of the packages it
/// misses.
pub fn split_error(err: &str) -> (r: (String, Vec<String>))
    requires
        splittable_error(err@),
    ensures
        (r.0@, strings_view(r.1@)) == error_parts(err@),
{
    let text = chars_of(err);
    let marker = chars_of("\n\n[MISSING_PACKAGES:");
    match find_chars(&text, &marker) {
        Some(i) => {
            assert(marker@ == missing_marker());
            assert(i + marker.len() < text.len());
            let shown = string_of(&slice_chars(&text, 0, i));
            let inner = slice_chars(&text, i + marker.len(), text.len() - 1);
            let pieces = split_chars(&inner, ',');
            let mut names: Vec<String> = Vec::new();
            let mut k: usize = 0;
            while k < pieces.len()
                invariant
                    k <= pieces.len(),
                    strings_view(names@) == pieces@.map_values(|s: Vec<char>| s@).take(k as int),
                decreases pieces.len() - k,
            {
                let ghost before = strings_view(names@);
                names.push(string_of(&pieces[k]));
                assert(strings_view(names@) =~= before.push(pieces@[k as int]@));
                assert(pieces@.map_values(|s: Vec<char>| s@).take(k + 1) =~= pieces@.map_values(|s: Vec<char>| s@).take(k as int).push(pieces@[k as int]@));
                k = k + 1;
            }
            assert(pieces@.map_values(|s: Vec<char>| s@).take(pieces.len() as int) =~= pieces@.map_values(|s: Vec<char>| s@));
            assert(shown@ =~= err@.take(i as int));
            (shown, names)
        },
        None => {
            let names: Vec<String> = Vec::new();
            assert(strings_view(names@) =~= Seq::<Seq<char>>::empty());
            (string_of(&text), names)
        },
    }
}

/// Only the last character of the marker is a colon.
proof fn lemma_marker_colon()
    ensures
        missing_marker().len() == 20,
        missing_marker()[19] == ':',
        forall|t: int| 0 <= t < 19 ==> missing_marker()[t] != ':',
{
    reveal_strlit("\n\n[MISSING_PACKAGES:");
}

/// An error that does not hold the marker, decorated with a non-empty list of
/// package names without commas, is taken apart into that error and those
/// names.
pub proof fn law_error_round_trip(e: Seq<char>, names: Seq<Seq<char>>)
    requires
        find_text(e, missing_marker()) is None,
        names.len() > 0,
        forall|i: int, j: int| 0 <= i < names.len() && 0 <= j < names[i].len() ==> names[i][j] != ',',
    ensures
        splittable_error(decorated_error(e, names)),
        error_parts(decorated_error(e, names)) == (e, names),
{
    let m = missing_marker();
    let joined = join_on(names, ',');
    let d = decorated_error(e, names);
    lemma_marker_colon();
    lemma_find_text_from(e, m, 0);
    lemma_find_text_from(d, m, 0);
    assert(d =~= e + m + joined + seq![']']);
    assert(d.subrange(e.len() as int, (e.len() + m.len()) as int) =~= m);
    assert(occurs_at(d, m, e.len() as int));
    match find_text(d, m) {
        Some(j) => {
            if j < e.len() {
                if j + m.len() <= e.len() {
                    assert(e.subrange(j, j + m.len()) =~= d.subrange(j, j + m.len()));
                    assert(occurs_at(e, m, j));
                } else {
                    let t = j + 19 - e.len();
                    assert(d.subrange(j, j + m.len())[19] == d[j + 19]);
                    assert(d[j + 19] == m[t]);
                }
            }
            assert(j == e.len());
        },
        None => {},
    }
    assert(d.take(e.len() as int) =~= e);
    assert(d.subrange((e.len() + m.len()) as int, d.len() - 1) =~= joined);
    lemma_split_join(names, ',');
}

// ---------------------------------------------------------------------------
// Inserting a snippet at the cursor
// ---------------------------------------------------------------------------
/// A snippet with the words that stand for the selection replaced by it, one
/// word after another: `text`, `Heading`, `Item`, `formula`, `code`,
/// `citation`, `label`.
pub open spec fn snippet_text(text: Seq<char>, sel: Seq<char>) -> Seq<char> {
    replace_all(
        replace_all(
            replace_all(
                replace_all(
                    replace_all(replace_all(replace_all(text, "text"@, sel), "Heading"@, sel), "Item"@, sel),
                    "formula"@,
                    sel,
                ),
                "code"@,
                sel,
            ),
            "citation"@,
            sel,
        ),
        "label"@,
        sel,
    )
}

/// The words of a snippet that stand for the selection, in the order they
/// are filled.
pub open spec fn placeholder_words() -> Seq<Seq<char>> {
    seq!["text"@, "Heading"@, "Item"@, "formula"@, "code"@, "citation"@, "label"@]
}

/// `t` with the placeholder words from the `n`-th on replaced by `sel`, one
/// word after another.
spec fn fill_from(t: Seq<char>, sel: Seq<char>, n: int) -> Seq<char>
    decreases 7 - n,
{
    if n < 0 || n >= 7 {
        t
    } else {
        fill_from(replace_all(t, placeholder_words()[n], sel), sel, n + 1)
    }
}

proof fn lemma_placeholder_words()
    ensures
        placeholder_words().len() == 7,
        forall|j: int| 0 <= j < 7 ==> #[trigger] placeholder_words()[j].len() > 0,
{
    reveal_strlit("text");
    reveal_strlit("Heading");
    reveal_strlit("Item");
    reveal_strlit("formula");
    reveal_strlit("code");
    reveal_strlit("citation");
    reveal_strlit("label");
    let ws = placeholder_words();
    assert(ws[0] == "text"@ && ws[1] == "Heading"@ && ws[2] == "Item"@ && ws[3] == "formula"@);
    assert(ws[4] == "code"@ && ws[5] == "citation"@ && ws[6] == "label"@);
}

proof fn lemma_snippet_fill_from(t: Seq<char>, sel: Seq<char>)
    ensures
        snippet_text(t, sel) == fill_from(t, sel, 0),
{
    let ws = placeholder_words();
    assert(ws[0] == "text"@ && ws[1] == "Heading"@ && ws[2] == "Item"@ && ws[3] == "formula"@);
    assert(ws[4] == "code"@ && ws[5] == "citation"@ && ws[6] == "label"@);
    reveal_with_fuel(fill_from, 8);
}

proof fn lemma_fill_none(t: Seq<char>, sel: Seq<char>, n: int)
    requires
        0 <= n,
        forall|j: int, i: int| n <= j < 7 ==> !#[trigger] occurs_at(t, placeholder_words()[j], i),
    ensures
        fill_from(t, sel, n) == t,
    decreases 7 - n,
{
    if n < 7 {
        lemma_placeholder_words();
        let w = placeholder_words()[n];
        assert(w.len() > 0);
        assert(forall|i: int| !#[trigger] occurs_at(t, w, i));
        lemma_replace_none(t, w, sel);
        lemma_fill_none(t, sel, n + 1);
    }
}

proof fn lemma_fill_at(pre: Seq<char>, post: Seq<char>, sel: Seq<char>, n: int, k: int)
    requires
        0 <= n <= k < 7,
        forall|j: int, i: int|
            n <= j < k ==> !#[trigger] occurs_at(pre + placeholder_words()[k] + post, placeholder_words()[j], i),
        forall|i: int|
            i != pre.len() ==> !#[trigger] occurs_at(pre + placeholder_words()[k] + post, placeholder_words()[k], i),
        forall|j: int, i: int| k < j < 7 ==> !#[trigger] occurs_at(pre + sel + post, placeholder_words()[j], i),
    ensures
        fill_from(pre + placeholder_words()[k] + post, sel, n) == pre + sel + post,
    decreases k - n,
{
    lemma_placeholder_words();
    let ws = placeholder_words();
    let w = ws[k];
    let s = pre + w + post;
    if n < k {
        assert(ws[n].len() > 0);
        assert(forall|i: int| !#[trigger] occurs_at(s, ws[n], i));
        lemma_replace_none(s, ws[n], sel);
        lemma_fill_at(pre, post, sel, n + 1, k);
    } else {
        assert(w.len() > 0);
        lemma_replace_first(pre, post, w, sel);
        assert forall|i: int| !#[trigger] occurs_at(post, w, i) by {
            if occurs_at(post, w, i) {
                let at = pre.len() + w.len() + i;
                assert(s.subrange(at, at + w.len()) =~= post.subrange(i, i + w.len()));
                assert(occurs_at(s, w, at));
            }
        }
        lemma_replace_none(post, w, sel);
        lemma_fill_none(pre + sel + post, sel, k + 1);
    }
}

/// Filling a snippet puts the selection in place of its placeholder word:
/// where the word `w` (the `k`-th placeholder word) occurs in the snippet
/// only right after `pre`, the words filled before it do not occur in the
/// snippet, and the words filled after it do not occur in the filled text,
/// the snippet `pre + w + post` becomes `pre + sel + post`. So the Heading
/// snippet `= Heading` with a selection `s` becomes `= s`.
pub proof fn law_snippet_fills_placeholder(pre: Seq<char>, post: Seq<char>, sel: Seq<char>, k: int)
    requires
        0 <= k < 7,
        forall|j: int, i: int|
            0 <= j < k ==> !#[trigger] occurs_at(pre + placeholder_words()[k] + post, placeholder_words()[j], i),
        forall|i: int|
            i != pre.len() ==> !#[trigger] occurs_at(pre + placeholder_words()[k] + post, placeholder_words()[k], i),
        forall|j: int, i: int| k < j < 7 ==> !#[trigger] occurs_at(pre + sel + post, placeholder_words()[j], i),
    ensures
        snippet_text(pre + placeholder_words()[k] + post, sel) == pre + sel + post,
{
    lemma_snippet_fill_from(pre + placeholder_words()[k] + post, sel);
    lemma_fill_at(pre, post, sel, 0, k);
}

/// The text inserted for a snippet: the snippet filled with the selection
/// where there is one, the snippet itself otherwise.
pub open spec fn inserted_text(current: Seq<char>, start: int, end: int, text: Seq<char>) -> Seq<char> {
    if start != end {
        snippet_text(text, decode_utf8(encode_utf8(current).subrange(start, end)))
    } else {
        text
    }
}

/// Byte offsets that a source can be cut at: in order, within it, and on
/// character boundaries.
pub open spec fn valid_cut(current: Seq<char>, start: int, end: int) -> bool {
    &&& 0 <= start <= end <= encode_utf8(current).len()
    &&& is_char_boundary(encode_utf8(current), start)
    &&& is_char_boundary(encode_utf8(current), end)
}

fn fill_snippet(text: &str, sel: &[char]) -> (r: Vec<char>)
    ensures
        r@ == snippet_text(text@, sel@),
{
    proof {
        reveal_strlit("text");
        reveal_strlit("Heading");
        reveal_strlit("Item");
        reveal_strlit("formula");
        reveal_strlit("code");
        reveal_strlit("citation");
        reveal_strlit("label");
    }
    let mut t = chars_of(text);
    t = replace_chars(&t, &chars_of("text"), sel);
    t = replace_chars(&t, &chars_of("Heading"), sel);
    t = replace_chars(&t, &chars_of("Item"), sel);
    t = replace_chars(&t, &chars_of("formula"), sel);
    t = replace_chars(&t, &chars_of("code"), sel);
    t = replace_chars(&t, &chars_of("citation"), sel);
    t = replace_chars(&t, &chars_of("label"), sel);
    t
}

/// Inserts a snippet at the editor's selection, given as byte offsets. With a
/// selection, the snippet's placeholder words are replaced by the selected
/// text and the result is selected; without one, the snippet is inserted and
/// its placeholder, when given and found, is selected, or else the cursor is
/// put after it. Returns the new source and the selection start and end to
/// set, where they change.
pub fn insert_snippet(current: &str, start: usize, end: usize, text: &str, placeholder: Option<&str>) -> (r: (
    String,
    Option<usize>,
    Option<usize>,
))
    requires
        valid_cut(current@, start as int, end as int),
    ensures
        ({
            let b = encode_utf8(current@);
            let ins = encode_utf8(inserted_text(current@, start as int, end as int, text@));
            &&& encode_utf8(r.0@) == b.take(start as int) + ins + b.skip(end as int)
            &&& start != end ==> r.1 == Some(start) && r.2 == Some((start + ins.len()) as usize)
            &&& start == end ==> match placeholder {
                Some(p) => match find_text(encode_utf8(text@), encode_utf8(p@)) {
                    Some(k) => r.1 == Some((start + k) as usize) && r.2 == Some(
                        (start + k + encode_utf8(p@).len()) as usize,
                    ),
                    None => r.1 is None && r.2 is None,
                },
                None => r.1 == Some((start + encode_utf8(text@).len()) as usize) && r.2 is None,
            }
        }),
{
    let bytes = utf8_bytes(current);
    let ghost b = bytes@;
    proof {
        vstd::utf8::encode_utf8_valid_utf8(current@);
        vstd::utf8::valid_utf8_split(b, start as int);
        vstd::utf8::valid_utf8_split(b, end as int);
    }
    let head = slice_bytes(&bytes, 0, start);
    let tail = slice_bytes(&bytes, end, bytes.len());
    assert(head@ == b.subrange(0, start as int));
    assert(tail@ == b.subrange(end as int, b.len() as int));
    let ins: Vec<u8> = if start != end {
        let sel_bytes = slice_bytes(&bytes, start, end);
        proof {
            let upto = b.subrange(0, end as int);
            vstd::utf8::is_char_boundary_iff_not_is_continuation_byte(b, start as int);
            vstd::utf8::is_char_boundary_iff_not_is_continuation_byte(upto, start as int);
            assert(upto[start as int] == b[start as int]);
            vstd::utf8::valid_utf8_split(upto, start as int);
            assert(upto.subrange(start as int, upto.len() as int) =~= sel_bytes@);
        }
        let sel = match utf8_decode(&sel_bytes) {
            Some(x) => chars_of(x.as_str()),
            None => Vec::new(),
        };
        let filled = string_of(&fill_snippet(text, &sel));
        utf8_bytes(filled.as_str())
    } else {
        utf8_bytes(text)
    };
    let ghost ins_text = inserted_text(current@, start as int, end as int, text@);
    assert(ins@ == encode_utf8(ins_text));
    let mut out = head;
    append_bytes(&mut out, &ins);
    append_bytes(&mut out, &tail);
    proof {
        vstd::utf8::encode_utf8_valid_utf8(ins_text);
        vstd::utf8::valid_utf8_concat(head@, ins@);
        vstd::utf8::valid_utf8_concat(head@ + ins@, tail@);
        assert(out@ =~= head@ + ins@ + tail@);
        vstd::utf8::decode_utf8_encode_utf8(out@);
    }
    let source = match utf8_decode(&out) {
        Some(x) => x,
        None => String::new(),
    };
    assert(out.len() == start + ins.len() + (bytes.len() - end));
    if start != end {
        return (source, Some(start), Some(start + ins.len()));
    }
    match placeholder {
        Some(p) => {
            let pb = utf8_bytes(p);
            proof {
                lemma_find_text_from(ins@, pb@, 0);
            }
            match find_bytes(&ins, &pb) {
                Some(k) => {
                    assert(occurs_at(ins@, pb@, k as int));
                    (source, Some(start + k), Some(start + k + pb.len()))
                },
                None => (source, None, None),
            }
        },
        None => (source, Some(start + ins.len()), None),
    }
}

// ---------------------------------------------------------------------------
// Cursor position, line count, plain rendering
// ---------------------------------------------------------------------------
/// The number of bytes `x` in `s`.
pub open spec fn count_byte(s: Seq<u8>, x: u8) -> nat
    decreases s.len(),
{
    if s.len() == 0 {
        0
    } else {
        count_byte(s.drop_last(), x) + if s.last() == x {
            1nat
        } else {
            0nat
        }
    }
}

/// The number of bytes after the last newline byte of `s` (all of them
/// where there is none).
pub open spec fn last_line_len(s: Seq<u8>) -> nat
    decreases s.len(),
{
    if s.len() == 0 {
        0
    } else if s.last() == 10 {
        0
    } else {
        last_line_len(s.drop_last()) + 1
    }
}

/// The cursor's line and column, both from one, at byte offset `pos` (at most
/// the end) of `text`: one more than the newlines before it (UTF-8 gives the
/// newline byte to no other character), and one more than the bytes between
/// the last of them and the cursor.
pub fn cursor_position(text: &str, pos: usize) -> (r: (usize, usize))
    requires
        encode_utf8(text@).len() < usize::MAX,
        is_char_boundary(
            encode_utf8(text@),
            if pos < encode_utf8(text@).len() {
                pos as int
            } else {
                encode_utf8(text@).len() as int
            },
        ),
    ensures
        ({
            let b = encode_utf8(text@);
            let before = b.take(if pos < b.len() { pos as int } else { b.len() as int });
            r == ((count_byte(before, 10) + 1) as usize, (last_line_len(before) + 1) as usize)
        }),
{
    let bytes = utf8_bytes(text);
    let p = if pos < bytes.len() {
        pos
    } else {
        bytes.len()
    };
    let mut lines: usize = 0;
    let mut col: usize = 0;
    let mut i: usize = 0;
    while i < p
        invariant
            p <= bytes.len() < usize::MAX,
            i <= p,
            lines == count_byte(bytes@.take(i as int), 10),
            col == last_line_len(bytes@.take(i as int)),
            lines <= i,
            col <= i,
        decreases p - i,
    {
        assert(bytes@.take(i + 1).drop_last() =~= bytes@.take(i as int));
        if bytes[i] == 10 {
            lines = lines + 1;
            col = 0;
        } else {
            col = col + 1;
        }
        i = i + 1;
    }
    (lines + 1, col + 1)
}

/// The number of characters `c` in `s`.
pub open spec fn count_char(s: Seq<char>, c: char) -> nat
    decreases s.len(),
{
    if s.len() == 0 {
        0
    } else {
        count_char(s.drop_last(), c) + if s.last() == c {
            1nat
        } else {
            0nat
        }
    }
}

/// The number of lines `str::lines` yields: one per newline, and one more for
/// text after the last newline.
pub open spec fn str_line_count(s: Seq<char>) -> nat {
    count_char(s, '\n') + if s.len() > 0 && s.last() != '\n' {
        1nat
    } else {
        0nat
    }
}

/// The number of lines the editor's gutter shows: at least one, and one more
/// after a final newline.
pub open spec fn gutter_line_count(s: Seq<char>) -> nat {
    (if str_line_count(s) > 1 {
        str_line_count(s)
    } else {
        1nat
    }) + if s.len() > 0 && s.last() == '\n' {
        1nat
    } else {
        0nat
    }
}

/// The number of lines the editor's gutter shows for `src`.
pub fn line_count(src: &str) -> (r: usize)
    requires
        src@.len() < usize::MAX,
    ensures
        r == gutter_line_count(src@),
{
    let chars = chars_of(src);
    let mut n: usize = 0;
    let mut i: usize = 0;
    while i < chars.len()
        invariant
            chars@ == src@,
            chars.len() < usize::MAX,
            i <= chars.len(),
            n == count_char(chars@.take(i as int), '\n'),
            n <= i,
        decreases chars.len() - i,
    {
        assert(chars@.take(i + 1).drop_last() =~= chars@.take(i as int));
        if chars[i] == '\n' {
            n = n + 1;
        }
        i = i + 1;
    }
    assert(chars@.take(chars.len() as int) =~= chars@);
    let ends_with_newline = chars.len() > 0 && chars[chars.len() - 1] == '\n';
    let lines = if chars.len() > 0 && !ends_with_newline {
        n + 1
    } else {
        n
    };
    let shown = if lines > 1 {
        lines
    } else {
        1
    };
    if ends_with_newline {
        assert(n >= 1) by {
            assert(chars@.drop_last() =~= chars@.take(chars.len() - 1));
        }
        shown + 1
    } else {
        shown
    }
}

/// `s` with `&`, `<` and `>` written as HTML entities, replaced in that order.
pub open spec fn escape_html(s: Seq<char>) -> Seq<char> {
    replace_all(replace_all(replace_all(s, "&"@, "&amp;"@), "<"@, "&lt;"@), ">"@, "&gt;"@)
}

/// The plain rendering of a source too large to highlight.
pub open spec fn plain_html(s: Seq<char>) -> Seq<char> {
    "<pre class=\"typst-highlighted\"><code>"@ + escape_html(s) + "</code></pre>"@
}

/// The editor's rendering of a source of more than 50 000 bytes, which it
/// does not highlight; none for a smaller one.
pub fn plain_rendering(src: &str) -> (r: Option<String>)
    ensures
        encode_utf8(src@).len() > 50000 ==> (r matches Some(h) && h@ == plain_html(src@)),
        encode_utf8(src@).len() <= 50000 ==> r is None,
{
    let bytes = utf8_bytes(src);
    if bytes.len() <= 50000 {
        return None;
    }
    proof {
        reveal_strlit("&");
        reveal_strlit("<");
        reveal_strlit(">");
    }
    let mut t = chars_of(src);
    t = replace_chars(&t, &chars_of("&"), &chars_of("&amp;"));
    t = replace_chars(&t, &chars_of("<"), &chars_of("&lt;"));
    t = replace_chars(&t, &chars_of(">"), &chars_of("&gt;"));
    let mut out = chars_of("<pre class=\"typst-highlighted\"><code>");
    append_chars(&mut out, &t);
    append_chars(&mut out, &chars_of("</code></pre>"));
    Some(string_of(&out))
}

// ---------------------------------------------------------------------------
// Compiling and saving from the editor
// ---------------------------------------------------------------------------
/// The message shown for a failed compilation: the error, followed by the
/// packages that the sources import and the cache lacks, where there are any.
pub fn compile_error_message(
    error: &str,
    source: &str,
    file_contents: &[(String, String)],
    cache: &PackageCache,
) -> (r: String)
    ensures
        r@ == decorated_error(
            error@,
            missing_in(
                Seq::empty(),
                scanned_texts(source@, file_contents@.map_values(|e: (String, String)| (e.0@, e.1@))),
                cache@,
            ).map_values(|p: SpecParts| spec_text(p)),
        ),
{
    let missing = scan_all_missing_packages(source, file_contents, cache);
    assert(spec_names(missing@) =~= specs_view(missing@).map_values(|p: SpecParts| spec_text(p)));
    decorate_error(error, missing.as_slice())
}

/// The file a compilation starts from: the project's main file, or
/// `main.typ` where no project is open.
pub fn compile_entry(project_main: Option<&str>) -> (r: String)
    ensures
        r@ == match project_main {
            Some(m) => m@,
            None => "main.typ"@,
        },
{
    match project_main {
        Some(m) => string_of(&chars_of(m)),
        None => string_of(&chars_of("main.typ")),
    }
}

/// The source a compilation reads: the entry file's latest text, or the
/// editor's text where the project has none for it.
pub fn compile_source(file_contents: &Vec<(String, String)>, entry: &str, editor_source: &str) -> (r: String)
    ensures
        r@ == match lookup(assoc_view(file_contents@), entry@) {
            Some(t) => t,
            None => editor_source@,
        },
{
    proof {
        lemma_key_index(assoc_view(file_contents@), entry@);
    }
    match find_key(file_contents, entry) {
        Some(i) => file_contents[i].1.clone(),
        None => string_of(&chars_of(editor_source)),
    }
}

/// What an edit of the active file leads to.
pub enum AutosaveAction {
    /// Nothing: the editor is starting, no file is active, or the text is
    /// unchanged.
    Nothing,
    /// Record the new text in the state.
    Record,
    /// Record the new text and write it to the open project's storage.
    RecordAndSave,
}

/// What the editor does with its text after an edit: nothing before it has
/// started, without an active file, or where the file's text is already the
/// same; otherwise the text is recorded, and saved too with autosave on and
/// a project open.
pub fn autosave_action(
    started: bool,
    autosave: bool,
    project_open: bool,
    active: Option<&str>,
    file_contents: &Vec<(String, String)>,
    source: &str,
) -> (r: AutosaveAction)
    ensures
        r is Nothing <==> (!started || active is None || match active {
            Some(a) => lookup(assoc_view(file_contents@), a@) == Some(source@),
            None => true,
        }),
        r is RecordAndSave <==> (!(r is Nothing) && autosave && project_open),
{
    if !started {
        return AutosaveAction::Nothing;
    }
    match active {
        None => AutosaveAction::Nothing,
        Some(a) => {
            proof {
                lemma_key_index(assoc_view(file_contents@), a@);
            }
            let same = match find_key(file_contents, a) {
                Some(i) => str_equal(file_contents[i].1.as_str(), source),
                None => false,
            };
            if same {
                AutosaveAction::Nothing
            } else if autosave && project_open {
                AutosaveAction::RecordAndSave
            } else {
                AutosaveAction::Record
            }
        },
    }
}

/// The file a PDF export starts from: the active file, or else the
/// project's main file, or `main.typ` where no project is open.
pub fn export_entry(active: Option<&str>, project_main: Option<&str>) -> (r: String)
    ensures
        r@ == match active {
            Some(a) => a@,
            None => match project_main {
                Some(m) => m@,
                None => "main.typ"@,
            },
        },
{
    match active {
        Some(a) => string_of(&chars_of(a)),
        None => compile_entry(project_main),
    }
}

/// The editor's status line: the number of lines `str::lines` counts and
/// the number of bytes.
pub fn status_line(src: &str) -> (r: String)
    requires
        src@.len() < usize::MAX,
    ensures
        r@ == dec(str_line_count(src@)) + " lines, "@ + dec(encode_utf8(src@).len()) + " chars"@,
{
    let chars = chars_of(src);
    let mut n: usize = 0;
    let mut i: usize = 0;
    while i < chars.len()
        invariant
            chars@ == src@,
            chars.len() < usize::MAX,
            i <= chars.len(),
            n == count_char(chars@.take(i as int), '\n'),
            n <= i,
        decreases chars.len() - i,
    {
        assert(chars@.take(i + 1).drop_last() =~= chars@.take(i as int));
        if chars[i] == '\n' {
            n = n + 1;
        }
        i = i + 1;
    }
    assert(chars@.take(chars.len() as int) =~= chars@);
    let lines = if chars.len() > 0 && chars[chars.len() - 1] != '\n' {
        n + 1
    } else {
        n
    };
    let bytes = utf8_bytes(src).len();
    let mut v = format_radix(lines as u128, 10);
    append_chars(&mut v, &chars_of(" lines, "));
    append_chars(&mut v, &format_radix(bytes as u128, 10));
    append_chars(&mut v, &chars_of(" chars"));
    string_of(&v)
}

} // verus!
