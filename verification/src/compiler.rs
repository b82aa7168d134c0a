//! What the library does around a Typst compilation: the files handed to the
//! compiler, the preview assembled from the compiled pages, the messages of a
//! failed compilation, and the requests and responses exchanged with the
//! compile worker.
use vstd::prelude::*;
use crate::cache::{
    number_or_zero, parse_version, version_numbers_of, version_of, PackageSpec, PackageSpecParts,
    PackageVersion,
};
use crate::encoding::{base64_decode, base64_encode, base64_text, is_base64_text};
use crate::text::{
    append_chars, chars_of, ends_with_chars, find_char, first_index_of, format_radix, has_suffix,
    find_chars, find_text, has_prefix, is_white_space, is_digit_of, lemma_first_index_of,
    lemma_radix_digits, parse_unsigned, radix_digits, replace_all, replace_chars, slice_chars,
    starts_with_chars, string_of, unsigned_digits, utf8_bytes, white_space,
};
use crate::storage::strings_view;
use crate::file_tree::{lemma_split_on_first, split_on};
use vstd::utf8::encode_utf8;

verus! {

/// The Typst compiler.
pub struct TypstCompiler;

/// The files a compilation gets besides its main source.
pub struct PreparedFiles {
    /// The project's other `.typ` files: path and text.
    pub sources: Vec<(String, String)>,
    /// The project's other files and images: path and bytes.
    pub binaries: Vec<(String, Vec<u8>)>,
    /// The packages' `.typ` files.
    pub pkg_sources: Vec<(PackageSpec, String, String)>,
    /// The packages' other files.
    pub pkg_binaries: Vec<(PackageSpec, String, Vec<u8>)>,
}

/// Pairs of strings as pairs of character sequences.
pub open spec fn pairs_view(v: Seq<(String, String)>) -> Seq<(Seq<char>, Seq<char>)> {
    v.map_values(|e: (String, String)| (e.0@, e.1@))
}

/// Paths with bytes.
pub open spec fn bytes_view(v: Seq<(String, Vec<u8>)>) -> Seq<(Seq<char>, Seq<u8>)> {
    v.map_values(|e: (String, Vec<u8>)| (e.0@, e.1@))
}

/// The project's `.typ` files other than the main file.
pub open spec fn other_sources(fc: Seq<(Seq<char>, Seq<char>)>, main: Seq<char>) -> Seq<(Seq<char>, Seq<char>)>
    decreases fc.len(),
{
    if fc.len() == 0 {
        Seq::empty()
    } else {
        let rest = other_sources(fc.drop_last(), main);
        let (path, text) = fc.last();
        if path != main && has_suffix(path, ".typ"@) {
            rest.push((path, text))
        } else {
            rest
        }
    }
}

/// The project's other files besides the main file, as UTF-8 bytes.
pub open spec fn other_files(fc: Seq<(Seq<char>, Seq<char>)>, main: Seq<char>) -> Seq<(Seq<char>, Seq<u8>)>
    decreases fc.len(),
{
    if fc.len() == 0 {
        Seq::empty()
    } else {
        let rest = other_files(fc.drop_last(), main);
        let (path, text) = fc.last();
        if path != main && !has_suffix(path, ".typ"@) {
            rest.push((path, encode_utf8(text)))
        } else {
            rest
        }
    }
}

/// The base64 payload of an image held as a data URL: the text after the
/// first comma, or the whole text where it has none.
pub open spec fn image_payload(data: Seq<char>) -> Seq<char> {
    match first_index_of(data, ',') {
        Some(p) => data.skip(p + 1),
        None => data,
    }
}

/// The images whose payload is base64, with their bytes.
pub open spec fn image_files(ic: Seq<(Seq<char>, Seq<char>)>) -> Seq<(Seq<char>, Seq<u8>)>
    decreases ic.len(),
{
    if ic.len() == 0 {
        Seq::empty()
    } else {
        let rest = image_files(ic.drop_last());
        let (path, data) = ic.last();
        if is_base64_text(image_payload(data)) {
            rest.push((path, choose|b: Seq<u8>| base64_text(b) == image_payload(data)))
        } else {
            rest
        }
    }
}

impl TypstCompiler {
    /// A compiler.
    pub fn new() -> (r: Result<Self, String>)
        ensures
            r is Ok,
    {
        Ok(TypstCompiler)
    }

    /// The files a compilation gets: the project's `.typ` files other than
    /// the main file as sources, its other files as UTF-8 bytes, then each
    /// cached image whose data URL payload is base64, with the packages'
    /// files as given.
    pub fn prepare_files(
        file_contents: &[(String, String)],
        image_cache: &[(String, String)],
        main_file: &str,
        pkg_sources: &[(PackageSpec, String, String)],
        pkg_binaries: &[(PackageSpec, String, Vec<u8>)],
    ) -> (r: PreparedFiles)
        ensures
            pairs_view(r.sources@) == other_sources(pairs_view(file_contents@), main_file@),
            bytes_view(r.binaries@) == other_files(pairs_view(file_contents@), main_file@) + image_files(
                pairs_view(image_cache@),
            ),
            crate::cache::sources_view(r.pkg_sources@) == crate::cache::sources_view(pkg_sources@),
            crate::cache::binaries_view(r.pkg_binaries@) == crate::cache::binaries_view(pkg_binaries@),
    {
        let mut sources: Vec<(String, String)> = Vec::new();
        let mut binaries: Vec<(String, Vec<u8>)> = Vec::new();
        let ghost fv = pairs_view(file_contents@);
        let typ = chars_of(".typ");
        let main = chars_of(main_file);
        let mut i: usize = 0;
        while i < file_contents.len()
            invariant
                i <= file_contents.len(),
                fv == pairs_view(file_contents@),
                typ@ == ".typ"@,
                main@ == main_file@,
                pairs_view(sources@) == other_sources(fv.take(i as int), main_file@),
                bytes_view(binaries@) == other_files(fv.take(i as int), main_file@),
            decreases file_contents.len() - i,
        {
            assert(fv.take(i + 1).drop_last() =~= fv.take(i as int));
            assert(fv.take(i + 1).last() == (file_contents@[i as int].0@, file_contents@[i as int].1@));
            let path = chars_of(file_contents[i].0.as_str());
            if !crate::text::chars_equal(&path, &main) {
                if ends_with_chars(&path, &typ) {
                    let ghost before = pairs_view(sources@);
                    sources.push((file_contents[i].0.clone(), file_contents[i].1.clone()));
                    assert(pairs_view(sources@) =~= before.push((file_contents@[i as int].0@, file_contents@[i as int].1@)));
                } else {
                    let ghost before = bytes_view(binaries@);
                    let bytes = utf8_bytes(file_contents[i].1.as_str());
                    binaries.push((file_contents[i].0.clone(), bytes));
                    assert(bytes_view(binaries@) =~= before.push(
                        (file_contents@[i as int].0@, encode_utf8(file_contents@[i as int].1@)),
                    ));
                }
            }
            i = i + 1;
        }
        assert(fv.take(file_contents.len() as int) =~= fv);
        let ghost head = bytes_view(binaries@);
        let ghost iv = pairs_view(image_cache@);
        let mut k: usize = 0;
        assert(head + image_files(iv.take(0)) =~= head);
        while k < image_cache.len()
            invariant
                k <= image_cache.len(),
                iv == pairs_view(image_cache@),
                bytes_view(binaries@) == head + image_files(iv.take(k as int)),
            decreases image_cache.len() - k,
        {
            assert(iv.take(k + 1).drop_last() =~= iv.take(k as int));
            assert(iv.take(k + 1).last() == (image_cache@[k as int].0@, image_cache@[k as int].1@));
            let data = chars_of(image_cache[k].1.as_str());
            proof {
                lemma_first_index_of(data@, ',');
            }
            let payload: Vec<char> = match find_char(&data, ',') {
                Some(p) => {
                    assert(p < data.len());
                    slice_chars(&data, p + 1, data.len())
                },
                None => data,
            };
            assert(payload@ == image_payload(image_cache@[k as int].1@));
            let text = string_of(&payload);
            match base64_decode(text.as_str()) {
                Ok(bytes) => {
                    let ghost before = bytes_view(binaries@);
                    proof {
                        let chosen = choose|b: Seq<u8>| base64_text(b) == image_payload(image_cache@[k as int].1@);
                        crate::encoding::lemma_base64_injective(chosen, bytes@);
                    }
                    binaries.push((image_cache[k].0.clone(), bytes));
                    assert(bytes_view(binaries@) =~= before.push(image_files(iv.take(k + 1)).last()));
                    assert(image_files(iv.take(k + 1)) =~= image_files(iv.take(k as int)).push(image_files(iv.take(k + 1)).last()));
                },
                Err(_) => {},
            }
            k = k + 1;
        }
        assert(iv.take(image_cache.len() as int) =~= iv);
        PreparedFiles {
            sources,
            binaries,
            pkg_sources: copy_pkg_sources(pkg_sources),
            pkg_binaries: copy_pkg_binaries(pkg_binaries),
        }
    }
}

fn copy_pkg_sources(v: &[(PackageSpec, String, String)]) -> (r: Vec<(PackageSpec, String, String)>)
    ensures
        crate::cache::sources_view(r@) == crate::cache::sources_view(v@),
{
    let mut out: Vec<(PackageSpec, String, String)> = Vec::new();
    let mut i: usize = 0;
    while i < v.len()
        invariant
            i <= v.len(),
            crate::cache::sources_view(out@) == crate::cache::sources_view(v@).take(i as int),
        decreases v.len() - i,
    {
        let e = (v[i].0.duplicate(), v[i].1.clone(), v[i].2.clone());
        assert((e.0@, e.1@, e.2@) == (v@[i as int].0@, v@[i as int].1@, v@[i as int].2@));
        let ghost before = crate::cache::sources_view(out@);
        out.push(e);
        assert(crate::cache::sources_view(out@) =~= before.push((e.0@, e.1@, e.2@)));
        assert(crate::cache::sources_view(out@) =~= crate::cache::sources_view(v@).take(i + 1));
        i = i + 1;
    }
    assert(crate::cache::sources_view(v@).take(v.len() as int) =~= crate::cache::sources_view(v@));
    out
}

fn copy_pkg_binaries(v: &[(PackageSpec, String, Vec<u8>)]) -> (r: Vec<(PackageSpec, String, Vec<u8>)>)
    ensures
        crate::cache::binaries_view(r@) == crate::cache::binaries_view(v@),
{
    let mut out: Vec<(PackageSpec, String, Vec<u8>)> = Vec::new();
    let mut i: usize = 0;
    while i < v.len()
        invariant
            i <= v.len(),
            crate::cache::binaries_view(out@) == crate::cache::binaries_view(v@).take(i as int),
        decreases v.len() - i,
    {
        let e = (v[i].0.duplicate(), v[i].1.clone(), vstd::slice::slice_to_vec(v[i].2.as_slice()));
        assert((e.0@, e.1@, e.2@) == (v@[i as int].0@, v@[i as int].1@, v@[i as int].2@));
        let ghost before = crate::cache::binaries_view(out@);
        out.push(e);
        assert(crate::cache::binaries_view(out@) =~= before.push((e.0@, e.1@, e.2@)));
        assert(crate::cache::binaries_view(out@) =~= crate::cache::binaries_view(v@).take(i + 1));
        i = i + 1;
    }
    assert(crate::cache::binaries_view(v@).take(v.len() as int) =~= crate::cache::binaries_view(v@));
    out
}

// ---------------------------------------------------------------------------
// Results of a compilation
// ---------------------------------------------------------------------------
/// The severity of a compiler message.
#[derive(Clone, Copy, Debug, PartialEq, Eq, Structural)]
pub enum Severity {
    Error,
    Warning,
}

/// A compiler message: where in the source it points (zero-based line and
/// column), how severe it is, what it says, and its hints.
pub struct Diagnostic {
    pub location: Option<(usize, usize)>,
    pub severity: Severity,
    pub message: String,
    pub hints: Vec<String>,
}

/// Why a compilation failed: the compiler's messages about the source, or
/// another error with its text.
pub enum CompileError {
    Diagnostics(Vec<Diagnostic>),
    Other(String),
}

/// The text of a severity.
pub open spec fn severity_text(s: Severity) -> Seq<char> {
    match s {
        Severity::Error => "error"@,
        Severity::Warning => "warning"@,
    }
}

/// The decimal digits of a number.
pub open spec fn decimal(n: nat) -> Seq<char> {
    radix_digits(n, 10)
}

/// The hints of a message, each on a line of its own after it.
pub open spec fn hints_text(hints: Seq<Seq<char>>) -> Seq<char>
    decreases hints.len(),
{
    if hints.len() == 0 {
        Seq::empty()
    } else {
        hints_text(hints.drop_last()) + "\n  hint: "@ + hints.last()
    }
}

/// A message as the preview shows it: `line:column severity: message`
/// (one-based) where it has a location, else `severity: message`, then its
/// hints.
pub open spec fn diagnostic_text(d: Diagnostic) -> Seq<char> {
    let head = match d.location {
        Some((l, c)) => decimal(l as nat + 1) + seq![':'] + decimal(c as nat + 1) + seq![' ']
            + severity_text(d.severity) + ": "@ + d.message@,
        None => severity_text(d.severity) + ": "@ + d.message@,
    };
    head + hints_text(d.hints@.map_values(|h: String| h@))
}

/// The texts joined with line breaks between them.
pub open spec fn lines_text(lines: Seq<Seq<char>>) -> Seq<char> {
    crate::file_tree::join_on(lines, '\n')
}

/// The text of a failed compilation: its messages, one after another on
/// separate lines, or the other error's text.
pub open spec fn error_text(e: CompileError) -> Seq<char> {
    match e {
        CompileError::Diagnostics(ds) => lines_text(ds@.map_values(|d: Diagnostic| diagnostic_text(d))),
        CompileError::Other(t) => t@,
    }
}

/// The wrapper that opens page `i` of the preview: a plain `<div>` for the
/// first page, one with a rule above it for the others.
pub open spec fn page_open(i: int) -> Seq<char> {
    if i == 0 {
        "<div>"@
    } else {
        "<div style=\"margin-top:10px;border-top:1px solid #ccc;padding-top:10px;\">"@
    }
}

/// The preview of a compiled document: each page's SVG in its wrapper.
pub open spec fn preview_text(pages: Seq<Seq<char>>) -> Seq<char>
    decreases pages.len(),
{
    if pages.len() == 0 {
        Seq::empty()
    } else {
        preview_text(pages.drop_last()) + page_open(pages.len() - 1) + pages.last() + "</div>"@
    }
}

fn format_decimal(n: usize) -> (r: Vec<char>)
    ensures
        r@ == decimal(n as nat + 1),
{
    format_radix(n as u128 + 1, 10)
}

impl TypstCompiler {
    /// Refuses a source that is empty or white space only.
    pub fn check_source(source: &str) -> (r: Result<(), String>)
        ensures
            r is Ok <==> exists|i: int| 0 <= i < source@.len() && !white_space(#[trigger] source@[i]),
            r matches Err(e) ==> e@ == "Source code is empty"@,
    {
        let chars = chars_of(source);
        let mut i: usize = 0;
        while i < chars.len()
            invariant
                i <= chars.len(),
                chars@ == source@,
                forall|j: int| 0 <= j < i ==> white_space(#[trigger] chars@[j]),
            decreases chars.len() - i,
        {
            if !is_white_space(chars[i]) {
                return Ok(());
            }
            i = i + 1;
        }
        Err("Source code is empty".to_owned())
    }

    /// The preview of the compiled pages: each page's SVG in a `<div>`,
    /// pages after the first with a rule above them.
    pub fn assemble_svg(pages: &[String]) -> (r: String)
        ensures
            r@ == preview_text(pages@.map_values(|p: String| p@)),
    {
        let ghost pv = pages@.map_values(|p: String| p@);
        let mut out: Vec<char> = Vec::new();
        let first = chars_of("<div>");
        let other = chars_of("<div style=\"margin-top:10px;border-top:1px solid #ccc;padding-top:10px;\">");
        let close = chars_of("</div>");
        let mut i: usize = 0;
        assert(pv.take(0) =~= Seq::<Seq<char>>::empty());
        while i < pages.len()
            invariant
                i <= pages.len(),
                pv == pages@.map_values(|p: String| p@),
                first@ == "<div>"@,
                other@ == "<div style=\"margin-top:10px;border-top:1px solid #ccc;padding-top:10px;\">"@,
                close@ == "</div>"@,
                out@ == preview_text(pv.take(i as int)),
            decreases pages.len() - i,
        {
            assert(pv.take(i + 1).drop_last() =~= pv.take(i as int));
            assert(pv.take(i + 1).last() == pages@[i as int]@);
            if i > 0 {
                append_chars(&mut out, &other);
            } else {
                append_chars(&mut out, &first);
            }
            append_chars(&mut out, &chars_of(pages[i].as_str()));
            append_chars(&mut out, &close);
            i = i + 1;
        }
        assert(pv.take(pages.len() as int) =~= pv);
        string_of(&out)
    }

    /// The text of a failed compilation.
    pub fn format_errors(err: &CompileError) -> (r: String)
        ensures
            r@ == error_text(*err),
    {
        match err {
            CompileError::Diagnostics(ds) => {
                let ghost dv = ds@.map_values(|d: Diagnostic| diagnostic_text(d));
                let mut out: Vec<char> = Vec::new();
                let mut i: usize = 0;
                assert(dv.take(0) =~= Seq::<Seq<char>>::empty());
                while i < ds.len()
                    invariant
                        i <= ds.len(),
                        dv == ds@.map_values(|d: Diagnostic| diagnostic_text(d)),
                        out@ == lines_text(dv.take(i as int)),
                    decreases ds.len() - i,
                {
                    let line = diagnostic_chars(&ds[i]);
                    proof {
                        crate::file_tree::lemma_join_on_push(dv.take(i as int), line@, '\n');
                        assert(dv.take(i + 1) =~= dv.take(i as int).push(line@));
                    }
                    if i > 0 {
                        out.push('\n');
                    }
                    append_chars(&mut out, &line);
                    proof {
                        if i > 0 {
                            assert(out@ =~= lines_text(dv.take(i as int)) + seq!['\n'] + line@);
                        } else {
                            assert(out@ =~= line@);
                        }
                    }
                    i = i + 1;
                }
                assert(dv.take(ds.len() as int) =~= dv);
                string_of(&out)
            },
            CompileError::Other(t) => t.clone(),
        }
    }

    /// The preview of a compilation, or the text of its failure.
    pub fn svg_output(outcome: Result<Vec<String>, CompileError>) -> (r: Result<String, String>)
        ensures
            match outcome {
                Ok(pages) => r matches Ok(svg) && svg@ == preview_text(pages@.map_values(|p: String| p@)),
                Err(e) => r matches Err(m) && m@ == error_text(e),
            },
            match r {
                Ok(svg) => svg_result(outcome) == Ok::<Seq<char>, Seq<char>>(svg@),
                Err(m) => svg_result(outcome) == Err::<Seq<char>, Seq<char>>(m@),
            },
    {
        match outcome {
            Ok(pages) => Ok(Self::assemble_svg(&pages)),
            Err(e) => Err(Self::format_errors(&e)),
        }
    }

    /// The PDF of a compilation, or the text of its failure; a failure of
    /// the PDF export is reported after `PDF error: `.
    pub fn pdf_output(outcome: Result<Result<Vec<u8>, String>, CompileError>) -> (r: Result<Vec<u8>, String>)
        ensures
            match outcome {
                Ok(Ok(pdf)) => r matches Ok(b) && b@ == pdf@,
                Ok(Err(m)) => r matches Err(t) && t@ == "PDF error: "@ + m@,
                Err(e) => r matches Err(t) && t@ == error_text(e),
            },
            match r {
                Ok(b) => pdf_result(outcome) == Ok::<Seq<u8>, Seq<char>>(b@),
                Err(t) => pdf_result(outcome) == Err::<Seq<u8>, Seq<char>>(t@),
            },
    {
        match outcome {
            Ok(Ok(pdf)) => Ok(pdf),
            Ok(Err(m)) => Err(pdf_error(&m)),
            Err(e) => Err(Self::format_errors(&e)),
        }
    }

    /// The preview and the PDF of one compilation, or the text of its
    /// failure.
    pub fn both_output(outcome: Result<(Vec<String>, Result<Vec<u8>, String>), CompileError>) -> (r: Result<(String, Vec<u8>), String>)
        ensures
            match outcome {
                Ok((pages, Ok(pdf))) => r matches Ok((svg, b)) && svg@ == preview_text(pages@.map_values(|p: String| p@)) && b@ == pdf@,
                Ok((_, Err(m))) => r matches Err(t) && t@ == "PDF error: "@ + m@,
                Err(e) => r matches Err(t) && t@ == error_text(e),
            },
            match r {
                Ok((svg, b)) => both_result(outcome) == Ok::<(Seq<char>, Seq<u8>), Seq<char>>((svg@, b@)),
                Err(t) => both_result(outcome) == Err::<(Seq<char>, Seq<u8>), Seq<char>>(t@),
            },
    {
        match outcome {
            Ok((pages, Ok(pdf))) => Ok((Self::assemble_svg(&pages), pdf)),
            Ok((_, Err(m))) => Err(pdf_error(&m)),
            Err(e) => Err(Self::format_errors(&e)),
        }
    }
}

fn pdf_error(m: &str) -> (r: String)
    ensures
        r@ == "PDF error: "@ + m@,
{
    let mut v = chars_of("PDF error: ");
    append_chars(&mut v, &chars_of(m));
    string_of(&v)
}

fn severity_chars(s: Severity) -> (r: Vec<char>)
    ensures
        r@ == severity_text(s),
{
    match s {
        Severity::Error => chars_of("error"),
        Severity::Warning => chars_of("warning"),
    }
}

fn diagnostic_chars(d: &Diagnostic) -> (r: Vec<char>)
    ensures
        r@ == diagnostic_text(*d),
{
    let mut out: Vec<char> = Vec::new();
    match d.location {
        Some((l, c)) => {
            append_chars(&mut out, &format_decimal(l));
            out.push(':');
            append_chars(&mut out, &format_decimal(c));
            out.push(' ');
        },
        None => {},
    }
    append_chars(&mut out, &severity_chars(d.severity));
    append_chars(&mut out, &chars_of(": "));
    append_chars(&mut out, &chars_of(d.message.as_str()));
    let ghost head = out@;
    let ghost hv = d.hints@.map_values(|h: String| h@);
    let hint = chars_of("\n  hint: ");
    let mut i: usize = 0;
    assert(hv.take(0) =~= Seq::<Seq<char>>::empty());
    while i < d.hints.len()
        invariant
            i <= d.hints.len(),
            hv == d.hints@.map_values(|h: String| h@),
            hint@ == "\n  hint: "@,
            out@ == head + hints_text(hv.take(i as int)),
        decreases d.hints.len() - i,
    {
        assert(hv.take(i + 1).drop_last() =~= hv.take(i as int));
        assert(hv.take(i + 1).last() == d.hints@[i as int]@);
        append_chars(&mut out, &hint);
        append_chars(&mut out, &chars_of(d.hints[i].as_str()));
        assert(out@ =~= head + hints_text(hv.take(i + 1)));
        i = i + 1;
    }
    assert(hv.take(d.hints.len() as int) =~= hv);
    assert(out@ =~= diagnostic_text(*d));
    out
}

// ---------------------------------------------------------------------------
// The compile worker
// ---------------------------------------------------------------------------
/// A package file as the worker receives it: namespace, name, version text,
/// path, and text or base64 bytes.
pub type PackageEntry = (String, String, String, String, String);

/// A compilation that the editor asks of its worker.
pub struct CompileRequest {
    pub id: u32,
    pub source: String,
    pub main_file: String,
    pub file_contents: Vec<(String, String)>,
    pub image_cache: Vec<(String, String)>,
    /// Package sources as (namespace, name, version, path, content).
    pub pkg_sources: Vec<PackageEntry>,
    /// Package binaries as (namespace, name, version, path, base64 data).
    pub pkg_binaries: Vec<PackageEntry>,
}

/// What the worker answers: the request's number and the preview and
/// base64 PDF, or the error.
pub struct CompileResponse {
    pub id: u32,
    pub svg: Option<String>,
    pub pdf_base64: Option<String>,
    pub error: Option<String>,
}

/// Package entries as character sequences.
pub open spec fn entries_view(v: Seq<PackageEntry>) -> Seq<(Seq<char>, Seq<char>, Seq<char>, Seq<char>, Seq<char>)> {
    v.map_values(|e: PackageEntry| (e.0@, e.1@, e.2@, e.3@, e.4@))
}

/// The version text of a compiler package version: `major.minor.patch`.
pub open spec fn version_text(v: (u32, u32, u32)) -> Seq<char> {
    decimal(v.0 as nat) + seq!['.'] + decimal(v.1 as nat) + seq!['.'] + decimal(v.2 as nat)
}

/// The compiler identity of a received package entry.
pub open spec fn entry_spec(e: (Seq<char>, Seq<char>, Seq<char>, Seq<char>, Seq<char>)) -> PackageSpecParts {
    (e.0, e.1, version_of(e.2))
}

/// The package sources a request carries, for the compiler.
pub open spec fn decoded_sources(v: Seq<(Seq<char>, Seq<char>, Seq<char>, Seq<char>, Seq<char>)>) -> Seq<(PackageSpecParts, Seq<char>, Seq<char>)> {
    v.map_values(|e: (Seq<char>, Seq<char>, Seq<char>, Seq<char>, Seq<char>)| (entry_spec(e), e.3, e.4))
}

/// The package binaries a request carries whose data is base64, for the
/// compiler.
pub open spec fn decoded_binaries(v: Seq<(Seq<char>, Seq<char>, Seq<char>, Seq<char>, Seq<char>)>) -> Seq<(PackageSpecParts, Seq<char>, Seq<u8>)>
    decreases v.len(),
{
    if v.len() == 0 {
        Seq::empty()
    } else {
        let rest = decoded_binaries(v.drop_last());
        let e = v.last();
        if is_base64_text(e.4) {
            rest.push((entry_spec(e), e.3, choose|b: Seq<u8>| base64_text(b) == e.4))
        } else {
            rest
        }
    }
}

/// The package sources for the worker: each file's package as namespace,
/// name and version text, with its path and text.
pub open spec fn encoded_sources(v: Seq<(PackageSpecParts, Seq<char>, Seq<char>)>) -> Seq<(Seq<char>, Seq<char>, Seq<char>, Seq<char>, Seq<char>)> {
    v.map_values(|e: (PackageSpecParts, Seq<char>, Seq<char>)| (e.0.0, e.0.1, version_text(e.0.2), e.1, e.2))
}

/// The package binaries for the worker, with their bytes in base64.
pub open spec fn encoded_binaries(v: Seq<(PackageSpecParts, Seq<char>, Seq<u8>)>) -> Seq<(Seq<char>, Seq<char>, Seq<char>, Seq<char>, Seq<char>)> {
    v.map_values(|e: (PackageSpecParts, Seq<char>, Seq<u8>)| (e.0.0, e.0.1, version_text(e.0.2), e.1, base64_text(e.2)))
}

/// The text of a version.
pub fn version_string(v: PackageVersion) -> (r: String)
    ensures
        r@ == version_text((v.major, v.minor, v.patch)),
{
    let mut out = format_radix(v.major as u128, 10);
    out.push('.');
    append_chars(&mut out, &format_radix(v.minor as u128, 10));
    out.push('.');
    append_chars(&mut out, &format_radix(v.patch as u128, 10));
    assert(out@ =~= version_text((v.major, v.minor, v.patch)));
    string_of(&out)
}

/// Binary contents short enough to encode.
pub open spec fn binaries_encodable(v: Seq<(PackageSpec, String, Vec<u8>)>) -> bool {
    forall|i: int| 0 <= i < v.len() ==> (#[trigger] v[i]).2.len() <= usize::MAX / 2
}

/// The package sources in the form the worker receives.
pub fn serialize_pkg_sources(sources: &[(PackageSpec, String, String)]) -> (r: Vec<PackageEntry>)
    ensures
        entries_view(r@) == encoded_sources(crate::cache::sources_view(sources@)),
{
    let mut out: Vec<PackageEntry> = Vec::new();
    let ghost sv = crate::cache::sources_view(sources@);
    let mut i: usize = 0;
    while i < sources.len()
        invariant
            i <= sources.len(),
            sv == crate::cache::sources_view(sources@),
            entries_view(out@) == encoded_sources(sv.take(i as int)),
        decreases sources.len() - i,
    {
        let spec = &sources[i].0;
        let e = (spec.namespace.clone(), spec.name.clone(), version_string(spec.version), sources[i].1.clone(), sources[i].2.clone());
        let ghost x = (e.0@, e.1@, e.2@, e.3@, e.4@);
        assert(x == (sv[i as int].0.0, sv[i as int].0.1, version_text(sv[i as int].0.2), sv[i as int].1, sv[i as int].2));
        let ghost before = entries_view(out@);
        out.push(e);
        assert(entries_view(out@) =~= before.push(x));
        assert(encoded_sources(sv.take(i + 1)) =~= encoded_sources(sv.take(i as int)).push(x));
        i = i + 1;
    }
    assert(sv.take(sources.len() as int) =~= sv);
    out
}

/// The package binaries in the form the worker receives, their bytes in
/// base64.
pub fn serialize_pkg_binaries(binaries: &[(PackageSpec, String, Vec<u8>)]) -> (r: Vec<PackageEntry>)
    requires
        binaries_encodable(binaries@),
    ensures
        entries_view(r@) == encoded_binaries(crate::cache::binaries_view(binaries@)),
{
    let mut out: Vec<PackageEntry> = Vec::new();
    let ghost bv = crate::cache::binaries_view(binaries@);
    let mut i: usize = 0;
    while i < binaries.len()
        invariant
            i <= binaries.len(),
            binaries_encodable(binaries@),
            bv == crate::cache::binaries_view(binaries@),
            entries_view(out@) == encoded_binaries(bv.take(i as int)),
        decreases binaries.len() - i,
    {
        let spec = &binaries[i].0;
        assert(binaries@[i as int].2.len() <= usize::MAX / 2);
        let e = (spec.namespace.clone(), spec.name.clone(), version_string(spec.version), binaries[i].1.clone(), base64_encode(binaries[i].2.as_slice()));
        let ghost x = (e.0@, e.1@, e.2@, e.3@, e.4@);
        assert(x == (bv[i as int].0.0, bv[i as int].0.1, version_text(bv[i as int].0.2), bv[i as int].1, base64_text(bv[i as int].2)));
        let ghost before = entries_view(out@);
        out.push(e);
        assert(entries_view(out@) =~= before.push(x));
        assert(encoded_binaries(bv.take(i + 1)) =~= encoded_binaries(bv.take(i as int)).push(x));
        i = i + 1;
    }
    assert(bv.take(binaries.len() as int) =~= bv);
    out
}

fn entry_package(e: &PackageEntry) -> (r: PackageSpec)
    ensures
        r@ == entry_spec((e.0@, e.1@, e.2@, e.3@, e.4@)),
{
    PackageSpec { namespace: e.0.clone(), name: e.1.clone(), version: parse_version(e.2.as_str()) }
}

/// The package sources of a request, for the compiler.
pub fn decode_pkg_sources(entries: &[PackageEntry]) -> (r: Vec<(PackageSpec, String, String)>)
    ensures
        crate::cache::sources_view(r@) == decoded_sources(entries_view(entries@)),
{
    let mut out: Vec<(PackageSpec, String, String)> = Vec::new();
    let ghost ev = entries_view(entries@);
    let mut i: usize = 0;
    while i < entries.len()
        invariant
            i <= entries.len(),
            ev == entries_view(entries@),
            crate::cache::sources_view(out@) == decoded_sources(ev.take(i as int)),
        decreases entries.len() - i,
    {
        let e = (entry_package(&entries[i]), entries[i].3.clone(), entries[i].4.clone());
        let ghost x = (e.0@, e.1@, e.2@);
        assert(x == (entry_spec(ev[i as int]), ev[i as int].3, ev[i as int].4));
        let ghost before = crate::cache::sources_view(out@);
        out.push(e);
        assert(crate::cache::sources_view(out@) =~= before.push(x));
        assert(decoded_sources(ev.take(i + 1)) =~= decoded_sources(ev.take(i as int)).push(x));
        i = i + 1;
    }
    assert(ev.take(entries.len() as int) =~= ev);
    out
}

/// The package binaries of a request whose data is base64, for the
/// compiler.
pub fn decode_pkg_binaries(entries: &[PackageEntry]) -> (r: Vec<(PackageSpec, String, Vec<u8>)>)
    ensures
        crate::cache::binaries_view(r@) == decoded_binaries(entries_view(entries@)),
{
    let mut out: Vec<(PackageSpec, String, Vec<u8>)> = Vec::new();
    let ghost ev = entries_view(entries@);
    let mut i: usize = 0;
    assert(ev.take(0) =~= Seq::<(Seq<char>, Seq<char>, Seq<char>, Seq<char>, Seq<char>)>::empty());
    while i < entries.len()
        invariant
            i <= entries.len(),
            ev == entries_view(entries@),
            crate::cache::binaries_view(out@) == decoded_binaries(ev.take(i as int)),
        decreases entries.len() - i,
    {
        assert(ev.take(i + 1).drop_last() =~= ev.take(i as int));
        assert(ev.take(i + 1).last() == ev[i as int]);
        match base64_decode(entries[i].4.as_str()) {
            Ok(bytes) => {
                proof {
                    let chosen = choose|b: Seq<u8>| base64_text(b) == ev[i as int].4;
                    crate::encoding::lemma_base64_injective(chosen, bytes@);
                }
                let ghost before = crate::cache::binaries_view(out@);
                let e = (entry_package(&entries[i]), entries[i].3.clone(), bytes);
                out.push(e);
                assert(crate::cache::binaries_view(out@) =~= before.push((e.0@, e.1@, e.2@)));
            },
            Err(_) => {},
        }
        i = i + 1;
    }
    assert(ev.take(entries.len() as int) =~= ev);
    out
}

/// The first of `hrefs` that names the application's script: it mentions
/// `wasm-typst-studio` and ends with `suffix`.
pub open spec fn first_asset(hrefs: Seq<Seq<char>>, suffix: Seq<char>) -> Option<Seq<char>>
    decreases hrefs.len(),
{
    if hrefs.len() == 0 {
        None
    } else if find_text(hrefs[0], "wasm-typst-studio"@) is Some && has_suffix(hrefs[0], suffix) {
        Some(hrefs[0])
    } else {
        first_asset(hrefs.drop_first(), suffix)
    }
}

/// The script the worker loads, relative or absolute: the first module
/// preload of the application's script, or else the script beside the first
/// preloaded application binary.
pub open spec fn worker_script(module_hrefs: Seq<Seq<char>>, preload_hrefs: Seq<Seq<char>>) -> Option<Seq<char>> {
    match first_asset(module_hrefs, ".js"@) {
        Some(h) => if h.len() > 0 {
            Some(h)
        } else {
            None
        },
        None => match first_asset(preload_hrefs, "_bg.wasm"@) {
            Some(h) => Some(replace_all(h, "_bg.wasm"@, ".js"@)),
            None => None,
        },
    }
}

/// An address made absolute against the page's origin.
pub open spec fn absolute_url(url: Seq<char>, origin: Seq<char>) -> Seq<char> {
    if has_prefix(url, "http"@) {
        url
    } else if has_prefix(url, "/"@) {
        origin + url
    } else {
        origin + seq!['/'] + url
    }
}

/// The addresses the worker is started with: its script, absolute, and the
/// binary beside it (every `.js` in the address read as `_bg.wasm`); none
/// where the page names no application script.
pub open spec fn worker_urls_text(module_hrefs: Seq<Seq<char>>, preload_hrefs: Seq<Seq<char>>, origin: Seq<char>) -> Option<
    (Seq<char>, Seq<char>),
> {
    match worker_script(module_hrefs, preload_hrefs) {
        Some(js) => if js.len() == 0 {
            None
        } else {
            let abs = absolute_url(js, origin);
            Some((abs, replace_all(abs, ".js"@, "_bg.wasm"@)))
        },
        None => None,
    }
}

fn first_asset_exec(hrefs: &[String], suffix: &str) -> (r: Option<Vec<char>>)
    ensures
        match first_asset(strings_view(hrefs@), suffix@) {
            Some(h) => r matches Some(x) && x@ == h,
            None => r is None,
        },
{
    let ghost hv = strings_view(hrefs@);
    let mut i: usize = 0;
    assert(hv.skip(0) =~= hv);
    while i < hrefs.len()
        invariant
            i <= hrefs.len(),
            hv == strings_view(hrefs@),
            first_asset(hv, suffix@) == first_asset(hv.skip(i as int), suffix@),
        decreases hrefs.len() - i,
    {
        let h = chars_of(hrefs[i].as_str());
        assert(hv.skip(i as int)[0] == h@);
        assert(hv.skip(i as int).drop_first() =~= hv.skip(i + 1));
        if find_chars(&h, &chars_of("wasm-typst-studio")).is_some() && ends_with_chars(&h, &chars_of(suffix)) {
            return Some(h);
        }
        i = i + 1;
    }
    None
}

/// The addresses the compile worker is started with, from the page's
/// preload links and its origin.
pub fn worker_urls(module_hrefs: &[String], preload_hrefs: &[String], origin: &str) -> (r: Option<(String, String)>)
    ensures
        match worker_urls_text(strings_view(module_hrefs@), strings_view(preload_hrefs@), origin@) {
            Some((js, wasm)) => r matches Some((a, b)) && a@ == js && b@ == wasm,
            None => r is None,
        },
{
    proof {
        reveal_strlit("_bg.wasm");
        reveal_strlit(".js");
    }
    let js: Option<Vec<char>> = match first_asset_exec(module_hrefs, ".js") {
        Some(h) => if h.len() > 0 {
            Some(h)
        } else {
            None
        },
        None => match first_asset_exec(preload_hrefs, "_bg.wasm") {
            Some(h) => Some(replace_chars(&h, &chars_of("_bg.wasm"), &chars_of(".js"))),
            None => None,
        },
    };
    match js {
        Some(js) => {
            if js.len() == 0 {
                return None;
            }
            let abs = if starts_with_chars(&js, &chars_of("http")) {
                js
            } else if starts_with_chars(&js, &chars_of("/")) {
                let mut v = chars_of(origin);
                append_chars(&mut v, &js);
                v
            } else {
                let mut v = chars_of(origin);
                v.push('/');
                append_chars(&mut v, &js);
                v
            };
            let wasm = replace_chars(&abs, &chars_of(".js"), &chars_of("_bg.wasm"));
            Some((string_of(&abs), string_of(&wasm)))
        },
        None => None,
    }
}

/// The worker's answer to a compilation: the preview and the PDF in base64,
/// or the error.
pub fn compile_response(id: u32, result: Result<(String, Vec<u8>), String>) -> (r: CompileResponse)
    requires
        result matches Ok((_, pdf)) ==> pdf.len() <= usize::MAX / 2,
    ensures
        r.id == id,
        match result {
            Ok((svg, pdf)) => {
                &&& r.svg matches Some(s) && s@ == svg@
                &&& r.pdf_base64 matches Some(p) && p@ == base64_text(pdf@)
                &&& r.error is None
            },
            Err(e) => {
                &&& r.svg is None
                &&& r.pdf_base64 is None
                &&& r.error matches Some(m) && m@ == e@
            },
        },
{
    match result {
        Ok((svg, pdf)) => {
            let encoded = base64_encode(pdf.as_slice());
            CompileResponse { id, svg: Some(svg), pdf_base64: Some(encoded), error: None }
        },
        Err(e) => CompileResponse { id, svg: None, pdf_base64: None, error: Some(e) },
    }
}

/// The worker's answer to a request it could not read.
pub fn parse_failure_response(reason: &str) -> (r: CompileResponse)
    ensures
        r.id == 0,
        r.svg is None,
        r.pdf_base64 is None,
        r.error matches Some(m) && m@ == "Failed to parse request: "@ + reason@,
{
    let mut v = chars_of("Failed to parse request: ");
    append_chars(&mut v, &chars_of(reason));
    CompileResponse { id: 0, svg: None, pdf_base64: None, error: Some(string_of(&v)) }
}

proof fn lemma_decimal_reads_back(n: u32)
    ensures
        parse_unsigned(decimal(n as nat), 10, u32::MAX as nat) == Some(n as nat),
        forall|i: int| 0 <= i < decimal(n as nat).len() ==> decimal(n as nat)[i] != '.',
{
    let d = decimal(n as nat);
    lemma_radix_digits(n as nat, 10);
    assert(is_digit_of(d[0], 10));
    assert(unsigned_digits(d) == d);
    assert forall|i: int| 0 <= i < d.len() implies d[i] != '.' by {
        assert(is_digit_of(d[i], 10));
    }
}

/// The version text of a version reads back as that version.
pub proof fn lemma_version_text(v: (u32, u32, u32))
    ensures
        version_of(version_text(v)) == v,
{
    let a = decimal(v.0 as nat);
    let b = decimal(v.1 as nat);
    let c = decimal(v.2 as nat);
    lemma_decimal_reads_back(v.0);
    lemma_decimal_reads_back(v.1);
    lemma_decimal_reads_back(v.2);
    let bc = b + seq!['.'] + c;
    assert(version_text(v) =~= a + seq!['.'] + bc);
    lemma_split_on_first(a, bc, '.');
    lemma_split_on_first(b, c, '.');
    lemma_split_on_first(c, Seq::empty(), '.');
    let pieces = split_on(version_text(v), '.');
    assert(pieces =~= seq![a, b, c]);
    assert(pieces.drop_first() =~= seq![b, c]);
    assert(pieces.drop_first().drop_first() =~= seq![c]);
    assert(pieces.drop_first().drop_first().drop_first() =~= Seq::<Seq<char>>::empty());
    let ns = version_numbers_of(pieces);
    let p2 = pieces.drop_first();
    let p3 = p2.drop_first();
    assert(version_numbers_of(p3.drop_first()) =~= Seq::<u32>::empty());
    assert(p3[0] == c && p2[0] == b && pieces[0] == a);
    assert(parse_unsigned(p3[0], 10, u32::MAX as nat) == Some(v.2 as nat));
    assert(version_numbers_of(p3) =~= seq![v.2]);
    assert(parse_unsigned(p2[0], 10, u32::MAX as nat) == Some(v.1 as nat));
    assert(version_numbers_of(p2) =~= seq![v.1, v.2]);
    assert(parse_unsigned(pieces[0], 10, u32::MAX as nat) == Some(v.0 as nat));
    assert(ns =~= seq![v.0, v.1, v.2]);
    assert(number_or_zero(ns, 0) == v.0);
    assert(number_or_zero(ns, 1) == v.1);
    assert(number_or_zero(ns, 2) == v.2);
}

/// Package sources sent to the worker in request form read back there as
/// the same files of the same packages, in the same order.
pub proof fn law_sources_round_trip(v: Seq<(PackageSpecParts, Seq<char>, Seq<char>)>)
    ensures
        decoded_sources(encoded_sources(v)) == v,
{
    assert forall|i: int| 0 <= i < v.len() implies #[trigger] decoded_sources(encoded_sources(v))[i] == v[i] by {
        lemma_version_text(v[i].0.2);
    }
    assert(decoded_sources(encoded_sources(v)) =~= v);
}

/// Package binaries sent to the worker in base64 read back there as the
/// same bytes of the same files, in the same order; none is dropped.
pub proof fn law_binaries_round_trip(v: Seq<(PackageSpecParts, Seq<char>, Seq<u8>)>)
    ensures
        decoded_binaries(encoded_binaries(v)) == v,
    decreases v.len(),
{
    if v.len() > 0 {
        let enc = encoded_binaries(v);
        assert(enc.drop_last() =~= encoded_binaries(v.drop_last()));
        law_binaries_round_trip(v.drop_last());
        let e = enc.last();
        let x = v.last();
        assert(e == (x.0.0, x.0.1, version_text(x.0.2), x.1, base64_text(x.2)));
        assert(is_base64_text(e.4));
        let chosen = choose|b: Seq<u8>| base64_text(b) == e.4;
        crate::encoding::lemma_base64_injective(chosen, x.2);
        lemma_version_text(x.0.2);
        assert(v =~= v.drop_last().push(x));
    }
}

/// What `svg_output` gives for a compilation: the preview of its pages, or
/// the text of its failure.
pub open spec fn svg_result(outcome: Result<Vec<String>, CompileError>) -> Result<Seq<char>, Seq<char>> {
    match outcome {
        Ok(pages) => Ok(preview_text(pages@.map_values(|p: String| p@))),
        Err(e) => Err(error_text(e)),
    }
}

/// What `pdf_output` gives for a compilation: its PDF, the export's
/// failure, or the text of the compilation's failure.
pub open spec fn pdf_result(outcome: Result<Result<Vec<u8>, String>, CompileError>) -> Result<Seq<u8>, Seq<char>> {
    match outcome {
        Ok(Ok(pdf)) => Ok(pdf@),
        Ok(Err(m)) => Err("PDF error: "@ + m@),
        Err(e) => Err(error_text(e)),
    }
}

/// What `both_output` gives for a compilation: its preview and PDF, the
/// export's failure, or the text of the compilation's failure.
pub open spec fn both_result(outcome: Result<(Vec<String>, Result<Vec<u8>, String>), CompileError>) -> Result<
    (Seq<char>, Seq<u8>),
    Seq<char>,
> {
    match outcome {
        Ok((pages, Ok(pdf))) => Ok((preview_text(pages@.map_values(|p: String| p@)), pdf@)),
        Ok((_, Err(m))) => Err("PDF error: "@ + m@),
        Err(e) => Err(error_text(e)),
    }
}

/// The pages of one compilation, as the preview is made from them.
pub open spec fn pages_of(compiled: Result<(Vec<String>, Result<Vec<u8>, String>), CompileError>) -> Result<Vec<String>, CompileError> {
    match compiled {
        Ok((pages, _)) => Ok(pages),
        Err(e) => Err(e),
    }
}

/// The PDF export of one compilation.
pub open spec fn pdf_of(compiled: Result<(Vec<String>, Result<Vec<u8>, String>), CompileError>) -> Result<Result<Vec<u8>, String>, CompileError> {
    match compiled {
        Ok((_, pdf)) => Ok(pdf),
        Err(e) => Err(e),
    }
}

/// Compiling once for both outputs agrees with compiling for each: where
/// the compiler gives the same document (or the same failure) to each run,
/// a preview and PDF from `both_output` are those of `svg_output` and
/// `pdf_output`, a failure of either single output is the failure of
/// `both_output`, and `both_output` succeeds exactly where both do.
pub proof fn law_both_agrees(compiled: Result<(Vec<String>, Result<Vec<u8>, String>), CompileError>)
    ensures
        both_result(compiled) matches Ok((s, p)) ==> svg_result(pages_of(compiled)) == Ok::<Seq<char>, Seq<char>>(s)
            && pdf_result(pdf_of(compiled)) == Ok::<Seq<u8>, Seq<char>>(p),
        svg_result(pages_of(compiled)) matches Err(e) ==> both_result(compiled) == Err::<(Seq<char>, Seq<u8>), Seq<char>>(e),
        pdf_result(pdf_of(compiled)) matches Err(e) ==> both_result(compiled) == Err::<(Seq<char>, Seq<u8>), Seq<char>>(e),
        both_result(compiled) is Ok <==> (svg_result(pages_of(compiled)) is Ok && pdf_result(pdf_of(compiled)) is Ok),
{
}

/// Every project file other than the main file reaches the compiler,
/// whatever folder it lies in: a `.typ` file as a source with its text, any
/// other as a file with its UTF-8 bytes; and nothing else is a source.
pub proof fn law_prepared_files(fc: Seq<(Seq<char>, Seq<char>)>, main: Seq<char>)
    ensures
        forall|i: int|
            0 <= i < fc.len() && fc[i].0 != main && has_suffix(fc[i].0, ".typ"@) ==> #[trigger] other_sources(
                fc,
                main,
            ).contains(fc[i]),
        forall|i: int|
            0 <= i < fc.len() && fc[i].0 != main && !has_suffix(fc[i].0, ".typ"@) ==> #[trigger] other_files(
                fc,
                main,
            ).contains((fc[i].0, encode_utf8(fc[i].1))),
        forall|x: (Seq<char>, Seq<char>)|
            #[trigger] other_sources(fc, main).contains(x) ==> fc.contains(x) && x.0 != main && has_suffix(x.0, ".typ"@),
    decreases fc.len(),
{
    if fc.len() > 0 {
        let init = fc.drop_last();
        law_prepared_files(init, main);
        let last = fc.last();
        assert forall|i: int|
            0 <= i < fc.len() && fc[i].0 != main && has_suffix(fc[i].0, ".typ"@) implies #[trigger] other_sources(
                fc,
                main,
            ).contains(fc[i]) by {
            if i < fc.len() - 1 {
                assert(init[i] == fc[i]);
                assert(other_sources(init, main).contains(init[i]));
                let j = choose|j: int| 0 <= j < other_sources(init, main).len() && other_sources(init, main)[j] == fc[i];
                if last.0 != main && has_suffix(last.0, ".typ"@) {
                    assert(other_sources(fc, main) == other_sources(init, main).push(last));
                    assert(other_sources(fc, main)[j] == fc[i]);
                }
            } else {
                assert(other_sources(fc, main) == other_sources(init, main).push(last));
                assert(other_sources(fc, main)[other_sources(init, main).len() as int] == fc[i]);
            }
        }
        assert forall|i: int|
            0 <= i < fc.len() && fc[i].0 != main && !has_suffix(fc[i].0, ".typ"@) implies #[trigger] other_files(
                fc,
                main,
            ).contains((fc[i].0, encode_utf8(fc[i].1))) by {
            let e = (fc[i].0, encode_utf8(fc[i].1));
            if i < fc.len() - 1 {
                assert(init[i] == fc[i]);
                assert(other_files(init, main).contains((init[i].0, encode_utf8(init[i].1))));
                let j = choose|j: int| 0 <= j < other_files(init, main).len() && other_files(init, main)[j] == e;
                if last.0 != main && !has_suffix(last.0, ".typ"@) {
                    assert(other_files(fc, main) == other_files(init, main).push((last.0, encode_utf8(last.1))));
                    assert(other_files(fc, main)[j] == e);
                }
            } else {
                assert(other_files(fc, main) == other_files(init, main).push((last.0, encode_utf8(last.1))));
                assert(other_files(fc, main)[other_files(init, main).len() as int] == e);
            }
        }
        assert forall|x: (Seq<char>, Seq<char>)|
            #[trigger] other_sources(fc, main).contains(x) implies fc.contains(x) && x.0 != main && has_suffix(x.0, ".typ"@) by {
            let j = choose|j: int| 0 <= j < other_sources(fc, main).len() && other_sources(fc, main)[j] == x;
            if j < other_sources(init, main).len() {
                assert(other_sources(init, main)[j] == x);
                assert(other_sources(init, main).contains(x));
                let i = choose|i: int| 0 <= i < init.len() && init[i] == x;
                assert(fc[i] == x);
            } else {
                assert(x == last);
                assert(fc[fc.len() - 1] == x);
            }
        }
    }
}

} // verus!
