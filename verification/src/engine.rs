//! Running the Typst compiler: the engine is built from the main source and
//! the prepared files (project and package files alike, by their file ids),
//! the document is compiled, and its pages, PDF or failure are turned into
//! the library's values, which `TypstCompiler`'s outputs finish.
use vstd::prelude::*;
use crate::cache::PackageSpec;
use crate::compiler::{
    both_result, pdf_result, svg_result, CompileError, Diagnostic, PreparedFiles, Severity, TypstCompiler,
};
use crate::text::white_space;
use typst::diag::SourceDiagnostic;
use typst::layout::PagedDocument;
use typst_as_lib::{TypstAsLibError, TypstEngine, TypstTemplateEngineBuilder, TypstTemplateMainFile};
use typst_syntax::FileId;

verus! {

// ---------------------------------------------------------------------------
// The compiler's types
// ---------------------------------------------------------------------------
#[verifier::external_type_specification]
#[verifier::external_body]
#[verifier::reject_recursive_types(T)]
pub struct ExTypstEngine<T>(TypstEngine<T>);

#[verifier::external_type_specification]
#[verifier::external_body]
#[verifier::reject_recursive_types(T)]
pub struct ExTypstTemplateEngineBuilder<T>(TypstTemplateEngineBuilder<T>);

#[verifier::external_type_specification]
#[verifier::external_body]
pub struct ExTypstTemplateMainFile(TypstTemplateMainFile);

#[verifier::external_type_specification]
#[verifier::external_body]
pub struct ExPagedDocument(PagedDocument);

#[verifier::external_type_specification]
#[verifier::external_body]
pub struct ExTypstAsLibError(TypstAsLibError);

#[verifier::external_type_specification]
#[verifier::external_body]
pub struct ExSourceDiagnostic(SourceDiagnostic);

#[verifier::external_type_specification]
#[verifier::external_body]
pub struct ExFileId(FileId);

// ---------------------------------------------------------------------------
// Calls into the compiler
// ---------------------------------------------------------------------------
/// `TypstEngine::builder().main_file(..)` with the main source under its
/// path, and `search_fonts_with` the embedded fonts only (no system fonts).
#[verifier::external_body]
fn engine_builder(main_file: &str, source: &str) -> (r: TypstTemplateEngineBuilder<TypstTemplateMainFile>) {
    TypstEngine::builder().main_file((main_file, source.to_owned())).search_fonts_with(
        typst_as_lib::typst_kit_options::TypstKitFontOptions::default().include_system_fonts(false).include_embedded_fonts(
            true,
        ),
    )
}

/// `FileId::new` for a project file: no package, the path as the virtual
/// path.
#[verifier::external_body]
fn project_file_id(path: &str) -> (r: FileId) {
    FileId::new(None, typst_syntax::VirtualPath::new(path))
}

/// `FileId::new` for a package file: the compiler's package specification
/// made of the package's namespace, name and version, and the path as the
/// virtual path.
#[verifier::external_body]
fn package_file_id(spec: &PackageSpec, path: &str) -> (r: FileId) {
    let typst_spec = typst_syntax::package::PackageSpec {
        namespace: spec.namespace.as_str().into(),
        name: spec.name.as_str().into(),
        version: typst_syntax::package::PackageVersion {
            major: spec.version.major,
            minor: spec.version.minor,
            patch: spec.version.patch,
        },
    };
    FileId::new(Some(typst_spec), typst_syntax::VirtualPath::new(path))
}

/// `with_static_source_file_resolver`: the sources, each under its id.
#[verifier::external_body]
fn with_sources(
    builder: TypstTemplateEngineBuilder<TypstTemplateMainFile>,
    sources: Vec<(FileId, String)>,
) -> (r: TypstTemplateEngineBuilder<TypstTemplateMainFile>) {
    builder.with_static_source_file_resolver(sources)
}

/// `with_static_file_resolver`: the files, each under its id.
#[verifier::external_body]
fn with_binaries(
    builder: TypstTemplateEngineBuilder<TypstTemplateMainFile>,
    binaries: Vec<(FileId, Vec<u8>)>,
) -> (r: TypstTemplateEngineBuilder<TypstTemplateMainFile>) {
    builder.with_static_file_resolver(binaries)
}

/// `TypstTemplateEngineBuilder::build`.
#[verifier::external_body]
fn build_engine(builder: TypstTemplateEngineBuilder<TypstTemplateMainFile>) -> (r: TypstEngine<TypstTemplateMainFile>) {
    builder.build()
}

/// `TypstEngine::compile` of the main file into a paged document. Its
/// outcome may depend on the date and the fonts found, so nothing is said
/// of it.
#[verifier::external_body]
fn compile_document(engine: &TypstEngine<TypstTemplateMainFile>) -> (r: Result<PagedDocument, TypstAsLibError>) {
    engine.compile::<PagedDocument>().output
}

/// `typst_svg::svg` of each page, in order.
#[verifier::external_body]
fn page_svgs(document: &PagedDocument) -> (r: Vec<String>) {
    document.pages.iter().map(typst_svg::svg).collect()
}

/// `typst_pdf::pdf` with the default options; a failure as its debug text.
#[verifier::external_body]
fn document_pdf(document: &PagedDocument) -> (r: Result<Vec<u8>, String>) {
    match typst_pdf::pdf(document, &typst_pdf::PdfOptions::default()) {
        Ok(bytes) => Ok(bytes),
        Err(e) => Err(format!("{:?}", e)),
    }
}

/// The messages of a failure about the source (`TypstAsLibError::TypstSource`),
/// or the text (`Display`) of another failure.
#[verifier::external_body]
fn error_diagnostics(error: TypstAsLibError) -> (r: Result<Vec<SourceDiagnostic>, String>) {
    match error {
        TypstAsLibError::TypstSource(diagnostics) => Ok(diagnostics.to_vec()),
        other => Err(other.to_string()),
    }
}

/// `Source::range` of a message's span in the source text taken alone
/// (`Source::detached`): the byte where it starts.
#[verifier::external_body]
fn span_start(source: &str, diagnostic: &SourceDiagnostic) -> (r: Option<usize>) {
    typst_syntax::Source::detached(source).range(diagnostic.span).map(|range| range.start)
}

/// `Source::byte_to_line` in the source text.
#[verifier::external_body]
fn line_of(source: &str, byte: usize) -> (r: Option<usize>) {
    typst_syntax::Source::detached(source).byte_to_line(byte)
}

/// `Source::byte_to_column` in the source text.
#[verifier::external_body]
fn column_of(source: &str, byte: usize) -> (r: Option<usize>) {
    typst_syntax::Source::detached(source).byte_to_column(byte)
}

/// A message's severity.
#[verifier::external_body]
fn diagnostic_severity(diagnostic: &SourceDiagnostic) -> (r: Severity) {
    match diagnostic.severity {
        typst::diag::Severity::Error => Severity::Error,
        typst::diag::Severity::Warning => Severity::Warning,
    }
}

/// A message's text.
#[verifier::external_body]
fn diagnostic_message(diagnostic: &SourceDiagnostic) -> (r: String) {
    diagnostic.message.to_string()
}

/// A message's hints, in order.
#[verifier::external_body]
fn diagnostic_hints(diagnostic: &SourceDiagnostic) -> (r: Vec<String>) {
    diagnostic.hints.iter().map(ToString::to_string).collect()
}

// ---------------------------------------------------------------------------
// The compilation
// ---------------------------------------------------------------------------
/// Where a message points in the source: its line and column, where both
/// are known.
fn message_location(source: &str, diagnostic: &SourceDiagnostic) -> (r: Option<(usize, usize)>) {
    match span_start(source, diagnostic) {
        Some(byte) => match line_of(source, byte) {
            Some(line) => match column_of(source, byte) {
                Some(column) => Some((line, column)),
                None => None,
            },
            None => None,
        },
        None => None,
    }
}

/// A compiler failure as the library's error: each message with where it
/// points, its severity, text and hints, in order; or the failure's text.
fn compile_error_of(source: &str, error: TypstAsLibError) -> (r: CompileError) {
    match error_diagnostics(error) {
        Ok(diagnostics) => {
            let mut out: Vec<Diagnostic> = Vec::new();
            let mut i: usize = 0;
            while i < diagnostics.len()
                invariant
                    i <= diagnostics.len(),
                    out.len() == i,
                decreases diagnostics.len() - i,
            {
                let d = &diagnostics[i];
                out.push(
                    Diagnostic {
                        location: message_location(source, d),
                        severity: diagnostic_severity(d),
                        message: diagnostic_message(d),
                        hints: diagnostic_hints(d),
                    },
                );
                i = i + 1;
            }
            CompileError::Diagnostics(out)
        },
        Err(text) => CompileError::Other(text),
    }
}

/// The engine for a compilation: the main source under its path, the
/// project's and the packages' sources, and their other files.
fn engine_for(source: &str, main_file: &str, files: &PreparedFiles) -> (r: TypstEngine<TypstTemplateMainFile>) {
    let mut builder = engine_builder(main_file, source);
    let mut sources: Vec<(FileId, String)> = Vec::new();
    let mut i: usize = 0;
    while i < files.sources.len()
        decreases files.sources.len() - i,
    {
        sources.push((project_file_id(files.sources[i].0.as_str()), files.sources[i].1.clone()));
        i = i + 1;
    }
    let mut i: usize = 0;
    while i < files.pkg_sources.len()
        decreases files.pkg_sources.len() - i,
    {
        let (spec, path, text) = &files.pkg_sources[i];
        sources.push((package_file_id(spec, path.as_str()), text.clone()));
        i = i + 1;
    }
    let mut binaries: Vec<(FileId, Vec<u8>)> = Vec::new();
    let mut i: usize = 0;
    while i < files.binaries.len()
        decreases files.binaries.len() - i,
    {
        binaries.push((project_file_id(files.binaries[i].0.as_str()), files.binaries[i].1.clone()));
        i = i + 1;
    }
    let mut i: usize = 0;
    while i < files.pkg_binaries.len()
        decreases files.pkg_binaries.len() - i,
    {
        let (spec, path, data) = &files.pkg_binaries[i];
        binaries.push((package_file_id(spec, path.as_str()), data.clone()));
        i = i + 1;
    }
    if sources.len() > 0 {
        builder = with_sources(builder, sources);
    }
    if binaries.len() > 0 {
        builder = with_binaries(builder, binaries);
    }
    build_engine(builder)
}

/// The source holds something besides white space.
pub open spec fn has_content(source: Seq<char>) -> bool {
    exists|i: int| 0 <= i < source.len() && !white_space(#[trigger] source[i])
}

/// A preview-and-PDF result as character and byte sequences.
pub open spec fn both_view(r: Result<(String, Vec<u8>), String>) -> Result<(Seq<char>, Seq<u8>), Seq<char>> {
    match r {
        Ok((svg, pdf)) => Ok((svg@, pdf@)),
        Err(m) => Err(m@),
    }
}

/// A preview result as character sequences.
pub open spec fn svg_view(r: Result<String, String>) -> Result<Seq<char>, Seq<char>> {
    match r {
        Ok(svg) => Ok(svg@),
        Err(m) => Err(m@),
    }
}

/// A PDF result as a byte or character sequence.
pub open spec fn pdf_view(r: Result<Vec<u8>, String>) -> Result<Seq<u8>, Seq<char>> {
    match r {
        Ok(pdf) => Ok(pdf@),
        Err(m) => Err(m@),
    }
}

impl TypstCompiler {
    /// Compiles once and gives both the preview and the PDF of the main
    /// source, with the project's files and images and the packages'
    /// files. A source of white space only is refused as empty; otherwise
    /// the result is what `both_output` makes of the compilation.
    pub fn compile_to_both(
        &self,
        source: &str,
        main_file: &str,
        file_contents: &[(String, String)],
        image_cache: &[(String, String)],
        pkg_sources: &[(PackageSpec, String, String)],
        pkg_binaries: &[(PackageSpec, String, Vec<u8>)],
    ) -> (r: Result<(String, Vec<u8>), String>)
        ensures
            !has_content(source@) ==> (r matches Err(e) && e@ == "Source code is empty"@),
            has_content(source@) ==> exists|o: Result<(Vec<String>, Result<Vec<u8>, String>), CompileError>|
                #[trigger] both_result(o) == both_view(r),
    {
        if let Err(e) = Self::check_source(source) {
            return Err(e);
        }
        let files = Self::prepare_files(file_contents, image_cache, main_file, pkg_sources, pkg_binaries);
        let engine = engine_for(source, main_file, &files);
        let outcome = match compile_document(&engine) {
            Ok(document) => Ok((page_svgs(&document), document_pdf(&document))),
            Err(error) => Err(compile_error_of(source, error)),
        };
        let ghost o = outcome;
        let r = Self::both_output(outcome);
        assert(both_result(o) == both_view(r));
        r
    }

    /// Compiles the main source to the preview only; a source of white
    /// space only is refused as empty; otherwise the result is what
    /// `svg_output` makes of the compilation.
    pub fn compile_to_svg(
        &self,
        source: &str,
        main_file: &str,
        file_contents: &[(String, String)],
        image_cache: &[(String, String)],
        pkg_sources: &[(PackageSpec, String, String)],
        pkg_binaries: &[(PackageSpec, String, Vec<u8>)],
    ) -> (r: Result<String, String>)
        ensures
            !has_content(source@) ==> (r matches Err(e) && e@ == "Source code is empty"@),
            has_content(source@) ==> exists|o: Result<Vec<String>, CompileError>| #[trigger] svg_result(o) == svg_view(r),
    {
        if let Err(e) = Self::check_source(source) {
            return Err(e);
        }
        let files = Self::prepare_files(file_contents, image_cache, main_file, pkg_sources, pkg_binaries);
        let engine = engine_for(source, main_file, &files);
        let outcome = match compile_document(&engine) {
            Ok(document) => Ok(page_svgs(&document)),
            Err(error) => Err(compile_error_of(source, error)),
        };
        let ghost o = outcome;
        let r = Self::svg_output(outcome);
        assert(svg_result(o) == svg_view(r));
        r
    }

    /// Compiles the main source to the PDF only; a source of white space
    /// only is refused as empty; otherwise the result is what `pdf_output`
    /// makes of the compilation.
    pub fn compile_to_pdf(
        &self,
        source: &str,
        main_file: &str,
        file_contents: &[(String, String)],
        image_cache: &[(String, String)],
        pkg_sources: &[(PackageSpec, String, String)],
        pkg_binaries: &[(PackageSpec, String, Vec<u8>)],
    ) -> (r: Result<Vec<u8>, String>)
        ensures
            !has_content(source@) ==> (r matches Err(e) && e@ == "Source code is empty"@),
            has_content(source@) ==> exists|o: Result<Result<Vec<u8>, String>, CompileError>|
                #[trigger] pdf_result(o) == pdf_view(r),
    {
        if let Err(e) = Self::check_source(source) {
            return Err(e);
        }
        let files = Self::prepare_files(file_contents, image_cache, main_file, pkg_sources, pkg_binaries);
        let engine = engine_for(source, main_file, &files);
        let outcome = match compile_document(&engine) {
            Ok(document) => Ok(document_pdf(&document)),
            Err(error) => Err(compile_error_of(source, error)),
        };
        let ghost o = outcome;
        let r = Self::pdf_output(outcome);
        assert(pdf_result(o) == pdf_view(r));
        r
    }
}

} // verus!
