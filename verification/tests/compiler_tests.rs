use typst_studio::cache::{PackageSpec, PackageVersion};
use typst_studio::compiler::{
    compile_response, decode_pkg_binaries, decode_pkg_sources, parse_failure_response, serialize_pkg_binaries,
    serialize_pkg_sources, version_string, worker_urls, CompileError, Diagnostic, Severity, TypstCompiler,
};

fn pairs(v: &[(&str, &str)]) -> Vec<(String, String)> {
    v.iter().map(|(a, b)| (a.to_string(), b.to_string())).collect()
}

fn typst_spec(name: &str, major: u32, minor: u32, patch: u32) -> PackageSpec {
    PackageSpec {
        namespace: "preview".to_string(),
        name: name.to_string(),
        version: PackageVersion { major, minor, patch },
    }
}

fn strings(v: &[&str]) -> Vec<String> {
    v.iter().map(|s| s.to_string()).collect()
}

#[test]
fn compiler_is_made() {
    assert!(TypstCompiler::new().is_ok());
}

#[test]
fn blank_source_is_refused() {
    assert_eq!(TypstCompiler::check_source(" \n\t "), Err("Source code is empty".to_string()));
    assert_eq!(TypstCompiler::check_source(""), Err("Source code is empty".to_string()));
    assert_eq!(TypstCompiler::check_source("  = Title"), Ok(()));
}

#[test]
fn prepared_files_split_sources_binaries_and_images() {
    let fc = pairs(&[("main.typ", "= Main"), ("chap.typ", "= Chap"), ("refs.yml", "a: b")]);
    let ic = pairs(&[("img.png", "data:application/octet-stream;base64,AQID"), ("raw.png", "AAE="), ("bad.png", "data:,%%")]);
    let p = TypstCompiler::prepare_files(&fc, &ic, "main.typ", &[], &[]);
    assert_eq!(p.sources, pairs(&[("chap.typ", "= Chap")]));
    assert_eq!(
        p.binaries,
        vec![
            ("refs.yml".to_string(), b"a: b".to_vec()),
            ("img.png".to_string(), vec![1, 2, 3]),
            ("raw.png".to_string(), vec![0, 1]),
        ]
    );
}

#[test]
fn preview_wraps_each_page() {
    let svg = TypstCompiler::assemble_svg(&strings(&["<svg>1</svg>", "<svg>2</svg>"]));
    assert_eq!(
        svg,
        "<div><svg>1</svg></div><div style=\"margin-top:10px;border-top:1px solid #ccc;padding-top:10px;\"><svg>2</svg></div>"
    );
    assert_eq!(TypstCompiler::assemble_svg(&[]), "");
}

#[test]
fn errors_are_listed_one_per_line() {
    let err = CompileError::Diagnostics(vec![
        Diagnostic {
            location: Some((0, 4)),
            severity: Severity::Error,
            message: "unknown variable: x".to_string(),
            hints: strings(&["if you meant to display text, write it without #"]),
        },
        Diagnostic { location: None, severity: Severity::Warning, message: "unused".to_string(), hints: vec![] },
    ]);
    assert_eq!(
        TypstCompiler::format_errors(&err),
        "1:5 error: unknown variable: x\n  hint: if you meant to display text, write it without #\nwarning: unused"
    );
}

#[test]
fn other_error_is_its_text() {
    assert_eq!(TypstCompiler::format_errors(&CompileError::Other("boom".to_string())), "boom");
}

#[test]
fn svg_output_of_pages_and_of_failure() {
    assert_eq!(TypstCompiler::svg_output(Ok(strings(&["<svg/>"]))), Ok("<div><svg/></div>".to_string()));
    assert_eq!(
        TypstCompiler::svg_output(Err(CompileError::Other("bad".to_string()))),
        Err("bad".to_string())
    );
}

#[test]
fn pdf_output_reports_export_failure() {
    assert_eq!(TypstCompiler::pdf_output(Ok(Ok(vec![37, 80]))), Ok(vec![37, 80]));
    assert_eq!(TypstCompiler::pdf_output(Ok(Err("font".to_string()))), Err("PDF error: font".to_string()));
    assert_eq!(
        TypstCompiler::pdf_output(Err(CompileError::Other("x".to_string()))),
        Err("x".to_string())
    );
}

#[test]
fn both_output_gives_preview_and_pdf() {
    assert_eq!(
        TypstCompiler::both_output(Ok((strings(&["<svg/>"]), Ok(vec![1])))),
        Ok(("<div><svg/></div>".to_string(), vec![1]))
    );
    assert_eq!(
        TypstCompiler::both_output(Ok((strings(&["<svg/>"]), Err("e".to_string())))),
        Err("PDF error: e".to_string())
    );
}

#[test]
fn one_compilation_gives_the_same_outputs() {
    let pages = strings(&["<svg>1</svg>", "<svg>2</svg>"]);
    let (svg, pdf) = TypstCompiler::both_output(Ok((pages.clone(), Ok(vec![7, 8])))).unwrap();
    assert_eq!(TypstCompiler::svg_output(Ok(pages)), Ok(svg));
    assert_eq!(TypstCompiler::pdf_output(Ok(Ok(vec![7, 8]))), Ok(pdf));
}

#[test]
fn version_text_of_compiler_version() {
    assert_eq!(version_string(PackageVersion { major: 0, minor: 12, patch: 3 }), "0.12.3");
}

#[test]
fn package_sources_travel_to_the_worker_and_back() {
    let sources = vec![(typst_spec("cetz", 0, 2, 2), "lib.typ".to_string(), "#let a = 1".to_string())];
    let entries = serialize_pkg_sources(&sources);
    assert_eq!(
        entries,
        vec![(
            "preview".to_string(),
            "cetz".to_string(),
            "0.2.2".to_string(),
            "lib.typ".to_string(),
            "#let a = 1".to_string()
        )]
    );
    let back = decode_pkg_sources(&entries);
    assert_eq!(back.len(), 1);
    assert_eq!(back[0].0.name, "cetz");
    assert_eq!(back[0].0.version, PackageVersion { major: 0, minor: 2, patch: 2 });
    assert_eq!(back[0].1, "lib.typ");
    assert_eq!(back[0].2, "#let a = 1");
}

#[test]
fn package_binaries_travel_in_base64() {
    let binaries = vec![(typst_spec("logo", 1, 0, 0), "logo.png".to_string(), vec![0u8, 1, 2, 255])];
    let entries = serialize_pkg_binaries(&binaries);
    assert_eq!(entries[0].2, "1.0.0");
    assert_eq!(entries[0].4, "AAEC/w==");
    let back = decode_pkg_binaries(&entries);
    assert_eq!(back.len(), 1);
    assert_eq!(back[0].2, vec![0u8, 1, 2, 255]);
}

#[test]
fn package_binaries_that_are_no_base64_are_dropped() {
    let entries = vec![(
        "preview".to_string(),
        "x".to_string(),
        "1.0.0".to_string(),
        "a.png".to_string(),
        "***".to_string(),
    )];
    assert!(decode_pkg_binaries(&entries).is_empty());
}

#[test]
fn worker_urls_from_module_preload() {
    let r = worker_urls(&strings(&["/wasm-typst-studio-rs-abc.js"]), &[], "http://localhost:8080");
    assert_eq!(
        r,
        Some((
            "http://localhost:8080/wasm-typst-studio-rs-abc.js".to_string(),
            "http://localhost:8080/wasm-typst-studio-rs-abc_bg.wasm".to_string()
        ))
    );
}

#[test]
fn worker_urls_from_binary_preload() {
    let r = worker_urls(&strings(&["/other.js"]), &strings(&["wasm-typst-studio-x_bg.wasm"]), "https://a.b");
    assert_eq!(
        r,
        Some(("https://a.b/wasm-typst-studio-x.js".to_string(), "https://a.b/wasm-typst-studio-x_bg.wasm".to_string()))
    );
}

#[test]
fn worker_urls_keep_absolute_address() {
    let r = worker_urls(&strings(&["https://cdn.x/wasm-typst-studio.js"]), &[], "http://o");
    assert_eq!(
        r,
        Some(("https://cdn.x/wasm-typst-studio.js".to_string(), "https://cdn.x/wasm-typst-studio_bg.wasm".to_string()))
    );
}

#[test]
fn worker_urls_without_application_script() {
    assert_eq!(worker_urls(&strings(&["/app.js"]), &strings(&["/app_bg.wasm"]), "http://o"), None);
}

#[test]
fn response_of_successful_compilation() {
    let r = compile_response(7, Ok(("<svg/>".to_string(), b"%PDF".to_vec())));
    assert_eq!(r.id, 7);
    assert_eq!(r.svg, Some("<svg/>".to_string()));
    assert_eq!(r.pdf_base64, Some("JVBERg==".to_string()));
    assert_eq!(r.error, None);
}

#[test]
fn response_of_failed_compilation() {
    let r = compile_response(3, Err("oops".to_string()));
    assert_eq!(r.id, 3);
    assert_eq!(r.svg, None);
    assert_eq!(r.pdf_base64, None);
    assert_eq!(r.error, Some("oops".to_string()));
}

#[test]
fn response_to_unreadable_request() {
    let r = parse_failure_response("EOF while parsing");
    assert_eq!(r.id, 0);
    assert_eq!(r.error, Some("Failed to parse request: EOF while parsing".to_string()));
}

#[test]
fn blank_source_is_not_compiled() {
    let c = TypstCompiler::new().unwrap();
    assert_eq!(c.compile_to_both(" \n\t", "main.typ", &[], &[], &[], &[]), Err("Source code is empty".to_string()));
    assert_eq!(c.compile_to_svg("", "main.typ", &[], &[], &[], &[]), Err("Source code is empty".to_string()));
    assert_eq!(c.compile_to_pdf("  ", "main.typ", &[], &[], &[], &[]), Err("Source code is empty".to_string()));
}

#[test]
fn a_document_compiles_to_preview_and_pdf() {
    let c = TypstCompiler::new().unwrap();
    let files = vec![("chapter.typ".to_string(), "Chapter text".to_string())];
    let (svg, pdf) = c
        .compile_to_both("= Title\n#include \"chapter.typ\"", "main.typ", &files, &[], &[], &[])
        .expect("compiles");
    assert!(svg.starts_with("<div><svg"));
    assert!(pdf.starts_with(b"%PDF"));
}

#[test]
fn a_broken_document_reports_its_error() {
    let c = TypstCompiler::new().unwrap();
    match c.compile_to_svg("#include \"missing.typ\"", "main.typ", &[], &[], &[], &[]) {
        Err(m) => assert!(m.contains("error")),
        Ok(_) => panic!("expected an error"),
    }
}
