use typst_studio::registry::{download_error, http_error, extract_missing_packages, holds_spec, parse_tar, same_spec, PkgSpec};

fn spec(ns: &str, name: &str, version: &str) -> PkgSpec {
    PkgSpec { namespace: ns.to_string(), name: name.to_string(), version: version.to_string() }
}

fn tar_header(name: &[u8], size_field: &[u8], kind: u8) -> Vec<u8> {
    let mut h = vec![0u8; 512];
    h[..name.len()].copy_from_slice(name);
    h[124..124 + size_field.len()].copy_from_slice(size_field);
    h[156] = kind;
    h
}

fn tar_entry(name: &str, data: &[u8], kind: u8) -> Vec<u8> {
    let size = format!("{:011o}", data.len());
    let mut out = tar_header(name.as_bytes(), size.as_bytes(), kind);
    let mut body = data.to_vec();
    while body.len() % 512 != 0 {
        body.push(0);
    }
    out.extend_from_slice(&body);
    out
}

#[test]
fn parse_spec_with_leading_at() {
    let p = PkgSpec::parse("@preview/cetz:0.2.2").unwrap();
    assert_eq!(p.namespace, "preview");
    assert_eq!(p.name, "cetz");
    assert_eq!(p.version, "0.2.2");
}

#[test]
fn parse_spec_without_leading_at() {
    let p = PkgSpec::parse("preview/tablex:0.0.8").unwrap();
    assert_eq!(p.namespace, "preview");
    assert_eq!(p.name, "tablex");
    assert_eq!(p.version, "0.0.8");
}

#[test]
fn parse_spec_drops_every_leading_at() {
    let p = PkgSpec::parse("@@local/mine:1.0.0").unwrap();
    assert_eq!(p.namespace, "local");
}

#[test]
fn parse_spec_splits_at_first_colon_and_slash() {
    let p = PkgSpec::parse("@a/b/c:1:2").unwrap();
    assert_eq!(p.namespace, "a");
    assert_eq!(p.name, "b/c");
    assert_eq!(p.version, "1:2");
}

#[test]
fn parse_spec_needs_a_version() {
    assert!(PkgSpec::parse("@preview/cetz").is_none());
}

#[test]
fn parse_spec_needs_a_namespace() {
    assert!(PkgSpec::parse("@cetz:0.2.2").is_none());
}

#[test]
fn spec_text_and_url() {
    let p = spec("preview", "cetz", "0.2.2");
    assert_eq!(p.to_string(), "@preview/cetz:0.2.2");
    assert_eq!(p.tar_url(), "https://packages.typst.org/preview/cetz-0.2.2.tar.gz");
}

#[test]
fn spec_text_parses_back() {
    let p = spec("preview", "fletcher", "0.5.1");
    let q = PkgSpec::parse(&p.to_string()).unwrap();
    assert!(same_spec(&p, &q));
}

#[test]
fn spec_duplicate_is_equal() {
    let p = spec("preview", "cetz", "0.2.2");
    assert!(same_spec(&p, &p.duplicate()));
    assert!(!same_spec(&p, &spec("preview", "cetz", "0.2.1")));
}

#[test]
fn holds_spec_finds_equal_parts() {
    let list = vec![spec("preview", "a", "1.0.0"), spec("preview", "b", "2.0.0")];
    assert!(holds_spec(&list, &spec("preview", "b", "2.0.0")));
    assert!(!holds_spec(&list, &spec("preview", "c", "2.0.0")));
}

#[test]
fn missing_packages_from_compile_error() {
    let found = extract_missing_packages("error: package not found (searched for @preview/cetz:0.2.2)");
    assert_eq!(found.len(), 1);
    assert_eq!(found[0].to_string(), "@preview/cetz:0.2.2");
}

#[test]
fn missing_packages_trim_quotes_and_are_listed_once() {
    let found = extract_missing_packages("`@preview/cetz:0.2.2`, and \"@preview/cetz:0.2.2\" and '@local/x:1.0'");
    assert_eq!(found.len(), 2);
    assert_eq!(found[0].to_string(), "@preview/cetz:0.2.2");
    assert_eq!(found[1].to_string(), "@local/x:1.0");
}

#[test]
fn missing_packages_need_at_slash_and_colon() {
    assert!(extract_missing_packages("preview/cetz:0.2.2 @preview:1 @preview/cetz").is_empty());
}

#[test]
fn tar_reads_regular_files() {
    let mut data = tar_entry("pkg/typst.toml", b"[package]\n", b'0');
    data.extend(tar_entry("pkg/lib.typ", b"#let x = 1", 0));
    data.extend(vec![0u8; 1024]);
    let files = parse_tar(&data).unwrap();
    assert_eq!(files.len(), 2);
    assert_eq!(files[0].0, "pkg/typst.toml");
    assert_eq!(files[0].1, b"[package]\n".to_vec());
    assert_eq!(files[1].0, "pkg/lib.typ");
    assert_eq!(files[1].1, b"#let x = 1".to_vec());
}

#[test]
fn tar_strips_leading_dot_slash() {
    let data = tar_entry("./lib.typ", b"abc", b'0');
    let files = parse_tar(&data).unwrap();
    assert_eq!(files[0].0, "lib.typ");
}

#[test]
fn tar_skips_directories_and_empty_files() {
    let mut data = tar_entry("pkg/", b"", b'5');
    data.extend(tar_entry("pkg/empty.typ", b"", b'0'));
    data.extend(tar_entry("pkg/link", b"x", b'2'));
    data.extend(tar_entry("pkg/a.typ", b"x", b'0'));
    let files = parse_tar(&data).unwrap();
    assert_eq!(files.len(), 1);
    assert_eq!(files[0].0, "pkg/a.typ");
}

#[test]
fn tar_later_copy_of_a_path_wins() {
    let mut data = tar_entry("a.typ", b"old", b'0');
    data.extend(tar_entry("a.typ", b"new", b'0'));
    let files = parse_tar(&data).unwrap();
    assert_eq!(files.len(), 1);
    assert_eq!(files[0].1, b"new".to_vec());
}

#[test]
fn tar_uses_ustar_prefix() {
    let mut data = tar_entry("lib.typ", b"abc", b'0');
    data[345..348].copy_from_slice(b"pkg");
    let files = parse_tar(&data).unwrap();
    assert_eq!(files[0].0, "pkg/lib.typ");
}

#[test]
fn tar_rejects_name_that_is_not_utf8() {
    let data = tar_header(&[0xff, 0xfe], b"00000000001", b'0');
    assert_eq!(parse_tar(&data), Err("Invalid filename".to_string()));
}

#[test]
fn tar_rejects_size_that_is_not_utf8() {
    let data = tar_header(b"a.typ", &[0xff], b'0');
    assert_eq!(parse_tar(&data), Err("Invalid size".to_string()));
}

#[test]
fn tar_entry_running_past_the_end_is_skipped() {
    let mut data = tar_header(b"a.typ", b"00000001000", b'0');
    data.extend(vec![1u8; 10]);
    assert_eq!(parse_tar(&data).unwrap().len(), 0);
}

#[test]
fn tar_of_nothing_is_empty() {
    assert_eq!(parse_tar(&[]).unwrap().len(), 0);
    assert_eq!(parse_tar(&[0u8; 100]).unwrap().len(), 0);
}

#[test]
fn download_failure_messages() {
    assert_eq!(http_error(404), "HTTP 404: package not found");
    assert_eq!(
        download_error("HTTP 404: package not found"),
        "Download failed: HTTP 404: package not found. The Typst package registry may block browser requests (CORS). Try pre-downloading packages."
    );
}
