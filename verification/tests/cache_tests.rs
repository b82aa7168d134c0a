use typst_studio::cache::{
    files_from_record, package_record, package_record_json, parse_version, read_package_record, PackageCache,
};
use typst_studio::registry::PkgSpec;

fn pkg(ns: &str, name: &str, version: &str) -> PkgSpec {
    PkgSpec { namespace: ns.to_string(), name: name.to_string(), version: version.to_string() }
}

fn files(entries: &[(&str, &[u8])]) -> Vec<(String, Vec<u8>)> {
    entries.iter().map(|(p, b)| (p.to_string(), b.to_vec())).collect()
}

#[test]
fn version_numbers_from_text() {
    let v = parse_version("1.2.3");
    assert_eq!((v.major, v.minor, v.patch), (1, 2, 3));
}

#[test]
fn version_missing_parts_are_zero() {
    let v = parse_version("2");
    assert_eq!((v.major, v.minor, v.patch), (2, 0, 0));
}

#[test]
fn version_skips_pieces_that_are_no_number() {
    let v = parse_version("1.x.3.4");
    assert_eq!((v.major, v.minor, v.patch), (1, 3, 4));
}

#[test]
fn version_accepts_plus_sign_as_u32_parsing_does() {
    let v = parse_version("+1.0.7");
    assert_eq!((v.major, v.minor, v.patch), (1, 0, 7));
}

#[test]
fn version_out_of_range_piece_is_skipped() {
    let v = parse_version("4294967296.1");
    assert_eq!((v.major, v.minor, v.patch), (1, 0, 0));
}

#[test]
fn empty_cache_has_nothing() {
    let c = PackageCache::new();
    assert!(!c.has_package(&pkg("preview", "cetz", "0.2.2")));
    assert!(c.list_packages().is_empty());
}

#[test]
fn stored_package_is_had_and_listed() {
    let mut c = PackageCache::new();
    let p = pkg("preview", "cetz", "0.2.2");
    c.store_package(&p, files(&[("typst.toml", b"x")]));
    assert!(c.has_package(&p));
    let listed = c.list_packages();
    assert_eq!(listed.len(), 1);
    assert_eq!(listed[0].to_string(), "@preview/cetz:0.2.2");
}

#[test]
fn storing_again_replaces_the_files() {
    let mut c = PackageCache::new();
    let p = pkg("preview", "cetz", "0.2.2");
    c.store_package(&p, files(&[("a.typ", b"1")]));
    c.store_package(&p, files(&[("b.typ", b"2")]));
    assert_eq!(c.packages.len(), 1);
    assert_eq!(c.packages[0].1[0].0, "b.typ");
}

#[test]
fn removed_package_is_gone() {
    let mut c = PackageCache::new();
    let p = pkg("preview", "cetz", "0.2.2");
    let q = pkg("preview", "tablex", "0.0.8");
    c.store_package(&p, files(&[("typst.toml", b"x")]));
    c.store_package(&q, files(&[("typst.toml", b"y")]));
    c.remove_package(&p);
    assert!(!c.has_package(&p));
    assert!(c.has_package(&q));
}

#[test]
fn compiler_spec_of_registry_spec() {
    let s = PackageCache::make_typst_pkg_spec(&pkg("preview", "cetz", "0.2"));
    assert_eq!(s.namespace, "preview");
    assert_eq!(s.name, "cetz");
    assert_eq!((s.version.major, s.version.minor, s.version.patch), (0, 2, 0));
}

#[test]
fn sources_are_the_utf8_typ_files() {
    let mut c = PackageCache::new();
    c.store_package(
        &pkg("preview", "cetz", "0.2.2"),
        files(&[("lib.typ", b"#let a = 1"), ("bad.typ", &[0xff, 0xfe]), ("logo.png", &[1, 2, 3])]),
    );
    let sources = c.get_all_sources();
    assert_eq!(sources.len(), 1);
    assert_eq!(sources[0].1, "lib.typ");
    assert_eq!(sources[0].2, "#let a = 1");
    assert_eq!((sources[0].0.version.major, sources[0].0.version.minor, sources[0].0.version.patch), (0, 2, 2));
}

#[test]
fn binaries_are_the_other_files() {
    let mut c = PackageCache::new();
    c.store_package(
        &pkg("preview", "cetz", "0.2.2"),
        files(&[("lib.typ", b"#let a = 1"), ("logo.png", &[1, 2, 3])]),
    );
    let binaries = c.get_all_binaries();
    assert_eq!(binaries.len(), 1);
    assert_eq!(binaries[0].1, "logo.png");
    assert_eq!(binaries[0].2, vec![1, 2, 3]);
}

#[test]
fn cache_keys_that_are_no_spec_give_no_files() {
    let mut c = PackageCache::new();
    c.packages.push(("not a spec".to_string(), files(&[("lib.typ", b"x")])));
    assert!(c.get_all_sources().is_empty());
    assert!(c.list_packages().is_empty());
}

#[test]
fn package_record_holds_base64() {
    let record = package_record(&files(&[("typst.toml", b"hi")]));
    assert_eq!(record, vec![("typst.toml".to_string(), "aGk=".to_string())]);
}

#[test]
fn package_record_reads_back() {
    let original = files(&[("typst.toml", b"[package]"), ("lib.typ", b"#let x = 1"), ("img.png", &[0, 255, 7])]);
    let back = files_from_record(&package_record(&original)).unwrap();
    assert_eq!(back, original);
}

#[test]
fn record_without_manifest_is_stale() {
    let record = vec![("lib.typ".to_string(), "eA==".to_string())];
    assert!(files_from_record(&record).is_none());
}

#[test]
fn record_entries_that_are_no_base64_are_dropped() {
    let record = vec![
        ("typst.toml".to_string(), "eA==".to_string()),
        ("bad".to_string(), "not base64!".to_string()),
    ];
    let f = files_from_record(&record).unwrap();
    assert_eq!(f, vec![("typst.toml".to_string(), b"x".to_vec())]);
}

#[test]
fn loading_records_keeps_packages_and_reports_stale_keys() {
    let mut c = PackageCache::new();
    c.store_package(&pkg("old", "gone", "1.0.0"), files(&[("typst.toml", b"x")]));
    let records = vec![
        ("@preview/cetz:0.2.2".to_string(), vec![("typst.toml".to_string(), "eA==".to_string())]),
        ("@preview/stale:0.1.0".to_string(), vec![("lib.typ".to_string(), "eA==".to_string())]),
    ];
    let stale = c.load_records(&records);
    assert_eq!(stale, vec!["@preview/stale:0.1.0".to_string()]);
    assert!(c.has_package(&pkg("preview", "cetz", "0.2.2")));
    assert!(!c.has_package(&pkg("old", "gone", "1.0.0")));
    assert_eq!(c.packages.len(), 1);
}

#[test]
fn stored_packages_load_from_json() {
    let json = package_record_json(&files(&[("typst.toml", b"x"), ("lib.typ", b"y")]));
    assert_eq!(json, "{\"typst.toml\":\"eA==\",\"lib.typ\":\"eQ==\"}");
    let stored = vec![
        ("@preview/cetz:0.2.2".to_string(), json),
        ("@preview/bad:0.1.0".to_string(), "not json".to_string()),
        ("@preview/stale:0.1.0".to_string(), "{\"lib.typ\":\"eA==\"}".to_string()),
    ];
    let mut c = PackageCache::new();
    let stale = c.load_stored(&stored);
    assert_eq!(stale, vec!["@preview/stale:0.1.0".to_string()]);
    assert!(c.has_package(&pkg("preview", "cetz", "0.2.2")));
    assert_eq!(c.file_count(&pkg("preview", "cetz", "0.2.2")), 2);
    assert_eq!(c.packages.len(), 1);
}

#[test]
fn package_records_read_back() {
    let fs = files(&[("typst.toml", b"[package]"), ("lib.typ", b"#let x = 1"), ("img.png", &[0, 255])]);
    let json = package_record_json(&fs);
    let mut back = read_package_record(&json).expect("a package");
    back.sort();
    let mut want = fs.clone();
    want.sort();
    assert_eq!(back, want);
    assert_eq!(read_package_record("not json"), None);
    assert_eq!(read_package_record("{\"lib.typ\":\"eA==\"}"), None);
}
