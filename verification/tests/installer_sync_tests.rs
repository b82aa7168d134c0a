use typst_studio::cache::PackageCache;
use typst_studio::installer::{
    auto_install_succeeded, file_count_label, install_request, install_status, installer_heading, is_error_status,
    package_detail, package_title, packages_to_install, trim_text, InstallRequest, InstallRun, InstallStep,
};
use typst_studio::registry::PkgSpec;
use typst_studio::sync::{
    consent_url, drive_auth_header, drive_file_url, drive_status_error, redirect_origin, DriveCall, drive_list_url, drive_update_url, entry_action, export_location, folder_metadata,
    folder_query, fragment_access_token, upload_body, upload_content_type, EntryAction, SyncStatus,
};

fn pkg(ns: &str, name: &str, version: &str) -> PkgSpec {
    PkgSpec { namespace: ns.to_string(), name: name.to_string(), version: version.to_string() }
}

fn strings(v: &[&str]) -> Vec<String> {
    v.iter().map(|s| s.to_string()).collect()
}

fn cache_with(p: &PkgSpec) -> PackageCache {
    let mut c = PackageCache::new();
    c.store_package(p, vec![("typst.toml".to_string(), b"x".to_vec())]);
    c
}

#[test]
fn trimming_white_space() {
    let t: String = trim_text("  @preview/a:1 \n").into_iter().collect();
    assert_eq!(t, "@preview/a:1");
    assert!(trim_text(" \t ").is_empty());
}

#[test]
fn package_manager_requests() {
    let cache = cache_with(&pkg("preview", "cetz", "0.2.2"));
    assert!(matches!(install_request("   ", &cache), InstallRequest::Nothing));
    assert!(matches!(install_request("cetz", &cache), InstallRequest::Invalid));
    match install_request(" @preview/cetz:0.2.2 ", &cache) {
        InstallRequest::Installed(p) => assert_eq!(p.to_string(), "@preview/cetz:0.2.2"),
        _ => panic!("expected installed"),
    }
    match install_request("@preview/tablex:0.0.8", &cache) {
        InstallRequest::Download(p) => assert_eq!(p.to_string(), "@preview/tablex:0.0.8"),
        _ => panic!("expected a download"),
    }
}

#[test]
fn package_manager_status_lines() {
    assert_eq!(InstallRequest::Nothing.status(), None);
    assert_eq!(InstallRequest::Invalid.status(), Some("Invalid format. Use @namespace/name:version".to_string()));
    assert_eq!(
        InstallRequest::Installed(pkg("preview", "a", "1")).status(),
        Some("@preview/a:1 is already installed".to_string())
    );
    assert_eq!(InstallRequest::Download(pkg("preview", "a", "1")).status(), Some("Downloading @preview/a:1...".to_string()));
    let p = pkg("preview", "a", "1");
    assert_eq!(install_status(&p, &Ok((12, Ok(())))), "Installed @preview/a:1 (12 files)");
    assert_eq!(install_status(&p, &Ok((12, Err("full".to_string())))), "Cache error: full");
    assert_eq!(install_status(&p, &Err("HTTP 404".to_string())), "Download failed: HTTP 404");
}

#[test]
fn error_status_lines() {
    assert!(is_error_status("Download failed: x"));
    assert!(is_error_status("Cache error: x"));
    assert!(is_error_status("Invalid format. Use @namespace/name:version"));
    assert!(!is_error_status("Installed @preview/a:1 (3 files)"));
}

#[test]
fn installer_heading_counts() {
    assert_eq!(installer_heading(1), "1 missing package");
    assert_eq!(installer_heading(3), "3 missing packages");
}

#[test]
fn installer_with_nothing_to_do() {
    let run = InstallRun::start(vec![]);
    assert!(run.done);
    assert_eq!(run.log, strings(&["Starting installation of 0 packages...", "No packages to install"]));
}

#[test]
fn installer_runs_through_packages() {
    let cache = cache_with(&pkg("preview", "cetz", "0.2.2"));
    let mut run = InstallRun::start(strings(&["bogus", "@preview/cetz:0.2.2", "@preview/tablex:0.0.8"]));
    assert_eq!(run.log, strings(&["Starting installation of 3 packages..."]));
    assert!(matches!(run.advance(&cache), InstallStep::Skipped));
    assert_eq!(run.progress, 33);
    assert!(matches!(run.advance(&cache), InstallStep::AlreadyInstalled));
    assert_eq!(run.progress, 66);
    let spec = match run.advance(&cache) {
        InstallStep::Download(s) => s,
        _ => panic!("expected a download"),
    };
    let names = strings(&["a", "b", "c", "d", "e", "f", "g"]);
    run.record_download(&spec, Ok((names, Ok(()))));
    assert_eq!(run.progress, 100);
    assert!(matches!(run.advance(&cache), InstallStep::Finished));
    assert!(run.done);
    assert_eq!(run.installed, 2);
    assert_eq!(
        run.log,
        strings(&[
            "Starting installation of 3 packages...",
            "Skipping invalid spec: bogus",
            "[2/3] @preview/cetz:0.2.2 already installed",
            "[3/3] Downloading @preview/tablex:0.0.8...",
            "  URL: https://packages.typst.org/preview/tablex-0.0.8.tar.gz",
            "  Extracted 7 files",
            "    a",
            "    b",
            "    c",
            "    d",
            "    e",
            "    ... and 2 more",
            "  Cached @preview/tablex:0.0.8 successfully",
            "Done. 2/3 packages installed.",
        ])
    );
}

#[test]
fn installer_reports_blocked_download() {
    let cache = PackageCache::new();
    let mut run = InstallRun::start(strings(&["@preview/a:1.0.0"]));
    let spec = match run.advance(&cache) {
        InstallStep::Download(s) => s,
        _ => panic!("expected a download"),
    };
    run.record_download(&spec, Err("Fetch error: TypeError".to_string()));
    assert!(matches!(run.advance(&cache), InstallStep::Finished));
    assert_eq!(run.installed, 0);
    let tail: Vec<String> = run.log[3..].to_vec();
    assert_eq!(
        tail,
        strings(&[
            "  FAILED: Fetch error: TypeError",
            "  This is likely a CORS error. The Typst package registry may not allow browser downloads.",
            "  Workaround: download packages manually and add them via the Package Manager.",
            "Done. 0/1 packages installed.",
        ])
    );
}

#[test]
fn installer_all_installed_summary() {
    let cache = cache_with(&pkg("preview", "a", "1.0.0"));
    let mut run = InstallRun::start(strings(&["@preview/a:1.0.0"]));
    assert!(matches!(run.advance(&cache), InstallStep::AlreadyInstalled));
    assert!(matches!(run.advance(&cache), InstallStep::Finished));
    assert_eq!(run.log.last().unwrap(), "All 1 packages installed successfully!");
}

#[test]
fn automatic_installation_skips_cached_packages() {
    let cache = cache_with(&pkg("preview", "cetz", "0.2.2"));
    let todo = packages_to_install("missing @preview/cetz:0.2.2 and @preview/tablex:0.0.8", &cache);
    assert_eq!(todo.len(), 1);
    assert_eq!(todo[0].to_string(), "@preview/tablex:0.0.8");
}

#[test]
fn sync_status_compares() {
    assert_eq!(SyncStatus::Synced, SyncStatus::Synced);
    assert_ne!(SyncStatus::Conflict, SyncStatus::Syncing);
    assert_ne!(SyncStatus::ModifiedLocally, SyncStatus::ModifiedRemotely);
}

#[test]
fn directory_entries_on_import() {
    match entry_action("", "main.typ", "file") {
        EntryAction::ReadText(p) => assert_eq!(p, "main.typ"),
        _ => panic!("expected text"),
    }
    match entry_action("ch", "fig.png", "file") {
        EntryAction::ReadBinary(p) => assert_eq!(p, "ch/fig.png"),
        _ => panic!("expected bytes"),
    }
    match entry_action("ch", "sub", "directory") {
        EntryAction::Descend(p) => assert_eq!(p, "ch/sub"),
        _ => panic!("expected a directory"),
    }
    assert!(matches!(entry_action("", ".git", "directory"), EntryAction::Skip));
    assert!(matches!(entry_action("", "x", "symlink"), EntryAction::Skip));
}

#[test]
fn export_locations() {
    assert_eq!(export_location("a/b/c.typ"), (strings(&["a", "b"]), "c.typ".to_string()));
    assert_eq!(export_location("main.typ"), (vec![], "main.typ".to_string()));
}

#[test]
fn access_token_in_fragment() {
    assert_eq!(
        fragment_access_token("#access_token=abc&token_type=Bearer&expires_in=3599"),
        Some("abc".to_string())
    );
    assert_eq!(fragment_access_token("##access_token=a=b"), Some("a=b".to_string()));
    assert_eq!(fragment_access_token("#access_token=1&access_token=2"), Some("2".to_string()));
    assert_eq!(fragment_access_token("#state=x"), None);
    assert_eq!(fragment_access_token("#my_access_token=1"), None);
}

#[test]
fn drive_requests() {
    assert_eq!(folder_query("root"), "'root' in parents and trashed = false");
    assert_eq!(
        drive_list_url("q1"),
        "https://www.googleapis.com/drive/v3/files?q=q1&fields=files(id,name,mimeType,modifiedTime,size)&pageSize=100"
    );
    assert_eq!(drive_file_url("f1", true), "https://www.googleapis.com/drive/v3/files/f1?alt=media");
    assert_eq!(drive_file_url("f1", false), "https://www.googleapis.com/drive/v3/files/f1");
    assert_eq!(drive_update_url("f1"), "https://www.googleapis.com/upload/drive/v3/files/f1?uploadType=media");
    assert_eq!(
        consent_url("cid", "r", "s"),
        "https://accounts.google.com/o/oauth2/v2/auth?client_id=cid&redirect_uri=r&response_type=token&scope=s&prompt=consent"
    );
    assert_eq!(
        folder_metadata("Notes", "root"),
        "{\"mimeType\":\"application/vnd.google-apps.folder\",\"name\":\"Notes\",\"parents\":[\"root\"]}"
    );
    assert_eq!(upload_content_type(), "multipart/related; boundary=typst_studio_boundary");
}

#[test]
fn drive_upload_body() {
    let body = upload_body("a.typ", "f", b"DATA", "text/plain");
    let expected = "--typst_studio_boundary\r\nContent-Type: application/json; charset=UTF-8\r\n\r\n{\"name\":\"a.typ\",\"parents\":[\"f\"]}\r\n--typst_studio_boundary\r\nContent-Type: text/plain\r\n\r\nDATA\r\n--typst_studio_boundary--";
    assert_eq!(body, expected.as_bytes().to_vec());
}

#[test]
fn installed_package_lines() {
    let p = pkg("preview", "cetz", "0.3.0");
    let mut c = PackageCache::new();
    c.store_package(
        &p,
        vec![("typst.toml".to_string(), b"x".to_vec()), ("lib.typ".to_string(), b"y".to_vec())],
    );
    assert_eq!(c.file_count(&p), 2);
    assert_eq!(package_title(&p), "preview/cetz");
    assert_eq!(package_detail(&p, &c), "v0.3.0 - 2 files");
    let other = pkg("preview", "tablex", "0.0.8");
    assert_eq!(c.file_count(&other), 0);
    assert_eq!(package_detail(&other, &c), "v0.0.8 - 0 files");
}

#[test]
fn project_file_count_lines() {
    assert_eq!(file_count_label(0), "0 files");
    assert_eq!(file_count_label(12), "12 files");
}

#[test]
fn drive_request_messages() {
    assert_eq!(drive_status_error(DriveCall::Api, 401), "Drive API error: 401");
    assert_eq!(drive_status_error(DriveCall::Upload, 500), "Upload error: 500");
    assert_eq!(drive_status_error(DriveCall::Update, 404), "Update error: 404");
    assert_eq!(drive_status_error(DriveCall::Delete, 403), "Delete error: 403");
    assert_eq!(drive_status_error(DriveCall::CreateFolder, 400), "Create folder error: 400");
    assert_eq!(drive_auth_header("tok"), "Bearer tok");
}

#[test]
fn sign_in_comes_back_to_the_origin() {
    assert_eq!(redirect_origin(Some("https://studio.example")), "https://studio.example");
    assert_eq!(redirect_origin(None), "http://localhost:1420");
}

#[test]
fn automatic_installation_result() {
    assert!(!auto_install_succeeded(&[]));
    assert!(!auto_install_succeeded(&[Err("HTTP 404".to_string()), Ok(Err("quota".to_string()))]));
    assert!(auto_install_succeeded(&[Err("HTTP 404".to_string()), Ok(Ok(()))]));
}
