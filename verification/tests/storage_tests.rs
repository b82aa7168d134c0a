use typst_studio::client::{
    create_project_body, file_path, files_path, project_path, rename_body, server_error, ServerConfig,
};
use typst_studio::project::{format_project_id, FileContent};
use typst_studio::records::{file_from_record, file_record, json_object_text, read_file_record};
use typst_studio::server::{listed_files, project_dir, project_file_path, projects_root, server_project_id};
use typst_studio::storage::{
    count_project_files, decode_data_url, file_key, list_project_files, migrated_image, migrated_image_path,
    migration_files, project_keys, sort_strings, StorageBackend,
};

fn strings(v: &[&str]) -> Vec<String> {
    v.iter().map(|s| s.to_string()).collect()
}

#[test]
fn backend_labels_and_settings() {
    assert_eq!(StorageBackend::IndexedDb.label(), "Local (Browser)");
    assert_eq!(StorageBackend::ServerApi.label(), "Server");
    assert_eq!(StorageBackend::default(), StorageBackend::IndexedDb);
    assert_eq!(StorageBackend::from_setting(Some("server_api")), StorageBackend::ServerApi);
    assert_eq!(StorageBackend::from_setting(Some("anything")), StorageBackend::IndexedDb);
    assert_eq!(StorageBackend::from_setting(None), StorageBackend::IndexedDb);
    for b in [StorageBackend::IndexedDb, StorageBackend::ServerApi] {
        assert_eq!(StorageBackend::from_setting(Some(b.setting_value())), b);
    }
}

#[test]
fn database_keys_of_a_project() {
    assert_eq!(file_key("p1", "ch/a.typ"), "p1/ch/a.typ");
    let keys = strings(&["p1/b.typ", "p10/x.typ", "p1/a.typ", "p2/c.typ"]);
    assert_eq!(list_project_files(&keys, "p1"), strings(&["a.typ", "b.typ"]));
    assert_eq!(count_project_files(&keys, "p1"), 2);
    assert_eq!(project_keys(&keys, "p1"), strings(&["p1/b.typ", "p1/a.typ"]));
}

#[test]
fn strings_sort_by_code_point() {
    assert_eq!(sort_strings(strings(&["b", "B", "a", "ab", ""])), strings(&["", "B", "a", "ab", "b"]));
}

#[test]
fn data_urls_decode() {
    assert_eq!(decode_data_url("data:image/png;base64,AQID"), vec![1, 2, 3]);
    assert_eq!(decode_data_url("no comma"), Vec::<u8>::new());
    assert_eq!(decode_data_url("data:,not base64"), Vec::<u8>::new());
}

#[test]
fn migrated_images() {
    assert_eq!(migrated_image_path("7", ""), "images/7.png");
    assert_eq!(migrated_image_path("7", "fig.jpg"), "images/fig.jpg");
    assert_eq!(
        migrated_image("3", Some("a.png"), Some("data:image/png;base64,AQID")),
        Some(("images/a.png".to_string(), vec![1, 2, 3]))
    );
    assert_eq!(migrated_image("3", None, Some("data:,AA==")), Some(("images/3.png".to_string(), vec![0])));
    assert_eq!(migrated_image("3", Some("a.png"), None), None);
    assert_eq!(migrated_image("3", Some("a.png"), Some("data:,")), None);
}

#[test]
fn migration_of_nothing() {
    assert!(migration_files(None, None, &[]).is_none());
}

#[test]
fn migration_of_earlier_data() {
    let images = vec![
        ("1".to_string(), Some("a.png".to_string()), Some("data:,AQ==".to_string())),
        ("2".to_string(), None, None),
    ];
    let (texts, imgs) = migration_files(Some("= Old".to_string()), Some("k: v".to_string()), &images).unwrap();
    assert_eq!(
        texts,
        vec![("main.typ".to_string(), "= Old".to_string()), ("refs.yml".to_string(), "k: v".to_string())]
    );
    assert_eq!(imgs, vec![("images/a.png".to_string(), vec![1])]);
    let (texts, imgs) = migration_files(None, None, &images[1..]).unwrap();
    assert!(texts.is_empty());
    assert!(imgs.is_empty());
}

#[test]
fn project_ids() {
    assert_eq!(format_project_id(255, 10), "ff_00000a");
    assert_eq!(format_project_id(0x18f3a, 0x1234567), "18f3a_1234567");
    assert_eq!(server_project_id(16, 0xFFFFFF), "10_000000");
    assert_eq!(server_project_id(16, 0xFFFFFF + 5), "10_000005");
}

#[test]
fn text_file_record() {
    let r = file_record(&FileContent::Text("a \"q\"\n".to_string()));
    assert_eq!(r, "{\"content\":\"a \\\"q\\\"\\n\",\"type\":\"text\"}");
}

#[test]
fn binary_file_record() {
    let r = file_record(&FileContent::Binary(vec![1, 2, 3]));
    assert_eq!(r, "{\"content\":\"AQID\",\"type\":\"binary\"}");
}

#[test]
fn control_characters_in_records() {
    let r = file_record(&FileContent::Text("\u{1}\t\\".to_string()));
    assert_eq!(r, "{\"content\":\"\\u0001\\t\\\\\",\"type\":\"text\"}");
}

#[test]
fn records_read_back() {
    match file_from_record("a.typ", Some("text"), Some("= Hi")) {
        Ok(FileContent::Text(t)) => assert_eq!(t, "= Hi"),
        _ => panic!("expected text"),
    }
    match file_from_record("a.typ", Some("text"), None) {
        Ok(FileContent::Text(t)) => assert_eq!(t, ""),
        _ => panic!("expected text"),
    }
    match file_from_record("a.png", Some("binary"), Some("AQID")) {
        Ok(FileContent::Binary(b)) => assert_eq!(b, vec![1, 2, 3]),
        _ => panic!("expected bytes"),
    }
}

#[test]
fn record_errors() {
    match file_from_record("a.png", Some("binary"), Some("@@")) {
        Err(m) => assert!(m.starts_with("Base64 decode error: ")),
        Ok(_) => panic!("expected an error"),
    }
    match file_from_record("a.x", Some("folder"), Some("")) {
        Err(m) => assert_eq!(m, "Unknown file type for: a.x"),
        Ok(_) => panic!("expected an error"),
    }
    match file_from_record("a.x", None, None) {
        Err(m) => assert_eq!(m, "Unknown file type for: a.x"),
        Ok(_) => panic!("expected an error"),
    }
}

#[test]
fn server_paths() {
    assert_eq!(projects_root(), "data/projects");
    assert_eq!(project_dir("p1"), "data/projects/p1");
    assert_eq!(project_dir("/etc"), "/etc");
    assert_eq!(project_dir(""), "data/projects/");
    assert_eq!(project_file_path("p1", "ch/a.typ"), "data/projects/p1/ch/a.typ");
}

#[test]
fn server_lists_files_without_metadata() {
    assert_eq!(
        listed_files(&strings(&["main.typ", "project.json", "ch/project.json", "a.typ"])),
        strings(&["a.typ", "main.typ"])
    );
}

#[test]
fn client_configuration() {
    let c = ServerConfig::from_settings(None, Some(String::new()));
    assert_eq!(c.base_url, "http://localhost:3001/api");
    assert_eq!(c.auth_header(), None);
    let c = ServerConfig::from_settings(Some("https://s/api".to_string()), Some("tok".to_string()));
    assert_eq!(c.request_url("/projects"), "https://s/api/projects");
    assert_eq!(c.auth_header(), Some("Bearer tok".to_string()));
    let c = ServerConfig::from_settings(Some(String::new()), None);
    assert_eq!(c.base_url, "http://localhost:3001/api");
}

#[test]
fn client_paths_and_bodies() {
    assert_eq!(project_path("p1"), "/projects/p1");
    assert_eq!(files_path("p1"), "/projects/p1/files");
    assert_eq!(file_path("p1", "a.typ"), "/projects/p1/files/a.typ");
    assert_eq!(create_project_body("My \"P\""), "{\"name\":\"My \\\"P\\\"\"}");
    assert_eq!(rename_body("b.typ"), "{\"new_path\":\"b.typ\"}");
    assert_eq!(server_error(404, "missing"), "Server error 404: missing");
}

#[test]
fn stored_records_read_back() {
    let text = FileContent::Text("= \"Hi\"\n\tx\u{1}\u{e9}".to_string());
    match read_file_record("a.typ", &file_record(&text)) {
        Ok(FileContent::Text(t)) => assert_eq!(t, "= \"Hi\"\n\tx\u{1}\u{e9}"),
        _ => panic!("expected text"),
    }
    let bin = FileContent::Binary(vec![0, 1, 2, 255]);
    match read_file_record("a.png", &file_record(&bin)) {
        Ok(FileContent::Binary(b)) => assert_eq!(b, vec![0, 1, 2, 255]),
        _ => panic!("expected bytes"),
    }
}

#[test]
fn stored_record_errors() {
    match read_file_record("a.typ", "not json") {
        Err(m) => assert!(m.starts_with("Parse error: ")),
        Ok(_) => panic!("expected an error"),
    }
    match read_file_record("a.typ", "{\"type\":\"other\"}") {
        Err(m) => assert_eq!(m, "Unknown file type for: a.typ"),
        Ok(_) => panic!("expected an error"),
    }
    match read_file_record("a.typ", "{\"type\":\"text\"}") {
        Ok(FileContent::Text(t)) => assert_eq!(t, ""),
        _ => panic!("expected empty text"),
    }
}

#[test]
fn json_objects_of_strings() {
    assert_eq!(json_object_text(&[]), "{}");
    let pairs = vec![("a".to_string(), "x".to_string()), ("b\"".to_string(), "y\n".to_string())];
    assert_eq!(json_object_text(&pairs), "{\"a\":\"x\",\"b\\\"\":\"y\\n\"}");
}
