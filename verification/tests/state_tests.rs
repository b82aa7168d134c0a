use typst_studio::project::FileContent;
use typst_studio::state::{load_bool_setting, load_font_size, stored_setting, AppState, HomeTab, OpenProject, ThemeMode};

fn state() -> AppState {
    AppState::new(None, None, None)
}

fn strings(v: &[&str]) -> Vec<String> {
    v.iter().map(|s| s.to_string()).collect()
}

fn project(id: &str, main: &str) -> OpenProject {
    OpenProject { id: id.to_string(), name: "Notes".to_string(), main_file: main.to_string() }
}

fn text_of(s: &AppState, path: &str) -> Option<String> {
    s.file_contents.iter().find(|(p, _)| p == path).map(|(_, t)| t.clone())
}

#[test]
fn new_state_defaults() {
    let s = state();
    assert!(s.autosave_enabled);
    assert_eq!(s.theme_mode, ThemeMode::System);
    assert_eq!(s.editor_font_size, 14);
    assert_eq!(s.home_tab, HomeTab::Projects);
    assert!(s.open_files.is_empty());
    assert_eq!(s.active_file, None);
}

#[test]
fn new_state_reads_saved_settings() {
    let s = AppState::new(Some("false".to_string()), Some("light".to_string()), Some("18".to_string()));
    assert!(!s.autosave_enabled);
    assert_eq!(s.theme_mode, ThemeMode::Light);
    assert_eq!(s.editor_font_size, 18);
}

#[test]
fn empty_saved_settings_count_as_missing() {
    let s = AppState::new(Some(String::new()), Some(String::new()), Some(String::new()));
    assert!(s.autosave_enabled);
    assert_eq!(s.theme_mode, ThemeMode::System);
    assert_eq!(s.editor_font_size, 14);
    assert_eq!(stored_setting(Some(String::new())), None);
    assert_eq!(stored_setting(Some("x".to_string())), Some("x".to_string()));
}

#[test]
fn theme_texts_round_trip() {
    for m in [ThemeMode::Dark, ThemeMode::Light, ThemeMode::System] {
        assert_eq!(ThemeMode::from_str(m.to_str()), m);
    }
    assert_eq!(ThemeMode::from_str("purple"), ThemeMode::Dark);
}

#[test]
fn theme_resolution() {
    assert_eq!(ThemeMode::Dark.resolve(false), "dark");
    assert_eq!(ThemeMode::Light.resolve(true), "business");
    assert_eq!(ThemeMode::System.resolve(true), "dark");
    assert_eq!(ThemeMode::System.resolve(false), "business");
}

#[test]
fn bool_and_font_settings() {
    assert!(load_bool_setting(Some("true"), false));
    assert!(!load_bool_setting(Some("yes"), true));
    assert!(load_bool_setting(None, true));
    assert_eq!(load_font_size(Some("16")), 16);
    assert_eq!(load_font_size(Some("big")), 14);
    assert_eq!(load_font_size(None), 14);
}

#[test]
fn opening_adds_a_tab_once_and_activates() {
    let mut s = state();
    s.open_file("a.typ");
    s.open_file("b.typ");
    s.open_file("a.typ");
    assert_eq!(s.open_files, strings(&["a.typ", "b.typ"]));
    assert_eq!(s.active_file, Some("a.typ".to_string()));
}

#[test]
fn closing_the_active_tab_activates_the_last() {
    let mut s = state();
    s.open_file("a.typ");
    s.open_file("b.typ");
    s.open_file("c.typ");
    s.close_file("c.typ");
    assert_eq!(s.open_files, strings(&["a.typ", "b.typ"]));
    assert_eq!(s.active_file, Some("b.typ".to_string()));
    s.close_file("a.typ");
    assert_eq!(s.active_file, Some("b.typ".to_string()));
    s.close_file("b.typ");
    assert_eq!(s.active_file, None);
}

#[test]
fn open_then_close_restores_tabs() {
    let mut s = state();
    s.open_file("a.typ");
    s.open_file("b.typ");
    s.close_file("b.typ");
    assert_eq!(s.open_files, strings(&["a.typ"]));
}

#[test]
fn edit_is_read_back_and_marked() {
    let mut s = state();
    s.set_file_content("main.typ", "= One".to_string());
    s.set_file_content("main.typ", "= Two".to_string());
    assert_eq!(text_of(&s, "main.typ"), Some("= Two".to_string()));
    assert_eq!(s.modified_files, strings(&["main.typ"]));
    s.mark_saved("main.typ");
    assert!(s.modified_files.is_empty());
}

#[test]
fn moving_a_file_carries_its_text_tab_and_image() {
    let mut s = state();
    s.project_files = strings(&["b.typ", "main.typ"]);
    s.set_file_content("b.typ", "= B".to_string());
    s.image_cache.push(("b.typ".to_string(), "data:x".to_string()));
    s.open_file("b.typ");
    s.move_file("b.typ", "ch/z.typ");
    assert_eq!(s.project_files, strings(&["ch/z.typ", "main.typ"]));
    assert_eq!(text_of(&s, "ch/z.typ"), Some("= B".to_string()));
    assert_eq!(text_of(&s, "b.typ"), None);
    assert_eq!(s.image_cache, vec![("ch/z.typ".to_string(), "data:x".to_string())]);
    assert_eq!(s.open_files, strings(&["ch/z.typ"]));
    assert_eq!(s.active_file, Some("ch/z.typ".to_string()));
}

#[test]
fn moving_a_file_onto_itself_changes_nothing() {
    let mut s = state();
    s.project_files = strings(&["z.typ", "a.typ"]);
    s.move_file("z.typ", "z.typ");
    assert_eq!(s.project_files, strings(&["z.typ", "a.typ"]));
}

#[test]
fn loading_a_project_reads_texts_and_images() {
    let mut s = state();
    s.open_file("old.typ");
    s.set_file_content("old.typ", "x".to_string());
    assert!(!s.has_project());
    s.load_project(
        project("p1", "main.typ"),
        strings(&["main.typ", "img.png", "data.bin"]),
        vec![
            ("main.typ".to_string(), FileContent::Text("= Hi".to_string())),
            ("img.png".to_string(), FileContent::Binary(vec![1, 2, 3])),
            ("data.bin".to_string(), FileContent::Binary(vec![9])),
        ],
    );
    assert_eq!(s.file_contents, vec![("main.typ".to_string(), "= Hi".to_string())]);
    assert_eq!(s.image_cache, vec![("img.png".to_string(), "data:application/octet-stream;base64,AQID".to_string())]);
    assert!(s.modified_files.is_empty());
    assert_eq!(s.open_files, strings(&["main.typ"]));
    assert_eq!(s.active_file, Some("main.typ".to_string()));
    assert!(s.has_project());
    assert_eq!(s.current_project.as_ref().map(|p| p.id.clone()), Some("p1".to_string()));
    s.close_project();
    assert!(!s.has_project());
    assert_eq!(s.open_files, strings(&["main.typ"]));
}

#[test]
fn adding_files_keeps_the_list_sorted() {
    let mut s = state();
    s.project_files = strings(&["b.typ", "main.typ"]);
    s.add_text_file("a.typ", String::new());
    assert_eq!(s.project_files, strings(&["a.typ", "b.typ", "main.typ"]));
    s.add_binary_file("Z.PNG", &[7]);
    assert_eq!(s.project_files, strings(&["Z.PNG", "a.typ", "b.typ", "main.typ"]));
    assert_eq!(s.image_cache, vec![("Z.PNG".to_string(), "data:application/octet-stream;base64,Bw==".to_string())]);
    s.add_binary_file("data.bin", &[1]);
    assert_eq!(s.image_cache.len(), 1);
}

#[test]
fn adding_a_listed_file_leaves_the_list() {
    let mut s = state();
    s.project_files = strings(&["z.typ", "a.typ"]);
    s.add_text_file("a.typ", "t".to_string());
    assert_eq!(s.project_files, strings(&["z.typ", "a.typ"]));
    assert_eq!(text_of(&s, "a.typ"), Some("t".to_string()));
}

#[test]
fn removing_a_file_drops_it_everywhere_but_images() {
    let mut s = state();
    s.project_files = strings(&["a.typ", "b.typ"]);
    s.add_text_file("b.typ", "x".to_string());
    s.open_file("a.typ");
    s.open_file("b.typ");
    s.remove_file("b.typ");
    assert_eq!(s.project_files, strings(&["a.typ"]));
    assert_eq!(text_of(&s, "b.typ"), None);
    assert_eq!(s.open_files, strings(&["a.typ"]));
    assert_eq!(s.active_file, Some("a.typ".to_string()));
}

#[test]
fn editor_texts_after_switching_projects() {
    let mut s = state();
    s.set_file_content("main.typ", "= Main".to_string());
    s.set_file_content("refs.yml", "key: v".to_string());
    s.open_file("main.typ");
    assert_eq!(s.editor_texts(), (Some("= Main".to_string()), "key: v".to_string()));
    let t = state();
    assert_eq!(t.editor_texts(), (None, String::new()));
}

#[test]
fn settings_steps() {
    let mut s = state();
    assert_eq!(s.toggle_autosave(), "false");
    assert!(!s.autosave_enabled);
    assert_eq!(s.toggle_autosave(), "true");
    assert_eq!(s.increase_font_size(), "15");
    s.editor_font_size = 32;
    assert_eq!(s.increase_font_size(), "32");
    s.editor_font_size = 9;
    assert_eq!(s.decrease_font_size(), "8");
    assert_eq!(s.decrease_font_size(), "8");
    s.editor_font_size = 0;
    assert_eq!(s.decrease_font_size(), "8");
}

#[test]
fn saving_the_bibliography() {
    let mut s = state();
    s.project_files = strings(&["main.typ"]);
    s.save_bibliography("a: 1".to_string());
    assert_eq!(s.project_files, strings(&["main.typ", "refs.yml"]));
    assert_eq!(text_of(&s, "refs.yml"), Some("a: 1".to_string()));
    s.save_bibliography("b: 2".to_string());
    assert_eq!(s.project_files, strings(&["main.typ", "refs.yml"]));
    assert_eq!(text_of(&s, "refs.yml"), Some("b: 2".to_string()));
}
