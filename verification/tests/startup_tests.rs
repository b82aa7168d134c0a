use typst_studio::project::FileContent;
use typst_studio::startup::{
    demo_begin, demo_file_names, migration_begin, migration_plan, StartupAction, StartupEvent,
};

fn settings(v: &[(&str, &str)]) -> Vec<(String, String)> {
    v.iter().map(|(k, x)| (k.to_string(), x.to_string())).collect()
}

fn finish(a: &StartupAction) -> (Vec<(String, String)>, Result<Option<String>, String>) {
    match a {
        StartupAction::Finish(s, r) => (s.clone(), r.clone()),
        _ => panic!("expected the end"),
    }
}

fn written(a: &StartupAction) -> (String, String) {
    match a {
        StartupAction::WriteFile(p, FileContent::Text(t)) => (p.clone(), t.clone()),
        StartupAction::WriteFile(p, FileContent::Binary(b)) => (p.clone(), format!("{:?}", b)),
        _ => panic!("expected a write"),
    }
}

#[test]
fn migration_done_before_does_nothing() {
    assert_eq!(finish(&migration_begin(true)), (vec![], Ok(None)));
    assert!(matches!(migration_begin(false), StartupAction::ReadOldData));
}

#[test]
fn migration_without_old_data_only_marks_it_done() {
    let (a, _) = migration_plan(None, None, &[]);
    assert_eq!(finish(&a), (settings(&[("migration_v2_done", "true")]), Ok(None)));
}

#[test]
fn migration_writes_the_old_files_into_a_new_project() {
    let images = vec![
        ("001".to_string(), Some("logo.png".to_string()), Some("data:image/png;base64,AQI=".to_string())),
        ("002".to_string(), None, None),
    ];
    let (a, mut run) = migration_plan(Some("= Old".to_string()), None, &images);
    assert!(matches!(&a, StartupAction::CreateProject(n) if n == "My Project"));
    let a = run.step(StartupEvent::Created(Ok("p1".to_string())));
    assert_eq!(written(&a), ("main.typ".to_string(), "= Old".to_string()));
    let a = run.step(StartupEvent::Written(Ok(())));
    assert_eq!(written(&a), ("images/logo.png".to_string(), "[1, 2]".to_string()));
    let a = run.step(StartupEvent::Written(Ok(())));
    assert_eq!(
        finish(&a),
        (settings(&[("migration_v2_done", "true"), ("last_project_id", "p1")]), Ok(Some("p1".to_string())))
    );
}

#[test]
fn migration_stops_at_a_failure() {
    let (_, mut run) = migration_plan(Some("x".to_string()), Some("y".to_string()), &[]);
    let a = run.step(StartupEvent::Created(Ok("p1".to_string())));
    assert_eq!(written(&a).0, "main.typ");
    let a = run.step(StartupEvent::Written(Err("quota".to_string())));
    assert_eq!(finish(&a), (vec![], Err("quota".to_string())));
    let (_, mut run) = migration_plan(Some("x".to_string()), None, &[]);
    let a = run.step(StartupEvent::Created(Err("no db".to_string())));
    assert_eq!(finish(&a), (vec![], Err("no db".to_string())));
}

#[test]
fn demo_project_is_created_once_with_lec_as_main() {
    let (a, _) = demo_begin(true, vec![]);
    assert_eq!(finish(&a), (vec![], Ok(None)));
    let files = vec![("lec.typ".to_string(), FileContent::Text("= Lectures".to_string()))];
    let (a, mut run) = demo_begin(false, files);
    assert!(matches!(&a, StartupAction::CreateProject(n) if n == "SS Notes (Demo)"));
    let a = run.step(StartupEvent::Created(Ok("d1".to_string())));
    assert_eq!(written(&a), ("lec.typ".to_string(), "= Lectures".to_string()));
    let a = run.step(StartupEvent::Written(Ok(())));
    assert!(matches!(&a, StartupAction::SetMainFile(id, m) if id == "d1" && m == "lec.typ"));
    let a = run.step(StartupEvent::MainFileSet(Ok(())));
    assert_eq!(finish(&a), (settings(&[("demo_ss_notes_created", "true")]), Ok(None)));
    assert_eq!(demo_file_names().len(), 11);
    assert_eq!(demo_file_names()[0], "lec.typ");
}
