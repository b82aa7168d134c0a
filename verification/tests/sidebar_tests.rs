use typst_studio::file_tree::{build_file_tree, FileTreeNode};
use typst_studio::project::{is_image_file, is_text_file, FileContent};
use typst_studio::sidebar::{
    accepts_project_name, expanded_dirs, file_icon, file_name, folder_drop_target, new_item_path, rename_target,
    root_drop_target,
};

fn strings(v: &[&str]) -> Vec<String> {
    v.iter().map(|s| s.to_string()).collect()
}

fn show(nodes: &[FileTreeNode]) -> String {
    let parts: Vec<String> = nodes
        .iter()
        .map(|n| match n {
            FileTreeNode::File { name, path } => format!("F({},{})", name, path),
            FileTreeNode::Directory { name, path, children, expanded } => {
                format!("D({},{},{},[{}])", name, path, expanded, show(children))
            },
        })
        .collect();
    parts.join(" ")
}

#[test]
fn tree_lists_directories_first_then_by_name() {
    let tree = build_file_tree(&strings(&["main.typ", "Zeta.typ", "chapters/b.typ", "chapters/a.typ", "alpha.typ"]));
    let names: Vec<&str> = tree.iter().map(|n| n.name()).collect();
    assert_eq!(names, vec!["chapters", "alpha.typ", "main.typ", "Zeta.typ"]);
    assert!(tree[0].is_directory());
    assert_eq!(tree[0].path(), "chapters");
    match &tree[0] {
        FileTreeNode::Directory { children, .. } => {
            let inner: Vec<&str> = children.iter().map(|n| n.path()).collect();
            assert_eq!(inner, vec!["chapters/a.typ", "chapters/b.typ"]);
        },
        FileTreeNode::File { .. } => panic!("expected a directory"),
    }
}

#[test]
fn tree_hides_dot_paths() {
    let tree = build_file_tree(&strings(&[".cache/x", "a/.hidden", "a/b.typ", ".env"]));
    assert_eq!(tree.len(), 1);
    assert_eq!(tree[0].name(), "a");
    match &tree[0] {
        FileTreeNode::Directory { children, .. } => assert_eq!(children.len(), 1),
        FileTreeNode::File { .. } => panic!("expected a directory"),
    }
}

#[test]
fn tree_nested_directory_carries_top_component_as_path() {
    let tree = build_file_tree(&strings(&["a/b/c.typ"]));
    match &tree[0] {
        FileTreeNode::Directory { children, .. } => {
            assert_eq!(children[0].name(), "b");
            assert_eq!(children[0].path(), "a");
        },
        FileTreeNode::File { .. } => panic!("expected a directory"),
    }
}

#[test]
fn tree_lists_a_repeated_path_once() {
    let tree = build_file_tree(&strings(&["a.typ", "a.typ"]));
    assert_eq!(tree.len(), 1);
    assert!(!tree[0].is_directory());
}

#[test]
fn text_and_image_extensions() {
    assert!(is_text_file("main.TYP"));
    assert!(is_text_file("refs.yml"));
    assert!(is_text_file("data.json"));
    assert!(!is_text_file("logo.png"));
    assert!(is_image_file("Logo.PNG"));
    assert!(is_image_file("pic.webp"));
    assert!(!is_image_file("main.typ"));
}

#[test]
fn file_content_views() {
    let t = FileContent::Text("hé".to_string());
    assert_eq!(t.as_text(), Some("hé"));
    assert_eq!(t.as_bytes(), vec![104, 195, 169]);
    assert!(t.is_text());
    let b = FileContent::Binary(vec![1, 2]);
    assert_eq!(b.as_text(), None);
    assert_eq!(b.as_bytes(), vec![1, 2]);
    assert!(!b.is_text());
}

#[test]
fn file_names() {
    assert_eq!(file_name("chapters/intro.typ"), "intro.typ");
    assert_eq!(file_name("main.typ"), "main.typ");
    assert_eq!(file_name("dir/"), "");
}

#[test]
fn new_item_paths() {
    assert_eq!(new_item_path("notes.typ", false), Some("notes.typ".to_string()));
    assert_eq!(new_item_path("chapters", true), Some("chapters/main.typ".to_string()));
    assert_eq!(new_item_path("   ", false), None);
    assert_eq!(new_item_path("", true), None);
}

#[test]
fn rename_targets() {
    assert_eq!(rename_target("ch/a.typ", "b.typ"), Some("ch/b.typ".to_string()));
    assert_eq!(rename_target("a.typ", "b.typ"), Some("b.typ".to_string()));
    assert_eq!(rename_target("ch/a.typ", "a.typ"), None);
    assert_eq!(rename_target("ch/a.typ", " "), None);
}

#[test]
fn drops_on_the_root() {
    assert_eq!(root_drop_target("ch/a.typ"), Some("a.typ".to_string()));
    assert_eq!(root_drop_target("a.typ"), None);
}

#[test]
fn drops_on_a_folder() {
    assert_eq!(folder_drop_target("a.typ", "ch"), Some("ch/a.typ".to_string()));
    assert_eq!(folder_drop_target("x/a.typ", "ch"), Some("ch/a.typ".to_string()));
    assert_eq!(folder_drop_target("ch", "ch"), None);
    assert_eq!(folder_drop_target("ch/sub/a.typ", "ch"), None);
    assert_eq!(folder_drop_target("chapter.typ", "ch"), Some("ch/chapter.typ".to_string()));
}

#[test]
fn folders_opened_for_files() {
    let dirs = expanded_dirs(&strings(&["a/b/c.typ", "a/d.typ", "main.typ", "x/y.typ"]));
    assert_eq!(dirs, strings(&["a", "a/b", "x"]));
}

#[test]
fn folders_of_absolute_paths_follow_the_sidebar() {
    let dirs = expanded_dirs(&strings(&["/a/b.typ"]));
    assert_eq!(dirs, strings(&["", "a"]));
}

#[test]
fn icons_by_kind() {
    assert_eq!(file_icon("logo.PNG"), "icon-[lucide--image] text-purple-400");
    assert_eq!(file_icon("refs.yml"), "icon-[lucide--book-open] text-orange-400");
    assert_eq!(file_icon("refs.bib"), "icon-[lucide--book-open] text-orange-400");
    assert_eq!(file_icon("main.typ"), "icon-[lucide--file-text] text-blue-400");
    assert_eq!(file_icon("MAIN.TYP"), "icon-[lucide--file] text-base-content/40");
    assert_eq!(file_icon("notes.txt"), "icon-[lucide--file] text-base-content/40");
}

#[test]
fn blank_project_names_are_refused() {
    assert!(!accepts_project_name(""));
    assert!(!accepts_project_name("  \t\n"));
    assert!(accepts_project_name(" Thesis "));
}

#[test]
fn files_of_a_folder_share_its_directory() {
    let tree = build_file_tree(&strings(&["a/x.typ", "a/y.typ", "a/b/z.typ", "a/b/w.typ"]));
    assert_eq!(
        show(&tree),
        "D(a,a,true,[D(b,a,true,[F(w.typ,a/b/w.typ) F(z.typ,a/b/z.typ)]) F(x.typ,a/x.typ) F(y.typ,a/y.typ)])"
    );
}

#[test]
fn hidden_paths_make_no_directories() {
    let tree = build_file_tree(&strings(&["main.typ", ".cache/pkg.typ", "images/.gitkeep"]));
    assert_eq!(show(&tree), "F(main.typ,main.typ)");
}

#[test]
fn exact_tree_directories_first_then_names() {
    let tree = build_file_tree(&strings(&["B.typ", "a.typ", "dir/x.typ"]));
    assert_eq!(show(&tree), "D(dir,dir,true,[F(x.typ,dir/x.typ)]) F(a.typ,a.typ) F(B.typ,B.typ)");
    let again = build_file_tree(&strings(&["B.typ", "a.typ", "dir/x.typ", "B.typ", "dir/x.typ", ".env", "dir/.tmp"]));
    assert_eq!(show(&again), show(&tree));
}

#[test]
fn names_that_sort_alike_keep_their_first_appearance() {
    let tree = build_file_tree(&strings(&["a.typ", "A.typ"]));
    assert_eq!(show(&tree), "F(a.typ,a.typ) F(A.typ,A.typ)");
    let tree = build_file_tree(&strings(&["A.typ", "a.typ", "x/b.typ", "X/c.typ"]));
    assert_eq!(
        show(&tree),
        "D(x,x,true,[F(b.typ,x/b.typ)]) D(X,X,true,[F(c.typ,X/c.typ)]) F(A.typ,A.typ) F(a.typ,a.typ)"
    );
}
