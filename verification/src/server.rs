//! The file server's logic: where it keeps each project and file, which
//! files of a project it lists, and the identifiers of new projects.
use vstd::prelude::*;
use crate::project::{format_project_id, project_id_text};
use crate::sidebar::{file_name, file_name_text};
use crate::storage::{sort_strings, strings_sorted, strings_view};
use crate::text::{append_chars, chars_of, str_equal, string_of};

verus! {

/// The directory that holds the projects.
pub open spec fn projects_root_text() -> Seq<char> {
    "data/projects"@
}

/// The directory that holds the projects.
pub fn projects_root() -> (r: String)
    ensures
        r@ == projects_root_text(),
{
    string_of(&chars_of("data/projects"))
}

/// `PathBuf::join` on a directory path that does not end in `/`: an
/// absolute path (one starting with `/`) takes its place; any other is
/// added after a `/`.
pub open spec fn joined_path(dir: Seq<char>, p: Seq<char>) -> Seq<char> {
    if p.len() > 0 && p[0] == '/' {
        p
    } else {
        dir + seq!['/'] + p
    }
}

fn join_path(dir: &str, p: &str) -> (r: String)
    ensures
        r@ == joined_path(dir@, p@),
{
    let pc = chars_of(p);
    if pc.len() > 0 && pc[0] == '/' {
        return string_of(&pc);
    }
    let mut v = chars_of(dir);
    v.push('/');
    append_chars(&mut v, &pc);
    string_of(&v)
}

/// The directory of the project `id`.
pub fn project_dir(id: &str) -> (r: String)
    ensures
        r@ == joined_path(projects_root_text(), id@),
{
    join_path(projects_root().as_str(), id)
}

/// Where the server keeps the file `path` of the project `id`.
pub fn project_file_path(id: &str, path: &str) -> (r: String)
    ensures
        r@ == joined_path(joined_path(projects_root_text(), id@), path@),
{
    join_path(project_dir(id).as_str(), path)
}

/// The files among `paths` that the server lists: all but its metadata
/// files, named `project.json`, in order.
pub open spec fn listed_paths(paths: Seq<Seq<char>>) -> Seq<Seq<char>>
    decreases paths.len(),
{
    if paths.len() == 0 {
        Seq::empty()
    } else {
        let rest = listed_paths(paths.drop_last());
        if file_name_text(paths.last()) == "project.json"@ {
            rest
        } else {
            rest.push(paths.last())
        }
    }
}

/// The files of a project the server lists, from the paths found under its
/// directory: its metadata files left out, the rest sorted.
pub fn listed_files(paths: &[String]) -> (r: Vec<String>)
    ensures
        strings_sorted(strings_view(r@)),
        strings_view(r@).to_multiset() == listed_paths(strings_view(paths@)).to_multiset(),
{
    let ghost pv = strings_view(paths@);
    let mut kept: Vec<String> = Vec::new();
    let mut i: usize = 0;
    assert(pv.take(0) =~= Seq::<Seq<char>>::empty());
    while i < paths.len()
        invariant
            i <= paths.len(),
            pv == strings_view(paths@),
            strings_view(kept@) == listed_paths(pv.take(i as int)),
        decreases paths.len() - i,
    {
        assert(pv.take(i + 1).drop_last() =~= pv.take(i as int));
        assert(pv.take(i + 1).last() == paths@[i as int]@);
        let name = file_name(paths[i].as_str());
        if !str_equal(name.as_str(), "project.json") {
            let ghost before = strings_view(kept@);
            kept.push(paths[i].clone());
            assert(strings_view(kept@) =~= before.push(paths@[i as int]@));
        }
        i = i + 1;
    }
    assert(pv.take(paths.len() as int) =~= pv);
    sort_strings(kept)
}

/// The identifier the server gives a new project: the time in milliseconds
/// and the clock's nanoseconds below 0xFFFFFF, as `{:x}_{:06x}`.
pub fn server_project_id(millis: u128, nanos: u32) -> (r: String)
    ensures
        r@ == project_id_text(millis as nat, (nanos % 0xFFFFFF) as nat),
{
    format_project_id(millis, nanos % 0xFFFFFF)
}

} // verus!
