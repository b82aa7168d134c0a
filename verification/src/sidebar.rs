//! The file sidebar's logic: the names it shows, the folders it opens, the
//! paths that new, renamed and dragged files get, and the icon of each file.
use vstd::prelude::*;
use crate::file_tree::{split_on, split_text};
use crate::project::is_image_file;
use crate::state::{no_dups, set_insert};
use crate::storage::strings_view;
use crate::text::{
    append_chars, chars_of, ends_with_chars, has_prefix, has_suffix, is_white_space, lowercase,
    slice_chars, starts_with_chars, str_equal, string_of, white_space,
};
use crate::project::{ends_with_any, image_extensions};

verus! {

// ---------------------------------------------------------------------------
// Names and parents
// ---------------------------------------------------------------------------
/// The index of the last `c` in `s`, if any.
pub open spec fn last_index_of(s: Seq<char>, c: char) -> Option<int>
    decreases s.len(),
{
    if s.len() == 0 {
        None
    } else if s.last() == c {
        Some(s.len() - 1)
    } else {
        last_index_of(s.drop_last(), c)
    }
}

proof fn lemma_last_index_of(s: Seq<char>, c: char)
    ensures
        match last_index_of(s, c) {
            Some(i) => 0 <= i < s.len() && s[i] == c,
            None => true,
        },
    decreases s.len(),
{
    if s.len() > 0 && s.last() != c {
        lemma_last_index_of(s.drop_last(), c);
    }
}

/// The index of the last `c` in `v`.
fn last_index(v: &[char], c: char) -> (r: Option<usize>)
    ensures
        r matches Some(i) ==> last_index_of(v@, c) == Some(i as int),
        r is None ==> last_index_of(v@, c) is None,
{
    let mut i = v.len();
    assert(v@.take(v.len() as int) =~= v@);
    while i > 0
        invariant
            i <= v.len(),
            last_index_of(v@, c) == last_index_of(v@.take(i as int), c),
        decreases i,
    {
        assert(v@.take(i as int).drop_last() =~= v@.take(i - 1));
        if v[i - 1] == c {
            return Some(i - 1);
        }
        i = i - 1;
    }
    None
}

/// The name of a file: what follows the last `/` of its path, or the whole
/// path where there is none.
pub open spec fn file_name_text(p: Seq<char>) -> Seq<char> {
    match last_index_of(p, '/') {
        Some(i) => p.skip(i + 1),
        None => p,
    }
}

/// The name of a file, as the tabs and the sidebar show it.
pub fn file_name(path: &str) -> (r: String)
    ensures
        r@ == file_name_text(path@),
{
    let v = chars_of(path);
    proof {
        lemma_last_index_of(v@, '/');
    }
    match last_index(&v, '/') {
        Some(i) => string_of(&slice_chars(&v, i + 1, v.len())),
        None => string_of(&v),
    }
}

/// Text that `str::trim` leaves empty: white space only.
pub open spec fn blank(s: Seq<char>) -> bool {
    forall|i: int| 0 <= i < s.len() ==> white_space(#[trigger] s[i])
}

fn is_blank(s: &str) -> (r: bool)
    ensures
        r == blank(s@),
{
    let v = chars_of(s);
    let mut i: usize = 0;
    while i < v.len()
        invariant
            v@ == s@,
            i <= v.len(),
            forall|j: int| 0 <= j < i ==> white_space(#[trigger] v@[j]),
        decreases v.len() - i,
    {
        if !is_white_space(v[i]) {
            return false;
        }
        i = i + 1;
    }
    true
}

/// A new project is made under the typed name unless the name is blank
/// (white space only); the name is kept as typed.
pub fn accepts_project_name(name: &str) -> (r: bool)
    ensures
        r == !blank(name@),
{
    !is_blank(name)
}

// ---------------------------------------------------------------------------
// New, renamed and moved files
// ---------------------------------------------------------------------------
/// The path of a new item named `name`: none for a blank name; a new folder
/// gets a `main.typ` inside it.
pub open spec fn new_item_path_text(name: Seq<char>, is_folder: bool) -> Option<Seq<char>> {
    if blank(name) {
        None
    } else if is_folder {
        Some(name + "/main.typ"@)
    } else {
        Some(name)
    }
}

/// The path of the file that creating a new file or folder writes.
pub fn new_item_path(name: &str, is_folder: bool) -> (r: Option<String>)
    ensures
        r matches Some(p) ==> new_item_path_text(name@, is_folder) == Some(p@),
        r is None ==> new_item_path_text(name@, is_folder) is None,
{
    if is_blank(name) {
        return None;
    }
    if is_folder {
        let mut v = chars_of(name);
        append_chars(&mut v, &chars_of("/main.typ"));
        Some(string_of(&v))
    } else {
        Some(string_of(&chars_of(name)))
    }
}

/// Where renaming a file to `new_name` moves it: beside it, in the same
/// folder; nowhere for a blank name or its present name.
pub open spec fn rename_target_text(old_path: Seq<char>, new_name: Seq<char>) -> Option<Seq<char>> {
    if blank(new_name) || new_name == file_name_text(old_path) {
        None
    } else {
        match last_index_of(old_path, '/') {
            Some(i) => Some(old_path.take(i) + seq!['/'] + new_name),
            None => Some(new_name),
        }
    }
}

/// The new path of a file renamed in the sidebar.
pub fn rename_target(old_path: &str, new_name: &str) -> (r: Option<String>)
    ensures
        r matches Some(p) ==> rename_target_text(old_path@, new_name@) == Some(p@),
        r is None ==> rename_target_text(old_path@, new_name@) is None,
{
    if is_blank(new_name) {
        return None;
    }
    let name = file_name(old_path);
    if str_equal(new_name, name.as_str()) {
        return None;
    }
    let v = chars_of(old_path);
    proof {
        lemma_last_index_of(v@, '/');
    }
    match last_index(&v, '/') {
        Some(i) => {
            let mut out = slice_chars(&v, 0, i);
            out.push('/');
            append_chars(&mut out, &chars_of(new_name));
            Some(string_of(&out))
        },
        None => Some(string_of(&chars_of(new_name))),
    }
}

/// Where dropping a file on the tree's root moves it: to its name alone;
/// nowhere for a file already at the root.
pub open spec fn root_drop_text(source: Seq<char>) -> Option<Seq<char>> {
    if file_name_text(source) == source {
        None
    } else {
        Some(file_name_text(source))
    }
}

/// The new path of a file dropped on the tree's root.
pub fn root_drop_target(source: &str) -> (r: Option<String>)
    ensures
        r matches Some(p) ==> root_drop_text(source@) == Some(p@),
        r is None ==> root_drop_text(source@) is None,
{
    let name = file_name(source);
    if str_equal(name.as_str(), source) {
        None
    } else {
        Some(name)
    }
}

/// Where dropping `source` on the folder `folder` moves it: into the folder
/// under its name; nowhere for the folder itself or what lies inside it.
pub open spec fn folder_drop_text(source: Seq<char>, folder: Seq<char>) -> Option<Seq<char>> {
    if source == folder || has_prefix(source, folder.push('/')) {
        None
    } else {
        Some(folder + seq!['/'] + file_name_text(source))
    }
}

/// The new path of a file or folder dropped on a folder.
pub fn folder_drop_target(source: &str, folder: &str) -> (r: Option<String>)
    ensures
        r matches Some(p) ==> folder_drop_text(source@, folder@) == Some(p@),
        r is None ==> folder_drop_text(source@, folder@) is None,
{
    let s = chars_of(source);
    let mut prefix = chars_of(folder);
    prefix.push('/');
    if str_equal(source, folder) || starts_with_chars(&s, &prefix) {
        return None;
    }
    let mut out = chars_of(folder);
    out.push('/');
    append_chars(&mut out, &chars_of(file_name(source).as_str()));
    Some(string_of(&out))
}

// ---------------------------------------------------------------------------
// Folders opened in the tree
// ---------------------------------------------------------------------------
/// The folder path built from the first `k` pieces of a path, as the sidebar
/// builds it: each piece is added after a `/`, except to an empty path.
pub open spec fn dir_path(parts: Seq<Seq<char>>, k: nat) -> Seq<char>
    decreases k,
{
    if k == 0 || k > parts.len() {
        Seq::empty()
    } else {
        let p = dir_path(parts, (k - 1) as nat);
        (if p.len() == 0 {
            p
        } else {
            p.push('/')
        }) + parts[k - 1]
    }
}

/// The folders above a file: one for each piece of its path but the last.
pub open spec fn file_dirs(f: Seq<char>) -> Seq<Seq<char>> {
    let parts = split_on(f, '/');
    Seq::new((parts.len() - 1) as nat, |k: int| dir_path(parts, (k + 1) as nat))
}

/// The folders above each file, file after file.
pub open spec fn dir_candidates(files: Seq<Seq<char>>) -> Seq<Seq<char>>
    decreases files.len(),
{
    if files.len() == 0 {
        Seq::empty()
    } else {
        dir_candidates(files.drop_last()) + file_dirs(files.last())
    }
}

/// The elements of `xs` in the order they first occur, each once.
pub open spec fn distinct_in_order(xs: Seq<Seq<char>>) -> Seq<Seq<char>>
    decreases xs.len(),
{
    if xs.len() == 0 {
        Seq::empty()
    } else {
        set_insert(distinct_in_order(xs.drop_last()), xs.last())
    }
}

/// What `distinct_in_order` keeps: each element of `xs`, once.
pub proof fn lemma_distinct_in_order(xs: Seq<Seq<char>>)
    ensures
        no_dups(distinct_in_order(xs)),
        forall|d: Seq<char>| distinct_in_order(xs).contains(d) <==> xs.contains(d),
    decreases xs.len(),
{
    if xs.len() > 0 {
        let rest = xs.drop_last();
        lemma_distinct_in_order(rest);
        let prev = distinct_in_order(rest);
        let x = xs.last();
        assert(xs =~= rest.push(x));
        assert forall|d: Seq<char>| distinct_in_order(xs).contains(d) <==> xs.contains(d) by {
            assert(rest.push(x).contains(d) <==> (rest.contains(d) || d == x)) by {
                if rest.push(x).contains(d) && d != x {
                    let i = choose|i: int| 0 <= i < rest.push(x).len() && rest.push(x)[i] == d;
                    assert(rest[i] == d);
                }
                if rest.contains(d) {
                    let i = choose|i: int| 0 <= i < rest.len() && rest[i] == d;
                    assert(rest.push(x)[i] == d);
                }
                if d == x {
                    assert(rest.push(x)[rest.len() as int] == d);
                }
            }
            if !prev.contains(x) {
                assert(prev.push(x).contains(d) <==> (prev.contains(d) || d == x)) by {
                    if prev.push(x).contains(d) && d != x {
                        let i = choose|i: int| 0 <= i < prev.push(x).len() && prev.push(x)[i] == d;
                        assert(prev[i] == d);
                    }
                    if prev.contains(d) {
                        let i = choose|i: int| 0 <= i < prev.len() && prev[i] == d;
                        assert(prev.push(x)[i] == d);
                    }
                    if d == x {
                        assert(prev.push(x)[prev.len() as int] == d);
                    }
                }
            }
        }
    }
}

/// The folders the sidebar opens for a project's files: every folder above a
/// file, each once, in the order the files first reach them.
pub fn expanded_dirs(files: &[String]) -> (r: Vec<String>)
    ensures
        strings_view(r@) == distinct_in_order(dir_candidates(strings_view(files@))),
        no_dups(strings_view(r@)),
        forall|d: Seq<char>| strings_view(r@).contains(d) <==> dir_candidates(strings_view(files@)).contains(d),
{
    let ghost fv = strings_view(files@);
    let mut dirs: Vec<String> = Vec::new();
    let mut i: usize = 0;
    assert(fv.take(0) =~= Seq::<Seq<char>>::empty());
    while i < files.len()
        invariant
            i <= files.len(),
            fv == strings_view(files@),
            strings_view(dirs@) == distinct_in_order(dir_candidates(fv.take(i as int))),
        decreases files.len() - i,
    {
        let chars = chars_of(files[i].as_str());
        let parts = split_text(&chars, '/');
        let ghost pv = parts@.map_values(|s: String| s@);
        let ghost base = dir_candidates(fv.take(i as int));
        proof {
            crate::file_tree::lemma_join_split(chars@, '/');
            assert(fv[i as int] == chars@);
        }
        let mut path: Vec<char> = Vec::new();
        let mut j: usize = 0;
        assert(file_dirs(chars@).take(0) =~= Seq::<Seq<char>>::empty());
        assert(base + file_dirs(chars@).take(0) =~= base);
        while j + 1 < parts.len()
            invariant
                parts.len() >= 1,
                pv == parts@.map_values(|s: String| s@),
                pv == split_on(chars@, '/'),
                j + 1 <= parts.len(),
                path@ == dir_path(pv, j as nat),
                strings_view(dirs@) == distinct_in_order(base + file_dirs(chars@).take(j as int)),
            decreases parts.len() - j,
        {
            if path.len() > 0 {
                path.push('/');
            }
            append_chars(&mut path, &chars_of(parts[j].as_str()));
            assert(path@ == dir_path(pv, (j + 1) as nat));
            let ghost cands = base + file_dirs(chars@).take(j + 1);
            assert(cands.drop_last() =~= base + file_dirs(chars@).take(j as int));
            assert(cands.last() == path@);
            let d = string_of(&path);
            let mut present = false;
            let mut k: usize = 0;
            while k < dirs.len()
                invariant
                    k <= dirs.len(),
                    present == exists|m: int| 0 <= m < k && strings_view(dirs@)[m] == d@,
                decreases dirs.len() - k,
            {
                if str_equal(dirs[k].as_str(), d.as_str()) {
                    assert(strings_view(dirs@)[k as int] == d@);
                    present = true;
                }
                k = k + 1;
            }
            if !present {
                let ghost before = strings_view(dirs@);
                dirs.push(d);
                assert(strings_view(dirs@) =~= before.push(path@));
            }
            j = j + 1;
        }
        assert(file_dirs(chars@).take(j as int) =~= file_dirs(chars@));
        assert(fv.take(i + 1).drop_last() =~= fv.take(i as int));
        i = i + 1;
    }
    assert(fv.take(files.len() as int) =~= fv);
    proof {
        lemma_distinct_in_order(dir_candidates(fv));
    }
    dirs
}

// ---------------------------------------------------------------------------
// Icons
// ---------------------------------------------------------------------------
/// The icon of a file in the tree: images, bibliographies (`.yml`, `.yaml`,
/// `.bib`), Typst sources (`.typ`) and other files each have their own.
pub open spec fn file_icon_text(name: Seq<char>) -> Seq<char> {
    if ends_with_any(lowercase(name), image_extensions()) {
        "icon-[lucide--image] text-purple-400"@
    } else if has_suffix(name, ".yml"@) || has_suffix(name, ".yaml"@) || has_suffix(name, ".bib"@) {
        "icon-[lucide--book-open] text-orange-400"@
    } else if has_suffix(name, ".typ"@) {
        "icon-[lucide--file-text] text-blue-400"@
    } else {
        "icon-[lucide--file] text-base-content/40"@
    }
}

/// The icon class of a file in the tree.
pub fn file_icon(name: &str) -> (r: &'static str)
    ensures
        r@ == file_icon_text(name@),
{
    let v = chars_of(name);
    if is_image_file(name) {
        "icon-[lucide--image] text-purple-400"
    } else if ends_with_chars(&v, &chars_of(".yml")) || ends_with_chars(&v, &chars_of(".yaml")) || ends_with_chars(&v, &chars_of(".bib")) {
        "icon-[lucide--book-open] text-orange-400"
    } else if ends_with_chars(&v, &chars_of(".typ")) {
        "icon-[lucide--file-text] text-blue-400"
    } else {
        "icon-[lucide--file] text-base-content/40"
    }
}

} // verus!
