//! The editor's application state: settings, the open project's files, the
//! tabs of open files and the active file, and how editing, opening, closing,
//! moving and loading change them.
use vstd::prelude::*;
use crate::assoc::{
    assoc_view, find_key, insert_assoc, insert_entry, key_index, lemma_key_index, remove_assoc,
    remove_entry,
};
use crate::cache::PackageCache;
use crate::encoding::{base64_encode, base64_text};
use crate::project::{image_extensions, ends_with_any, is_image_file, FileContent};
use crate::storage::{data_url_bytes, sort_strings, strings_sorted, strings_view};
use crate::text::{
    append_chars, chars_of, first_index_of, format_radix, lowercase, parse_unsigned,
    parse_unsigned_chars, radix_digits, str_equal, string_of,
};

verus! {

/// The tab of the home page.
#[derive(Clone, Copy, Debug, PartialEq, Eq, Structural)]
pub enum HomeTab {
    Projects,
    Packages,
    Settings,
}

/// The colour theme setting.
#[derive(Clone, Copy, Debug, PartialEq, Eq, Structural)]
pub enum ThemeMode {
    Dark,
    Light,
    System,
}

/// The text saved for a theme setting.
pub open spec fn theme_text(m: ThemeMode) -> Seq<char> {
    match m {
        ThemeMode::Dark => "dark"@,
        ThemeMode::Light => "light"@,
        ThemeMode::System => "system"@,
    }
}

/// The theme setting a saved text selects: `light`, `system`, and dark for
/// anything else.
pub open spec fn theme_from(s: Seq<char>) -> ThemeMode {
    if s == "light"@ {
        ThemeMode::Light
    } else if s == "system"@ {
        ThemeMode::System
    } else {
        ThemeMode::Dark
    }
}

/// The page theme a setting shows: `dark`, or `business` for light; the
/// system setting follows the system's preference.
pub open spec fn resolved_theme(m: ThemeMode, system_prefers_dark: bool) -> Seq<char> {
    match m {
        ThemeMode::Dark => "dark"@,
        ThemeMode::Light => "business"@,
        ThemeMode::System => if system_prefers_dark {
            "dark"@
        } else {
            "business"@
        },
    }
}

impl ThemeMode {
    /// The theme setting a saved text selects.
    pub fn from_str(s: &str) -> (r: Self)
        ensures
            r == theme_from(s@),
    {
        if str_equal(s, "light") {
            ThemeMode::Light
        } else if str_equal(s, "system") {
            ThemeMode::System
        } else {
            ThemeMode::Dark
        }
    }

    /// The text saved for the setting.
    pub fn to_str(&self) -> (r: &'static str)
        ensures
            r@ == theme_text(*self),
    {
        match self {
            ThemeMode::Dark => "dark",
            ThemeMode::Light => "light",
            ThemeMode::System => "system",
        }
    }

    /// The page theme the setting shows, given whether the system prefers a
    /// dark scheme.
    pub fn resolve(&self, system_prefers_dark: bool) -> (r: &'static str)
        ensures
            r@ == resolved_theme(*self, system_prefers_dark),
    {
        match self {
            ThemeMode::Dark => "dark",
            ThemeMode::Light => "business",
            ThemeMode::System => if system_prefers_dark {
                "dark"
            } else {
                "business"
            },
        }
    }
}

/// The theme that was saved is the one loaded again.
pub proof fn law_theme_round_trip(m: ThemeMode)
    ensures
        theme_from(theme_text(m)) == m,
{
    reveal_strlit("dark");
    reveal_strlit("light");
    reveal_strlit("system");
    if m == ThemeMode::Dark {
        assert(theme_text(m).len() != "light"@.len());
        assert(theme_text(m).len() != "system"@.len());
    } else if m == ThemeMode::Light {
        assert(theme_text(m).len() != "system"@.len());
    }
}

// ---------------------------------------------------------------------------
// Settings
// ---------------------------------------------------------------------------
/// A saved setting: an empty value counts as none.
pub open spec fn setting_of(raw: Option<Seq<char>>) -> Option<Seq<char>> {
    match raw {
        Some(v) => if v.len() > 0 {
            Some(v)
        } else {
            None
        },
        None => None,
    }
}

/// The view of an optional string.
pub open spec fn opt_view(o: Option<String>) -> Option<Seq<char>> {
    match o {
        Some(s) => Some(s@),
        None => None,
    }
}

/// A saved setting: an empty value counts as none.
pub fn stored_setting(raw: Option<String>) -> (r: Option<String>)
    ensures
        opt_view(r) == setting_of(opt_view(raw)),
{
    match raw {
        Some(v) => if v.as_str().is_empty() {
            None
        } else {
            Some(v)
        },
        None => None,
    }
}

/// A yes-or-no setting: `true` where the saved text is `true`, the default
/// where nothing was saved.
pub open spec fn bool_setting_of(stored: Option<Seq<char>>, default: bool) -> bool {
    match stored {
        Some(v) => v == "true"@,
        None => default,
    }
}

/// Reads a yes-or-no setting.
pub fn load_bool_setting(stored: Option<&str>, default: bool) -> (r: bool)
    ensures
        r == bool_setting_of(
            match stored {
                Some(v) => Some(v@),
                None => None,
            },
            default,
        ),
{
    match stored {
        Some(v) => str_equal(v, "true"),
        None => default,
    }
}

/// The editor font size a saved text gives: the number it writes, 14 where
/// nothing was saved or the text is no `u32`.
pub open spec fn font_size_of(stored: Option<Seq<char>>) -> u32 {
    match stored {
        Some(v) => match parse_unsigned(v, 10, u32::MAX as nat) {
            Some(n) => n as u32,
            None => 14,
        },
        None => 14,
    }
}

/// Reads the editor font size setting.
pub fn load_font_size(stored: Option<&str>) -> (r: u32)
    ensures
        r == font_size_of(
            match stored {
                Some(v) => Some(v@),
                None => None,
            },
        ),
{
    match stored {
        Some(v) => match parse_unsigned_chars(&chars_of(v), 10, u32::MAX as u64) {
            Some(n) => n as u32,
            None => 14,
        },
        None => 14,
    }
}

// ---------------------------------------------------------------------------
// Lists of paths
// ---------------------------------------------------------------------------
/// The tabs after opening `p`: added at the end unless open already.
pub open spec fn opened(tabs: Seq<Seq<char>>, p: Seq<char>) -> Seq<Seq<char>> {
    if tabs.contains(p) {
        tabs
    } else {
        tabs.push(p)
    }
}

/// The tabs after closing `p`: every tab of `p` goes, the others keep their
/// order.
pub open spec fn closed(tabs: Seq<Seq<char>>, p: Seq<char>) -> Seq<Seq<char>>
    decreases tabs.len(),
{
    if tabs.len() == 0 {
        Seq::empty()
    } else {
        let rest = closed(tabs.drop_last(), p);
        if tabs.last() == p {
            rest
        } else {
            rest.push(tabs.last())
        }
    }
}

/// The active file after closing `p`: the last remaining tab where `p` was
/// active, else unchanged.
pub open spec fn active_after_close(
    active: Option<Seq<char>>,
    tabs: Seq<Seq<char>>,
    p: Seq<char>,
) -> Option<Seq<char>> {
    if active == Some(p) {
        let kept = closed(tabs, p);
        if kept.len() > 0 {
            Some(kept.last())
        } else {
            None
        }
    } else {
        active
    }
}

/// Every occurrence of `old` replaced by `new`.
pub open spec fn replaced_all(v: Seq<Seq<char>>, old: Seq<char>, new: Seq<char>) -> Seq<Seq<char>> {
    v.map_values(|f: Seq<char>| if f == old {
        new
    } else {
        f
    })
}

/// The first occurrence of `old` replaced by `new`.
pub open spec fn replaced_first(v: Seq<Seq<char>>, old: Seq<char>, new: Seq<char>) -> Seq<Seq<char>> {
    match first_of(v, old) {
        Some(i) => v.update(i, new),
        None => v,
    }
}

/// The index of the first occurrence of `x`.
pub open spec fn first_of(v: Seq<Seq<char>>, x: Seq<char>) -> Option<int>
    decreases v.len(),
{
    if v.len() == 0 {
        None
    } else if v[0] == x {
        Some(0)
    } else {
        match first_of(v.drop_first(), x) {
            Some(i) => Some(i + 1),
            None => None,
        }
    }
}

/// An entry moved from key `old` to key `new`, keeping its value.
pub open spec fn renamed_entry<V>(m: Seq<(Seq<char>, V)>, old: Seq<char>, new: Seq<char>) -> Seq<(Seq<char>, V)> {
    match key_index(m, old) {
        Some(i) => insert_entry(remove_entry(m, old), new, m[i].1),
        None => m,
    }
}

/// A set kept as a list: `x` added unless present.
pub open spec fn set_insert(s: Seq<Seq<char>>, x: Seq<char>) -> Seq<Seq<char>> {
    if s.contains(x) {
        s
    } else {
        s.push(x)
    }
}

/// No element occurs twice.
pub open spec fn no_dups(v: Seq<Seq<char>>) -> bool {
    forall|i: int, j: int| 0 <= i < j < v.len() ==> v[i] != v[j]
}

proof fn lemma_first_of(v: Seq<Seq<char>>, x: Seq<char>)
    ensures
        match first_of(v, x) {
            Some(i) => 0 <= i < v.len() && v[i] == x,
            None => !v.contains(x),
        },
    decreases v.len(),
{
    if v.len() > 0 {
        lemma_first_of(v.drop_first(), x);
        if v[0] != x && v.contains(x) {
            let k = choose|k: int| 0 <= k < v.len() && v[k] == x;
            assert(v.drop_first()[k - 1] == x);
        }
    }
}

fn contains_string(v: &Vec<String>, x: &str) -> (r: bool)
    ensures
        r == strings_view(v@).contains(x@),
{
    let mut i: usize = 0;
    while i < v.len()
        invariant
            i <= v.len(),
            forall|j: int| 0 <= j < i ==> strings_view(v@)[j] != x@,
        decreases v.len() - i,
    {
        if str_equal(v[i].as_str(), x) {
            assert(strings_view(v@)[i as int] == x@);
            return true;
        }
        i = i + 1;
    }
    false
}

// ---------------------------------------------------------------------------
// The state
// ---------------------------------------------------------------------------
/// The editor's state.
pub struct AppState {
    /// The open project, where one is open.
    pub current_project: Option<OpenProject>,
    /// The paths of the open project's files.
    pub project_files: Vec<String>,
    /// The file in the editor.
    pub active_file: Option<String>,
    /// The tabs of open files.
    pub open_files: Vec<String>,
    /// The texts of the project's text files.
    pub file_contents: Vec<(String, String)>,
    /// The files edited since they were last saved.
    pub modified_files: Vec<String>,
    /// The project's images, as data URLs.
    pub image_cache: Vec<(String, String)>,
    pub sidebar_visible: bool,
    pub show_project_manager: bool,
    pub show_settings: bool,
    pub package_cache: PackageCache,
    pub autosave_enabled: bool,
    pub theme_mode: ThemeMode,
    pub editor_font_size: u32,
    pub home_tab: HomeTab,
}

/// The project that is open in the editor: its identifier, its name and
/// the file it compiles from.
#[derive(Clone, Debug)]
pub struct OpenProject {
    pub id: String,
    pub name: String,
    pub main_file: String,
}

impl AppState {
    /// No path has two texts or two images, and the package cache holds
    /// each package once.
    pub open spec fn wf(&self) -> bool {
        &&& crate::assoc::distinct_keys(assoc_view(self.file_contents@))
        &&& crate::assoc::distinct_keys(assoc_view(self.image_cache@))
        &&& self.package_cache.wf()
    }
}

/// The settings and panels of two states agree, and so does their open
/// project.
pub open spec fn same_settings(a: AppState, b: AppState) -> bool {
    &&& same_panels(a, b)
    &&& a.current_project == b.current_project
}

/// The settings and panels of two states agree.
pub open spec fn same_panels(a: AppState, b: AppState) -> bool {
    &&& a.sidebar_visible == b.sidebar_visible
    &&& a.show_project_manager == b.show_project_manager
    &&& a.show_settings == b.show_settings
    &&& a.package_cache.packages@ == b.package_cache.packages@
    &&& a.autosave_enabled == b.autosave_enabled
    &&& a.theme_mode == b.theme_mode
    &&& a.editor_font_size == b.editor_font_size
    &&& a.home_tab == b.home_tab
}

/// The tabs of a state.
pub open spec fn tabs(s: AppState) -> Seq<Seq<char>> {
    strings_view(s.open_files@)
}

/// The data URL of an image's bytes.
pub open spec fn image_data_url(bytes: Seq<u8>) -> Seq<char> {
    "data:application/octet-stream;base64,"@ + base64_text(bytes)
}

/// The texts and images a loaded project's files give, in order: text files
/// by text, binary files that are images by data URL; other binary files are
/// left out.
pub open spec fn loaded_contents(files: Seq<(Seq<char>, FileContent)>) -> (
    Seq<(Seq<char>, Seq<char>)>,
    Seq<(Seq<char>, Seq<char>)>,
)
    decreases files.len(),
{
    if files.len() == 0 {
        (Seq::empty(), Seq::empty())
    } else {
        let (texts, images) = loaded_contents(files.drop_last());
        let (path, content) = files.last();
        match content {
            FileContent::Text(t) => (insert_entry(texts, path, t@), images),
            FileContent::Binary(b) => if ends_with_any(lowercase(path), image_extensions()) {
                (texts, insert_entry(images, path, image_data_url(b@)))
            } else {
                (texts, images)
            },
        }
    }
}

/// The files read for a project, as paths and contents.
pub open spec fn read_view(v: Seq<(String, FileContent)>) -> Seq<(Seq<char>, FileContent)> {
    v.map_values(|e: (String, FileContent)| (e.0@, e.1))
}

/// Binary contents short enough to encode.
pub open spec fn encodable(v: Seq<(String, FileContent)>) -> bool {
    forall|i: int| 0 <= i < v.len() ==> match #[trigger] v[i].1 {
        FileContent::Binary(b) => b.len() <= usize::MAX / 2,
        FileContent::Text(_) => true,
    }
}

impl AppState {
    /// The state the editor starts in, from the saved settings: autosave on
    /// unless saved otherwise, the system theme unless another was saved, and
    /// font size 14 unless another was saved.
    pub fn new(autosave: Option<String>, theme: Option<String>, font_size: Option<String>) -> (r: Self)
        ensures
            r.autosave_enabled == bool_setting_of(setting_of(opt_view(autosave)), true),
            r.theme_mode == theme_from(
                match setting_of(opt_view(theme)) {
                    Some(t) => t,
                    None => "system"@,
                },
            ),
            r.editor_font_size == font_size_of(setting_of(opt_view(font_size))),
            r.wf(),
            r.current_project is None,
            r.project_files@.len() == 0,
            r.active_file is None,
            r.open_files@.len() == 0,
            r.file_contents@.len() == 0,
            r.modified_files@.len() == 0,
            r.image_cache@.len() == 0,
            r.package_cache.packages@.len() == 0,
            r.sidebar_visible,
            !r.show_project_manager,
            !r.show_settings,
            r.home_tab == HomeTab::Projects,
    {
        let autosave_setting = stored_setting(autosave);
        let autosave_enabled = match &autosave_setting {
            Some(v) => load_bool_setting(Some(v.as_str()), true),
            None => load_bool_setting(None, true),
        };
        let theme_setting = stored_setting(theme);
        let theme_mode = match &theme_setting {
            Some(t) => ThemeMode::from_str(t.as_str()),
            None => ThemeMode::from_str("system"),
        };
        let font_setting = stored_setting(font_size);
        let editor_font_size = match &font_setting {
            Some(f) => load_font_size(Some(f.as_str())),
            None => load_font_size(None),
        };
        AppState {
            current_project: None,
            project_files: Vec::new(),
            active_file: None,
            open_files: Vec::new(),
            file_contents: Vec::new(),
            modified_files: Vec::new(),
            image_cache: Vec::new(),
            sidebar_visible: true,
            show_project_manager: false,
            show_settings: false,
            package_cache: PackageCache::new(),
            autosave_enabled,
            theme_mode,
            editor_font_size,
            home_tab: HomeTab::Projects,
        }
    }

    /// Records an edit: the file's text is `content`, and the file is
    /// marked as modified.
    pub fn set_file_content(&mut self, path: &str, content: String)
        ensures
            old(self).wf() ==> final(self).wf(),
            assoc_view(final(self).file_contents@) == insert_entry(
                assoc_view(old(self).file_contents@),
                path@,
                content@,
            ),
            strings_view(final(self).modified_files@) == set_insert(
                strings_view(old(self).modified_files@),
                path@,
            ),
            final(self).project_files == old(self).project_files,
            final(self).active_file == old(self).active_file,
            final(self).open_files == old(self).open_files,
            final(self).image_cache == old(self).image_cache,
            same_settings(*old(self), *final(self)),
    {
        proof {
            if self.wf() {
                crate::assoc::lemma_insert_entry(assoc_view(self.file_contents@), path@, content@);
            }
        }
        let key = path.to_owned();
        insert_assoc(&mut self.file_contents, key, content);
        if !contains_string(&self.modified_files, path) {
            let ghost before = strings_view(self.modified_files@);
            self.modified_files.push(path.to_owned());
            assert(strings_view(self.modified_files@) =~= before.push(path@));
        }
    }

    /// Saves the bibliography from its dialog: `refs.yml` holds `bib`, and
    /// joins the end of the project's file list unless it is there.
    pub fn save_bibliography(&mut self, bib: String)
        ensures
            old(self).wf() ==> final(self).wf(),
            assoc_view(final(self).file_contents@) == insert_entry(
                assoc_view(old(self).file_contents@),
                "refs.yml"@,
                bib@,
            ),
            strings_view(final(self).project_files@) == set_insert(
                strings_view(old(self).project_files@),
                "refs.yml"@,
            ),
            final(self).modified_files == old(self).modified_files,
            final(self).active_file == old(self).active_file,
            final(self).open_files == old(self).open_files,
            final(self).image_cache == old(self).image_cache,
            same_settings(*old(self), *final(self)),
    {
        proof {
            if self.wf() {
                crate::assoc::lemma_insert_entry(assoc_view(self.file_contents@), "refs.yml"@, bib@);
            }
        }
        let name = "refs.yml";
        insert_assoc(&mut self.file_contents, name.to_owned(), bib);
        if !contains_string(&self.project_files, name) {
            let ghost before = strings_view(self.project_files@);
            self.project_files.push(name.to_owned());
            assert(strings_view(self.project_files@) =~= before.push(name@));
        }
    }

    /// Opens a file: it gets a tab unless it has one, and becomes active.
    pub fn open_file(&mut self, path: &str)
        ensures
            old(self).wf() ==> final(self).wf(),
            tabs(*final(self)) == opened(tabs(*old(self)), path@),
            opt_view(final(self).active_file) == Some(path@),
            final(self).project_files == old(self).project_files,
            final(self).file_contents == old(self).file_contents,
            final(self).modified_files == old(self).modified_files,
            final(self).image_cache == old(self).image_cache,
            same_settings(*old(self), *final(self)),
    {
        if !contains_string(&self.open_files, path) {
            let ghost before = tabs(*self);
            self.open_files.push(path.to_owned());
            assert(tabs(*self) =~= before.push(path@));
        }
        self.active_file = Some(path.to_owned());
    }

    /// Closes a file's tab; where it was active, the last remaining tab
    /// becomes active (none where no tab remains).
    pub fn close_file(&mut self, path: &str)
        ensures
            old(self).wf() ==> final(self).wf(),
            tabs(*final(self)) == closed(tabs(*old(self)), path@),
            opt_view(final(self).active_file) == active_after_close(
                opt_view(old(self).active_file),
                tabs(*old(self)),
                path@,
            ),
            final(self).project_files == old(self).project_files,
            final(self).file_contents == old(self).file_contents,
            final(self).modified_files == old(self).modified_files,
            final(self).image_cache == old(self).image_cache,
            same_settings(*old(self), *final(self)),
    {
        let ghost start = tabs(*self);
        let mut kept: Vec<String> = Vec::new();
        let mut i: usize = 0;
        while i < self.open_files.len()
            invariant
                i <= self.open_files.len(),
                start == strings_view(self.open_files@),
                strings_view(kept@) == closed(start.take(i as int), path@),
            decreases self.open_files.len() - i,
        {
            assert(start.take(i + 1).drop_last() =~= start.take(i as int));
            assert(start.take(i + 1).last() == self.open_files@[i as int]@);
            if !str_equal(self.open_files[i].as_str(), path) {
                let ghost before = strings_view(kept@);
                kept.push(self.open_files[i].clone());
                assert(strings_view(kept@) =~= before.push(self.open_files@[i as int]@));
            }
            i = i + 1;
        }
        assert(start.take(start.len() as int) =~= start);
        let was_active = match &self.active_file {
            Some(a) => str_equal(a.as_str(), path),
            None => false,
        };
        self.open_files = kept;
        if was_active {
            if self.open_files.len() > 0 {
                let last = self.open_files[self.open_files.len() - 1].clone();
                self.active_file = Some(last);
            } else {
                self.active_file = None;
            }
        }
    }
}

impl AppState {
    /// Moves a file to a new path in the state (after storage has moved it):
    /// the project's file list (kept in code point order), its text or image,
    /// its tabs and, where it is active, the active file follow it. Nothing
    /// changes where the two paths are equal.
    pub fn move_file(&mut self, old_path: &str, new_path: &str)
        ensures
            old(self).wf() ==> final(self).wf(),
            old_path@ == new_path@ ==> *final(self) == *old(self),
            old_path@ != new_path@ ==> strings_sorted(strings_view(final(self).project_files@)),
            old_path@ != new_path@ ==> strings_view(final(self).project_files@).to_multiset() == replaced_first(
                strings_view(old(self).project_files@),
                old_path@,
                new_path@,
            ).to_multiset(),
            old_path@ != new_path@ ==> assoc_view(final(self).file_contents@) == renamed_entry(
                assoc_view(old(self).file_contents@),
                old_path@,
                new_path@,
            ),
            old_path@ != new_path@ ==> assoc_view(final(self).image_cache@) == renamed_entry(
                assoc_view(old(self).image_cache@),
                old_path@,
                new_path@,
            ),
            old_path@ != new_path@ ==> tabs(*final(self)) == replaced_all(tabs(*old(self)), old_path@, new_path@),
            old_path@ != new_path@ ==> opt_view(final(self).active_file) == if opt_view(old(self).active_file) == Some(
                old_path@,
            ) {
                Some(new_path@)
            } else {
                opt_view(old(self).active_file)
            },
            final(self).modified_files == old(self).modified_files,
            same_settings(*old(self), *final(self)),
    {
        proof {
            if self.wf() {
                if old_path@ != new_path@ {
                law_move_then_read(assoc_view(self.file_contents@), old_path@, new_path@, old_path@);
                law_move_then_read(assoc_view(self.image_cache@), old_path@, new_path@, old_path@);
            }
            }
        }
        if str_equal(old_path, new_path) {
            return;
        }
        // The project's file list.
        let mut files: Vec<String> = Vec::new();
        std::mem::swap(&mut files, &mut self.project_files);
        let ghost fv = strings_view(files@);
        proof {
            lemma_first_of(fv, old_path@);
        }
        match position_of(&files, old_path) {
            Some(idx) => {
                files.set(idx, new_path.to_owned());
                assert(strings_view(files@) =~= fv.update(idx as int, new_path@));
            },
            None => {},
        }
        self.project_files = sort_strings(files);
        // Texts and images.
        rename_entry(&mut self.file_contents, old_path, new_path);
        rename_entry(&mut self.image_cache, old_path, new_path);
        // Tabs and the active file.
        let mut open: Vec<String> = Vec::new();
        std::mem::swap(&mut open, &mut self.open_files);
        let ghost start = strings_view(open@);
        let mut i: usize = 0;
        while i < open.len()
            invariant
                i <= open.len(),
                start.len() == open.len(),
                forall|j: int| 0 <= j < i ==> #[trigger] strings_view(open@)[j] == replaced_all(start, old_path@, new_path@)[j],
                forall|j: int| i <= j < start.len() ==> #[trigger] strings_view(open@)[j] == start[j],
            decreases open.len() - i,
        {
            let ghost before = open@;
            assert(strings_view(before)[i as int] == start[i as int]);
            assert(before[i as int]@ == start[i as int]);
            if str_equal(open[i].as_str(), old_path) {
                open.set(i, new_path.to_owned());
                assert(open@ == before.update(i as int, open@[i as int]));
                assert(open@[i as int]@ == new_path@);
            }
            assert(replaced_all(start, old_path@, new_path@)[i as int] == (if start[i as int] == old_path@ { new_path@ } else { start[i as int] }));
            assert(strings_view(open@)[i as int] == open@[i as int]@);
            assert forall|j: int| 0 <= j < open.len() && j != i implies #[trigger] strings_view(open@)[j] == strings_view(before)[j] by {
                assert(open@[j] == before[j]);
            }
            i = i + 1;
        }
        assert(strings_view(open@) =~= replaced_all(start, old_path@, new_path@));
        self.open_files = open;
        let is_active = match &self.active_file {
            Some(a) => str_equal(a.as_str(), old_path),
            None => false,
        };
        if is_active {
            self.active_file = Some(new_path.to_owned());
        }
    }

    /// Loads an opened project into the state: it becomes the open project,
    /// with the list of its paths, the texts of text files and the data URLs
    /// of images among the files that could be read; nothing is modified,
    /// and its main file is the one open tab and the active file.
    pub fn load_project(&mut self, project: OpenProject, files: Vec<String>, read: Vec<(String, FileContent)>)
        requires
            encodable(read@),
        ensures
            old(self).wf() ==> final(self).wf(),
            final(self).current_project == Some(project),
            final(self).project_files@ == files@,
            assoc_view(final(self).file_contents@) == loaded_contents(read_view(read@)).0,
            assoc_view(final(self).image_cache@) == loaded_contents(read_view(read@)).1,
            final(self).modified_files@.len() == 0,
            tabs(*final(self)) == seq![project.main_file@],
            opt_view(final(self).active_file) == Some(project.main_file@),
            same_panels(*old(self), *final(self)),
    {
        let main_file = project.main_file.clone();
        let mut contents: Vec<(String, String)> = Vec::new();
        let mut images: Vec<(String, String)> = Vec::new();
        let ghost rv = read_view(read@);
        let mut i: usize = 0;
        while i < read.len()
            invariant
                i <= read.len(),
                rv == read_view(read@),
                encodable(read@),
                (assoc_view(contents@), assoc_view(images@)) == loaded_contents(rv.take(i as int)),
                crate::assoc::distinct_keys(assoc_view(contents@)),
                crate::assoc::distinct_keys(assoc_view(images@)),
            decreases read.len() - i,
        {
            assert(rv.take(i + 1).drop_last() =~= rv.take(i as int));
            assert(rv.take(i + 1).last() == (read@[i as int].0@, read@[i as int].1));
            let path = &read[i].0;
            match &read[i].1 {
                FileContent::Text(t) => {
                    proof {
                        crate::assoc::lemma_insert_entry(assoc_view(contents@), path@, t@);
                    }
                    insert_assoc(&mut contents, path.clone(), t.clone());
                },
                FileContent::Binary(b) => {
                    if is_image_file(path.as_str()) {
                        assert(b.len() <= usize::MAX / 2) by {
                            assert(match read@[i as int].1 {
                                FileContent::Binary(bb) => bb.len() <= usize::MAX / 2,
                                FileContent::Text(_) => true,
                            });
                        }
                        let url = data_url_of(b.as_slice());
                        proof {
                            crate::assoc::lemma_insert_entry(assoc_view(images@), path@, url@);
                        }
                        insert_assoc(&mut images, path.clone(), url);
                    }
                },
            }
            i = i + 1;
        }
        assert(rv.take(read.len() as int) =~= rv);
        self.project_files = files;
        self.file_contents = contents;
        self.image_cache = images;
        self.modified_files = Vec::new();
        let mut tabs_v: Vec<String> = Vec::new();
        tabs_v.push(main_file.clone());
        self.open_files = tabs_v;
        assert(tabs(*self) =~= seq![main_file@]);
        self.active_file = Some(main_file);
        self.current_project = Some(project);
    }

    /// Leaves the open project for the home page; the files stay as they
    /// are until another project is loaded.
    pub fn close_project(&mut self)
        ensures
            old(self).wf() ==> final(self).wf(),
            final(self).current_project is None,
            same_panels(*old(self), *final(self)),
            final(self).project_files == old(self).project_files,
            final(self).file_contents == old(self).file_contents,
            final(self).image_cache == old(self).image_cache,
            final(self).modified_files == old(self).modified_files,
            final(self).open_files == old(self).open_files,
            final(self).active_file == old(self).active_file,
    {
        self.current_project = None;
    }

    /// A project is open.
    pub fn has_project(&self) -> (r: bool)
        ensures
            r == self.current_project is Some,
    {
        self.current_project.is_some()
    }
}

/// The project's file list after adding `p`: unchanged where it is listed;
/// otherwise `p` is added and the list sorted.
pub open spec fn file_added(before: Seq<Seq<char>>, after: Seq<Seq<char>>, p: Seq<char>) -> bool {
    if before.contains(p) {
        after == before
    } else {
        strings_sorted(after) && after.to_multiset() == before.push(p).to_multiset()
    }
}

/// The value of key `k`, if any.
pub open spec fn lookup<V>(m: Seq<(Seq<char>, V)>, k: Seq<char>) -> Option<V> {
    match key_index(m, k) {
        Some(i) => Some(m[i].1),
        None => None,
    }
}

/// The font size one step smaller, not below 8.
pub open spec fn smaller_font(s: u32) -> u32 {
    if s <= 9 {
        8
    } else {
        (s - 1) as u32
    }
}

/// The font size one step larger, not above 32.
pub open spec fn larger_font(s: u32) -> u32 {
    if s + 1 >= 32 {
        32
    } else {
        (s + 1) as u32
    }
}

impl AppState {
    fn list_file(&mut self, path: &str)
        ensures
            file_added(strings_view(old(self).project_files@), strings_view(final(self).project_files@), path@),
            final(self).file_contents == old(self).file_contents,
            final(self).image_cache == old(self).image_cache,
            final(self).open_files == old(self).open_files,
            final(self).active_file == old(self).active_file,
            final(self).modified_files == old(self).modified_files,
            same_settings(*old(self), *final(self)),
    {
        if !contains_string(&self.project_files, path) {
            let mut files: Vec<String> = Vec::new();
            std::mem::swap(&mut files, &mut self.project_files);
            let ghost before = strings_view(files@);
            files.push(path.to_owned());
            assert(strings_view(files@) =~= before.push(path@));
            self.project_files = sort_strings(files);
        }
    }

    /// Adds a text file to the project, new or uploaded: its path joins the
    /// file list (sorted again) unless listed, and its text is recorded.
    pub fn add_text_file(&mut self, path: &str, text: String)
        ensures
            old(self).wf() ==> final(self).wf(),
            file_added(strings_view(old(self).project_files@), strings_view(final(self).project_files@), path@),
            assoc_view(final(self).file_contents@) == insert_entry(assoc_view(old(self).file_contents@), path@, text@),
            final(self).image_cache == old(self).image_cache,
            final(self).open_files == old(self).open_files,
            final(self).active_file == old(self).active_file,
            final(self).modified_files == old(self).modified_files,
            same_settings(*old(self), *final(self)),
    {
        proof {
            if self.wf() {
                crate::assoc::lemma_insert_entry(assoc_view(self.file_contents@), path@, text@);
            }
        }
        self.list_file(path);
        insert_assoc(&mut self.file_contents, path.to_owned(), text);
    }

    /// Adds an uploaded binary file to the project: its path joins the file
    /// list (sorted again) unless listed, and an image is recorded by its
    /// data URL.
    pub fn add_binary_file(&mut self, path: &str, bytes: &[u8])
        requires
            bytes.len() <= usize::MAX / 2,
        ensures
            old(self).wf() ==> final(self).wf(),
            file_added(strings_view(old(self).project_files@), strings_view(final(self).project_files@), path@),
            assoc_view(final(self).image_cache@) == if ends_with_any(lowercase(path@), image_extensions()) {
                insert_entry(assoc_view(old(self).image_cache@), path@, image_data_url(bytes@))
            } else {
                assoc_view(old(self).image_cache@)
            },
            final(self).file_contents == old(self).file_contents,
            final(self).open_files == old(self).open_files,
            final(self).active_file == old(self).active_file,
            final(self).modified_files == old(self).modified_files,
            same_settings(*old(self), *final(self)),
    {
        proof {
            if self.wf() {
                crate::assoc::lemma_insert_entry(assoc_view(self.image_cache@), path@, image_data_url(bytes@));
            }
        }
        self.list_file(path);
        if is_image_file(path) {
            let url = data_url_of(bytes);
            insert_assoc(&mut self.image_cache, path.to_owned(), url);
        }
    }

    /// Removes a deleted file from the project: from the file list, its
    /// text, and its tab, as closing it does.
    pub fn remove_file(&mut self, path: &str)
        ensures
            old(self).wf() ==> final(self).wf(),
            strings_view(final(self).project_files@) == closed(strings_view(old(self).project_files@), path@),
            assoc_view(final(self).file_contents@) == remove_entry(assoc_view(old(self).file_contents@), path@),
            tabs(*final(self)) == closed(tabs(*old(self)), path@),
            opt_view(final(self).active_file) == active_after_close(
                opt_view(old(self).active_file),
                tabs(*old(self)),
                path@,
            ),
            final(self).image_cache == old(self).image_cache,
            final(self).modified_files == old(self).modified_files,
            same_settings(*old(self), *final(self)),
    {
        proof {
            if self.wf() {
                crate::assoc::lemma_remove_entry_distinct(assoc_view(self.file_contents@), path@);
            }
        }
        let ghost start = strings_view(self.project_files@);
        let mut kept: Vec<String> = Vec::new();
        let mut i: usize = 0;
        while i < self.project_files.len()
            invariant
                i <= self.project_files.len(),
                start == strings_view(self.project_files@),
                strings_view(kept@) == closed(start.take(i as int), path@),
            decreases self.project_files.len() - i,
        {
            assert(start.take(i + 1).drop_last() =~= start.take(i as int));
            assert(start.take(i + 1).last() == self.project_files@[i as int]@);
            if !str_equal(self.project_files[i].as_str(), path) {
                let ghost before = strings_view(kept@);
                kept.push(self.project_files[i].clone());
                assert(strings_view(kept@) =~= before.push(self.project_files@[i as int]@));
            }
            i = i + 1;
        }
        assert(start.take(start.len() as int) =~= start);
        self.project_files = kept;
        remove_assoc(&mut self.file_contents, path);
        self.close_file(path);
    }

    /// The texts the editor shows after a project is opened: the active
    /// file's text, where it has one, and the bibliography `refs.yml` (empty
    /// where there is none).
    pub fn editor_texts(&self) -> (r: (Option<String>, String))
        ensures
            match opt_view(self.active_file) {
                Some(a) => match lookup(assoc_view(self.file_contents@), a) {
                    Some(t) => r.0 matches Some(x) && x@ == t,
                    None => r.0 is None,
                },
                None => r.0 is None,
            },
            r.1@ == match lookup(assoc_view(self.file_contents@), "refs.yml"@) {
                Some(t) => t,
                None => Seq::empty(),
            },
    {
        proof {
            lemma_key_index(assoc_view(self.file_contents@), "refs.yml"@);
            match opt_view(self.active_file) {
                Some(a) => lemma_key_index(assoc_view(self.file_contents@), a),
                None => {},
            }
        }
        let main = match &self.active_file {
            Some(a) => match find_key(&self.file_contents, a.as_str()) {
                Some(i) => Some(self.file_contents[i].1.clone()),
                None => None,
            },
            None => None,
        };
        let bib = match find_key(&self.file_contents, "refs.yml") {
            Some(i) => self.file_contents[i].1.clone(),
            None => String::new(),
        };
        (main, bib)
    }

    /// Clears a file's modified mark once it is saved.
    pub fn mark_saved(&mut self, path: &str)
        ensures
            old(self).wf() ==> final(self).wf(),
            strings_view(final(self).modified_files@) == closed(strings_view(old(self).modified_files@), path@),
            final(self).project_files == old(self).project_files,
            final(self).file_contents == old(self).file_contents,
            final(self).image_cache == old(self).image_cache,
            final(self).open_files == old(self).open_files,
            final(self).active_file == old(self).active_file,
            same_settings(*old(self), *final(self)),
    {
        let ghost start = strings_view(self.modified_files@);
        let mut kept: Vec<String> = Vec::new();
        let mut i: usize = 0;
        while i < self.modified_files.len()
            invariant
                i <= self.modified_files.len(),
                start == strings_view(self.modified_files@),
                strings_view(kept@) == closed(start.take(i as int), path@),
            decreases self.modified_files.len() - i,
        {
            assert(start.take(i + 1).drop_last() =~= start.take(i as int));
            assert(start.take(i + 1).last() == self.modified_files@[i as int]@);
            if !str_equal(self.modified_files[i].as_str(), path) {
                let ghost before = strings_view(kept@);
                kept.push(self.modified_files[i].clone());
                assert(strings_view(kept@) =~= before.push(self.modified_files@[i as int]@));
            }
            i = i + 1;
        }
        assert(start.take(start.len() as int) =~= start);
        self.modified_files = kept;
    }

    /// Turns autosave on or off; gives the setting's new text.
    pub fn toggle_autosave(&mut self) -> (r: &'static str)
        ensures
            old(self).wf() ==> final(self).wf(),
            final(self).autosave_enabled == !old(self).autosave_enabled,
            r@ == if final(self).autosave_enabled { "true"@ } else { "false"@ },
            final(self).editor_font_size == old(self).editor_font_size,
            final(self).theme_mode == old(self).theme_mode,
    {
        self.autosave_enabled = !self.autosave_enabled;
        if self.autosave_enabled {
            "true"
        } else {
            "false"
        }
    }

    /// Makes the editor's font one step smaller, not below 8; gives the
    /// setting's new text.
    pub fn decrease_font_size(&mut self) -> (r: String)
        ensures
            old(self).wf() ==> final(self).wf(),
            final(self).editor_font_size == smaller_font(old(self).editor_font_size),
            r@ == radix_digits(final(self).editor_font_size as nat, 10),
            final(self).autosave_enabled == old(self).autosave_enabled,
            final(self).theme_mode == old(self).theme_mode,
    {
        let s = self.editor_font_size;
        self.editor_font_size = if s <= 9 {
            8
        } else {
            s - 1
        };
        string_of(&format_radix(self.editor_font_size as u128, 10))
    }

    /// Makes the editor's font one step larger, not above 32; gives the
    /// setting's new text.
    pub fn increase_font_size(&mut self) -> (r: String)
        requires
            old(self).editor_font_size < u32::MAX,
        ensures
            old(self).wf() ==> final(self).wf(),
            final(self).editor_font_size == larger_font(old(self).editor_font_size),
            r@ == radix_digits(final(self).editor_font_size as nat, 10),
            final(self).autosave_enabled == old(self).autosave_enabled,
            final(self).theme_mode == old(self).theme_mode,
    {
        let s = self.editor_font_size + 1;
        self.editor_font_size = if s >= 32 {
            32
        } else {
            s
        };
        string_of(&format_radix(self.editor_font_size as u128, 10))
    }
}

/// The data URL of an image's bytes.
fn data_url_of(bytes: &[u8]) -> (r: String)
    requires
        bytes.len() <= usize::MAX / 2,
    ensures
        r@ == image_data_url(bytes@),
{
    let mut v = chars_of("data:application/octet-stream;base64,");
    let encoded = base64_encode(bytes);
    append_chars(&mut v, &chars_of(encoded.as_str()));
    string_of(&v)
}

/// The index of the first string equal to `x`.
fn position_of(v: &Vec<String>, x: &str) -> (r: Option<usize>)
    ensures
        match first_of(strings_view(v@), x@) {
            Some(i) => r matches Some(k) && k as int == i,
            None => r is None,
        },
{
    proof {
        lemma_first_of(strings_view(v@), x@);
    }
    let mut i: usize = 0;
    while i < v.len()
        invariant
            i <= v.len(),
            forall|j: int| 0 <= j < i ==> strings_view(v@)[j] != x@,
        decreases v.len() - i,
    {
        if str_equal(v[i].as_str(), x) {
            proof {
                lemma_first_of_at(strings_view(v@), x@, i as int);
            }
            return Some(i);
        }
        i = i + 1;
    }
    proof {
        lemma_first_of_none(strings_view(v@), x@);
    }
    None
}

proof fn lemma_first_of_at(v: Seq<Seq<char>>, x: Seq<char>, i: int)
    requires
        0 <= i < v.len(),
        v[i] == x,
        forall|j: int| 0 <= j < i ==> v[j] != x,
    ensures
        first_of(v, x) == Some(i),
    decreases i,
{
    if i > 0 {
        lemma_first_of_at(v.drop_first(), x, i - 1);
    }
}

proof fn lemma_first_of_none(v: Seq<Seq<char>>, x: Seq<char>)
    requires
        forall|j: int| 0 <= j < v.len() ==> v[j] != x,
    ensures
        first_of(v, x) is None,
    decreases v.len(),
{
    if v.len() > 0 {
        lemma_first_of_none(v.drop_first(), x);
    }
}

/// Moves the entry of key `old` to key `new`, keeping its value.
fn rename_entry(m: &mut Vec<(String, String)>, old_key: &str, new_key: &str)
    ensures
        assoc_view(final(m)@) == renamed_entry(assoc_view(old(m)@), old_key@, new_key@),
{
    proof {
        lemma_key_index(assoc_view(m@), old_key@);
    }
    let ghost m0 = assoc_view(m@);
    match find_key(m, old_key) {
        Some(i) => {
            let value = m[i].1.clone();
            assert(value@ == m0[i as int].1);
            proof {
                assert(m0.len() == m@.len());
                match key_index(m0, old_key@) {
                    Some(j) => {
                        assert(0 <= j < m0.len());
                        assert(i as int == j);
                    },
                    None => {
                        assert(false);
                    },
                }
            }
            remove_assoc(m, old_key);
            assert(assoc_view(m@) == remove_entry(m0, old_key@));
            insert_assoc(m, new_key.to_owned(), value);
            assert(assoc_view(m@) == insert_entry(remove_entry(m0, old_key@), new_key@, m0[i as int].1));
        },
        None => {},
    }
}

/// Closing a file that was just opened, and had no tab before, leaves the
/// tabs as they were.
pub proof fn law_open_then_close(tabs: Seq<Seq<char>>, p: Seq<char>)
    requires
        !tabs.contains(p),
    ensures
        closed(opened(tabs, p), p) == tabs,
{
    lemma_closed_without(tabs, p);
    assert(opened(tabs, p).drop_last() =~= tabs);
}

proof fn lemma_closed_without(tabs: Seq<Seq<char>>, p: Seq<char>)
    requires
        !tabs.contains(p),
    ensures
        closed(tabs, p) == tabs,
    decreases tabs.len(),
{
    if tabs.len() > 0 {
        assert(!tabs.drop_last().contains(p)) by {
            if tabs.drop_last().contains(p) {
                let k = choose|k: int| 0 <= k < tabs.len() - 1 && tabs.drop_last()[k] == p;
                assert(tabs[k] == p);
            }
        }
        lemma_closed_without(tabs.drop_last(), p);
        assert(tabs.last() != p) by {
            assert(tabs[tabs.len() - 1] == tabs.last());
        }
        assert(tabs.drop_last().push(tabs.last()) =~= tabs);
    }
}

proof fn lemma_closed_shape(tabs: Seq<Seq<char>>, p: Seq<char>)
    ensures
        !closed(tabs, p).contains(p),
        forall|x: Seq<char>| x != p ==> (closed(tabs, p).contains(x) <==> tabs.contains(x)),
        no_dups(tabs) ==> no_dups(closed(tabs, p)),
    decreases tabs.len(),
{
    if tabs.len() > 0 {
        let init = tabs.drop_last();
        lemma_closed_shape(init, p);
        let rest = closed(init, p);
        assert forall|x: Seq<char>| x != p implies (closed(tabs, p).contains(x) <==> tabs.contains(x)) by {
            if tabs.contains(x) {
                let k = choose|k: int| 0 <= k < tabs.len() && tabs[k] == x;
                if k < tabs.len() - 1 {
                    assert(init[k] == x);
                    assert(init.contains(x));
                    assert(rest.contains(x));
                    if tabs.last() != p {
                        let j = choose|j: int| 0 <= j < rest.len() && rest[j] == x;
                        assert(rest.push(tabs.last())[j] == x);
                    }
                } else {
                    assert(closed(tabs, p) == rest.push(tabs.last()));
                    assert(rest.push(tabs.last())[rest.len() as int] == x);
                }
            }
            if closed(tabs, p).contains(x) {
                let j = choose|j: int| 0 <= j < closed(tabs, p).len() && closed(tabs, p)[j] == x;
                if tabs.last() != p && j == rest.len() {
                    assert(tabs[tabs.len() - 1] == x);
                } else {
                    assert(rest[j] == x);
                    assert(rest.contains(x));
                    assert(init.contains(x));
                    let k = choose|k: int| 0 <= k < init.len() && init[k] == x;
                    assert(tabs[k] == x);
                }
            }
        }
        if closed(tabs, p).contains(p) {
            let j = choose|j: int| 0 <= j < closed(tabs, p).len() && closed(tabs, p)[j] == p;
            if tabs.last() != p && j == rest.len() {
            } else {
                assert(rest[j] == p);
            }
        }
        if no_dups(tabs) {
            assert(no_dups(init)) by {
                assert forall|i: int, j: int| 0 <= i < j < init.len() implies init[i] != init[j] by {
                    assert(init[i] == tabs[i] && init[j] == tabs[j]);
                }
            }
            if tabs.last() != p {
                assert(!init.contains(tabs.last())) by {
                    if init.contains(tabs.last()) {
                        let k = choose|k: int| 0 <= k < init.len() && init[k] == tabs.last();
                        assert(tabs[k] == tabs[tabs.len() - 1]);
                    }
                }
                assert(!rest.contains(tabs.last()));
                let c = rest.push(tabs.last());
                assert forall|i: int, j: int| 0 <= i < j < c.len() implies c[i] != c[j] by {
                    if j == rest.len() {
                        assert(rest[i] == c[i]);
                    } else {
                        assert(rest[i] == c[i] && rest[j] == c[j]);
                    }
                }
            }
        }
    }
}

/// Opening a file gives it exactly one tab and makes it active; the tabs
/// never hold a file twice.
pub proof fn law_open_file(tabs: Seq<Seq<char>>, p: Seq<char>)
    requires
        no_dups(tabs),
    ensures
        no_dups(opened(tabs, p)),
        opened(tabs, p).contains(p),
        forall|x: Seq<char>| tabs.contains(x) ==> opened(tabs, p).contains(x),
{
    if !tabs.contains(p) {
        let o = tabs.push(p);
        assert(o[tabs.len() as int] == p);
        assert forall|i: int, j: int| 0 <= i < j < o.len() implies o[i] != o[j] by {
            if j == tabs.len() {
                assert(tabs[i] == o[i]);
            } else {
                assert(tabs[i] == o[i] && tabs[j] == o[j]);
            }
        }
        assert forall|x: Seq<char>| tabs.contains(x) implies o.contains(x) by {
            let k = choose|k: int| 0 <= k < tabs.len() && tabs[k] == x;
            assert(o[k] == x);
        }
    }
}

/// Closing a file takes away its tab and keeps every other tab; the file is
/// active no longer, and the active file, where there is one, has a tab.
pub proof fn law_close_file(tabs: Seq<Seq<char>>, active: Option<Seq<char>>, p: Seq<char>)
    requires
        no_dups(tabs),
        active matches Some(a) ==> tabs.contains(a),
    ensures
        no_dups(closed(tabs, p)),
        !closed(tabs, p).contains(p),
        forall|x: Seq<char>| x != p ==> (closed(tabs, p).contains(x) <==> tabs.contains(x)),
        active_after_close(active, tabs, p) != Some(p),
        active_after_close(active, tabs, p) matches Some(a) ==> closed(tabs, p).contains(a),
{
    lemma_closed_shape(tabs, p);
    let kept = closed(tabs, p);
    if active == Some(p) && kept.len() > 0 {
        assert(kept[kept.len() - 1] == kept.last());
        assert(kept.contains(kept.last()));
    }
}

/// After an edit the file holds the edited text and is marked as modified.
pub proof fn law_edit_then_read(contents: Seq<(Seq<char>, Seq<char>)>, modified: Seq<Seq<char>>, p: Seq<char>, text: Seq<char>)
    requires
        crate::assoc::distinct_keys(contents),
    ensures
        key_index(insert_entry(contents, p, text), p) matches Some(i) && insert_entry(contents, p, text)[i].1 == text,
        set_insert(modified, p).contains(p),
{
    crate::assoc::lemma_insert_entry(contents, p, text);
    if !modified.contains(p) {
        assert(modified.push(p)[modified.len() as int] == p);
    }
}

/// The bytes of an image's data URL, read back, are the image's bytes.
pub proof fn law_image_data_url_round_trip(bytes: Seq<u8>)
    ensures
        data_url_bytes(image_data_url(bytes)) == bytes,
{
    let prefix = "data:application/octet-stream;base64,"@;
    reveal_strlit("data:application/octet-stream;base64,");
    let u = image_data_url(bytes);
    let k = prefix.len() - 1;
    assert(u[k] == ',');
    assert forall|j: int| 0 <= j < k implies u[j] != ',' by {
        assert(u[j] == prefix[j]);
    }
    crate::text::lemma_first_index_of(u, ',');
    match first_index_of(u, ',') {
        Some(i) => {
            assert(i == k);
        },
        None => {},
    }
    assert(u.skip(k + 1) =~= base64_text(bytes));
    let chosen = choose|b: Seq<u8>| base64_text(b) == base64_text(bytes);
    crate::encoding::lemma_base64_injective(chosen, bytes);
}

proof fn lemma_lookup_removed<V>(m: Seq<(Seq<char>, V)>, k: Seq<char>, x: Seq<char>)
    requires
        crate::assoc::distinct_keys(m),
    ensures
        crate::assoc::distinct_keys(remove_entry(m, k)),
        x == k ==> lookup(remove_entry(m, k), x) is None,
        x != k ==> lookup(remove_entry(m, k), x) == lookup(m, x),
{
    lemma_key_index(m, k);
    lemma_key_index(m, x);
    let r = remove_entry(m, k);
    lemma_key_index(r, x);
    match key_index(m, k) {
        Some(i) => {
            assert forall|a: int, b: int| 0 <= a < b < r.len() implies r[a].0 != r[b].0 by {
                let a2 = if a < i { a } else { a + 1 };
                let b2 = if b < i { b } else { b + 1 };
                assert(r[a] == m[a2]);
                assert(r[b] == m[b2]);
            }
            if x == k {
                assert forall|j: int| 0 <= j < r.len() implies r[j].0 != x by {
                    let j2 = if j < i { j } else { j + 1 };
                    assert(r[j] == m[j2]);
                }
            } else {
                match key_index(m, x) {
                    Some(a) => {
                        let a2 = if a < i { a } else { a - 1 };
                        assert(r[a2] == m[a]);
                        assert forall|j: int| 0 <= j < a2 implies r[j].0 != x by {
                            let j2 = if j < i { j } else { j + 1 };
                            assert(r[j] == m[j2]);
                        }
                    },
                    None => {
                        assert forall|j: int| 0 <= j < r.len() implies r[j].0 != x by {
                            let j2 = if j < i { j } else { j + 1 };
                            assert(r[j] == m[j2]);
                        }
                    },
                }
            }
        },
        None => {},
    }
}

proof fn lemma_lookup_inserted<V>(m: Seq<(Seq<char>, V)>, k: Seq<char>, v: V, x: Seq<char>)
    requires
        crate::assoc::distinct_keys(m),
    ensures
        crate::assoc::distinct_keys(insert_entry(m, k, v)),
        lookup(insert_entry(m, k, v), k) == Some(v),
        x != k ==> lookup(insert_entry(m, k, v), x) == lookup(m, x),
{
    crate::assoc::lemma_insert_entry(m, k, v);
    if x != k {
        lemma_key_index(m, k);
        lemma_key_index(m, x);
        match key_index(m, x) {
            Some(b) => {
                assert(insert_entry(m, k, v)[b] == m[b]);
            },
            None => {},
        }
    }
}

/// Moving a file carries its entry to the new path: the new path holds what
/// the old one held and the old path holds nothing; every other path keeps
/// its entry, and the paths stay distinct. Where the old path held nothing,
/// nothing changes.
pub proof fn law_move_then_read<V>(m: Seq<(Seq<char>, V)>, old: Seq<char>, new: Seq<char>, x: Seq<char>)
    requires
        crate::assoc::distinct_keys(m),
        old != new,
    ensures
        crate::assoc::distinct_keys(renamed_entry(m, old, new)),
        lookup(m, old) matches Some(v) ==> lookup(renamed_entry(m, old, new), new) == Some(v)
            && lookup(renamed_entry(m, old, new), old) is None,
        lookup(m, old) is None ==> renamed_entry(m, old, new) == m,
        x != old && x != new ==> lookup(renamed_entry(m, old, new), x) == lookup(m, x),
{
    match key_index(m, old) {
        Some(i) => {
            let r = remove_entry(m, old);
            lemma_lookup_removed(m, old, old);
            lemma_lookup_removed(m, old, x);
            lemma_lookup_inserted(r, new, m[i].1, old);
            lemma_lookup_inserted(r, new, m[i].1, x);
        },
        None => {},
    }
}

} // verus!
