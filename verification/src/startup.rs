//! What the editor does with storage when it starts: it carries data of the
//! earlier format over into a new project (once), and creates the demo
//! project (once). Each is a run of steps: the run says what to do next,
//! the caller does it against storage and hands back what happened.
use vstd::prelude::*;
use crate::project::FileContent;
use crate::records::content_parts;
use crate::state::opt_view;
use crate::storage::{bib_entry, migration_files, old_image_files, old_images_view, source_entry};
use crate::text::{chars_of, string_of};

verus! {

/// What the caller is to do next.
pub enum StartupAction {
    /// Read the earlier format's source, bibliography and images.
    ReadOldData,
    /// Create a project with this name.
    CreateProject(String),
    /// Write this file of the created project.
    WriteFile(String, FileContent),
    /// Make this file the main file of the project with this id.
    SetMainFile(String, String),
    /// Save these settings (key and value, in order), then end with this
    /// result: the id of a project made, if any, or the error.
    Finish(Vec<(String, String)>, Result<Option<String>, String>),
}

/// What the caller reports after a step.
pub enum StartupEvent {
    /// The project was created, with this id, or the error.
    Created(Result<String, String>),
    /// The file was written, or the error.
    Written(Result<(), String>),
    /// The main file was set, or the error.
    MainFileSet(Result<(), String>),
}

/// A file as its path and its content, text or bytes.
pub open spec fn file_view(f: (String, FileContent)) -> (Seq<char>, (bool, Seq<char>, Seq<u8>)) {
    (f.0@, content_parts(f.1))
}

/// Settings as keys and values.
pub open spec fn settings_view(v: Seq<(String, String)>) -> Seq<(Seq<char>, Seq<char>)> {
    v.map_values(|e: (String, String)| (e.0@, e.1@))
}

/// The key of the setting that marks the earlier format's data as carried
/// over.
pub open spec fn migrated_key() -> Seq<char> {
    "migration_v2_done"@
}

/// The key of the setting that marks the demo project as created.
pub open spec fn demo_key() -> Seq<char> {
    "demo_ss_notes_created"@
}

/// The action is the end with these settings and this result.
pub open spec fn finishes(
    r: StartupAction,
    settings: Seq<(Seq<char>, Seq<char>)>,
    result: Result<Option<Seq<char>>, Seq<char>>,
) -> bool {
    r matches StartupAction::Finish(s, res) && settings_view(s@) == settings && match (res, result) {
        (Ok(Some(id)), Ok(Some(want))) => id@ == want,
        (Ok(None), Ok(None)) => true,
        (Err(e), Err(want)) => e@ == want,
        _ => false,
    }
}

/// A run of startup steps: what it creates the project for (the demo, or
/// the earlier format's data), the created project's id, the files to
/// write, and how many are written.
pub struct StartupRun {
    pub demo: bool,
    pub project: Option<String>,
    pub files: Vec<(String, FileContent)>,
    pub next: usize,
}

fn copy_content(c: &FileContent) -> (r: FileContent)
    ensures
        content_parts(r) == content_parts(*c),
{
    match c {
        FileContent::Text(t) => FileContent::Text(string_of(&chars_of(t.as_str()))),
        FileContent::Binary(b) => FileContent::Binary(vstd::slice::slice_to_vec(b.as_slice())),
    }
}

fn no_settings() -> (r: Vec<(String, String)>)
    ensures
        settings_view(r@) == Seq::<(Seq<char>, Seq<char>)>::empty(),
{
    let r: Vec<(String, String)> = Vec::new();
    assert(settings_view(r@) =~= Seq::<(Seq<char>, Seq<char>)>::empty());
    r
}

fn string_pair(key: &str, value: &str) -> (r: (String, String))
    ensures
        r.0@ == key@,
        r.1@ == value@,
{
    (string_of(&chars_of(key)), string_of(&chars_of(value)))
}

/// The first step of carrying the earlier format's data over: nothing to do
/// where its setting says it was done; otherwise read the old data.
pub fn migration_begin(done: bool) -> (r: StartupAction)
    ensures
        done ==> finishes(r, Seq::empty(), Ok(None)),
        !done ==> r is ReadOldData,
{
    if done {
        StartupAction::Finish(no_settings(), Ok(None))
    } else {
        StartupAction::ReadOldData
    }
}

/// The files the earlier format's data becomes: the source as `main.typ`
/// and the bibliography as `refs.yml` where they were kept, then the images
/// that give a file.
pub open spec fn migrated_files(
    old_source: Option<String>,
    old_bib: Option<String>,
    old_images: Seq<(String, Option<String>, Option<String>)>,
) -> Seq<(Seq<char>, (bool, Seq<char>, Seq<u8>))> {
    (source_entry(old_source) + bib_entry(old_bib)).map_values(
        |e: (Seq<char>, Seq<char>)| (e.0, (true, e.1, Seq::<u8>::empty())),
    ) + old_image_files(old_images_view(old_images)).map_values(
        |e: (Seq<char>, Seq<u8>)| (e.0, (false, Seq::<char>::empty(), e.1)),
    )
}

/// The step after the old data is read: where there was none, mark the
/// data as carried over and end; otherwise create the project `My Project`
/// and keep the files to write.
pub fn migration_plan(
    old_source: Option<String>,
    old_bib: Option<String>,
    old_images: &[(String, Option<String>, Option<String>)],
) -> (r: (StartupAction, StartupRun))
    ensures
        (old_source is None && old_bib is None && old_images.len() == 0) ==> finishes(
            r.0,
            seq![(migrated_key(), "true"@)],
            Ok(None),
        ),
        !(old_source is None && old_bib is None && old_images.len() == 0) ==> {
            &&& r.0 matches StartupAction::CreateProject(name) && name@ == "My Project"@
            &&& !r.1.demo && r.1.project is None && r.1.next == 0
            &&& r.1.files@.map_values(|f: (String, FileContent)| file_view(f)) == migrated_files(
                old_source,
                old_bib,
                old_images@,
            )
        },
{
    let ghost src = old_source;
    let ghost bib = old_bib;
    match migration_files(old_source, old_bib, old_images) {
        None => {
            let mut settings: Vec<(String, String)> = Vec::new();
            settings.push(string_pair("migration_v2_done", "true"));
            proof {
                reveal_strlit("migration_v2_done");
                reveal_strlit("true");
                assert(settings_view(settings@) =~= seq![(migrated_key(), "true"@)]);
            }
            let run = StartupRun { demo: false, project: None, files: Vec::new(), next: 0 };
            (StartupAction::Finish(settings, Ok(None)), run)
        },
        Some((texts, images)) => {
            let ghost tv = crate::assoc::assoc_view(texts@);
            let ghost iv = crate::assoc::assoc_view(images@);
            let mut files: Vec<(String, FileContent)> = Vec::new();
            let mut i: usize = 0;
            while i < texts.len()
                invariant
                    i <= texts.len(),
                    tv == crate::assoc::assoc_view(texts@),
                    files@.map_values(|f: (String, FileContent)| file_view(f)) == tv.take(i as int).map_values(
                        |e: (Seq<char>, Seq<char>)| (e.0, (true, e.1, Seq::<u8>::empty())),
                    ),
                decreases texts.len() - i,
            {
                let ghost before = files@.map_values(|f: (String, FileContent)| file_view(f));
                let path = string_of(&chars_of(texts[i].0.as_str()));
                let text = string_of(&chars_of(texts[i].1.as_str()));
                files.push((path, FileContent::Text(text)));
                assert(files@.map_values(|f: (String, FileContent)| file_view(f)) =~= before.push(
                    (tv[i as int].0, (true, tv[i as int].1, Seq::<u8>::empty())),
                ));
                assert(tv.take(i + 1) =~= tv.take(i as int).push(tv[i as int]));
                i = i + 1;
            }
            assert(tv.take(texts.len() as int) =~= tv);
            let ghost head = files@.map_values(|f: (String, FileContent)| file_view(f));
            let mut j: usize = 0;
            while j < images.len()
                invariant
                    j <= images.len(),
                    iv == crate::assoc::assoc_view(images@),
                    files@.map_values(|f: (String, FileContent)| file_view(f)) == head + iv.take(j as int).map_values(
                        |e: (Seq<char>, Seq<u8>)| (e.0, (false, Seq::<char>::empty(), e.1)),
                    ),
                decreases images.len() - j,
            {
                let ghost before = files@.map_values(|f: (String, FileContent)| file_view(f));
                let path = string_of(&chars_of(images[j].0.as_str()));
                let bytes = vstd::slice::slice_to_vec(images[j].1.as_slice());
                files.push((path, FileContent::Binary(bytes)));
                assert(files@.map_values(|f: (String, FileContent)| file_view(f)) =~= before.push(
                    (iv[j as int].0, (false, Seq::<char>::empty(), iv[j as int].1)),
                ));
                assert(iv.take(j + 1) =~= iv.take(j as int).push(iv[j as int]));
                j = j + 1;
            }
            assert(iv.take(images.len() as int) =~= iv);
            let run = StartupRun { demo: false, project: None, files, next: 0 };
            (StartupAction::CreateProject(string_of(&chars_of("My Project"))), run)
        },
    }
}

/// The first step of creating the demo project: nothing to do where its
/// setting says it was created; otherwise create the project `SS Notes
/// (Demo)`, whose files, in order, are `files`.
pub fn demo_begin(created: bool, files: Vec<(String, FileContent)>) -> (r: (StartupAction, StartupRun))
    ensures
        created ==> finishes(r.0, Seq::empty(), Ok(None)),
        !created ==> (r.0 matches StartupAction::CreateProject(name) && name@ == "SS Notes (Demo)"@),
        r.1.demo && r.1.project is None && r.1.next == 0 && r.1.files == files,
{
    let run = StartupRun { demo: true, project: None, files, next: 0 };
    if created {
        (StartupAction::Finish(no_settings(), Ok(None)), run)
    } else {
        (StartupAction::CreateProject(string_of(&chars_of("SS Notes (Demo)"))), run)
    }
}

/// What a run does once its project exists and `next` files are written:
/// write the next file; after the last, for the demo, make `lec.typ` its
/// main file, and otherwise mark the data as carried over, remember the
/// project as the last one opened, and end with its id.
pub open spec fn next_step(run: StartupRun, r: StartupAction) -> bool {
    let id = opt_view(run.project).unwrap();
    if run.next < run.files.len() {
        r matches StartupAction::WriteFile(p, c) && file_view((p, c)) == file_view(run.files@[run.next as int])
    } else if run.demo {
        r matches StartupAction::SetMainFile(i, m) && i@ == id && m@ == "lec.typ"@
    } else {
        finishes(r, seq![(migrated_key(), "true"@), ("last_project_id"@, id)], Ok(Some(id)))
    }
}

impl StartupRun {
    /// The counters agree: a run writes only once its project exists, and
    /// no more files than it has.
    pub open spec fn wf(&self) -> bool {
        &&& self.next <= self.files.len()
        &&& self.next > 0 ==> self.project is Some
    }

    fn next_action(&self) -> (r: StartupAction)
        requires
            self.wf(),
            self.project is Some,
        ensures
            next_step(*self, r),
    {
        let id = match &self.project {
            Some(p) => p.as_str(),
            None => "",
        };
        if self.next < self.files.len() {
            let (path, content) = &self.files[self.next];
            StartupAction::WriteFile(string_of(&chars_of(path.as_str())), copy_content(content))
        } else if self.demo {
            StartupAction::SetMainFile(string_of(&chars_of(id)), string_of(&chars_of("lec.typ")))
        } else {
            let mut settings: Vec<(String, String)> = Vec::new();
            settings.push(string_pair("migration_v2_done", "true"));
            settings.push(string_pair("last_project_id", id));
            proof {
                reveal_strlit("migration_v2_done");
                reveal_strlit("true");
                reveal_strlit("last_project_id");
                assert(settings_view(settings@) =~= seq![(migrated_key(), "true"@), ("last_project_id"@, id@)]);
            }
            StartupAction::Finish(settings, Ok(Some(string_of(&chars_of(id)))))
        }
    }

    /// Takes in what the last step did. A failure ends the run with its
    /// error and no setting saved. A created project is remembered, and its
    /// first file is written; a written file is counted, and the next is
    /// written; where none is left, the run goes on as `next_step` says. A
    /// demo whose main file is set marks the demo as created and ends.
    pub fn step(&mut self, event: StartupEvent) -> (r: StartupAction)
        requires
            old(self).wf(),
            event is Written ==> old(self).project is Some && old(self).next < old(self).files.len(),
        ensures
            final(self).wf(),
            final(self).demo == old(self).demo,
            final(self).files == old(self).files,
            match event {
                StartupEvent::Created(Err(e)) => finishes(r, Seq::empty(), Err(e@)),
                StartupEvent::Created(Ok(id)) => opt_view(final(self).project) == Some(id@) && final(self).next == old(
                    self,
                ).next && next_step(*final(self), r),
                StartupEvent::Written(Err(e)) => finishes(r, Seq::empty(), Err(e@)),
                StartupEvent::Written(Ok(())) => final(self).project == old(self).project && final(self).next == old(
                    self,
                ).next + 1 && next_step(*final(self), r),
                StartupEvent::MainFileSet(Err(e)) => finishes(r, Seq::empty(), Err(e@)),
                StartupEvent::MainFileSet(Ok(())) => finishes(r, seq![(demo_key(), "true"@)], Ok(None)),
            },
    {
        match event {
            StartupEvent::Created(Err(e)) => StartupAction::Finish(no_settings(), Err(e)),
            StartupEvent::Created(Ok(id)) => {
                self.project = Some(id);
                self.next_action()
            },
            StartupEvent::Written(Err(e)) => StartupAction::Finish(no_settings(), Err(e)),
            StartupEvent::Written(Ok(())) => {
                self.next = self.next + 1;
                self.next_action()
            },
            StartupEvent::MainFileSet(Err(e)) => StartupAction::Finish(no_settings(), Err(e)),
            StartupEvent::MainFileSet(Ok(())) => {
                let mut settings: Vec<(String, String)> = Vec::new();
                settings.push(string_pair("demo_ss_notes_created", "true"));
                proof {
                    reveal_strlit("demo_ss_notes_created");
                    reveal_strlit("true");
                    assert(settings_view(settings@) =~= seq![(demo_key(), "true"@)]);
                }
                StartupAction::Finish(settings, Ok(None))
            },
        }
    }
}

/// The files of the demo project, in the order they are written.
pub fn demo_file_names() -> (r: Vec<String>)
    ensures
        r@.map_values(|s: String| s@) == seq![
            "lec.typ"@,
            "lib.typ"@,
            "math.typ"@,
            "intro.typ"@,
            "lti.typ"@,
            "fourier_series.typ"@,
            "ct_fourier_transform.typ"@,
            "dt_fourier_transform.typ"@,
            "sampling.typ"@,
            "laplace.typ"@,
            "random_process.typ"@,
        ],
{
    let mut v: Vec<String> = Vec::new();
    v.push(string_of(&chars_of("lec.typ")));
    v.push(string_of(&chars_of("lib.typ")));
    v.push(string_of(&chars_of("math.typ")));
    v.push(string_of(&chars_of("intro.typ")));
    v.push(string_of(&chars_of("lti.typ")));
    v.push(string_of(&chars_of("fourier_series.typ")));
    v.push(string_of(&chars_of("ct_fourier_transform.typ")));
    v.push(string_of(&chars_of("dt_fourier_transform.typ")));
    v.push(string_of(&chars_of("sampling.typ")));
    v.push(string_of(&chars_of("laplace.typ")));
    v.push(string_of(&chars_of("random_process.typ")));
    assert(v@.map_values(|s: String| s@) =~= seq![
        "lec.typ"@,
        "lib.typ"@,
        "math.typ"@,
        "intro.typ"@,
        "lti.typ"@,
        "fourier_series.typ"@,
        "ct_fourier_transform.typ"@,
        "dt_fourier_transform.typ"@,
        "sampling.typ"@,
        "laplace.typ"@,
        "random_process.typ"@,
    ]);
    v
}

} // verus!
