//! Installing packages: what the package manager makes of a typed
//! specification and of a download, the installer that works through the
//! packages a compile error misses one at a time and keeps a log, and the
//! packages an automatic installation fetches.
use vstd::prelude::*;
use crate::cache::{cache_has, PackageCache};
use crate::registry::{extract_missing_packages, packages_named, parse_spec, spec_text, tar_url_of, words, PkgSpec, SpecParts};
use crate::state::opt_view;
use crate::storage::strings_view;
use crate::text::{
    append_chars, chars_of, find_chars, find_text, format_radix, is_white_space, radix_digits,
    slice_chars, string_of, white_space,
};

verus! {

// ---------------------------------------------------------------------------
// Text helpers
// ---------------------------------------------------------------------------
/// `s` without its leading white space.
pub open spec fn trim_start_ws(s: Seq<char>) -> Seq<char>
    decreases s.len(),
{
    if s.len() > 0 && white_space(s[0]) {
        trim_start_ws(s.drop_first())
    } else {
        s
    }
}

/// `s` without its trailing white space.
pub open spec fn trim_end_ws(s: Seq<char>) -> Seq<char>
    decreases s.len(),
{
    if s.len() > 0 && white_space(s.last()) {
        trim_end_ws(s.drop_last())
    } else {
        s
    }
}

/// `s` without white space at either end: what `str::trim` leaves.
pub open spec fn trim_ws(s: Seq<char>) -> Seq<char> {
    trim_end_ws(trim_start_ws(s))
}

/// The characters of `s` without white space at either end.
pub fn trim_text(s: &str) -> (r: Vec<char>)
    ensures
        r@ == trim_ws(s@),
{
    let v = chars_of(s);
    let mut i: usize = 0;
    assert(v@.skip(0) =~= v@);
    while i < v.len() && is_white_space(v[i])
        invariant
            v@ == s@,
            i <= v.len(),
            trim_start_ws(v@) == trim_start_ws(v@.skip(i as int)),
        decreases v.len() - i,
    {
        assert(v@.skip(i as int).drop_first() =~= v@.skip(i + 1));
        i = i + 1;
    }
    let mut j = v.len();
    let ghost start = v@.skip(i as int);
    assert(v@.subrange(i as int, j as int) =~= start);
    while j > i && is_white_space(v[j - 1])
        invariant
            i <= j <= v.len(),
            start == v@.skip(i as int),
            trim_end_ws(start) == trim_end_ws(v@.subrange(i as int, j as int)),
        decreases j,
    {
        assert(v@.subrange(i as int, j as int).drop_last() =~= v@.subrange(i as int, j - 1));
        j = j - 1;
    }
    slice_chars(&v, i, j)
}

/// The decimal digits of `n`.
pub open spec fn dec(n: nat) -> Seq<char> {
    radix_digits(n, 10)
}

fn dec_chars(n: usize) -> (r: Vec<char>)
    ensures
        r@ == dec(n as nat),
{
    format_radix(n as u128, 10)
}

/// `s` holds `t`.
pub open spec fn holds_text(s: Seq<char>, t: Seq<char>) -> bool {
    find_text(s, t) is Some
}

fn contains_text(s: &[char], t: &str) -> (r: bool)
    ensures
        r == holds_text(s@, t@),
{
    find_chars(s, &chars_of(t)).is_some()
}

// ---------------------------------------------------------------------------
// The package manager
// ---------------------------------------------------------------------------
/// What the package manager does with the specification typed in.
pub enum InstallRequest {
    /// Nothing was typed.
    Nothing,
    /// The text is no specification.
    Invalid,
    /// The package is in the cache already.
    Installed(PkgSpec),
    /// The package is to be downloaded.
    Download(PkgSpec),
}

/// The package manager's reading of a typed specification: nothing for
/// blank input, invalid where the trimmed text is no specification, and
/// otherwise the package, installed already or to be downloaded.
pub fn install_request(input: &str, cache: &PackageCache) -> (r: InstallRequest)
    ensures
        trim_ws(input@).len() == 0 ==> r is Nothing,
        trim_ws(input@).len() > 0 ==> match parse_spec(trim_ws(input@)) {
            None => r is Invalid,
            Some(p) => if cache_has(cache@, spec_text(p)) {
                r matches InstallRequest::Installed(q) && q@ == p
            } else {
                r matches InstallRequest::Download(q) && q@ == p
            },
        },
{
    let t = trim_text(input);
    if t.len() == 0 {
        return InstallRequest::Nothing;
    }
    match PkgSpec::parse(string_of(&t).as_str()) {
        None => InstallRequest::Invalid,
        Some(spec) => if cache.has_package(&spec) {
            InstallRequest::Installed(spec)
        } else {
            InstallRequest::Download(spec)
        },
    }
}

/// The status line the package manager shows for a request.
pub open spec fn request_status_text(r: InstallRequest) -> Option<Seq<char>> {
    match r {
        InstallRequest::Nothing => None,
        InstallRequest::Invalid => Some("Invalid format. Use @namespace/name:version"@),
        InstallRequest::Installed(p) => Some(spec_text(p@) + " is already installed"@),
        InstallRequest::Download(p) => Some("Downloading "@ + spec_text(p@) + "..."@),
    }
}

impl InstallRequest {
    /// The status line shown for the request, if any.
    pub fn status(&self) -> (m: Option<String>)
        ensures
            opt_view(m) == request_status_text(*self),
    {
        match self {
            InstallRequest::Nothing => None,
            InstallRequest::Invalid => Some(string_of(&chars_of("Invalid format. Use @namespace/name:version"))),
            InstallRequest::Installed(p) => {
                let mut v = p.text_chars();
                append_chars(&mut v, &chars_of(" is already installed"));
                Some(string_of(&v))
            },
            InstallRequest::Download(p) => {
                let mut v = chars_of("Downloading ");
                append_chars(&mut v, &p.text_chars());
                append_chars(&mut v, &chars_of("..."));
                Some(string_of(&v))
            },
        }
    }
}

/// The status line after a download: the package installed with its number
/// of files, the cache's error, or the download's error.
pub fn install_status(spec: &PkgSpec, outcome: &Result<(usize, Result<(), String>), String>) -> (r: String)
    ensures
        r@ == match outcome {
            Ok((n, Ok(()))) => "Installed "@ + spec_text(spec@) + " ("@ + dec(*n as nat) + " files)"@,
            Ok((_, Err(e))) => "Cache error: "@ + e@,
            Err(e) => "Download failed: "@ + e@,
        },
{
    let mut v: Vec<char>;
    match outcome {
        Ok((n, Ok(()))) => {
            v = chars_of("Installed ");
            append_chars(&mut v, &spec.text_chars());
            append_chars(&mut v, &chars_of(" ("));
            append_chars(&mut v, &dec_chars(*n));
            append_chars(&mut v, &chars_of(" files)"));
        },
        Ok((_, Err(e))) => {
            v = chars_of("Cache error: ");
            append_chars(&mut v, &chars_of(e.as_str()));
        },
        Err(e) => {
            v = chars_of("Download failed: ");
            append_chars(&mut v, &chars_of(e.as_str()));
        },
    }
    string_of(&v)
}

/// A status line is shown as an error where it mentions `failed`, `error`
/// or `Invalid`.
pub fn is_error_status(msg: &str) -> (r: bool)
    ensures
        r == (holds_text(msg@, "failed"@) || holds_text(msg@, "error"@) || holds_text(msg@, "Invalid"@)),
{
    let v = chars_of(msg);
    contains_text(&v, "failed") || contains_text(&v, "error") || contains_text(&v, "Invalid")
}

/// The title of an installed package in the list: `namespace/name`.
pub open spec fn package_title_text(p: SpecParts) -> Seq<char> {
    p.0 + seq!['/'] + p.1
}

/// The title the package manager shows for an installed package.
pub fn package_title(spec: &PkgSpec) -> (r: String)
    ensures
        r@ == package_title_text(spec@),
{
    let mut v = chars_of(spec.namespace.as_str());
    v.push('/');
    append_chars(&mut v, &chars_of(spec.name.as_str()));
    string_of(&v)
}

/// The line under an installed package's title: its version and the number
/// of files the cache holds for it.
pub open spec fn package_detail_text(p: SpecParts, n: nat) -> Seq<char> {
    seq!['v'] + p.2 + " - "@ + dec(n) + " files"@
}

/// The detail line of an installed package, with the cache's file count.
pub fn package_detail(spec: &PkgSpec, cache: &PackageCache) -> (r: String)
    ensures
        r@ == package_detail_text(
            spec@,
            match crate::assoc::key_index(cache@, spec_text(spec@)) {
                Some(i) => cache@[i].1.len(),
                None => 0,
            },
        ),
{
    let n = cache.file_count(spec);
    let mut v: Vec<char> = Vec::new();
    v.push('v');
    append_chars(&mut v, &chars_of(spec.version.as_str()));
    append_chars(&mut v, &chars_of(" - "));
    append_chars(&mut v, &dec_chars(n));
    append_chars(&mut v, &chars_of(" files"));
    assert(v@ =~= package_detail_text(spec@, n as nat));
    string_of(&v)
}

/// What a project list shows under a project's name: its number of files.
pub open spec fn file_count_text(n: nat) -> Seq<char> {
    dec(n) + " files"@
}

/// The file count line of a project in the project lists.
pub fn file_count_label(n: usize) -> (r: String)
    ensures
        r@ == file_count_text(n as nat),
{
    let mut v = dec_chars(n);
    append_chars(&mut v, &chars_of(" files"));
    string_of(&v)
}

// ---------------------------------------------------------------------------
// The installer
// ---------------------------------------------------------------------------
/// `s` after a count: `s` unless the count is one.
pub open spec fn plural(n: nat) -> Seq<char> {
    if n != 1 {
        "s"@
    } else {
        Seq::empty()
    }
}

fn plural_chars(n: usize) -> (r: Vec<char>)
    ensures
        r@ == plural(n as nat),
{
    proof {
        reveal_strlit("");
    }
    if n != 1 {
        chars_of("s")
    } else {
        chars_of("")
    }
}

/// The installer's heading: the number of missing packages.
pub open spec fn installer_heading_text(n: nat) -> Seq<char> {
    dec(n) + " missing package"@ + plural(n)
}

/// The installer's heading for `n` missing packages.
pub fn installer_heading(n: usize) -> (r: String)
    ensures
        r@ == installer_heading_text(n as nat),
{
    let mut v = dec_chars(n);
    append_chars(&mut v, &chars_of(" missing package"));
    append_chars(&mut v, &plural_chars(n));
    string_of(&v)
}

/// The first line of an installation's log.
pub open spec fn start_line(n: nat) -> Seq<char> {
    "Starting installation of "@ + dec(n) + " package"@ + plural(n) + "..."@
}

/// The log line of a package whose text is no specification.
pub open spec fn skipped_line(pkg: Seq<char>) -> Seq<char> {
    "Skipping invalid spec: "@ + pkg
}

/// The `[i/total]` tag of the `i`-th package.
pub open spec fn counter(i: nat, total: nat) -> Seq<char> {
    "["@ + dec(i) + "/"@ + dec(total) + "] "@
}

/// The last line of an installation's log.
pub open spec fn summary_line(installed: nat, total: nat) -> Seq<char> {
    if installed == total {
        "All "@ + dec(total) + " packages installed successfully!"@
    } else {
        "Done. "@ + dec(installed) + "/"@ + dec(total) + " packages installed."@
    }
}

/// The progress, in percent, after `done` of `total` packages.
pub open spec fn progress_after(done: nat, total: nat) -> u32 {
    (done * 100 / total) as u32
}

/// The log lines after a package's download: the files extracted (the first
/// five by name, then how many more), and whether the cache took it; or the
/// download's error, with a hint where it looks like a blocked request.
pub open spec fn download_lines(spec: SpecParts, outcome: Result<(Seq<Seq<char>>, Result<(), Seq<char>>), Seq<char>>) -> Seq<Seq<char>> {
    match outcome {
        Ok((names, stored)) => {
            let n = names.len();
            seq!["  Extracted "@ + dec(n) + " files"@] + names.take(if n < 5 { n as int } else { 5 }).map_values(
                |f: Seq<char>| "    "@ + f,
            ) + (if n > 5 {
                seq!["    ... and "@ + dec((n - 5) as nat) + " more"@]
            } else {
                Seq::empty()
            }) + match stored {
                Ok(()) => seq!["  Cached "@ + spec_text(spec) + " successfully"@],
                Err(e) => seq!["  Cache error: "@ + e],
            }
        },
        Err(e) => seq!["  FAILED: "@ + e] + if holds_text(e, "Fetch error"@) || holds_text(e, "TypeError"@) {
            seq![
                "  This is likely a CORS error. The Typst package registry may not allow browser downloads."@,
                "  Workaround: download packages manually and add them via the Package Manager."@,
            ]
        } else {
            Seq::empty()
        },
    }
}

/// A download's outcome as names, the cache's answer and errors.
pub open spec fn outcome_view(o: Result<(Vec<String>, Result<(), String>), String>) -> Result<
    (Seq<Seq<char>>, Result<(), Seq<char>>),
    Seq<char>,
> {
    match o {
        Ok((names, Ok(()))) => Ok((strings_view(names@), Ok(()))),
        Ok((names, Err(e))) => Ok((strings_view(names@), Err(e@))),
        Err(e) => Err(e@),
    }
}

/// An installation of missing packages in progress: the packages by name,
/// the next one to handle, how many are installed, the log, the progress in
/// percent, and whether it is done.
pub struct InstallRun {
    pub packages: Vec<String>,
    pub next: usize,
    pub installed: usize,
    pub log: Vec<String>,
    pub progress: u32,
    pub done: bool,
}

/// What the installer does next.
pub enum InstallStep {
    /// The package's text is no specification; it was skipped.
    Skipped,
    /// The package is in the cache already.
    AlreadyInstalled,
    /// The package is to be downloaded; its outcome is to be recorded.
    Download(PkgSpec),
    /// Every package was handled; the summary is logged.
    Finished,
}

impl InstallRun {
    /// The counters agree with each other and the count allows percentages.
    pub open spec fn wf(&self) -> bool {
        &&& self.next <= self.packages.len()
        &&& self.installed <= self.next
        &&& self.packages.len() <= usize::MAX / 100
    }

    fn push_line(&mut self, line: Vec<char>)
        ensures
            strings_view(final(self).log@) == strings_view(old(self).log@).push(line@),
            final(self).packages == old(self).packages,
            final(self).next == old(self).next,
            final(self).installed == old(self).installed,
            final(self).progress == old(self).progress,
            final(self).done == old(self).done,
    {
        let ghost before = strings_view(self.log@);
        self.log.push(string_of(&line));
        assert(strings_view(self.log@) =~= before.push(line@));
    }

    /// Starts installing the packages: the log announces them, and an empty
    /// list is done at once.
    pub fn start(packages: Vec<String>) -> (r: Self)
        requires
            packages.len() <= usize::MAX / 100,
        ensures
            r.wf(),
            r.packages == packages,
            r.next == 0,
            r.installed == 0,
            r.progress == 0,
            r.done == (packages.len() == 0),
            strings_view(r.log@) == if packages.len() == 0 {
                seq![start_line(0), "No packages to install"@]
            } else {
                seq![start_line(packages.len() as nat)]
            },
    {
        let n = packages.len();
        let mut line = chars_of("Starting installation of ");
        append_chars(&mut line, &dec_chars(n));
        append_chars(&mut line, &chars_of(" package"));
        append_chars(&mut line, &plural_chars(n));
        append_chars(&mut line, &chars_of("..."));
        let mut run = InstallRun { packages, next: 0, installed: 0, log: Vec::new(), progress: 0, done: false };
        assert(strings_view(run.log@) =~= Seq::<Seq<char>>::empty());
        run.push_line(line);
        if n == 0 {
            run.push_line(chars_of("No packages to install"));
            run.done = true;
        }
        run
    }

    /// Handles the next package: skips it where its text is no
    /// specification, counts it where the cache has it, and otherwise asks
    /// for its download; after the last, logs the summary and is done.
    pub fn advance(&mut self, cache: &PackageCache) -> (step: InstallStep)
        requires
            old(self).wf(),
            !old(self).done,
        ensures
            final(self).wf(),
            final(self).packages == old(self).packages,
            ({
                let total = old(self).packages.len();
                let i = old(self).next;
                let log = strings_view(old(self).log@);
                if i == total {
                    &&& step is Finished
                    &&& final(self).done
                    &&& strings_view(final(self).log@) == log.push(summary_line(old(self).installed as nat, total as nat))
                    &&& final(self).next == i && final(self).installed == old(self).installed
                    &&& final(self).progress == old(self).progress
                } else {
                    let pkg = old(self).packages@[i as int]@;
                    &&& !final(self).done
                    &&& match parse_spec(pkg) {
                        None => {
                            &&& step is Skipped
                            &&& strings_view(final(self).log@) == log.push(skipped_line(pkg))
                            &&& final(self).next == i + 1 && final(self).installed == old(self).installed
                            &&& final(self).progress == progress_after((i + 1) as nat, total as nat)
                        },
                        Some(p) => if cache_has(cache@, spec_text(p)) {
                            &&& step is AlreadyInstalled
                            &&& strings_view(final(self).log@) == log.push(
                                counter((i + 1) as nat, total as nat) + spec_text(p) + " already installed"@,
                            )
                            &&& final(self).next == i + 1 && final(self).installed == old(self).installed + 1
                            &&& final(self).progress == progress_after((i + 1) as nat, total as nat)
                        } else {
                            &&& (step matches InstallStep::Download(q) && q@ == p)
                            &&& strings_view(final(self).log@) == log.push(
                                counter((i + 1) as nat, total as nat) + "Downloading "@ + spec_text(p) + "..."@,
                            ).push("  URL: "@ + tar_url_of(p))
                            &&& final(self).next == i && final(self).installed == old(self).installed
                            &&& final(self).progress == old(self).progress
                        },
                    }
                }
            }),
    {
        let total = self.packages.len();
        let i = self.next;
        if i < total {
            assert((i + 1) * 100 <= total * 100) by (nonlinear_arith)
                requires
                    i + 1 <= total,
            ;
        }
        if i == total {
            let mut line: Vec<char>;
            if self.installed == total {
                line = chars_of("All ");
                append_chars(&mut line, &dec_chars(total));
                append_chars(&mut line, &chars_of(" packages installed successfully!"));
            } else {
                line = chars_of("Done. ");
                append_chars(&mut line, &dec_chars(self.installed));
                line.push('/');
                append_chars(&mut line, &dec_chars(total));
                append_chars(&mut line, &chars_of(" packages installed."));
            }
            proof {
                reveal_strlit("/");
            }
            assert(line@ =~= summary_line(self.installed as nat, total as nat));
            self.push_line(line);
            self.done = true;
            return InstallStep::Finished;
        }
        let mut tag = chars_of("[");
        append_chars(&mut tag, &dec_chars(i + 1));
        tag.push('/');
        append_chars(&mut tag, &dec_chars(total));
        append_chars(&mut tag, &chars_of("] "));
        proof {
            reveal_strlit("/");
        }
        assert(tag@ =~= counter((i + 1) as nat, total as nat));
        match PkgSpec::parse(self.packages[i].as_str()) {
            None => {
                let mut line = chars_of("Skipping invalid spec: ");
                append_chars(&mut line, &chars_of(self.packages[i].as_str()));
                self.push_line(line);
                self.next = i + 1;
                self.progress = ((i + 1) * 100 / total) as u32;
                InstallStep::Skipped
            },
            Some(spec) => {
                if cache.has_package(&spec) {
                    let mut line = tag;
                    append_chars(&mut line, &spec.text_chars());
                    append_chars(&mut line, &chars_of(" already installed"));
                    self.push_line(line);
                    self.installed = self.installed + 1;
                    self.next = i + 1;
                    self.progress = ((i + 1) * 100 / total) as u32;
                    InstallStep::AlreadyInstalled
                } else {
                    let mut line = tag;
                    append_chars(&mut line, &chars_of("Downloading "));
                    append_chars(&mut line, &spec.text_chars());
                    append_chars(&mut line, &chars_of("..."));
                    self.push_line(line);
                    let mut url = chars_of("  URL: ");
                    append_chars(&mut url, &chars_of(spec.tar_url().as_str()));
                    self.push_line(url);
                    InstallStep::Download(spec)
                }
            },
        }
    }

    /// Records the outcome of the download `advance` asked for: the files it
    /// gave (by name) and whether the cache took them, or its error; the
    /// package counts as installed where the cache took it. `spec` is the
    /// package the next entry names, the one `advance` asked to download.
    pub fn record_download(&mut self, spec: &PkgSpec, outcome: Result<(Vec<String>, Result<(), String>), String>)
        requires
            old(self).wf(),
            old(self).next < old(self).packages.len(),
            parse_spec(old(self).packages@[old(self).next as int]@) == Some(spec@),
        ensures
            final(self).wf(),
            final(self).packages == old(self).packages,
            final(self).done == old(self).done,
            final(self).next == old(self).next + 1,
            final(self).progress == progress_after((old(self).next + 1) as nat, old(self).packages.len() as nat),
            final(self).installed == old(self).installed + if outcome matches Ok((_, Ok(()))) {
                1int
            } else {
                0int
            },
            strings_view(final(self).log@) == strings_view(old(self).log@) + download_lines(spec@, outcome_view(outcome)),
    {
        let ghost start = strings_view(self.log@);
        let ghost ov = outcome_view(outcome);
        match outcome {
            Ok((names, stored)) => {
                let n = names.len();
                let ghost nv = strings_view(names@);
                let mut line = chars_of("  Extracted ");
                append_chars(&mut line, &dec_chars(n));
                append_chars(&mut line, &chars_of(" files"));
                self.push_line(line);
                let shown = if n < 5 {
                    n
                } else {
                    5
                };
                let mut k: usize = 0;
                let ghost f = |x: Seq<char>| "    "@ + x;
                while k < shown
                    invariant
                        shown <= n == names.len(),
                        nv == strings_view(names@),
                        k <= shown,
                        self.packages == old(self).packages,
                        self.next == old(self).next,
                        self.installed == old(self).installed,
                        self.progress == old(self).progress,
                        self.done == old(self).done,
                        strings_view(self.log@) == start.push("  Extracted "@ + dec(n as nat) + " files"@) + nv.take(k as int).map_values(
                            |x: Seq<char>| "    "@ + x,
                        ),
                    decreases shown - k,
                {
                    let mut l = chars_of("    ");
                    append_chars(&mut l, &chars_of(names[k].as_str()));
                    self.push_line(l);
                    assert(nv.take(k + 1).map_values(|x: Seq<char>| "    "@ + x) =~= nv.take(k as int).map_values(
                        |x: Seq<char>| "    "@ + x,
                    ).push("    "@ + nv[k as int]));
                    k = k + 1;
                }
                if n > 5 {
                    let mut l = chars_of("    ... and ");
                    append_chars(&mut l, &dec_chars(n - 5));
                    append_chars(&mut l, &chars_of(" more"));
                    self.push_line(l);
                }
                match stored {
                    Ok(()) => {
                        let mut l = chars_of("  Cached ");
                        append_chars(&mut l, &spec.text_chars());
                        append_chars(&mut l, &chars_of(" successfully"));
                        self.push_line(l);
                        self.installed = self.installed + 1;
                    },
                    Err(e) => {
                        let mut l = chars_of("  Cache error: ");
                        append_chars(&mut l, &chars_of(e.as_str()));
                        self.push_line(l);
                    },
                }
            },
            Err(e) => {
                let ev = chars_of(e.as_str());
                let mut l = chars_of("  FAILED: ");
                append_chars(&mut l, &ev);
                self.push_line(l);
                if contains_text(&ev, "Fetch error") || contains_text(&ev, "TypeError") {
                    self.push_line(chars_of("  This is likely a CORS error. The Typst package registry may not allow browser downloads."));
                    self.push_line(chars_of("  Workaround: download packages manually and add them via the Package Manager."));
                }
            },
        }
        assert(strings_view(self.log@) =~= start + download_lines(spec@, ov));
        let total = self.packages.len();
        self.next = self.next + 1;
        assert(self.next * 100 <= total * 100) by (nonlinear_arith)
            requires
                self.next <= total,
        ;
        self.progress = (self.next * 100 / total) as u32;
    }
}

// ---------------------------------------------------------------------------
// Automatic installation
// ---------------------------------------------------------------------------
/// The packages among `ps` that the cache lacks, in order.
pub open spec fn uncached(ps: Seq<SpecParts>, c: crate::cache::CacheView) -> Seq<SpecParts>
    decreases ps.len(),
{
    if ps.len() == 0 {
        Seq::empty()
    } else {
        let rest = uncached(ps.drop_last(), c);
        if cache_has(c, spec_text(ps.last())) {
            rest
        } else {
            rest.push(ps.last())
        }
    }
}

/// The packages a compile error names that the cache lacks: the ones an
/// automatic installation downloads, in order.
pub fn packages_to_install(error: &str, cache: &PackageCache) -> (r: Vec<PkgSpec>)
    ensures
        r@.map_values(|q: PkgSpec| q@) == uncached(packages_named(words(error@)), cache@),
{
    let named = extract_missing_packages(error);
    let ghost nv = named@.map_values(|q: PkgSpec| q@);
    let mut out: Vec<PkgSpec> = Vec::new();
    let mut i: usize = 0;
    assert(nv.take(0) =~= Seq::<SpecParts>::empty());
    while i < named.len()
        invariant
            i <= named.len(),
            nv == named@.map_values(|q: PkgSpec| q@),
            out@.map_values(|q: PkgSpec| q@) == uncached(nv.take(i as int), cache@),
        decreases named.len() - i,
    {
        assert(nv.take(i + 1).drop_last() =~= nv.take(i as int));
        assert(nv.take(i + 1).last() == named@[i as int]@);
        if !cache.has_package(&named[i]) {
            let ghost before = out@.map_values(|q: PkgSpec| q@);
            out.push(named[i].duplicate());
            assert(out@.map_values(|q: PkgSpec| q@) =~= before.push(named@[i as int]@));
        }
        i = i + 1;
    }
    assert(nv.take(named.len() as int) =~= nv);
    out
}

/// An automatic installation installed something: one of the downloads, of
/// the packages `packages_to_install` gave, succeeded and the cache stored
/// its files. Each outcome is the download's error, or what storing gave.
pub fn auto_install_succeeded(outcomes: &[Result<Result<(), String>, String>]) -> (r: bool)
    ensures
        r == exists|i: int| 0 <= i < outcomes@.len() && #[trigger] outcomes@[i] matches Ok(Ok(())),
{
    let mut i: usize = 0;
    while i < outcomes.len()
        invariant
            i <= outcomes.len(),
            forall|j: int| 0 <= j < i ==> !(#[trigger] outcomes@[j] matches Ok(Ok(()))),
        decreases outcomes.len() - i,
    {
        if let Ok(Ok(())) = &outcomes[i] {
            return true;
        }
        i = i + 1;
    }
    false
}

} // verus!
