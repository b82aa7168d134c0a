//! The in-memory cache of downloaded packages: which packages are installed,
//! and the files the compiler is handed from them.
use vstd::prelude::*;
use vstd::utf8::{decode_utf8, valid_utf8};
use crate::assoc::{
    assoc_view, distinct_keys, insert_assoc, insert_entry, key_index, lemma_insert_entry,
    lemma_key_index, remove_assoc, remove_entry,
};
use crate::encoding::{base64_decode, base64_encode, base64_text, is_base64_text};
use crate::file_tree::{split_chars, split_on};
use crate::records::{json_object, json_object_text, json_string_map, map_read, parse_string_map};
use crate::registry::{parse_spec, spec_text, PkgSpec, SpecParts};
use crate::storage::strings_view;
use crate::text::{
    chars_of, ends_with_chars, has_suffix, parse_unsigned,
    parse_unsigned_chars, utf8_decode,
};

verus! {

/// A package version as the compiler identifies it.
#[derive(Clone, Copy, Debug, PartialEq, Eq)]
pub struct PackageVersion {
    pub major: u32,
    pub minor: u32,
    pub patch: u32,
}

/// A package as the compiler identifies it: namespace, name and numeric version.
#[derive(Clone, Debug, PartialEq, Eq)]
pub struct PackageSpec {
    pub namespace: String,
    pub name: String,
    pub version: PackageVersion,
}

/// The parts of a compiler package identity.
pub type PackageSpecParts = (Seq<char>, Seq<char>, (u32, u32, u32));

impl View for PackageSpec {
    type V = PackageSpecParts;

    open spec fn view(&self) -> PackageSpecParts {
        (self.namespace@, self.name@, (self.version.major, self.version.minor, self.version.patch))
    }
}

impl PackageSpec {
    /// A copy of the identity.
    pub fn duplicate(&self) -> (r: Self)
        ensures
            r@ == self@,
    {
        PackageSpec {
            namespace: self.namespace.clone(),
            name: self.name.clone(),
            version: self.version,
        }
    }
}

// ---------------------------------------------------------------------------
// Versions
// ---------------------------------------------------------------------------
/// The numbers among the dot-separated pieces of a version, pieces that are
/// no `u32` left out.
pub open spec fn version_numbers_of(pieces: Seq<Seq<char>>) -> Seq<u32>
    decreases pieces.len(),
{
    if pieces.len() == 0 {
        Seq::empty()
    } else {
        let rest = version_numbers_of(pieces.drop_first());
        match parse_unsigned(pieces[0], 10, u32::MAX as nat) {
            Some(n) => seq![n as u32] + rest,
            None => rest,
        }
    }
}

/// The number at index `i`, zero where there is none.
pub open spec fn number_or_zero(ns: Seq<u32>, i: int) -> u32 {
    if 0 <= i < ns.len() {
        ns[i]
    } else {
        0
    }
}

/// The numeric version a version text gives: the first three numbers among
/// its dot-separated pieces, zero for each that is missing.
pub open spec fn version_of(v: Seq<char>) -> (u32, u32, u32) {
    let ns = version_numbers_of(split_on(v, '.'));
    (number_or_zero(ns, 0), number_or_zero(ns, 1), number_or_zero(ns, 2))
}

/// Reads a version text as the compiler's numeric version.
pub fn parse_version(version: &str) -> (r: PackageVersion)
    ensures
        (r.major, r.minor, r.patch) == version_of(version@),
{
    let chars = chars_of(version);
    let pieces = split_chars(&chars, '.');
    let ghost pv = pieces@.map_values(|s: Vec<char>| s@);
    let mut numbers: Vec<u32> = Vec::new();
    let mut i = pieces.len();
    assert(pv.skip(pieces.len() as int) =~= Seq::<Seq<char>>::empty());
    while i > 0
        invariant
            i <= pieces.len(),
            pv == pieces@.map_values(|s: Vec<char>| s@),
            numbers@ == version_numbers_of(pv.skip(i as int)),
        decreases i,
    {
        i = i - 1;
        assert(pv.skip(i as int).drop_first() =~= pv.skip(i + 1));
        assert(pv.skip(i as int)[0] == pieces@[i as int]@);
        match parse_unsigned_chars(&pieces[i], 10, u32::MAX as u64) {
            Some(n) => {
                numbers.insert(0, n as u32);
                assert(numbers@ =~= seq![n as u32] + version_numbers_of(pv.skip(i + 1)));
            },
            None => {},
        }
    }
    assert(pv.skip(0) == pv);
    let major = if numbers.len() > 0 {
        numbers[0]
    } else {
        0
    };
    let minor = if numbers.len() > 1 {
        numbers[1]
    } else {
        0
    };
    let patch = if numbers.len() > 2 {
        numbers[2]
    } else {
        0
    };
    PackageVersion { major, minor, patch }
}

/// The compiler's identity of a registry package.
pub open spec fn typst_spec_of(p: SpecParts) -> PackageSpecParts {
    (p.0, p.1, version_of(p.2))
}

// ---------------------------------------------------------------------------
// The cache
// ---------------------------------------------------------------------------
/// The files of one package: path and bytes.
pub type PackageFiles = Vec<(String, Vec<u8>)>;

/// The files of a package as paths and byte sequences.
pub open spec fn files_view(files: Seq<(String, Vec<u8>)>) -> Seq<(Seq<char>, Seq<u8>)> {
    files.map_values(|e: (String, Vec<u8>)| (e.0@, e.1@))
}

/// Downloaded packages, by the text `@namespace/name:version`, each with its
/// files.
pub struct PackageCache {
    pub packages: Vec<(String, PackageFiles)>,
}

/// The view of the cache: each package key with its files.
pub type CacheView = Seq<(Seq<char>, Seq<(Seq<char>, Seq<u8>)>)>;

impl View for PackageCache {
    type V = CacheView;

    open spec fn view(&self) -> CacheView {
        self.packages@.map_values(|e: (String, PackageFiles)| (e.0@, files_view(e.1@)))
    }
}

/// A package's source files for the compiler: its `.typ` files that are UTF-8.
pub open spec fn package_sources(id: PackageSpecParts, files: Seq<(Seq<char>, Seq<u8>)>) -> Seq<
    (PackageSpecParts, Seq<char>, Seq<char>),
>
    decreases files.len(),
{
    if files.len() == 0 {
        Seq::empty()
    } else {
        let rest = package_sources(id, files.drop_first());
        let (path, bytes) = files[0];
        if has_suffix(path, ".typ"@) && valid_utf8(bytes) {
            seq![(id, path, decode_utf8(bytes))] + rest
        } else {
            rest
        }
    }
}

/// A package's other files for the compiler.
pub open spec fn package_binaries(id: PackageSpecParts, files: Seq<(Seq<char>, Seq<u8>)>) -> Seq<
    (PackageSpecParts, Seq<char>, Seq<u8>),
>
    decreases files.len(),
{
    if files.len() == 0 {
        Seq::empty()
    } else {
        let rest = package_binaries(id, files.drop_first());
        let (path, bytes) = files[0];
        if !has_suffix(path, ".typ"@) {
            seq![(id, path, bytes)] + rest
        } else {
            rest
        }
    }
}

/// The source files of all packages whose key reads as a specification.
pub open spec fn all_sources(c: CacheView) -> Seq<(PackageSpecParts, Seq<char>, Seq<char>)>
    decreases c.len(),
{
    if c.len() == 0 {
        Seq::empty()
    } else {
        let rest = all_sources(c.drop_first());
        match parse_spec(c[0].0) {
            Some(p) => package_sources(typst_spec_of(p), c[0].1) + rest,
            None => rest,
        }
    }
}

/// The other files of all packages whose key reads as a specification.
pub open spec fn all_binaries(c: CacheView) -> Seq<(PackageSpecParts, Seq<char>, Seq<u8>)>
    decreases c.len(),
{
    if c.len() == 0 {
        Seq::empty()
    } else {
        let rest = all_binaries(c.drop_first());
        match parse_spec(c[0].0) {
            Some(p) => package_binaries(typst_spec_of(p), c[0].1) + rest,
            None => rest,
        }
    }
}

/// The specifications that the package keys read as, in order.
pub open spec fn listed_specs(c: CacheView) -> Seq<SpecParts>
    decreases c.len(),
{
    if c.len() == 0 {
        Seq::empty()
    } else {
        let rest = listed_specs(c.drop_first());
        match parse_spec(c[0].0) {
            Some(p) => seq![p] + rest,
            None => rest,
        }
    }
}

/// The package keys of the cache.
pub open spec fn cache_keys(c: CacheView) -> Seq<Seq<char>> {
    c.map_values(|e: (Seq<char>, Seq<(Seq<char>, Seq<u8>)>)| e.0)
}

/// A cache whose package keys are distinct.
pub open spec fn cache_wf(c: CacheView) -> bool {
    distinct_keys(c)
}

/// The cache holds a package with this key.
pub open spec fn cache_has(c: CacheView, key: Seq<char>) -> bool {
    key_index(c, key) is Some
}

proof fn lemma_key_index_view(ps: Seq<(String, PackageFiles)>, k: Seq<char>)
    ensures
        key_index(ps.map_values(|e: (String, PackageFiles)| (e.0@, files_view(e.1@))), k) == key_index(
            assoc_view(ps),
            k,
        ),
    decreases ps.len(),
{
    if ps.len() > 0 {
        lemma_key_index_view(ps.drop_first(), k);
        assert(ps.drop_first().map_values(|e: (String, PackageFiles)| (e.0@, files_view(e.1@)))
            =~= ps.map_values(|e: (String, PackageFiles)| (e.0@, files_view(e.1@))).drop_first());
        assert(assoc_view(ps.drop_first()) =~= assoc_view(ps).drop_first());
    }
}

proof fn lemma_view_insert(ps: Seq<(String, PackageFiles)>, k: String, f: PackageFiles)
    ensures
        insert_entry(assoc_view(ps), k@, f@).map_values(
            |e: (Seq<char>, Seq<(String, Vec<u8>)>)| (e.0, files_view(e.1)),
        ) == insert_entry(
            ps.map_values(|e: (String, PackageFiles)| (e.0@, files_view(e.1@))),
            k@,
            files_view(f@),
        ),
{
    lemma_key_index_view(ps, k@);
    let a = assoc_view(ps);
    let v = ps.map_values(|e: (String, PackageFiles)| (e.0@, files_view(e.1@)));
    assert(a.map_values(|e: (Seq<char>, Seq<(String, Vec<u8>)>)| (e.0, files_view(e.1))) =~= v);
    match key_index(a, k@) {
        Some(i) => {
            lemma_key_index(a, k@);
            assert(a.update(i, (k@, f@)).map_values(|e: (Seq<char>, Seq<(String, Vec<u8>)>)| (e.0, files_view(e.1)))
                =~= v.update(i, (k@, files_view(f@))));
        },
        None => {
            assert(a.push((k@, f@)).map_values(|e: (Seq<char>, Seq<(String, Vec<u8>)>)| (e.0, files_view(e.1)))
                =~= v.push((k@, files_view(f@))));
        },
    }
}

proof fn lemma_view_remove(ps: Seq<(String, PackageFiles)>, k: Seq<char>)
    ensures
        remove_entry(assoc_view(ps), k).map_values(
            |e: (Seq<char>, Seq<(String, Vec<u8>)>)| (e.0, files_view(e.1)),
        ) == remove_entry(ps.map_values(|e: (String, PackageFiles)| (e.0@, files_view(e.1@))), k),
{
    lemma_key_index_view(ps, k);
    let a = assoc_view(ps);
    let v = ps.map_values(|e: (String, PackageFiles)| (e.0@, files_view(e.1@)));
    assert(a.map_values(|e: (Seq<char>, Seq<(String, Vec<u8>)>)| (e.0, files_view(e.1))) =~= v);
    match key_index(a, k) {
        Some(i) => {
            lemma_key_index(a, k);
            assert(a.remove(i).map_values(|e: (Seq<char>, Seq<(String, Vec<u8>)>)| (e.0, files_view(e.1)))
                =~= v.remove(i));
        },
        None => {},
    }
}

/// The cache built from stored records holds each key once.
proof fn lemma_loaded_cache_wf(records: Seq<(Seq<char>, Seq<(Seq<char>, Seq<char>)>)>)
    ensures
        cache_wf(loaded_cache(records)),
    decreases records.len(),
{
    if records.len() > 0 {
        lemma_loaded_cache_wf(records.drop_last());
        let acc = loaded_cache(records.drop_last());
        let (key, r) = records.last();
        crate::assoc::lemma_insert_entry(acc, key, record_files(r));
    }
}

impl PackageCache {
    /// No package key occurs twice in the cache.
    pub open spec fn wf(&self) -> bool {
        cache_wf(self@)
    }

    /// An empty cache.
    pub fn new() -> (r: Self)
        ensures
            r.wf(),
            r@ == Seq::<(Seq<char>, Seq<(Seq<char>, Seq<u8>)>)>::empty(),
            r.packages@.len() == 0,
    {
        PackageCache { packages: Vec::new() }
    }

    /// The package is in the cache.
    pub fn has_package(&self, spec: &PkgSpec) -> (r: bool)
        ensures
            r == cache_has(self@, spec_text(spec@)),
    {
        let key = spec.to_string();
        proof {
            lemma_key_index_view(self.packages@, key@);
        }
        crate::assoc::find_key(&self.packages, key.as_str()).is_some()
    }

    /// The number of files the cache holds for a package; zero where it
    /// holds none.
    pub fn file_count(&self, spec: &PkgSpec) -> (r: usize)
        ensures
            r == match key_index(self@, spec_text(spec@)) {
                Some(i) => self@[i].1.len(),
                None => 0,
            },
    {
        let key = spec.to_string();
        proof {
            lemma_key_index_view(self.packages@, key@);
            crate::assoc::lemma_key_index(assoc_view(self.packages@), key@);
        }
        match crate::assoc::find_key(&self.packages, key.as_str()) {
            Some(i) => {
                assert(self@[i as int].1 == files_view(self.packages@[i as int].1@));
                self.packages[i].1.len()
            },
            None => 0,
        }
    }

    /// Puts a downloaded package in the cache, in place of any earlier copy.
    pub fn store_package(&mut self, spec: &PkgSpec, files: PackageFiles)
        ensures
            final(self)@ == insert_entry(old(self)@, spec_text(spec@), files_view(files@)),
            old(self).wf() ==> final(self).wf(),
    {
        let key = spec.to_string();
        proof {
            if self.wf() {
                crate::assoc::lemma_insert_entry(self@, spec_text(spec@), files_view(files@));
            }
        }
        self.put(key, files);
    }

    fn put(&mut self, key: String, files: PackageFiles)
        ensures
            final(self)@ == insert_entry(old(self)@, key@, files_view(files@)),
    {
        proof {
            lemma_view_insert(self.packages@, key, files);
        }
        insert_assoc(&mut self.packages, key, files);
        assert(self@ =~= assoc_view(self.packages@).map_values(
            |e: (Seq<char>, Seq<(String, Vec<u8>)>)| (e.0, files_view(e.1)),
        ));
    }

    /// Replaces the cache's packages with the stored ones: each record that
    /// holds a package's files, by its key; gives the keys of the stale
    /// records, in order.
    pub fn load_records(&mut self, records: &[(String, Vec<(String, String)>)]) -> (stale: Vec<String>)
        ensures
            final(self)@ == loaded_cache(records_view(records@)),
            strings_view(stale@) == stale_keys(records_view(records@)),
            final(self).wf(),
    {
        proof {
            lemma_loaded_cache_wf(records_view(records@));
        }
        let ghost rv = records_view(records@);
        let mut loaded = PackageCache::new();
        let mut stale: Vec<String> = Vec::new();
        let mut i: usize = 0;
        assert(rv.take(0) =~= Seq::<(Seq<char>, Seq<(Seq<char>, Seq<char>)>)>::empty());
        while i < records.len()
            invariant
                i <= records.len(),
                rv == records_view(records@),
                loaded@ == loaded_cache(rv.take(i as int)),
                strings_view(stale@) == stale_keys(rv.take(i as int)),
            decreases records.len() - i,
        {
            assert(rv.take(i + 1).drop_last() =~= rv.take(i as int));
            assert(rv.take(i + 1).last() == (records@[i as int].0@, assoc_view(records@[i as int].1@)));
            match files_from_record(records[i].1.as_slice()) {
                Some(files) => {
                    loaded.put(records[i].0.clone(), files);
                },
                None => {
                    let ghost before = strings_view(stale@);
                    stale.push(records[i].0.clone());
                    assert(strings_view(stale@) =~= before.push(records@[i as int].0@));
                },
            }
            i = i + 1;
        }
        assert(rv.take(records.len() as int) =~= rv);
        *self = loaded;
        stale
    }

    /// Replaces the cache's packages with the stored ones, from each stored
    /// key and its JSON text: a text that is no JSON object of strings is
    /// passed over; the others load as `load_records` loads them. Gives the
    /// keys of the stale records, in order.
    pub fn load_stored(&mut self, stored: &[(String, String)]) -> (stale: Vec<String>)
        ensures
            final(self)@ == loaded_cache(parsed_records(assoc_view(stored@))),
            strings_view(stale@) == stale_keys(parsed_records(assoc_view(stored@))),
            final(self).wf(),
    {
        let ghost sv = assoc_view(stored@);
        let mut records: Vec<(String, Vec<(String, String)>)> = Vec::new();
        let mut i: usize = 0;
        assert(sv.take(0) =~= Seq::<(Seq<char>, Seq<char>)>::empty());
        assert(records_view(records@) =~= Seq::<(Seq<char>, Seq<(Seq<char>, Seq<char>)>)>::empty());
        while i < stored.len()
            invariant
                i <= stored.len(),
                sv == assoc_view(stored@),
                records_view(records@) == parsed_records(sv.take(i as int)),
            decreases stored.len() - i,
        {
            assert(sv.take(i + 1).drop_last() =~= sv.take(i as int));
            assert(sv.take(i + 1).last() == (stored@[i as int].0@, stored@[i as int].1@));
            match parse_string_map(stored[i].1.as_str()) {
                Some(ps) => {
                    let ghost before = records_view(records@);
                    let key = stored[i].0.clone();
                    records.push((key, ps));
                    assert(records_view(records@) =~= before.push((stored@[i as int].0@, assoc_view(ps@))));
                },
                None => {},
            }
            i = i + 1;
        }
        assert(sv.take(stored.len() as int) =~= sv);
        self.load_records(records.as_slice())
    }

    /// Takes a package out of the cache.
    pub fn remove_package(&mut self, spec: &PkgSpec)
        ensures
            final(self)@ == remove_entry(old(self)@, spec_text(spec@)),
            old(self).wf() ==> final(self).wf(),
    {
        proof {
            if self.wf() {
                crate::assoc::lemma_remove_entry_distinct(self@, spec_text(spec@));
            }
        }
        let key = spec.to_string();
        proof {
            lemma_view_remove(self.packages@, key@);
        }
        remove_assoc(&mut self.packages, key.as_str());
        assert(self@ =~= assoc_view(self.packages@).map_values(
            |e: (Seq<char>, Seq<(String, Vec<u8>)>)| (e.0, files_view(e.1)),
        ));
    }

    /// The compiler's identity of a registry package: the version's first
    /// three numbers, zero for each that is missing.
    pub fn make_typst_pkg_spec(spec: &PkgSpec) -> (r: PackageSpec)
        ensures
            r@ == typst_spec_of(spec@),
    {
        let version = parse_version(spec.version.as_str());
        PackageSpec { namespace: spec.namespace.clone(), name: spec.name.clone(), version }
    }

    /// The specifications of the cached packages.
    pub fn list_packages(&self) -> (r: Vec<PkgSpec>)
        ensures
            r@.map_values(|q: PkgSpec| q@) == listed_specs(self@),
    {
        let mut out: Vec<PkgSpec> = Vec::new();
        let mut i = self.packages.len();
        let ghost c = self@;
        assert(c.skip(self.packages.len() as int) =~= Seq::<(Seq<char>, Seq<(Seq<char>, Seq<u8>)>)>::empty());
        while i > 0
            invariant
                i <= self.packages.len(),
                c == self@,
                out@.map_values(|q: PkgSpec| q@) == listed_specs(c.skip(i as int)),
            decreases i,
        {
            i = i - 1;
            assert(c.skip(i as int).drop_first() =~= c.skip(i + 1));
            assert(c.skip(i as int)[0].0 == self.packages@[i as int].0@);
            match PkgSpec::parse(self.packages[i].0.as_str()) {
                Some(p) => {
                    let ghost before = out@.map_values(|q: PkgSpec| q@);
                    out.insert(0, p);
                    assert(out@.map_values(|q: PkgSpec| q@) =~= seq![p@] + before);
                },
                None => {},
            }
        }
        assert(c.skip(0) == c);
        out
    }

    /// The `.typ` files of all packages that are UTF-8, each with its
    /// package's identity, path and text.
    pub fn get_all_sources(&self) -> (r: Vec<(PackageSpec, String, String)>)
        ensures
            sources_view(r@) == all_sources(self@),
    {
        let mut out: Vec<(PackageSpec, String, String)> = Vec::new();
        let ghost c = self@;
        let mut i = self.packages.len();
        assert(c.skip(self.packages.len() as int) =~= Seq::<(Seq<char>, Seq<(Seq<char>, Seq<u8>)>)>::empty());
        while i > 0
            invariant
                i <= self.packages.len(),
                c == self@,
                sources_view(out@) == all_sources(c.skip(i as int)),
            decreases i,
        {
            i = i - 1;
            assert(c.skip(i as int).drop_first() =~= c.skip(i + 1));
            assert(c.skip(i as int)[0] == (self.packages@[i as int].0@, files_view(self.packages@[i as int].1@)));
            match PkgSpec::parse(self.packages[i].0.as_str()) {
                Some(spec) => {
                    let ts = Self::make_typst_pkg_spec(&spec);
                    let mut part = package_source_files(&ts, &self.packages[i].1);
                    let ghost pv = sources_view(part@);
                    let ghost ov = sources_view(out@);
                    part.append(&mut out);
                    out = part;
                    assert(sources_view(out@) =~= pv + ov);
                },
                None => {},
            }
        }
        assert(c.skip(0) == c);
        out
    }

    /// The files of all packages other than `.typ` files, each with its
    /// package's identity, path and bytes.
    pub fn get_all_binaries(&self) -> (r: Vec<(PackageSpec, String, Vec<u8>)>)
        ensures
            binaries_view(r@) == all_binaries(self@),
    {
        let mut out: Vec<(PackageSpec, String, Vec<u8>)> = Vec::new();
        let ghost c = self@;
        let mut i = self.packages.len();
        assert(c.skip(self.packages.len() as int) =~= Seq::<(Seq<char>, Seq<(Seq<char>, Seq<u8>)>)>::empty());
        while i > 0
            invariant
                i <= self.packages.len(),
                c == self@,
                binaries_view(out@) == all_binaries(c.skip(i as int)),
            decreases i,
        {
            i = i - 1;
            assert(c.skip(i as int).drop_first() =~= c.skip(i + 1));
            assert(c.skip(i as int)[0] == (self.packages@[i as int].0@, files_view(self.packages@[i as int].1@)));
            match PkgSpec::parse(self.packages[i].0.as_str()) {
                Some(spec) => {
                    let ts = Self::make_typst_pkg_spec(&spec);
                    let mut part = package_binary_files(&ts, &self.packages[i].1);
                    let ghost pv = binaries_view(part@);
                    let ghost ov = binaries_view(out@);
                    part.append(&mut out);
                    out = part;
                    assert(binaries_view(out@) =~= pv + ov);
                },
                None => {},
            }
        }
        assert(c.skip(0) == c);
        out
    }
}

/// Package source files as identities, paths and texts.
pub open spec fn sources_view(v: Seq<(PackageSpec, String, String)>) -> Seq<(PackageSpecParts, Seq<char>, Seq<char>)> {
    v.map_values(|e: (PackageSpec, String, String)| (e.0@, e.1@, e.2@))
}

/// Package binary files as identities, paths and bytes.
pub open spec fn binaries_view(v: Seq<(PackageSpec, String, Vec<u8>)>) -> Seq<(PackageSpecParts, Seq<char>, Seq<u8>)> {
    v.map_values(|e: (PackageSpec, String, Vec<u8>)| (e.0@, e.1@, e.2@))
}

/// The source files of one package.
fn package_source_files(id: &PackageSpec, files: &PackageFiles) -> (r: Vec<(PackageSpec, String, String)>)
    ensures
        sources_view(r@) == package_sources(id@, files_view(files@)),
{
    let mut out: Vec<(PackageSpec, String, String)> = Vec::new();
    let ghost fv = files_view(files@);
    let typ = chars_of(".typ");
    let mut j = files.len();
    assert(fv.skip(files.len() as int) =~= Seq::<(Seq<char>, Seq<u8>)>::empty());
    while j > 0
        invariant
            j <= files.len(),
            fv == files_view(files@),
            typ@ == ".typ"@,
            sources_view(out@) == package_sources(id@, fv.skip(j as int)),
        decreases j,
    {
        j = j - 1;
        assert(fv.skip(j as int).drop_first() =~= fv.skip(j + 1));
        assert(fv.skip(j as int)[0] == (files@[j as int].0@, files@[j as int].1@));
        let path_chars = chars_of(files[j].0.as_str());
        if ends_with_chars(&path_chars, &typ) {
            match utf8_decode(files[j].1.as_slice()) {
                Some(content) => {
                    let ghost before = sources_view(out@);
                    let entry = (id.duplicate(), files[j].0.clone(), content);
                    let ghost ev = (entry.0@, entry.1@, entry.2@);
                    out.insert(0, entry);
                    assert(sources_view(out@) =~= seq![ev] + before);
                },
                None => {},
            }
        }
    }
    assert(fv.skip(0) == fv);
    out
}

/// The other files of one package.
fn package_binary_files(id: &PackageSpec, files: &PackageFiles) -> (r: Vec<(PackageSpec, String, Vec<u8>)>)
    ensures
        binaries_view(r@) == package_binaries(id@, files_view(files@)),
{
    let mut out: Vec<(PackageSpec, String, Vec<u8>)> = Vec::new();
    let ghost fv = files_view(files@);
    let typ = chars_of(".typ");
    let mut j = files.len();
    assert(fv.skip(files.len() as int) =~= Seq::<(Seq<char>, Seq<u8>)>::empty());
    while j > 0
        invariant
            j <= files.len(),
            fv == files_view(files@),
            typ@ == ".typ"@,
            binaries_view(out@) == package_binaries(id@, fv.skip(j as int)),
        decreases j,
    {
        j = j - 1;
        assert(fv.skip(j as int).drop_first() =~= fv.skip(j + 1));
        assert(fv.skip(j as int)[0] == (files@[j as int].0@, files@[j as int].1@));
        let path_chars = chars_of(files[j].0.as_str());
        if !ends_with_chars(&path_chars, &typ) {
            let ghost before = binaries_view(out@);
            let entry = (id.duplicate(), files[j].0.clone(), vstd::slice::slice_to_vec(files[j].1.as_slice()));
            let ghost ev = (entry.0@, entry.1@, entry.2@);
            out.insert(0, entry);
            assert(sources_view_b(out@, before, ev));
        }
    }
    assert(fv.skip(0) == fv);
    out
}

spec fn sources_view_b(
    out: Seq<(PackageSpec, String, Vec<u8>)>,
    before: Seq<(PackageSpecParts, Seq<char>, Seq<u8>)>,
    ev: (PackageSpecParts, Seq<char>, Seq<u8>),
) -> bool {
    binaries_view(out) =~= seq![ev] + before
}

proof fn lemma_in_concat<A>(a: Seq<A>, b: Seq<A>, x: A)
    requires
        a.contains(x) || b.contains(x),
    ensures
        (a + b).contains(x),
{
    if a.contains(x) {
        let w = choose|w: int| 0 <= w < a.len() && #[trigger] a[w] == x;
        assert((a + b)[w] == x);
    } else {
        let w = choose|w: int| 0 <= w < b.len() && #[trigger] b[w] == x;
        assert((a + b)[a.len() + w] == x);
    }
}

proof fn lemma_package_files_listed(id: PackageSpecParts, files: Seq<(Seq<char>, Seq<u8>)>, j: int)
    requires
        0 <= j < files.len(),
    ensures
        !has_suffix(files[j].0, ".typ"@) ==> package_binaries(id, files).contains((id, files[j].0, files[j].1)),
        has_suffix(files[j].0, ".typ"@) && valid_utf8(files[j].1) ==> package_sources(id, files).contains(
            (id, files[j].0, decode_utf8(files[j].1)),
        ),
    decreases files.len(),
{
    let b0 = package_binaries(id, files.drop_first());
    let s0 = package_sources(id, files.drop_first());
    if j == 0 {
        if !has_suffix(files[0].0, ".typ"@) {
            assert(package_binaries(id, files) == seq![(id, files[0].0, files[0].1)] + b0);
            assert(seq![(id, files[0].0, files[0].1)][0] == (id, files[0].0, files[0].1));
            lemma_in_concat(seq![(id, files[0].0, files[0].1)], b0, (id, files[0].0, files[0].1));
        } else if valid_utf8(files[0].1) {
            assert(package_sources(id, files) == seq![(id, files[0].0, decode_utf8(files[0].1))] + s0);
            assert(seq![(id, files[0].0, decode_utf8(files[0].1))][0] == (id, files[0].0, decode_utf8(files[0].1)));
            lemma_in_concat(seq![(id, files[0].0, decode_utf8(files[0].1))], s0, (id, files[0].0, decode_utf8(files[0].1)));
        }
    } else {
        lemma_package_files_listed(id, files.drop_first(), j - 1);
        assert(files.drop_first()[j - 1] == files[j]);
        let (path, bytes) = files[0];
        if !has_suffix(files[j].0, ".typ"@) {
            assert(b0.contains((id, files[j].0, files[j].1)));
        }
        if has_suffix(files[j].0, ".typ"@) && valid_utf8(files[j].1) {
            assert(s0.contains((id, files[j].0, decode_utf8(files[j].1))));
        }
        if !has_suffix(path, ".typ"@) && !has_suffix(files[j].0, ".typ"@) {
            lemma_in_concat(seq![(id, path, bytes)], b0, (id, files[j].0, files[j].1));
        }
        if has_suffix(path, ".typ"@) && valid_utf8(bytes) && has_suffix(files[j].0, ".typ"@) && valid_utf8(
            files[j].1,
        ) {
            lemma_in_concat(seq![(id, path, decode_utf8(bytes))], s0, (id, files[j].0, decode_utf8(files[j].1)));
        }
    }
}

/// Every file of every cached package reaches the compiler, under its
/// package's identity and its own path: a `.typ` file that is UTF-8 among
/// the sources with its text, and any other file (the manifest
/// `typst.toml` among them) among the binary files with its bytes.
pub proof fn law_package_files_handed_over(c: CacheView, k: int, j: int, p: SpecParts)
    requires
        0 <= k < c.len(),
        parse_spec(c[k].0) == Some(p),
        0 <= j < c[k].1.len(),
    ensures
        !has_suffix(c[k].1[j].0, ".typ"@) ==> all_binaries(c).contains(
            (typst_spec_of(p), c[k].1[j].0, c[k].1[j].1),
        ),
        has_suffix(c[k].1[j].0, ".typ"@) && valid_utf8(c[k].1[j].1) ==> all_sources(c).contains(
            (typst_spec_of(p), c[k].1[j].0, decode_utf8(c[k].1[j].1)),
        ),
    decreases c.len(),
{
    let id = typst_spec_of(p);
    let f = c[k].1[j];
    let xb = (id, f.0, f.1);
    let xs = (id, f.0, decode_utf8(f.1));
    if k == 0 {
        lemma_package_files_listed(id, c[0].1, j);
        assert(all_binaries(c) == package_binaries(id, c[0].1) + all_binaries(c.drop_first()));
        assert(all_sources(c) == package_sources(id, c[0].1) + all_sources(c.drop_first()));
        if !has_suffix(f.0, ".typ"@) {
            lemma_in_concat(package_binaries(id, c[0].1), all_binaries(c.drop_first()), xb);
        }
        if has_suffix(f.0, ".typ"@) && valid_utf8(f.1) {
            lemma_in_concat(package_sources(id, c[0].1), all_sources(c.drop_first()), xs);
        }
    } else {
        assert(c.drop_first()[k - 1] == c[k]);
        law_package_files_handed_over(c.drop_first(), k - 1, j, p);
        match parse_spec(c[0].0) {
            Some(p0) => {
                let id0 = typst_spec_of(p0);
                if !has_suffix(f.0, ".typ"@) {
                    lemma_in_concat(package_binaries(id0, c[0].1), all_binaries(c.drop_first()), xb);
                }
                if has_suffix(f.0, ".typ"@) && valid_utf8(f.1) {
                    lemma_in_concat(package_sources(id0, c[0].1), all_sources(c.drop_first()), xs);
                }
            },
            None => {},
        }
    }
}

/// `x` is the `j`-th file of the `k`-th cached package, whose key reads as a
/// specification, under that package's identity.
pub open spec fn file_of_package(c: CacheView, k: int, j: int, x: (PackageSpecParts, Seq<char>, Seq<u8>)) -> bool {
    &&& 0 <= k < c.len()
    &&& 0 <= j < c[k].1.len()
    &&& parse_spec(c[k].0) is Some
    &&& x == (typst_spec_of(parse_spec(c[k].0)->Some_0), c[k].1[j].0, c[k].1[j].1)
}

/// Some cached package holds `x` as one of its files that is no `.typ` file.
pub open spec fn binary_in_cache(c: CacheView, x: (PackageSpecParts, Seq<char>, Seq<u8>)) -> bool {
    exists|k: int, j: int| #[trigger] file_of_package(c, k, j, x) && !has_suffix(x.1, ".typ"@)
}

proof fn lemma_package_binaries_from(id: PackageSpecParts, files: Seq<(Seq<char>, Seq<u8>)>, x: (PackageSpecParts, Seq<char>, Seq<u8>))
    requires
        package_binaries(id, files).contains(x),
    ensures
        exists|j: int| 0 <= j < files.len() && #[trigger] files[j] == (x.1, x.2) && x.0 == id && !has_suffix(x.1, ".typ"@),
    decreases files.len(),
{
    let rest = package_binaries(id, files.drop_first());
    let w = choose|w: int| 0 <= w < package_binaries(id, files).len() && #[trigger] package_binaries(id, files)[w] == x;
    if !has_suffix(files[0].0, ".typ"@) && w == 0 {
        assert(files[0] == (x.1, x.2));
    } else {
        if !has_suffix(files[0].0, ".typ"@) {
            assert(package_binaries(id, files) == seq![(id, files[0].0, files[0].1)] + rest);
            assert(rest[w - 1] == x);
        } else {
            assert(rest[w] == x);
        }
        lemma_package_binaries_from(id, files.drop_first(), x);
        let j = choose|j: int| 0 <= j < files.drop_first().len() && #[trigger] files.drop_first()[j] == (x.1, x.2);
        assert(files[j + 1] == (x.1, x.2));
    }
}

/// Nothing reaches the compiler as a package's binary file that no cached
/// package holds: each is a file of a package whose key reads as a
/// specification, under that package's identity, and is no `.typ` file.
pub proof fn law_binaries_from_cache(c: CacheView, x: (PackageSpecParts, Seq<char>, Seq<u8>))
    requires
        all_binaries(c).contains(x),
    ensures
        binary_in_cache(c, x),
    decreases c.len(),
{
    let rest = all_binaries(c.drop_first());
    match parse_spec(c[0].0) {
        Some(p) => {
            let part = package_binaries(typst_spec_of(p), c[0].1);
            assert(all_binaries(c) == part + rest);
            let w = choose|w: int| 0 <= w < (part + rest).len() && #[trigger] (part + rest)[w] == x;
            if w < part.len() {
                assert(part[w] == x);
                lemma_package_binaries_from(typst_spec_of(p), c[0].1, x);
                let j = choose|j: int| 0 <= j < c[0].1.len() && #[trigger] c[0].1[j] == (x.1, x.2) && x.0 == typst_spec_of(p)
                    && !has_suffix(x.1, ".typ"@);
                assert(file_of_package(c, 0, j, x));
            } else {
                assert(rest[w - part.len()] == x);
                law_binaries_from_cache(c.drop_first(), x);
                let (k, j) = choose|k: int, j: int| #[trigger] file_of_package(c.drop_first(), k, j, x) && !has_suffix(x.1, ".typ"@);
                assert(c.drop_first()[k] == c[k + 1]);
                assert(file_of_package(c, k + 1, j, x));
            }
        },
        None => {
            assert(all_binaries(c) == rest);
            law_binaries_from_cache(c.drop_first(), x);
            let (k, j) = choose|k: int, j: int| #[trigger] file_of_package(c.drop_first(), k, j, x) && !has_suffix(x.1, ".typ"@);
            assert(c.drop_first()[k] == c[k + 1]);
            assert(file_of_package(c, k + 1, j, x));
        },
    }
}

/// A package that was stored is in the cache with the files it was stored
/// with, and every other package is as it was.
pub proof fn law_store_then_has(c: CacheView, key: Seq<char>, files: Seq<(Seq<char>, Seq<u8>)>)
    requires
        cache_wf(c),
    ensures
        cache_wf(insert_entry(c, key, files)),
        cache_has(insert_entry(c, key, files), key),
        key_index(insert_entry(c, key, files), key) matches Some(i) && insert_entry(c, key, files)[i].1
            == files,
        forall|other: Seq<char>|
            other != key ==> cache_has(insert_entry(c, key, files), other) == cache_has(c, other),
{
    lemma_insert_entry(c, key, files);
}

/// A package that was removed is no longer in the cache, and every other
/// package is as it was.
pub proof fn law_remove_then_lacks(c: CacheView, key: Seq<char>)
    requires
        cache_wf(c),
    ensures
        cache_wf(remove_entry(c, key)),
        !cache_has(remove_entry(c, key), key),
        forall|other: Seq<char>| other != key ==> cache_has(remove_entry(c, key), other) == cache_has(c, other),
{
    lemma_key_index(c, key);
    let r = remove_entry(c, key);
    lemma_key_index(r, key);
    match key_index(c, key) {
        Some(i) => {
            assert forall|a: int, b: int| 0 <= a < b < r.len() implies r[a].0 != r[b].0 by {
                let a0 = if a < i { a } else { a + 1 };
                let b0 = if b < i { b } else { b + 1 };
                assert(r[a] == c[a0] && r[b] == c[b0]);
            }
            match key_index(r, key) {
                Some(j) => {
                    let j0 = if j < i { j } else { j + 1 };
                    assert(r[j] == c[j0]);
                },
                None => {},
            }
            assert forall|other: Seq<char>| other != key implies cache_has(r, other) == cache_has(c, other) by {
                lemma_key_index(c, other);
                lemma_key_index(r, other);
                match key_index(c, other) {
                    Some(x) => {
                        let x1 = if x < i { x } else { x - 1 };
                        assert(x != i);
                        assert(r[x1] == c[x]);
                    },
                    None => {},
                }
                match key_index(r, other) {
                    Some(x) => {
                        let x0 = if x < i { x } else { x + 1 };
                        assert(r[x] == c[x0]);
                    },
                    None => {},
                }
            }
        },
        None => {},
    }
}

// ---------------------------------------------------------------------------
// Stored packages
// ---------------------------------------------------------------------------
/// A package as it is stored: each file's path with its bytes in base64.
pub open spec fn package_record_view(files: Seq<(Seq<char>, Seq<u8>)>) -> Seq<(Seq<char>, Seq<char>)> {
    files.map_values(|f: (Seq<char>, Seq<u8>)| (f.0, base64_text(f.1)))
}

/// Files short enough to encode.
pub open spec fn storable(files: Seq<(String, Vec<u8>)>) -> bool {
    forall|i: int| 0 <= i < files.len() ==> (#[trigger] files[i]).1.len() <= usize::MAX / 2
}

/// The record stored for a package's files.
pub fn package_record(files: &PackageFiles) -> (r: Vec<(String, String)>)
    requires
        storable(files@),
    ensures
        assoc_view(r@) == package_record_view(files_view(files@)),
{
    let mut out: Vec<(String, String)> = Vec::new();
    let ghost fv = files_view(files@);
    let mut i: usize = 0;
    while i < files.len()
        invariant
            i <= files.len(),
            storable(files@),
            fv == files_view(files@),
            assoc_view(out@) == package_record_view(fv.take(i as int)),
        decreases files.len() - i,
    {
        assert(files@[i as int].1.len() <= usize::MAX / 2);
        let e = (files[i].0.clone(), base64_encode(files[i].1.as_slice()));
        let ghost before = assoc_view(out@);
        out.push(e);
        assert(assoc_view(out@) =~= before.push((fv[i as int].0, base64_text(fv[i as int].1))));
        assert(package_record_view(fv.take(i + 1)) =~= package_record_view(fv.take(i as int)).push(
            (fv[i as int].0, base64_text(fv[i as int].1)),
        ));
        i = i + 1;
    }
    assert(fv.take(files.len() as int) =~= fv);
    out
}

/// The files a stored record gives back: the entries whose data is base64,
/// decoded and inserted by path in order.
pub open spec fn record_files(r: Seq<(Seq<char>, Seq<char>)>) -> Seq<(Seq<char>, Seq<u8>)>
    decreases r.len(),
{
    if r.len() == 0 {
        Seq::empty()
    } else {
        let acc = record_files(r.drop_last());
        let (path, data) = r.last();
        if is_base64_text(data) {
            insert_entry(acc, path, choose|b: Seq<u8>| base64_text(b) == data)
        } else {
            acc
        }
    }
}

/// Stored files that form a package: one of them is its `typst.toml`.
pub open spec fn has_manifest(files: Seq<(Seq<char>, Seq<u8>)>) -> bool {
    key_index(files, "typst.toml"@) is Some
}

/// The files of a stored package; none where they hold no `typst.toml`,
/// which marks a stale record.
pub fn files_from_record(record: &[(String, String)]) -> (r: Option<PackageFiles>)
    ensures
        match r {
            Some(f) => has_manifest(record_files(assoc_view(record@))) && files_view(f@) == record_files(assoc_view(record@)),
            None => !has_manifest(record_files(assoc_view(record@))),
        },
{
    let ghost rv = assoc_view(record@);
    let mut files: PackageFiles = Vec::new();
    let mut i: usize = 0;
    assert(rv.take(0) =~= Seq::<(Seq<char>, Seq<char>)>::empty());
    while i < record.len()
        invariant
            i <= record.len(),
            rv == assoc_view(record@),
            files_view(files@) == record_files(rv.take(i as int)),
        decreases record.len() - i,
    {
        assert(rv.take(i + 1).drop_last() =~= rv.take(i as int));
        assert(rv.take(i + 1).last() == (record@[i as int].0@, record@[i as int].1@));
        match base64_decode(record[i].1.as_str()) {
            Ok(bytes) => {
                proof {
                    let chosen = choose|b: Seq<u8>| base64_text(b) == record@[i as int].1@;
                    crate::encoding::lemma_base64_injective(chosen, bytes@);
                }
                let ghost before = files@;
                assert(files_view(before) =~= assoc_view(before));
                insert_assoc(&mut files, record[i].0.clone(), bytes);
                assert(files_view(files@) =~= assoc_view(files@));
            },
            Err(_) => {},
        }
        i = i + 1;
    }
    assert(rv.take(record.len() as int) =~= rv);
    assert(files_view(files@) =~= assoc_view(files@));
    if crate::assoc::find_key(&files, "typst.toml").is_some() {
        Some(files)
    } else {
        None
    }
}

/// The record stored for a package's files, as the JSON object of each
/// path and its data in base64.
pub fn package_record_json(files: &PackageFiles) -> (r: String)
    requires
        storable(files@),
    ensures
        r@ == json_object(package_record_view(files_view(files@))),
{
    let record = package_record(files);
    json_object_text(record.as_slice())
}

/// The stored records, each a key with its JSON text, that parse as JSON
/// objects of strings, with their members; the others are passed over.
pub open spec fn parsed_records(stored: Seq<(Seq<char>, Seq<char>)>) -> Seq<(Seq<char>, Seq<(Seq<char>, Seq<char>)>)>
    decreases stored.len(),
{
    if stored.len() == 0 {
        Seq::empty()
    } else {
        let rest = parsed_records(stored.drop_last());
        match json_string_map(stored.last().1) {
            Some(ps) => rest.push((stored.last().0, ps)),
            None => rest,
        }
    }
}

/// A stored entry decoded: its path and the bytes its base64 data encodes.
pub open spec fn decoded(e: (Seq<char>, Seq<char>)) -> (Seq<char>, Seq<u8>) {
    (e.0, choose|b: Seq<u8>| base64_text(b) == e.1)
}

/// Every entry decoded.
pub open spec fn decoded_all(q: Seq<(Seq<char>, Seq<char>)>) -> Seq<(Seq<char>, Seq<u8>)> {
    q.map_values(|e: (Seq<char>, Seq<char>)| decoded(e))
}

proof fn lemma_record_files_plain(q: Seq<(Seq<char>, Seq<char>)>)
    requires
        distinct_keys(q),
        forall|i: int| 0 <= i < q.len() ==> is_base64_text(#[trigger] q[i].1),
    ensures
        record_files(q) == decoded_all(q),
    decreases q.len(),
{
    if q.len() > 0 {
        let r = q.drop_last();
        assert forall|i: int| 0 <= i < r.len() implies is_base64_text(#[trigger] r[i].1) by {
            assert(r[i] == q[i]);
        }
        lemma_record_files_plain(r);
        let path = q.last().0;
        lemma_key_index(record_files(r), path);
        match key_index(record_files(r), path) {
            Some(i) => {
                assert(decoded_all(r)[i].0 == r[i].0);
                assert(r[i] == q[i]);
                assert(q[i].0 != q[q.len() - 1].0);
            },
            None => {},
        }
        assert(is_base64_text(q[q.len() - 1].1));
        assert(decoded_all(q) =~= decoded_all(r).push(decoded(q.last())));
    }
}

proof fn lemma_decoded_view(fs: Seq<(Seq<char>, Seq<u8>)>)
    ensures
        decoded_all(package_record_view(fs)) == fs,
{
    let pv = package_record_view(fs);
    assert forall|i: int| 0 <= i < fs.len() implies #[trigger] decoded_all(pv)[i] == fs[i] by {
        let b = fs[i].1;
        let chosen = choose|x: Seq<u8>| base64_text(x) == base64_text(b);
        assert(base64_text(b) == base64_text(b));
        crate::encoding::lemma_base64_injective(chosen, b);
    }
    assert(decoded_all(pv) =~= fs);
}

/// A package's files, written as a stored record and read back with their
/// entries in any order, are the same files (each path with its bytes,
/// once each), where their paths are distinct; and they form a package
/// exactly where the files did.
pub proof fn law_stored_package_round_trip(fs: Seq<(Seq<char>, Seq<u8>)>, q: Seq<(Seq<char>, Seq<char>)>)
    requires
        distinct_keys(fs),
        q.to_multiset() == package_record_view(fs).to_multiset(),
    ensures
        record_files(q).to_multiset() == fs.to_multiset(),
        has_manifest(record_files(q)) == has_manifest(fs),
{
    broadcast use vstd::seq_lib::group_to_multiset_ensures;
    let pv = package_record_view(fs);
    assert(distinct_keys(pv)) by {
        assert forall|i: int, j: int| 0 <= i < j < pv.len() implies pv[i].0 != pv[j].0 by {
            assert(pv[i].0 == fs[i].0);
            assert(pv[j].0 == fs[j].0);
        }
    }
    crate::assoc::lemma_distinct_keys_perm(pv, q);
    assert forall|i: int| 0 <= i < q.len() implies is_base64_text(#[trigger] q[i].1) by {
        assert(q.contains(q[i]));
        assert(pv.to_multiset().count(q[i]) > 0);
        let j = choose|j: int| 0 <= j < pv.len() && pv[j] == q[i];
        assert(pv[j].1 == base64_text(fs[j].1));
    }
    lemma_record_files_plain(q);
    let f = |e: (Seq<char>, Seq<char>)| decoded(e);
    crate::assoc::lemma_map_multiset(q, pv, f);
    assert(decoded_all(q) =~= q.map_values(f));
    assert(decoded_all(pv) =~= pv.map_values(f));
    lemma_decoded_view(fs);
    let rq = record_files(q);
    lemma_key_index(rq, "typst.toml"@);
    lemma_key_index(fs, "typst.toml"@);
    match key_index(fs, "typst.toml"@) {
        Some(j) => {
            assert(fs.contains(fs[j]));
            assert(rq.to_multiset().count(fs[j]) > 0);
            let k = choose|k: int| 0 <= k < rq.len() && rq[k] == fs[j];
            assert(rq[k].0 == "typst.toml"@);
        },
        None => {},
    }
    match key_index(rq, "typst.toml"@) {
        Some(j) => {
            assert(rq.contains(rq[j]));
            assert(fs.to_multiset().count(rq[j]) > 0);
            let k = choose|k: int| 0 <= k < fs.len() && fs[k] == rq[j];
            assert(fs[k].0 == "typst.toml"@);
        },
        None => {},
    }
}

/// Reads a cached package's stored JSON record: nothing where the text is
/// no JSON object of strings; otherwise the package's files, or nothing for
/// a stale record without `typst.toml`. A record written by
/// `package_record_json` from files with distinct paths that form a
/// package reads back as the same files, in some order.
pub fn read_package_record(json: &str) -> (r: Option<PackageFiles>)
    ensures
        match json_string_map(json@) {
            None => r is None,
            Some(ps) => match r {
                Some(f) => has_manifest(record_files(ps)) && files_view(f@) == record_files(ps),
                None => !has_manifest(record_files(ps)),
            },
        },
        forall|fs: Seq<(Seq<char>, Seq<u8>)>|
            #[trigger] json_object(package_record_view(fs)) == json@ && distinct_keys(fs) && has_manifest(fs) ==> (
            r matches Some(f) && files_view(f@).to_multiset() == fs.to_multiset()),
{
    let parsed = parse_string_map(json);
    match parsed {
        Some(pairs) => {
            let r = files_from_record(pairs.as_slice());
            proof {
                assert forall|fs: Seq<(Seq<char>, Seq<u8>)>|
                    #[trigger] json_object(package_record_view(fs)) == json@ && distinct_keys(fs) && has_manifest(fs) implies (
                    r matches Some(f) && files_view(f@).to_multiset() == fs.to_multiset()) by {
                    let pv = package_record_view(fs);
                    assert(distinct_keys(pv)) by {
                        assert forall|i: int, j: int| 0 <= i < j < pv.len() implies pv[i].0 != pv[j].0 by {
                            assert(pv[i].0 == fs[i].0);
                            assert(pv[j].0 == fs[j].0);
                        }
                    }
                    assert(map_read(parsed, pv));
                    law_stored_package_round_trip(fs, assoc_view(pairs@));
                }
            }
            r
        },
        None => {
            proof {
                assert forall|fs: Seq<(Seq<char>, Seq<u8>)>|
                    #[trigger] json_object(package_record_view(fs)) == json@ && distinct_keys(fs) && has_manifest(fs) implies false by {
                    let pv = package_record_view(fs);
                    assert(distinct_keys(pv)) by {
                        assert forall|i: int, j: int| 0 <= i < j < pv.len() implies pv[i].0 != pv[j].0 by {
                            assert(pv[i].0 == fs[i].0);
                            assert(pv[j].0 == fs[j].0);
                        }
                    }
                    assert(map_read(parsed, pv));
                }
            }
            None
        },
    }
}

/// Stored records as keys and their files' paths and base64 data.
pub open spec fn records_view(v: Seq<(String, Vec<(String, String)>)>) -> Seq<(Seq<char>, Seq<(Seq<char>, Seq<char>)>)> {
    v.map_values(|e: (String, Vec<(String, String)>)| (e.0@, assoc_view(e.1@)))
}

/// The cache that loading stored records builds: each record that holds a
/// package's files, inserted by its key in order.
pub open spec fn loaded_cache(records: Seq<(Seq<char>, Seq<(Seq<char>, Seq<char>)>)>) -> CacheView
    decreases records.len(),
{
    if records.len() == 0 {
        Seq::empty()
    } else {
        let acc = loaded_cache(records.drop_last());
        let (key, r) = records.last();
        if has_manifest(record_files(r)) {
            insert_entry(acc, key, record_files(r))
        } else {
            acc
        }
    }
}

/// The keys of the stored records that hold no package, in order.
pub open spec fn stale_keys(records: Seq<(Seq<char>, Seq<(Seq<char>, Seq<char>)>)>) -> Seq<Seq<char>>
    decreases records.len(),
{
    if records.len() == 0 {
        Seq::empty()
    } else {
        let acc = stale_keys(records.drop_last());
        if has_manifest(record_files(records.last().1)) {
            acc
        } else {
            acc.push(records.last().0)
        }
    }
}

/// A package's files, stored and read back, are the same files in the same
/// order, where their paths are distinct.
pub proof fn law_record_round_trip(files: Seq<(Seq<char>, Seq<u8>)>)
    requires
        distinct_keys(files),
    ensures
        record_files(package_record_view(files)) == files,
    decreases files.len(),
{
    if files.len() > 0 {
        let rest = files.drop_last();
        let (path, bytes) = files.last();
        assert(package_record_view(files).drop_last() =~= package_record_view(rest));
        assert(distinct_keys(rest));
        law_record_round_trip(rest);
        assert(is_base64_text(base64_text(bytes)));
        let chosen = choose|b: Seq<u8>| base64_text(b) == base64_text(bytes);
        crate::encoding::lemma_base64_injective(chosen, bytes);
        lemma_key_index(rest, path);
        match key_index(rest, path) {
            Some(i) => {
                assert(files[i].0 == files[files.len() - 1].0);
            },
            None => {},
        }
        assert(files =~= rest.push((path, bytes)));
    }
}

} // verus!
