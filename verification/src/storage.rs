//! Storage of projects: the choice of backend, how the browser database keys
//! a project's files, and the reading of data from the earlier storage
//! format.
use vstd::prelude::*;
use crate::encoding::{base64_decode, base64_text, is_base64_text};
use crate::file_tree::seq_lt;
use crate::text::{
    append_chars, chars_of, find_char, first_index_of, has_prefix, lemma_first_index_of,
    slice_chars, starts_with_chars, str_equal, string_of,
};

verus! {

/// Where projects are stored.
#[derive(Clone, Copy, Debug, PartialEq, Eq, Structural)]
pub enum StorageBackend {
    IndexedDb,
    ServerApi,
}

impl StorageBackend {
    /// The name the settings show for the backend.
    pub fn label(&self) -> (r: &'static str)
        ensures
            r@ == match self {
                StorageBackend::IndexedDb => "Local (Browser)"@,
                StorageBackend::ServerApi => "Server"@,
            },
    {
        match self {
            StorageBackend::IndexedDb => "Local (Browser)",
            StorageBackend::ServerApi => "Server",
        }
    }

    /// The value saved in the settings for the backend.
    pub fn setting_value(&self) -> (r: &'static str)
        ensures
            r@ == backend_setting(*self),
    {
        match self {
            StorageBackend::IndexedDb => "indexeddb",
            StorageBackend::ServerApi => "server_api",
        }
    }

    /// The backend a saved setting selects: the server for `server_api`, the
    /// browser database for any other value and where nothing was saved.
    pub fn from_setting(value: Option<&str>) -> (r: Self)
        ensures
            r == backend_from_setting(
                match value {
                    Some(v) => Some(v@),
                    None => None,
                },
            ),
    {
        match value {
            Some(v) => {
                if str_equal(v, "server_api") {
                    StorageBackend::ServerApi
                } else {
                    StorageBackend::IndexedDb
                }
            },
            None => StorageBackend::IndexedDb,
        }
    }
}

impl Default for StorageBackend {
    fn default() -> (r: Self)
        ensures
            r == StorageBackend::IndexedDb,
    {
        StorageBackend::IndexedDb
    }
}

/// The setting saved for a backend.
pub open spec fn backend_setting(b: StorageBackend) -> Seq<char> {
    match b {
        StorageBackend::IndexedDb => "indexeddb"@,
        StorageBackend::ServerApi => "server_api"@,
    }
}

/// The backend a saved setting selects.
pub open spec fn backend_from_setting(value: Option<Seq<char>>) -> StorageBackend {
    match value {
        Some(v) => if v == "server_api"@ {
            StorageBackend::ServerApi
        } else {
            StorageBackend::IndexedDb
        },
        None => StorageBackend::IndexedDb,
    }
}

/// The backend that was saved is the one loaded again.
pub proof fn law_backend_setting_round_trip(b: StorageBackend)
    ensures
        backend_from_setting(Some(backend_setting(b))) == b,
{
    reveal_strlit("indexeddb");
    reveal_strlit("server_api");
    if b == StorageBackend::IndexedDb {
        assert(backend_setting(b).len() != "server_api"@.len());
    }
}

// ---------------------------------------------------------------------------
// Keys of the browser database
// ---------------------------------------------------------------------------
/// The database key of a project's file: `project_id/path`.
pub open spec fn file_key_text(project_id: Seq<char>, path: Seq<char>) -> Seq<char> {
    project_id + seq!['/'] + path
}

/// The database key of a project's file.
pub fn file_key(project_id: &str, path: &str) -> (r: String)
    ensures
        r@ == file_key_text(project_id@, path@),
{
    let mut v = chars_of(project_id);
    v.push('/');
    append_chars(&mut v, &chars_of(path));
    string_of(&v)
}

/// The paths of a project's files among the database keys, in key order.
pub open spec fn project_paths(keys: Seq<Seq<char>>, project_id: Seq<char>) -> Seq<Seq<char>>
    decreases keys.len(),
{
    if keys.len() == 0 {
        Seq::empty()
    } else {
        let rest = project_paths(keys.drop_first(), project_id);
        let prefix = project_id + seq!['/'];
        if has_prefix(keys[0], prefix) {
            seq![keys[0].skip(prefix.len() as int)] + rest
        } else {
            rest
        }
    }
}

/// The strings as character sequences.
pub open spec fn strings_view(v: Seq<String>) -> Seq<Seq<char>> {
    v.map_values(|s: String| s@)
}

/// No string of the list comes after one behind it.
pub open spec fn strings_sorted(v: Seq<Seq<char>>) -> bool {
    forall|i: int, j: int| 0 <= i < j < v.len() ==> !seq_lt(#[trigger] v[j], #[trigger] v[i])
}

fn key_prefix(project_id: &str) -> (r: Vec<char>)
    ensures
        r@ == project_id@ + seq!['/'],
{
    let mut p = chars_of(project_id);
    p.push('/');
    p
}

/// The paths of a project's files among the database keys, unsorted.
fn paths_with_prefix(keys: &[String], project_id: &str) -> (r: Vec<String>)
    ensures
        strings_view(r@) == project_paths(strings_view(keys@), project_id@),
{
    let prefix = key_prefix(project_id);
    let ghost kv = strings_view(keys@);
    let mut out: Vec<String> = Vec::new();
    let mut i = keys.len();
    assert(kv.skip(keys.len() as int) =~= Seq::<Seq<char>>::empty());
    while i > 0
        invariant
            i <= keys.len(),
            kv == strings_view(keys@),
            prefix@ == project_id@ + seq!['/'],
            strings_view(out@) == project_paths(kv.skip(i as int), project_id@),
        decreases i,
    {
        i = i - 1;
        assert(kv.skip(i as int).drop_first() =~= kv.skip(i + 1));
        assert(kv.skip(i as int)[0] == keys@[i as int]@);
        let k = chars_of(keys[i].as_str());
        if starts_with_chars(&k, &prefix) {
            let ghost before = strings_view(out@);
            let p = string_of(&slice_chars(&k, prefix.len(), k.len()));
            out.insert(0, p);
            assert(strings_view(out@) =~= seq![p@] + before);
        }
    }
    assert(kv.skip(0) == kv);
    out
}

/// Sorts strings by code point order, keeping every string.
pub fn sort_strings(v: Vec<String>) -> (r: Vec<String>)
    ensures
        strings_sorted(strings_view(r@)),
        strings_view(r@).to_multiset() == strings_view(v@).to_multiset(),
{
    let ghost orig = strings_view(v@);
    let mut src = v;
    let mut out: Vec<String> = Vec::new();
    let ghost mut taken: Seq<Seq<char>> = Seq::empty();
    assert(orig =~= taken + strings_view(src@));
    assert(strings_view(out@) =~= taken);
    while src.len() > 0
        invariant
            orig == taken + strings_view(src@),
            strings_view(out@).to_multiset() == taken.to_multiset(),
            strings_sorted(strings_view(out@)),
        decreases src.len(),
    {
        let x = src.remove(0);
        let kx = chars_of(x.as_str());
        let mut j: usize = 0;
        while j < out.len() && !crate::file_tree::chars_less(&kx, &chars_of(out[j].as_str()))
            invariant
                j <= out.len(),
                kx@ == x@,
                forall|m: int| 0 <= m < j ==> !seq_lt(x@, #[trigger] strings_view(out@)[m]),
            decreases out.len() - j,
        {
            j = j + 1;
        }
        let ghost before = strings_view(out@);
        out.insert(j, x);
        proof {
            assert(strings_view(out@) =~= before.insert(j as int, x@));
            let now = strings_view(out@);
            assert forall|a: int, b: int| 0 <= a < b < now.len() implies !seq_lt(#[trigger] now[b], #[trigger] now[a]) by {
                if a == j as int {
                    crate::file_tree::lemma_seq_lt_order(before[b - 1], x@, before[j as int]);
                    crate::file_tree::lemma_seq_lt_order(before[j as int], x@, before[j as int]);
                    if b - 1 > j {
                        assert(!seq_lt(before[b - 1], before[j as int]));
                    }
                } else if b == j as int {
                    assert(now[a] == before[a]);
                } else {
                    let a0 = if a < j { a } else { a - 1 };
                    let b0 = if b < j { b } else { b - 1 };
                    assert(now[a] == before[a0]);
                    assert(now[b] == before[b0]);
                }
            }
            vstd::seq_lib::to_multiset_insert(before, j as int, x@);
            vstd::seq_lib::to_multiset_build(taken, x@);
            taken = taken.push(x@);
            assert(orig =~= taken + strings_view(src@));
        }
    }
    assert(taken =~= orig);
    out
}

/// The paths of a project's files among the database keys (`project_id/path`),
/// in code point order.
pub fn list_project_files(keys: &[String], project_id: &str) -> (r: Vec<String>)
    ensures
        strings_sorted(strings_view(r@)),
        strings_view(r@).to_multiset() == project_paths(strings_view(keys@), project_id@).to_multiset(),
{
    sort_strings(paths_with_prefix(keys, project_id))
}

/// The database keys of a project's files: those that start with
/// `project_id/`, in order.
pub open spec fn project_keys_of(keys: Seq<Seq<char>>, project_id: Seq<char>) -> Seq<Seq<char>>
    decreases keys.len(),
{
    if keys.len() == 0 {
        Seq::empty()
    } else {
        let rest = project_keys_of(keys.drop_last(), project_id);
        if has_prefix(keys.last(), project_id + seq!['/']) {
            rest.push(keys.last())
        } else {
            rest
        }
    }
}

/// The database keys of a project's files, which deleting the project
/// removes.
pub fn project_keys(keys: &[String], project_id: &str) -> (r: Vec<String>)
    ensures
        strings_view(r@) == project_keys_of(strings_view(keys@), project_id@),
{
    let prefix = key_prefix(project_id);
    let ghost kv = strings_view(keys@);
    let mut out: Vec<String> = Vec::new();
    let mut i: usize = 0;
    assert(kv.take(0) =~= Seq::<Seq<char>>::empty());
    while i < keys.len()
        invariant
            i <= keys.len(),
            kv == strings_view(keys@),
            prefix@ == project_id@ + seq!['/'],
            strings_view(out@) == project_keys_of(kv.take(i as int), project_id@),
        decreases keys.len() - i,
    {
        assert(kv.take(i + 1).drop_last() =~= kv.take(i as int));
        assert(kv.take(i + 1).last() == keys@[i as int]@);
        if starts_with_chars(&chars_of(keys[i].as_str()), &prefix) {
            let ghost before = strings_view(out@);
            out.push(keys[i].clone());
            assert(strings_view(out@) =~= before.push(keys@[i as int]@));
        }
        i = i + 1;
    }
    assert(kv.take(keys.len() as int) =~= kv);
    out
}

/// The number of a project's files among the database keys.
pub fn count_project_files(keys: &[String], project_id: &str) -> (r: usize)
    ensures
        r == project_paths(strings_view(keys@), project_id@).len(),
{
    paths_with_prefix(keys, project_id).len()
}

proof fn lemma_project_paths(keys: Seq<Seq<char>>, project_id: Seq<char>)
    ensures
        forall|p: Seq<char>|
            #[trigger] project_paths(keys, project_id).contains(p) <==> keys.contains(file_key_text(project_id, p)),
    decreases keys.len(),
{
    if keys.len() > 0 {
        lemma_project_paths(keys.drop_first(), project_id);
        let prefix = project_id + seq!['/'];
        let rest = project_paths(keys.drop_first(), project_id);
        assert forall|p: Seq<char>|
            #[trigger] project_paths(keys, project_id).contains(p) <==> keys.contains(file_key_text(project_id, p)) by {
            let k = file_key_text(project_id, p);
            assert(k.subrange(0, prefix.len() as int) =~= prefix);
            assert(k.skip(prefix.len() as int) =~= p);
            if keys.contains(k) {
                let i = choose|i: int| 0 <= i < keys.len() && keys[i] == k;
                if i > 0 {
                    assert(keys.drop_first()[i - 1] == k);
                }
            }
            if keys.drop_first().contains(k) {
                let i = choose|i: int| 0 <= i < keys.len() - 1 && keys.drop_first()[i] == k;
                assert(keys[i + 1] == k);
            }
            if has_prefix(keys[0], prefix) {
                let q = keys[0].skip(prefix.len() as int);
                assert(keys[0] =~= file_key_text(project_id, q));
                if project_paths(keys, project_id).contains(p) {
                    if p == q {
                        assert(keys[0] == k);
                    } else {
                        let i = choose|i: int| 0 <= i < project_paths(keys, project_id).len() && project_paths(keys, project_id)[i] == p;
                        assert(rest[i - 1] == p);
                    }
                }
                if rest.contains(p) {
                    let i = choose|i: int| 0 <= i < rest.len() && rest[i] == p;
                    assert(project_paths(keys, project_id)[i + 1] == p);
                }
                if keys[0] == k {
                    assert(project_paths(keys, project_id)[0] == p);
                }
            } else {
                if keys[0] == k {
                    assert(has_prefix(keys[0], prefix));
                }
            }
        }
    }
}

/// A file written under a project's key is listed as that project's file,
/// and every file listed for a project was written under its key.
pub proof fn law_listed_iff_keyed(keys: Seq<Seq<char>>, project_id: Seq<char>, path: Seq<char>)
    ensures
        project_paths(keys, project_id).contains(path) <==> keys.contains(file_key_text(project_id, path)),
{
    lemma_project_paths(keys, project_id);
}

/// The bytes a base64 data URL holds: the base64 after its first comma,
/// decoded; none where there is no comma or the rest is no base64.
pub open spec fn data_url_bytes(u: Seq<char>) -> Seq<u8> {
    match first_index_of(u, ',') {
        Some(i) => if is_base64_text(u.skip(i + 1)) {
            choose|b: Seq<u8>| base64_text(b) == u.skip(i + 1)
        } else {
            Seq::empty()
        },
        None => Seq::empty(),
    }
}

// ---------------------------------------------------------------------------
// Data from the earlier storage format
// ---------------------------------------------------------------------------
/// Decodes a data URL to its bytes; an empty result where it has no comma or
/// its payload is not base64.
pub fn decode_data_url(data_url: &str) -> (r: Vec<u8>)
    ensures
        r@ == data_url_bytes(data_url@),
{
    let chars = chars_of(data_url);
    proof {
        lemma_first_index_of(data_url@, ',');
    }
    match find_char(&chars, ',') {
        Some(p) => {
            assert(p < chars.len());
            let payload = string_of(&slice_chars(&chars, p + 1, chars.len()));
            assert(payload@ == data_url@.skip(p + 1));
            match base64_decode(payload.as_str()) {
                Ok(b) => {
                    proof {
                        let chosen = choose|x: Seq<u8>| base64_text(x) == payload@;
                        crate::encoding::lemma_base64_injective(chosen, b@);
                    }
                    b
                },
                Err(_) => Vec::new(),
            }
        },
        None => Vec::new(),
    }
}

/// The path a migrated image takes: `images/` and its file name, or
/// `images/{id}.png` where it had none.
pub open spec fn migrated_image_path_text(id: Seq<char>, filename: Seq<char>) -> Seq<char> {
    if filename.len() == 0 {
        "images/"@ + id + ".png"@
    } else {
        "images/"@ + filename
    }
}

/// The path a migrated image takes in the new project.
pub fn migrated_image_path(id: &str, filename: &str) -> (r: String)
    ensures
        r@ == migrated_image_path_text(id@, filename@),
{
    let mut v = chars_of("images/");
    let f = chars_of(filename);
    if f.len() == 0 {
        append_chars(&mut v, &chars_of(id));
        append_chars(&mut v, &chars_of(".png"));
    } else {
        append_chars(&mut v, &f);
    }
    string_of(&v)
}

/// The file an image of the earlier format gives: under `images/`, by its
/// file name (or its id, as a PNG, where the name is empty), with the bytes
/// of its data URL; none where it has no data or its data gives no bytes.
pub open spec fn old_image_file(id: Seq<char>, filename: Option<Seq<char>>, data: Option<Seq<char>>) -> Option<
    (Seq<char>, Seq<u8>),
> {
    let f = match filename {
        Some(f) => f,
        None => Seq::empty(),
    };
    let d = match data {
        Some(d) => d,
        None => Seq::empty(),
    };
    if d.len() == 0 || data_url_bytes(d).len() == 0 {
        None
    } else {
        Some((migrated_image_path_text(id, f), data_url_bytes(d)))
    }
}

/// The file to write for an image of the earlier format, from its id and
/// the `filename` and `data` fields of its record where they are strings.
pub fn migrated_image(id: &str, filename: Option<&str>, data: Option<&str>) -> (r: Option<(String, Vec<u8>)>)
    ensures
        match old_image_file(
            id@,
            match filename {
                Some(f) => Some(f@),
                None => None,
            },
            match data {
                Some(d) => Some(d@),
                None => None,
            },
        ) {
            Some((p, b)) => r matches Some((q, c)) && q@ == p && c@ == b,
            None => r is None,
        },
{
    proof {
        reveal_strlit("");
    }
    let f: &str = match filename {
        Some(f) => f,
        None => "",
    };
    let d: &str = match data {
        Some(d) => d,
        None => "",
    };
    if chars_of(d).len() == 0 {
        return None;
    }
    let bytes = decode_data_url(d);
    if bytes.len() == 0 {
        return None;
    }
    Some((migrated_image_path(id, f), bytes))
}

/// The files that carry the earlier format's data over: the source as
/// `main.typ` and the bibliography as `refs.yml` where they were kept, then
/// the images that give a file; none where there was no earlier data at all.
pub fn migration_files(
    old_source: Option<String>,
    old_bib: Option<String>,
    old_images: &[(String, Option<String>, Option<String>)],
) -> (r: Option<(Vec<(String, String)>, Vec<(String, Vec<u8>)>)>)
    ensures
        (old_source is None && old_bib is None && old_images.len() == 0) <==> r is None,
        r matches Some((texts, images)) ==> {
            &&& crate::assoc::assoc_view(texts@) == source_entry(old_source) + bib_entry(old_bib)
            &&& crate::assoc::assoc_view(images@) == old_image_files(old_images_view(old_images@))
        },
{
    if old_source.is_none() && old_bib.is_none() && old_images.len() == 0 {
        return None;
    }
    let mut texts: Vec<(String, String)> = Vec::new();
    let ghost first: Seq<(Seq<char>, Seq<char>)> = source_entry(old_source);
    match old_source {
        Some(s) => {
            texts.push((string_of(&chars_of("main.typ")), s));
        },
        None => {},
    }
    assert(crate::assoc::assoc_view(texts@) =~= first);
    match old_bib {
        Some(b) => {
            texts.push((string_of(&chars_of("refs.yml")), b));
        },
        None => {},
    }
    let ghost iv = old_images_view(old_images@);
    let mut images: Vec<(String, Vec<u8>)> = Vec::new();
    let mut i: usize = 0;
    assert(iv.take(0) =~= Seq::<(Seq<char>, Option<Seq<char>>, Option<Seq<char>>)>::empty());
    while i < old_images.len()
        invariant
            i <= old_images.len(),
            iv == old_images_view(old_images@),
            crate::assoc::assoc_view(images@) == old_image_files(iv.take(i as int)),
        decreases old_images.len() - i,
    {
        assert(iv.take(i + 1).drop_last() =~= iv.take(i as int));
        let (id, filename, data) = &old_images[i];
        let f: Option<&str> = match filename {
            Some(x) => Some(x.as_str()),
            None => None,
        };
        let d: Option<&str> = match data {
            Some(x) => Some(x.as_str()),
            None => None,
        };
        assert(iv.take(i + 1).last() == (id@, match f { Some(x) => Some(x@), None => None }, match d { Some(x) => Some(x@), None => None }));
        match migrated_image(id.as_str(), f, d) {
            Some(e) => {
                let ghost before = crate::assoc::assoc_view(images@);
                let ghost ev = (e.0@, e.1@);
                images.push(e);
                assert(crate::assoc::assoc_view(images@) =~= before.push(ev));
            },
            None => {},
        }
        i = i + 1;
    }
    assert(iv.take(old_images.len() as int) =~= iv);
    Some((texts, images))
}

/// The earlier format's source as the main file, where it was kept.
pub open spec fn source_entry(s: Option<String>) -> Seq<(Seq<char>, Seq<char>)> {
    match s {
        Some(s) => seq![("main.typ"@, s@)],
        None => Seq::empty(),
    }
}

/// The earlier format's bibliography as `refs.yml`, where it was kept.
pub open spec fn bib_entry(b: Option<String>) -> Seq<(Seq<char>, Seq<char>)> {
    match b {
        Some(b) => seq![("refs.yml"@, b@)],
        None => Seq::empty(),
    }
}

/// The earlier format's images as ids and optional name and data.
pub open spec fn old_images_view(v: Seq<(String, Option<String>, Option<String>)>) -> Seq<
    (Seq<char>, Option<Seq<char>>, Option<Seq<char>>),
> {
    v.map_values(
        |e: (String, Option<String>, Option<String>)|
            (
                e.0@,
                match e.1 {
                    Some(x) => Some(x@),
                    None => None,
                },
                match e.2 {
                    Some(x) => Some(x@),
                    None => None,
                },
            ),
    )
}

/// The files the earlier format's images give, in order.
pub open spec fn old_image_files(v: Seq<(Seq<char>, Option<Seq<char>>, Option<Seq<char>>)>) -> Seq<(Seq<char>, Seq<u8>)>
    decreases v.len(),
{
    if v.len() == 0 {
        Seq::empty()
    } else {
        let rest = old_image_files(v.drop_last());
        match old_image_file(v.last().0, v.last().1, v.last().2) {
            Some(e) => rest.push(e),
            None => rest,
        }
    }
}

} // verus!
