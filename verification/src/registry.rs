//! Package specifications of the Typst package registry (`@namespace/name:version`),
//! the registry's archive URLs, a reader for the tar archives it serves, and the
//! recognition of package specifications in compiler messages.
use vstd::prelude::*;
use vstd::utf8::{decode_utf8, valid_utf8};
use crate::assoc::{assoc_view, fold_insert, insert_assoc, insert_entry};
use crate::text::{
    alphanumeric, append_chars, chars_equal, chars_of, contains_char, find_char,
    first_index_of, has_prefix, holds_char, is_alphanumeric, is_white_space,
    format_radix, lemma_first_index_of, parse_unsigned, parse_unsigned_chars, radix_digits, slice_chars,
    string_of,
    utf8_decode, white_space,
};

verus! {

/// A package of the registry, as written `@namespace/name:version`.
#[derive(Clone, Debug, PartialEq, Eq, Hash)]
pub struct PkgSpec {
    pub namespace: String,
    pub name: String,
    pub version: String,
}

/// The three parts of a package specification, as character sequences.
pub type SpecParts = (Seq<char>, Seq<char>, Seq<char>);

impl View for PkgSpec {
    type V = SpecParts;

    open spec fn view(&self) -> SpecParts {
        (self.namespace@, self.name@, self.version@)
    }
}

/// `s` without all its leading `c`.
pub open spec fn drop_leading(s: Seq<char>, c: char) -> Seq<char>
    decreases s.len(),
{
    if s.len() > 0 && s[0] == c {
        drop_leading(s.drop_first(), c)
    } else {
        s
    }
}

/// `str::split_once` with a character: the parts before and after its first
/// occurrence.
pub open spec fn split_once(s: Seq<char>, c: char) -> Option<(Seq<char>, Seq<char>)> {
    match first_index_of(s, c) {
        Some(i) => Some((s.take(i), s.skip(i + 1))),
        None => None,
    }
}

/// The package specification that `s` writes: leading `@` are ignored, the
/// namespace ends at the first `/` of the part before the first `:`, and the
/// version is everything after that `:`.
pub open spec fn parse_spec(s: Seq<char>) -> Option<SpecParts> {
    match split_once(drop_leading(s, '@'), ':') {
        Some((ns_name, version)) => match split_once(ns_name, '/') {
            Some((namespace, name)) => Some((namespace, name, version)),
            None => None,
        },
        None => None,
    }
}

/// `@namespace/name:version`.
pub open spec fn spec_text(p: SpecParts) -> Seq<char> {
    seq!['@'] + p.0 + seq!['/'] + p.1 + seq![':'] + p.2
}

/// The registry's address.
pub open spec fn registry_url() -> Seq<char> {
    "https://packages.typst.org"@
}

/// `{registry}/{namespace}/{name}-{version}.tar.gz`.
pub open spec fn tar_url_of(p: SpecParts) -> Seq<char> {
    registry_url() + seq!['/'] + p.0 + seq!['/'] + p.1 + seq!['-'] + p.2 + ".tar.gz"@
}

/// A specification that `to_string` writes so that `parse` reads it back:
/// the namespace holds no `/` or `:` and does not start with `@`, and the name
/// holds no `:`.
pub open spec fn well_formed_spec(p: SpecParts) -> bool {
    &&& !holds_char(p.0, '/')
    &&& !holds_char(p.0, ':')
    &&& !(p.0.len() > 0 && p.0[0] == '@')
    &&& !holds_char(p.1, ':')
}

pub(crate) fn drop_leading_exec(s: &[char], c: char) -> (r: Vec<char>)
    ensures
        r@ == drop_leading(s@, c),
{
    let mut i: usize = 0;
    assert(s@.skip(0) == s@);
    while i < s.len() && s[i] == c
        invariant
            i <= s.len(),
            drop_leading(s@, c) == drop_leading(s@.skip(i as int), c),
        decreases s.len() - i,
    {
        assert(s@.skip(i as int).drop_first() == s@.skip(i + 1));
        i = i + 1;
    }
    assert(s@.skip(i as int) == s@.subrange(i as int, s.len() as int));
    slice_chars(s, i, s.len())
}

pub(crate) fn split_once_exec(s: &[char], c: char) -> (r: Option<(Vec<char>, Vec<char>)>)
    ensures
        match split_once(s@, c) {
            Some((a, b)) => r matches Some((x, y)) && x@ == a && y@ == b,
            None => r is None,
        },
{
    match find_char(s, c) {
        Some(i) => {
            proof {
                lemma_first_index_of(s@, c);
            }
            assert(i < s.len());
            let a = slice_chars(s, 0, i);
            let b = slice_chars(s, i + 1, s.len());
            assert(a@ == s@.take(i as int));
            assert(b@ == s@.skip(i + 1));
            Some((a, b))
        },
        None => None,
    }
}

impl PkgSpec {
    /// Reads `@namespace/name:version` (leading `@` optional).
    pub fn parse(s: &str) -> (r: Option<Self>)
        ensures
            match parse_spec(s@) {
                Some(p) => r matches Some(spec) && spec@ == p,
                None => r is None,
            },
    {
        let chars = chars_of(s);
        let t = drop_leading_exec(&chars, '@');
        match split_once_exec(&t, ':') {
            Some((ns_name, version)) => match split_once_exec(&ns_name, '/') {
                Some((namespace, name)) => Some(
                    PkgSpec {
                        namespace: string_of(&namespace),
                        name: string_of(&name),
                        version: string_of(&version),
                    },
                ),
                None => None,
            },
            None => None,
        }
    }

    /// The characters of `@namespace/name:version`.
    pub fn text_chars(&self) -> (r: Vec<char>)
        ensures
            r@ == spec_text(self@),
    {
        let mut r: Vec<char> = Vec::new();
        r.push('@');
        append_chars(&mut r, &chars_of(self.namespace.as_str()));
        r.push('/');
        append_chars(&mut r, &chars_of(self.name.as_str()));
        r.push(':');
        append_chars(&mut r, &chars_of(self.version.as_str()));
        assert(r@ =~= spec_text(self@));
        r
    }

    /// `@namespace/name:version`.
    pub fn to_string(&self) -> (r: String)
        ensures
            r@ == spec_text(self@),
    {
        string_of(&self.text_chars())
    }

    /// The address of the package's archive in the registry.
    pub fn tar_url(&self) -> (r: String)
        ensures
            r@ == tar_url_of(self@),
    {
        let mut v = chars_of("https://packages.typst.org");
        v.push('/');
        append_chars(&mut v, &chars_of(self.namespace.as_str()));
        v.push('/');
        append_chars(&mut v, &chars_of(self.name.as_str()));
        v.push('-');
        append_chars(&mut v, &chars_of(self.version.as_str()));
        append_chars(&mut v, &chars_of(".tar.gz"));
        assert(v@ =~= tar_url_of(self@));
        string_of(&v)
    }

    /// A copy of the specification.
    pub fn duplicate(&self) -> (r: Self)
        ensures
            r@ == self@,
    {
        PkgSpec {
            namespace: self.namespace.clone(),
            name: self.name.clone(),
            version: self.version.clone(),
        }
    }
}

proof fn lemma_first_index_concat(a: Seq<char>, b: Seq<char>, c: char)
    requires
        !holds_char(a, c),
    ensures
        first_index_of(a + b, c) == match first_index_of(b, c) {
            Some(i) => Some(i + a.len()),
            None => None::<int>,
        },
{
    lemma_first_index_of(a + b, c);
    lemma_first_index_of(b, c);
    match first_index_of(b, c) {
        Some(i) => {
            assert((a + b)[i + a.len()] == c);
            match first_index_of(a + b, c) {
                Some(k) => {
                    if k < a.len() {
                        assert(a[k] == (a + b)[k]);
                    } else if k < i + a.len() {
                        assert(b[k - a.len()] == (a + b)[k]);
                    }
                },
                None => {},
            }
        },
        None => {
            match first_index_of(a + b, c) {
                Some(k) => {
                    if k < a.len() {
                        assert(a[k] == (a + b)[k]);
                    } else {
                        assert(b[k - a.len()] == (a + b)[k]);
                    }
                },
                None => {},
            }
        },
    }
}

/// Reading back what `to_string` writes gives the same specification, for
/// every specification whose namespace holds no `/` or `:` and does not start
/// with `@`, and whose name holds no `:`.
pub proof fn law_parse_to_string(p: SpecParts)
    requires
        well_formed_spec(p),
    ensures
        parse_spec(spec_text(p)) == Some(p),
{
    let t = spec_text(p);
    assert(t.drop_first() =~= p.0 + seq!['/'] + p.1 + seq![':'] + p.2);
    assert(drop_leading(t.drop_first(), '@') == t.drop_first());
    let u = t.drop_first();
    let ns_name = p.0 + seq!['/'] + p.1;
    assert(!holds_char(ns_name, ':')) by {
        if holds_char(ns_name, ':') {
            let k = choose|k: int| 0 <= k < ns_name.len() && ns_name[k] == ':';
            if k < p.0.len() {
                assert(p.0[k] == ':');
            } else if k > p.0.len() {
                assert(p.1[k - p.0.len() - 1] == ':');
            }
        }
    }
    assert(u =~= ns_name + (seq![':'] + p.2));
    lemma_first_index_concat(ns_name, seq![':'] + p.2, ':');
    assert(first_index_of(seq![':'] + p.2, ':') == Some(0int));
    assert(u.take(ns_name.len() as int) =~= ns_name);
    assert(u.skip(ns_name.len() as int + 1) =~= p.2);
    assert(ns_name =~= p.0 + (seq!['/'] + p.1));
    lemma_first_index_concat(p.0, seq!['/'] + p.1, '/');
    assert(first_index_of(seq!['/'] + p.1, '/') == Some(0int));
    assert(ns_name.take(p.0.len() as int) =~= p.0);
    assert(ns_name.skip(p.0.len() as int + 1) =~= p.1);
}

// ---------------------------------------------------------------------------
// Tar archives
// ---------------------------------------------------------------------------
/// The index of the first zero byte of `b`, or its length if it holds none.
pub open spec fn first_zero(b: Seq<u8>) -> int
    decreases b.len(),
{
    if b.len() == 0 {
        0
    } else if b[0] == 0 {
        0
    } else {
        1 + first_zero(b.drop_first())
    }
}

/// The bytes of a field up to its first zero byte.
pub open spec fn field_text(b: Seq<u8>) -> Seq<u8> {
    b.take(first_zero(b))
}

/// A character that `trim_matches` removes around the size field.
pub open spec fn is_pad(c: char) -> bool {
    c == '\0' || c == ' '
}

/// `s` without its leading padding characters.
pub open spec fn trim_start_pad(s: Seq<char>) -> Seq<char>
    decreases s.len(),
{
    if s.len() > 0 && is_pad(s[0]) {
        trim_start_pad(s.drop_first())
    } else {
        s
    }
}

/// `s` without its trailing padding characters.
pub open spec fn trim_end_pad(s: Seq<char>) -> Seq<char>
    decreases s.len(),
{
    if s.len() > 0 && is_pad(s.last()) {
        trim_end_pad(s.drop_last())
    } else {
        s
    }
}

/// A path without one leading `./`, or else without one leading `/`.
pub open spec fn strip_root(n: Seq<char>) -> Seq<char> {
    if has_prefix(n, seq!['.', '/']) {
        n.skip(2)
    } else if n.len() > 0 && n[0] == '/' {
        n.skip(1)
    } else {
        n
    }
}

/// The path an entry's 512-byte header gives (its name, behind its ustar
/// prefix where that is present and readable), or `None` where the name is
/// not UTF-8.
pub open spec fn entry_name(h: Seq<u8>) -> Option<Seq<char>> {
    let n = field_text(h.subrange(0, 100));
    let pb = field_text(h.subrange(345, 500));
    if !valid_utf8(n) {
        None
    } else {
        let full = if pb.len() > 0 && valid_utf8(pb) && decode_utf8(pb).len() > 0 {
            decode_utf8(pb) + seq!['/'] + decode_utf8(n)
        } else {
            decode_utf8(n)
        };
        Some(strip_root(full))
    }
}

/// The size an entry's header gives: its octal field with padding trimmed,
/// zero where that is no number, and `None` where the field is not UTF-8.
pub open spec fn entry_size(h: Seq<u8>) -> Option<nat> {
    let f = h.subrange(124, 135);
    if !valid_utf8(f) {
        None
    } else {
        match parse_unsigned(trim_end_pad(trim_start_pad(decode_utf8(f))), 8, usize::MAX as nat) {
            Some(n) => Some(n),
            None => Some(0),
        }
    }
}

/// `n` rounded up to a multiple of 512.
pub open spec fn round_up_512(n: nat) -> nat {
    if n % 512 == 0 {
        n
    } else {
        (n + (512 - n % 512)) as nat
    }
}

/// A header of zero bytes only.
pub open spec fn all_zero(h: Seq<u8>) -> bool {
    forall|i: int| 0 <= i < h.len() ==> h[i] == 0
}

/// The regular files of the archive from offset `pos` on, in order, or the
/// message of the first header that cannot be read. Reading stops at an
/// all-zero header or where less than a whole header is left; an entry whose
/// data runs past the end, whose size is zero, whose path is empty or that is
/// no regular file is skipped.
pub open spec fn tar_scan(data: Seq<u8>, pos: nat) -> Result<Seq<(Seq<char>, Seq<u8>)>, Seq<char>>
    decreases data.len() - pos,
{
    if pos + 512 > data.len() {
        Ok(Seq::empty())
    } else {
        let h = data.subrange(pos as int, pos as int + 512);
        if all_zero(h) {
            Ok(Seq::empty())
        } else {
            match entry_name(h) {
                None => Err("Invalid filename"@),
                Some(name) => match entry_size(h) {
                    None => Err("Invalid size"@),
                    Some(size) => {
                        let body = pos + 512;
                        let keep = (h[156] == 48 || h[156] == 0) && size > 0 && name.len() > 0 && body
                            + size <= data.len();
                        let next = body + round_up_512(size);
                        let next_pos: nat = if next < data.len() {
                            next
                        } else {
                            data.len()
                        };
                        match tar_scan(data, next_pos) {
                            Err(e) => Err(e),
                            Ok(rest) => Ok(
                                if keep {
                                    seq![(name, data.subrange(body as int, body as int + size as int))] + rest
                                } else {
                                    rest
                                },
                            ),
                        }
                    },
                },
            }
        }
    }
}

/// Puts `done` in front of a scan's entries.
pub open spec fn after(done: Seq<(Seq<char>, Seq<u8>)>, r: Result<Seq<(Seq<char>, Seq<u8>)>, Seq<char>>) -> Result<Seq<(Seq<char>, Seq<u8>)>, Seq<char>> {
    match r {
        Ok(rest) => Ok(done + rest),
        Err(e) => Err(e),
    }
}

fn first_zero_in(data: &[u8], lo: usize, hi: usize) -> (r: usize)
    requires
        lo <= hi <= data.len(),
    ensures
        r == first_zero(data@.subrange(lo as int, hi as int)),
        r <= hi - lo,
{
    let mut i = lo;
    while i < hi && data[i] != 0
        invariant
            lo <= i <= hi <= data.len(),
            first_zero(data@.subrange(lo as int, hi as int)) == (i - lo) + first_zero(data@.subrange(i as int, hi as int)),
            forall|j: int| lo <= j < i ==> data@[j] != 0,
        decreases hi - i,
    {
        assert(data@.subrange(i as int, hi as int).drop_first() == data@.subrange(i + 1, hi as int));
        i = i + 1;
    }
    i - lo
}

fn trim_pad(v: &[char]) -> (r: Vec<char>)
    ensures
        r@ == trim_end_pad(trim_start_pad(v@)),
{
    let mut a: usize = 0;
    assert(v@.skip(0) == v@);
    while a < v.len() && (v[a] == '\0' || v[a] == ' ')
        invariant
            a <= v.len(),
            trim_start_pad(v@) == trim_start_pad(v@.skip(a as int)),
        decreases v.len() - a,
    {
        assert(v@.skip(a as int).drop_first() == v@.skip(a + 1));
        a = a + 1;
    }
    let ghost t = v@.skip(a as int);
    assert(trim_start_pad(v@) == t);
    let mut b: usize = v.len();
    assert(t.take(t.len() as int) == t);
    while b > a && (v[b - 1] == '\0' || v[b - 1] == ' ')
        invariant
            a <= b <= v.len(),
            t == v@.skip(a as int),
            trim_end_pad(t) == trim_end_pad(t.take(b - a)),
        decreases b,
    {
        assert(t.take(b - a).drop_last() == t.take(b - 1 - a));
        assert(t.take(b - a).last() == v@[b - 1]);
        b = b - 1;
    }
    assert(t.take(b - a) == v@.subrange(a as int, b as int));
    slice_chars(v, a, b)
}

fn strip_root_exec(n: Vec<char>) -> (r: Vec<char>)
    ensures
        r@ == strip_root(n@),
{
    if n.len() >= 2 && n[0] == '.' && n[1] == '/' {
        assert(n@.subrange(0, 2) =~= seq!['.', '/']);
        slice_chars(&n, 2, n.len())
    } else if n.len() > 0 && n[0] == '/' {
        proof {
            if n.len() >= 2 {
                assert(n@.subrange(0, 2)[0] == n@[0]);
            }
        }
        slice_chars(&n, 1, n.len())
    } else {
        proof {
            if n.len() >= 2 {
                assert(n@.subrange(0, 2)[0] == n@[0]);
                assert(n@.subrange(0, 2)[1] == n@[1]);
            }
        }
        n
    }
}

/// The path of the header at `pos`.
fn read_entry_name(data: &[u8], pos: usize) -> (r: Option<Vec<char>>)
    requires
        pos + 512 <= data.len(),
    ensures
        match entry_name(data@.subrange(pos as int, pos + 512)) {
            Some(n) => r matches Some(v) && v@ == n,
            None => r is None,
        },
{
    let ghost h = data@.subrange(pos as int, pos + 512);
    assert(h.subrange(0, 100) == data@.subrange(pos as int, pos + 100));
    assert(h.subrange(345, 500) == data@.subrange(pos + 345, pos + 500));
    let name_end = first_zero_in(data, pos, pos + 100);
    let name_bytes = vstd::slice::slice_subrange(data, pos, pos + name_end);
    assert(name_bytes@ == field_text(h.subrange(0, 100)));
    let name = match utf8_decode(name_bytes) {
        Some(s) => chars_of(s.as_str()),
        None => {
            return None;
        },
    };
    let prefix_end = first_zero_in(data, pos + 345, pos + 500);
    let prefix_bytes = vstd::slice::slice_subrange(data, pos + 345, pos + 345 + prefix_end);
    assert(prefix_bytes@ == field_text(h.subrange(345, 500)));
    let mut full = name;
    if prefix_end > 0 {
        match utf8_decode(prefix_bytes) {
            Some(p) => {
                let pc = chars_of(p.as_str());
                if pc.len() > 0 {
                    let mut joined = pc;
                    joined.push('/');
                    let ghost with_slash = joined@;
                    append_chars(&mut joined, &full);
                    assert(joined@ == decode_utf8(prefix_bytes@) + seq!['/'] + decode_utf8(name_bytes@));
                    full = joined;
                }
            },
            None => {},
        }
    }
    Some(strip_root_exec(full))
}

/// The size of the header at `pos`.
fn read_entry_size(data: &[u8], pos: usize) -> (r: Option<usize>)
    requires
        pos + 512 <= data.len(),
    ensures
        match entry_size(data@.subrange(pos as int, pos + 512)) {
            Some(n) => r == Some(n as usize),
            None => r is None,
        },
{
    let ghost h = data@.subrange(pos as int, pos + 512);
    let field = vstd::slice::slice_subrange(data, pos + 124, pos + 135);
    assert(field@ == h.subrange(124, 135));
    match utf8_decode(field) {
        None => None,
        Some(s) => {
            let t = trim_pad(&chars_of(s.as_str()));
            match parse_unsigned_chars(&t, 8, usize::MAX as u64) {
                Some(n) => Some(n as usize),
                None => Some(0),
            }
        },
    }
}

fn header_all_zero(data: &[u8], pos: usize) -> (r: bool)
    requires
        pos + 512 <= data.len(),
    ensures
        r == all_zero(data@.subrange(pos as int, pos + 512)),
{
    let mut i: usize = 0;
    while i < 512
        invariant
            pos + 512 <= data.len(),
            i <= 512,
            forall|j: int| 0 <= j < i ==> #[trigger] data@.subrange(pos as int, pos + 512)[j] == 0,
        decreases 512 - i,
    {
        if data[pos + i] != 0 {
            assert(data@.subrange(pos as int, pos + 512)[i as int] != 0);
            return false;
        }
        assert(data@.subrange(pos as int, pos + 512)[i as int] == 0);
        i = i + 1;
    }
    true
}

/// Reads the regular files of a tar archive: each path with its bytes, a
/// later entry of the same path replacing an earlier one.
pub fn parse_tar(data: &[u8]) -> (r: Result<Vec<(String, Vec<u8>)>, String>)
    ensures
        match tar_scan(data@, 0) {
            Ok(es) => r matches Ok(files) && assoc_view(files@) == fold_insert(es),
            Err(msg) => r matches Err(m) && m@ == msg,
        },
{
    let mut files: Vec<(String, Vec<u8>)> = Vec::new();
    let mut pos: usize = 0;
    let ghost mut done: Seq<(Seq<char>, Seq<u8>)> = Seq::empty();
    assert(after(done, tar_scan(data@, 0)) == tar_scan(data@, 0)) by {
        match tar_scan(data@, 0) {
            Ok(rest) => {
                assert(done + rest =~= rest);
            },
            Err(e) => {},
        }
    }
    while data.len() - pos >= 512 && !header_all_zero(data, pos)
        invariant
            pos <= data.len(),
            tar_scan(data@, 0) == after(done, tar_scan(data@, pos as nat)),
            assoc_view(files@) == fold_insert(done),
        decreases data.len() - pos,
    {
        let ghost h = data@.subrange(pos as int, pos + 512);
        let name = match read_entry_name(data, pos) {
            Some(n) => n,
            None => {
                return Err("Invalid filename".to_owned());
            },
        };
        let size = match read_entry_size(data, pos) {
            Some(n) => n,
            None => {
                return Err("Invalid size".to_owned());
            },
        };
        let kind = data[pos + 156];
        assert(kind == h[156]);
        let body = pos + 512;
        let rest = data.len() - body;
        let keep = (kind == 48 || kind == 0) && size > 0 && name.len() > 0 && size <= rest;
        let ghost entry = (name@, data@.subrange(body as int, if keep { body + size } else { body as int }));
        if keep {
            let bytes = vstd::slice::slice_to_vec(vstd::slice::slice_subrange(data, body, body + size));
            insert_assoc(&mut files, string_of(&name), bytes);
            proof {
                assert(fold_insert(done.push(entry)) == insert_entry(fold_insert(done), entry.0, entry.1)) by {
                    assert(done.push(entry).drop_last() == done);
                }
            }
        }
        let ghost step = if keep { seq![entry] } else { Seq::empty() };
        let rem = size % 512;
        let pad: usize = if rem == 0 {
            0
        } else {
            512 - rem
        };
        let next: usize = if size > rest || pad >= rest - size {
            data.len()
        } else {
            body + size + pad
        };
        assert(next as int == (if body + round_up_512(size as nat) < data.len() {
            body + round_up_512(size as nat)
        } else {
            data.len() as int
        }));
        proof {
            match tar_scan(data@, next as nat) {
                Ok(r2) => {
                    assert(tar_scan(data@, pos as nat) == Ok::<Seq<(Seq<char>, Seq<u8>)>, Seq<char>>(step + r2));
                    assert(done + (step + r2) =~= (done + step) + r2);
                },
                Err(e) => {},
            }
            let prev = done;
            done = done + step;
            if keep {
                assert(done == prev.push(entry)) by {
                    assert(prev + seq![entry] =~= prev.push(entry));
                }
            } else {
                assert(done =~= prev);
            }
        }
        pos = next;
    }
    proof {
        assert(tar_scan(data@, pos as nat) == Ok::<Seq<(Seq<char>, Seq<u8>)>, Seq<char>>(Seq::empty()));
        assert(done + Seq::<(Seq<char>, Seq<u8>)>::empty() =~= done);
    }
    Ok(files)
}

/// The entry `e` stands in `data` behind a regular-file header at offset `h`:
/// its path is the header's, and its bytes are exactly as many as the
/// header's size field gives, read from the block after the header.
pub open spec fn entry_at(data: Seq<u8>, h: int, e: (Seq<char>, Seq<u8>)) -> bool {
    let hd = data.subrange(h, h + 512);
    &&& 0 <= h
    &&& h + 512 + e.1.len() <= data.len()
    &&& (hd[156] == 48 || hd[156] == 0)
    &&& entry_name(hd) == Some(e.0)
    &&& entry_size(hd) == Some(e.1.len())
    &&& e.1 == data.subrange(h + 512, h + 512 + e.1.len())
}

/// `e` stands in `data` behind a regular-file header at or after `from`.
pub open spec fn entry_found(data: Seq<u8>, from: int, e: (Seq<char>, Seq<u8>)) -> bool {
    exists|h: int| from <= h && #[trigger] entry_at(data, h, e)
}

/// Each of `es` stands in `data` behind a regular-file header at or after `from`.
pub open spec fn all_entries_at(data: Seq<u8>, from: int, es: Seq<(Seq<char>, Seq<u8>)>) -> bool {
    forall|k: int| 0 <= k < es.len() ==> #[trigger] entry_found(data, from, es[k])
}

/// Every file read from an archive is whole: it stands behind a regular-file
/// header at or after the offset the reading began at, with the path that
/// header gives and exactly as many bytes as its size field says, whatever
/// that size is.
pub proof fn law_tar_entries_whole(data: Seq<u8>, pos: nat)
    ensures
        tar_scan(data, pos) matches Ok(es) ==> all_entries_at(data, pos as int, es),
    decreases data.len() - pos,
{
    if pos + 512 > data.len() {
        assert(tar_scan(data, pos) == Ok::<Seq<(Seq<char>, Seq<u8>)>, Seq<char>>(Seq::empty()));
    } else {
        let h = data.subrange(pos as int, pos as int + 512);
        if all_zero(h) {
            assert(tar_scan(data, pos) == Ok::<Seq<(Seq<char>, Seq<u8>)>, Seq<char>>(Seq::empty()));
        } else {
            match entry_name(h) {
                None => {
                    assert(tar_scan(data, pos) is Err);
                },
                Some(name) => match entry_size(h) {
                    None => {
                        assert(tar_scan(data, pos) is Err);
                    },
                    Some(size) => {
                        let body = pos + 512;
                        let keep = (h[156] == 48 || h[156] == 0) && size > 0 && name.len() > 0 && body
                            + size <= data.len();
                        let next = body + round_up_512(size);
                        let next_pos: nat = if next < data.len() {
                            next
                        } else {
                            data.len()
                        };
                        law_tar_entries_whole(data, next_pos);
                        match tar_scan(data, next_pos) {
                            Err(e) => {
                                assert(tar_scan(data, pos) is Err);
                            },
                            Ok(rest) => {
                                assert(tar_scan(data, pos) == Ok::<Seq<(Seq<char>, Seq<u8>)>, Seq<char>>(
                                    if keep {
                                        seq![(name, data.subrange(body as int, body as int + size as int))] + rest
                                    } else {
                                        rest
                                    },
                                ));
                                let es = tar_scan(data, pos)->Ok_0;
                                assert forall|k: int| 0 <= k < es.len() implies #[trigger] entry_found(data, pos as int, es[k]) by {
                                    if keep {
                                        let e = (name, data.subrange(body as int, body as int + size as int));
                                        assert(es == seq![e] + rest);
                                        if k == 0 {
                                            assert(es[k] == e);
                                            assert(entry_at(data, pos as int, es[k]));
                                        } else {
                                            assert(es[k] == rest[k - 1]);
                                            assert(entry_found(data, next_pos as int, rest[k - 1]));
                                            let g = choose|g: int| next_pos <= g && #[trigger] entry_at(data, g, rest[k - 1]);
                                            assert(entry_at(data, g, es[k]));
                                        }
                                    } else {
                                        assert(es == rest);
                                        assert(entry_found(data, next_pos as int, rest[k]));
                                        let g = choose|g: int| next_pos <= g && #[trigger] entry_at(data, g, rest[k]);
                                        assert(entry_at(data, g, es[k]));
                                    }
                                }
                                assert(all_entries_at(data, pos as int, es));
                            },
                        }
                    },
                },
            }
        }
    }
}

/// A regular file whose header stands where reading goes on is read, and
/// read whole: where the header at `pos` gives a path and a size, its data
/// fits in the archive and the rest can be read, the first file read from
/// `pos` is that path with the `size` bytes after the header.
pub proof fn law_tar_reads_file_at(data: Seq<u8>, pos: nat, name: Seq<char>, size: nat)
    requires
        pos + 512 + size <= data.len(),
        ({
            let h = data.subrange(pos as int, pos as int + 512);
            &&& !all_zero(h)
            &&& h[156] == 48 || h[156] == 0
            &&& entry_name(h) == Some(name)
            &&& entry_size(h) == Some(size)
        }),
        size > 0,
        name.len() > 0,
        tar_scan(data, pos) is Ok,
    ensures
        tar_scan(data, pos) matches Ok(es) && es.len() > 0 && es[0] == (
            name,
            data.subrange(pos + 512 as int, pos + 512 + size as int),
        ),
{
}

// ---------------------------------------------------------------------------
// Package specifications in compiler messages
// ---------------------------------------------------------------------------
/// The words of `s` after the partial word `cur`: maximal runs of characters
/// without Unicode white space, as `str::split_whitespace` yields them.
pub open spec fn words_from(s: Seq<char>, cur: Seq<char>) -> Seq<Seq<char>>
    decreases s.len(),
{
    if s.len() == 0 {
        if cur.len() > 0 {
            seq![cur]
        } else {
            Seq::empty()
        }
    } else if white_space(s[0]) {
        (if cur.len() > 0 {
            seq![cur]
        } else {
            Seq::empty()
        }) + words_from(s.drop_first(), Seq::empty())
    } else {
        words_from(s.drop_first(), cur.push(s[0]))
    }
}

/// The white-space separated words of `s`.
pub open spec fn words(s: Seq<char>) -> Seq<Seq<char>> {
    words_from(s, Seq::empty())
}

/// A character that is trimmed off the ends of a word before it is read as a
/// package specification.
pub open spec fn is_junk(c: char) -> bool {
    !alphanumeric(c) && c != '@' && c != '/' && c != ':' && c != '.' && c != '-'
}

/// `s` without its leading junk characters.
pub open spec fn trim_start_junk(s: Seq<char>) -> Seq<char>
    decreases s.len(),
{
    if s.len() > 0 && is_junk(s[0]) {
        trim_start_junk(s.drop_first())
    } else {
        s
    }
}

/// `s` without its trailing junk characters.
pub open spec fn trim_end_junk(s: Seq<char>) -> Seq<char>
    decreases s.len(),
{
    if s.len() > 0 && is_junk(s.last()) {
        trim_end_junk(s.drop_last())
    } else {
        s
    }
}

/// The package a word names: once trimmed, it starts with `@`, holds `/` and
/// `:`, and reads as a specification.
pub open spec fn word_package(w: Seq<char>) -> Option<SpecParts> {
    let t = trim_end_junk(trim_start_junk(w));
    if t.len() > 0 && t[0] == '@' && holds_char(t, '/') && holds_char(t, ':') {
        parse_spec(t)
    } else {
        None
    }
}

/// The packages that the words name, each once, in order of first mention.
pub open spec fn packages_named(ws: Seq<Seq<char>>) -> Seq<SpecParts>
    decreases ws.len(),
{
    if ws.len() == 0 {
        Seq::empty()
    } else {
        let acc = packages_named(ws.drop_last());
        match word_package(ws.last()) {
            Some(p) => if acc.contains(p) {
                acc
            } else {
                acc.push(p)
            },
            None => acc,
        }
    }
}

/// Two specifications have the same parts.
pub fn same_spec(a: &PkgSpec, b: &PkgSpec) -> (r: bool)
    ensures
        r == (a@ == b@),
{
    chars_equal(&chars_of(a.namespace.as_str()), &chars_of(b.namespace.as_str()))
        && chars_equal(&chars_of(a.name.as_str()), &chars_of(b.name.as_str()))
        && chars_equal(&chars_of(a.version.as_str()), &chars_of(b.version.as_str()))
}

/// `list` holds a specification with the parts of `p`.
pub fn holds_spec(list: &Vec<PkgSpec>, p: &PkgSpec) -> (r: bool)
    ensures
        r == list@.map_values(|q: PkgSpec| q@).contains(p@),
{
    let ghost views = list@.map_values(|q: PkgSpec| q@);
    let mut i: usize = 0;
    while i < list.len()
        invariant
            i <= list.len(),
            views == list@.map_values(|q: PkgSpec| q@),
            forall|j: int| 0 <= j < i ==> views[j] != p@,
        decreases list.len() - i,
    {
        if same_spec(&list[i], p) {
            assert(views[i as int] == p@);
            return true;
        }
        i = i + 1;
    }
    false
}

fn junk(c: char) -> (r: bool)
    ensures
        r == is_junk(c),
{
    !is_alphanumeric(c) && c != '@' && c != '/' && c != ':' && c != '.' && c != '-'
}

fn trim_junk(v: &[char]) -> (r: Vec<char>)
    ensures
        r@ == trim_end_junk(trim_start_junk(v@)),
{
    let mut a: usize = 0;
    assert(v@.skip(0) == v@);
    while a < v.len() && junk(v[a])
        invariant
            a <= v.len(),
            trim_start_junk(v@) == trim_start_junk(v@.skip(a as int)),
        decreases v.len() - a,
    {
        assert(v@.skip(a as int).drop_first() == v@.skip(a + 1));
        a = a + 1;
    }
    let ghost t = v@.skip(a as int);
    let mut b: usize = v.len();
    assert(t.take(t.len() as int) == t);
    while b > a && junk(v[b - 1])
        invariant
            a <= b <= v.len(),
            t == v@.skip(a as int),
            trim_end_junk(t) == trim_end_junk(t.take(b - a)),
        decreases b,
    {
        assert(t.take(b - a).drop_last() == t.take(b - 1 - a));
        assert(t.take(b - a).last() == v@[b - 1]);
        b = b - 1;
    }
    assert(t.take(b - a) == v@.subrange(a as int, b as int));
    slice_chars(v, a, b)
}

/// The package a word names, if any.
fn read_word_package(w: &[char]) -> (r: Option<PkgSpec>)
    ensures
        match word_package(w@) {
            Some(p) => r matches Some(spec) && spec@ == p,
            None => r is None,
        },
{
    let t = trim_junk(w);
    if t.len() > 0 && t[0] == '@' && contains_char(&t, '/') && contains_char(&t, ':') {
        let s = string_of(&t);
        PkgSpec::parse(s.as_str())
    } else {
        None
    }
}

fn note_word(packages: &mut Vec<PkgSpec>, w: &[char])
    ensures
        final(packages)@.map_values(|q: PkgSpec| q@) == (match word_package(w@) {
            Some(p) => if old(packages)@.map_values(|q: PkgSpec| q@).contains(p) {
                old(packages)@.map_values(|q: PkgSpec| q@)
            } else {
                old(packages)@.map_values(|q: PkgSpec| q@).push(p)
            },
            None => old(packages)@.map_values(|q: PkgSpec| q@),
        }),
{
    match read_word_package(w) {
        Some(spec) => {
            if !holds_spec(packages, &spec) {
                let ghost before = packages@;
                packages.push(spec);
                assert(packages@.map_values(|q: PkgSpec| q@) =~= before.map_values(|q: PkgSpec| q@).push(spec@));
            }
        },
        None => {},
    }
}

/// The packages named in an error message: each white-space separated word,
/// trimmed of characters that cannot belong to a specification, that starts
/// with `@`, holds `/` and `:` and reads as a specification; each package once,
/// in order of first mention.
pub fn extract_missing_packages(error: &str) -> (r: Vec<PkgSpec>)
    ensures
        r@.map_values(|q: PkgSpec| q@) == packages_named(words(error@)),
{
    let s = chars_of(error);
    let mut packages: Vec<PkgSpec> = Vec::new();
    let mut cur: Vec<char> = Vec::new();
    let ghost mut done: Seq<Seq<char>> = Seq::empty();
    let mut i: usize = 0;
    assert(s@.skip(0) == s@);
    while i < s.len()
        invariant
            i <= s.len(),
            s@ == error@,
            words(error@) == done + words_from(s@.skip(i as int), cur@),
            packages@.map_values(|q: PkgSpec| q@) == packages_named(done),
        decreases s.len() - i,
    {
        let c = s[i];
        let ghost rest = s@.skip(i as int);
        assert(rest[0] == c);
        assert(rest.drop_first() == s@.skip(i + 1));
        if is_white_space(c) {
            if cur.len() > 0 {
                note_word(&mut packages, &cur);
                proof {
                    assert(done.push(cur@).drop_last() == done);
                    assert(done + (seq![cur@] + words_from(s@.skip(i + 1), Seq::empty())) =~= done.push(cur@)
                        + words_from(s@.skip(i + 1), Seq::empty()));
                    done = done.push(cur@);
                }
            } else {
                assert(Seq::<Seq<char>>::empty() + words_from(s@.skip(i + 1), Seq::empty()) =~= words_from(
                    s@.skip(i + 1),
                    Seq::empty(),
                ));
            }
            cur = Vec::new();
            assert(cur@ =~= Seq::<char>::empty());
        } else {
            cur.push(c);
        }
        i = i + 1;
    }
    assert(s@.skip(i as int).len() == 0);
    if cur.len() > 0 {
        note_word(&mut packages, &cur);
        proof {
            assert(done.push(cur@).drop_last() == done);
            assert(done + seq![cur@] =~= done.push(cur@));
            done = done.push(cur@);
        }
    } else {
        assert(done + Seq::<Seq<char>>::empty() =~= done);
    }
    packages
}

/// The message of a package download that failed with `e`.
pub fn download_error(e: &str) -> (r: String)
    ensures
        r@ == "Download failed: "@ + e@
            + ". The Typst package registry may block browser requests (CORS). Try pre-downloading packages."@,
{
    let mut v = chars_of("Download failed: ");
    append_chars(&mut v, &chars_of(e));
    append_chars(
        &mut v,
        &chars_of(". The Typst package registry may block browser requests (CORS). Try pre-downloading packages."),
    );
    string_of(&v)
}

/// The message of a registry answer that is no success.
pub fn http_error(status: u16) -> (r: String)
    ensures
        r@ == "HTTP "@ + radix_digits(status as nat, 10) + ": package not found"@,
{
    let mut v = chars_of("HTTP ");
    append_chars(&mut v, &format_radix(status as u128, 10));
    append_chars(&mut v, &chars_of(": package not found"));
    string_of(&v)
}

} // verus!
