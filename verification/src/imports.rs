//! Finding the packages a document imports that are not installed yet, so
//! that the editor can offer to install them after a failed compilation.
use vstd::prelude::*;
use crate::cache::{cache_has, CacheView, PackageCache};
use crate::registry::{parse_spec, spec_text, PkgSpec, SpecParts};
use crate::text::{
    chars_of, chars_equal, contains_char, ends_with_chars, find_char, first_index_of, has_suffix,
    holds_char, lemma_first_index_of, slice_chars, string_of,
};

verus! {

/// `s` holds `"@` at index `i`.
pub open spec fn quote_at(s: Seq<char>, i: int) -> bool {
    0 <= i && i + 1 < s.len() && s[i] == '"' && s[i + 1] == '@'
}

/// The first index from `from` on where `s` holds `"@`.
pub open spec fn next_quote_at(s: Seq<char>, from: int) -> Option<int>
    decreases s.len() - from,
{
    if from < 0 || from + 1 >= s.len() {
        None
    } else if quote_at(s, from) {
        Some(from)
    } else {
        next_quote_at(s, from + 1)
    }
}

/// The quoted texts that start with `@`, found from index `from` on: each
/// `"@` starts one that runs to the next `"`; the search goes on two
/// characters after each `"@`.
pub open spec fn quoted_specs(s: Seq<char>, from: int) -> Seq<Seq<char>>
    decreases s.len() - from,
{
    match next_quote_at(s, from) {
        None => Seq::empty(),
        Some(i) => {
            proof {
                lemma_next_quote_at(s, from);
            }
            let rest = s.skip(i + 1);
            let here = match first_index_of(rest, '"') {
                Some(q) => seq![rest.take(q)],
                None => Seq::empty(),
            };
            here + quoted_specs(s, i + 2)
        },
    }
}

pub proof fn lemma_next_quote_at(s: Seq<char>, from: int)
    ensures
        next_quote_at(s, from) matches Some(i) ==> from <= i && quote_at(s, i) && forall|j: int|
            from <= j < i ==> !quote_at(s, j),
        next_quote_at(s, from) is None && from >= 0 ==> forall|j: int| from <= j ==> !quote_at(s, j),
    decreases s.len() - from,
{
    if !(from < 0 || from + 1 >= s.len()) && !quote_at(s, from) {
        lemma_next_quote_at(s, from + 1);
    }
}

/// `acc` with the package a quoted candidate names, where the candidate
/// counts (it holds `/` and reads as a specification) and the package is
/// neither installed nor written the same as one in `acc`.
pub open spec fn step_missing(acc: Seq<SpecParts>, s: Seq<char>, c: CacheView) -> Seq<SpecParts> {
    if s.len() > 0 && s[0] == '@' && holds_char(s, '/') {
        match parse_spec(s) {
            Some(p) => if !cache_has(c, spec_text(p)) && !acc.map_values(|q: SpecParts| spec_text(q)).contains(
                spec_text(p),
            ) {
                acc.push(p)
            } else {
                acc
            },
            None => acc,
        }
    } else {
        acc
    }
}

/// The packages the candidates name that are missing, added to `acc` in
/// order.
pub open spec fn add_missing(acc: Seq<SpecParts>, cands: Seq<Seq<char>>, c: CacheView) -> Seq<SpecParts>
    decreases cands.len(),
{
    if cands.len() == 0 {
        acc
    } else {
        add_missing(step_missing(acc, cands[0], c), cands.drop_first(), c)
    }
}

/// The views of a list of specifications.
pub open spec fn specs_view(v: Seq<PkgSpec>) -> Seq<SpecParts> {
    v.map_values(|q: PkgSpec| q@)
}

fn listed_by_text(out: &Vec<PkgSpec>, text: &[char]) -> (r: bool)
    ensures
        r == specs_view(out@).map_values(|q: SpecParts| spec_text(q)).contains(text@),
{
    let ghost texts = specs_view(out@).map_values(|q: SpecParts| spec_text(q));
    let mut i: usize = 0;
    while i < out.len()
        invariant
            i <= out.len(),
            texts == specs_view(out@).map_values(|q: SpecParts| spec_text(q)),
            forall|j: int| 0 <= j < i ==> texts[j] != text@,
        decreases out.len() - i,
    {
        let t = out[i].text_chars();
        if chars_equal(&t, text) {
            assert(texts[i as int] == text@);
            return true;
        }
        i = i + 1;
    }
    false
}

/// Adds the package a quoted candidate names, where it counts and is
/// missing.
fn note_candidate(cand: &[char], cache: &PackageCache, out: &mut Vec<PkgSpec>)
    ensures
        specs_view(final(out)@) == step_missing(specs_view(old(out)@), cand@, cache@),
{
    let ghost acc = specs_view(out@);
    if cand.len() > 0 && cand[0] == '@' && contains_char(cand, '/') {
        let s = string_of(cand);
        match PkgSpec::parse(s.as_str()) {
            Some(spec) => {
                let text = spec.text_chars();
                if !cache.has_package(&spec) && !listed_by_text(out, &text) {
                    out.push(spec);
                    assert(specs_view(out@) =~= acc.push(spec@));
                }
            },
            None => {},
        }
    }
}

proof fn lemma_add_missing_append(acc: Seq<SpecParts>, a: Seq<Seq<char>>, b: Seq<Seq<char>>, c: CacheView)
    ensures
        add_missing(acc, a + b, c) == add_missing(add_missing(acc, a, c), b, c),
    decreases a.len(),
{
    if a.len() > 0 {
        assert((a + b).drop_first() =~= a.drop_first() + b);
        assert((a + b)[0] == a[0]);
        lemma_add_missing_append(step_missing(acc, a[0], c), a.drop_first(), b, c);
    } else {
        assert(a + b =~= b);
    }
}

/// Adds to `out` the packages that `source` imports (`"@namespace/name:version"`
/// in quotes) and that are neither installed nor already in `out`.
pub fn extract_package_imports(source: &str, cache: &PackageCache, out: &mut Vec<PkgSpec>)
    ensures
        specs_view(final(out)@) == add_missing(specs_view(old(out)@), quoted_specs(source@, 0), cache@),
{
    let s = chars_of(source);
    let mut from: usize = 0;
    let ghost start = specs_view(out@);
    loop
        invariant
            s@ == source@,
            start == specs_view(old(out)@),
            from <= s.len() + 1,
            add_missing(start, quoted_specs(source@, 0), cache@) == add_missing(
                specs_view(out@),
                quoted_specs(source@, from as int),
                cache@,
            ),
        decreases s.len() + 1 - from,
    {
        // The next `"@` from `from` on.
        let mut i = from;
        while i < s.len() && !(i + 1 < s.len() && s[i] == '"' && s[i + 1] == '@')
            invariant
                from <= i,
                i <= s.len() || i == from,
                next_quote_at(s@, from as int) == next_quote_at(s@, i as int),
            decreases s.len() + 1 - i,
        {
            i = i + 1;
        }
        if i >= s.len() {
            assert(next_quote_at(s@, i as int) is None);
            assert(quoted_specs(s@, from as int) =~= Seq::<Seq<char>>::empty());
            assert(quoted_specs(source@, from as int) == Seq::<Seq<char>>::empty());
            assert(add_missing(specs_view(out@), Seq::<Seq<char>>::empty(), cache@) == specs_view(out@));
            return;
        }
        assert(quote_at(s@, i as int));
        let ghost rest = s@.skip(i + 1);
        let tail = slice_chars(&s, i + 1, s.len());
        assert(tail@ == rest);
        proof {
            lemma_first_index_of(rest, '"');
        }
        let ghost here = match first_index_of(rest, '"') {
            Some(q) => seq![rest.take(q)],
            None => Seq::<Seq<char>>::empty(),
        };
        assert(quoted_specs(s@, from as int) == here + quoted_specs(s@, i + 2));
        let ghost before = specs_view(out@);
        match find_char(&tail, '"') {
            Some(q) => {
                let cand = slice_chars(&tail, 0, q);
                note_candidate(&cand, cache, out);
                assert(here == seq![cand@]);
                assert(add_missing(before, here, cache@) == add_missing(step_missing(before, cand@, cache@), here.drop_first(), cache@));
                assert(here.drop_first() =~= Seq::<Seq<char>>::empty());
            },
            None => {},
        }
        proof {
            lemma_add_missing_append(before, here, quoted_specs(s@, i + 2), cache@);
            assert(here.len() == 0 ==> add_missing(before, here, cache@) == before);
        }
        from = i + 2;
    }
}

/// Every quoted `"@...` text from `from` on is among the candidates found
/// from `from`: the scan does not stop at the first one, whatever precedes
/// or follows it.
pub proof fn law_quoted_specs_found(s: Seq<char>, from: int, j: int, q: int)
    requires
        0 <= from <= j,
        quote_at(s, j),
        first_index_of(s.skip(j + 1), '"') == Some(q),
    ensures
        quoted_specs(s, from).contains(s.skip(j + 1).take(q)),
    decreases s.len() - from,
{
    lemma_next_quote_at(s, from);
    let i = next_quote_at(s, from)->Some_0;
    let rest = s.skip(i + 1);
    let here = match first_index_of(rest, '"') {
        Some(q2) => seq![rest.take(q2)],
        None => Seq::<Seq<char>>::empty(),
    };
    assert(quoted_specs(s, from) == here + quoted_specs(s, i + 2));
    if i == j {
        assert(here == seq![s.skip(j + 1).take(q)]);
        assert((here + quoted_specs(s, i + 2))[0] == s.skip(j + 1).take(q));
    } else {
        assert(i + 2 <= j);
        law_quoted_specs_found(s, i + 2, j, q);
        let later = quoted_specs(s, i + 2);
        let w = choose|w: int| 0 <= w < later.len() && #[trigger] later[w] == s.skip(j + 1).take(q);
        assert((here + quoted_specs(s, i + 2))[here.len() + w] == s.skip(j + 1).take(q));
    }
}

/// The texts of a list of packages.
pub open spec fn spec_texts(acc: Seq<SpecParts>) -> Seq<Seq<char>> {
    acc.map_values(|q: SpecParts| spec_text(q))
}

/// The candidate `cand` names the package `p`, which is not installed: it
/// starts with `@`, holds `/` and reads as `p`.
pub open spec fn names_missing(cand: Seq<char>, c: CacheView, p: SpecParts) -> bool {
    &&& cand.len() > 0
    &&& cand[0] == '@'
    &&& holds_char(cand, '/')
    &&& parse_spec(cand) == Some(p)
    &&& !cache_has(c, spec_text(p))
}

/// What is listed before stays listed: adding the missing packages of some
/// candidates keeps every package already in the list, in its place.
pub proof fn law_add_missing_keeps(acc: Seq<SpecParts>, cands: Seq<Seq<char>>, c: CacheView)
    ensures
        acc.len() <= add_missing(acc, cands, c).len(),
        add_missing(acc, cands, c).take(acc.len() as int) == acc,
    decreases cands.len(),
{
    if cands.len() > 0 {
        let a1 = step_missing(acc, cands[0], c);
        law_add_missing_keeps(a1, cands.drop_first(), c);
        assert(a1.take(acc.len() as int) =~= acc);
        assert(add_missing(acc, cands, c).take(acc.len() as int) =~= a1.take(acc.len() as int));
    } else {
        assert(acc.take(acc.len() as int) =~= acc);
    }
}

proof fn lemma_texts_stay(acc: Seq<SpecParts>, cands: Seq<Seq<char>>, c: CacheView, t: Seq<char>)
    requires
        spec_texts(acc).contains(t),
    ensures
        spec_texts(add_missing(acc, cands, c)).contains(t),
{
    law_add_missing_keeps(acc, cands, c);
    let r = add_missing(acc, cands, c);
    let ts = spec_texts(acc);
    let w = choose|w: int| 0 <= w < ts.len() && #[trigger] ts[w] == t;
    assert(r[w] == r.take(acc.len() as int)[w]);
    assert(spec_texts(r)[w] == t);
}

/// Each candidate that names a package not installed leaves that package in
/// the list: it was there already under the same text, or it is added.
pub proof fn law_add_missing_covers(acc: Seq<SpecParts>, cands: Seq<Seq<char>>, c: CacheView, k: int, p: SpecParts)
    requires
        0 <= k < cands.len(),
        names_missing(cands[k], c, p),
    ensures
        spec_texts(add_missing(acc, cands, c)).contains(spec_text(p)),
    decreases cands.len(),
{
    let a1 = step_missing(acc, cands[0], c);
    assert(add_missing(acc, cands, c) == add_missing(a1, cands.drop_first(), c));
    if k == 0 {
        if spec_texts(acc).contains(spec_text(p)) {
            assert(a1 == acc || a1 == acc.push(p));
            if a1 == acc.push(p) {
                assert(spec_texts(a1)[acc.len() as int] == spec_text(p));
            } else {
                assert(spec_texts(a1).contains(spec_text(p)));
            }
        } else {
            assert(a1 == acc.push(p));
            assert(spec_texts(a1)[acc.len() as int] == spec_text(p));
        }
        lemma_texts_stay(a1, cands.drop_first(), c, spec_text(p));
    } else {
        assert(cands.drop_first()[k - 1] == cands[k]);
        law_add_missing_covers(a1, cands.drop_first(), c, k - 1, p);
    }
}

/// One of the candidates names the package `p`, which is not installed.
pub open spec fn named_by_one(cands: Seq<Seq<char>>, c: CacheView, p: SpecParts) -> bool {
    exists|k: int| 0 <= k < cands.len() && #[trigger] names_missing(cands[k], c, p)
}

/// Nothing is listed that no candidate names: each package added is named by
/// one of the candidates and is not installed, and no package text is
/// listed twice where it was not listed twice before.
pub proof fn law_add_missing_sound(acc: Seq<SpecParts>, cands: Seq<Seq<char>>, c: CacheView)
    ensures
        forall|i: int|
            acc.len() <= i < add_missing(acc, cands, c).len() ==> #[trigger] named_by_one(
                cands,
                c,
                add_missing(acc, cands, c)[i],
            ),
        spec_texts(acc).no_duplicates() ==> spec_texts(add_missing(acc, cands, c)).no_duplicates(),
    decreases cands.len(),
{
    let r = add_missing(acc, cands, c);
    if cands.len() > 0 {
        let a1 = step_missing(acc, cands[0], c);
        let rest = cands.drop_first();
        assert(r == add_missing(a1, rest, c));
        law_add_missing_sound(a1, rest, c);
        law_add_missing_keeps(a1, rest, c);
        assert(a1 == acc || (a1.len() == acc.len() + 1 && a1 == acc.push(a1.last()) && names_missing(cands[0], c, a1.last())
            && !spec_texts(acc).contains(spec_text(a1.last()))));
        assert forall|i: int| acc.len() <= i < r.len() implies #[trigger] named_by_one(cands, c, r[i]) by {
            if i < a1.len() {
                assert(r[i] == r.take(a1.len() as int)[i]);
                assert(r[i] == a1.last());
                assert(names_missing(cands[0], c, r[i]));
            } else {
                assert(named_by_one(rest, c, r[i]));
                let k2 = choose|k2: int| 0 <= k2 < rest.len() && #[trigger] names_missing(rest[k2], c, r[i]);
                assert(rest[k2] == cands[k2 + 1]);
                assert(names_missing(cands[k2 + 1], c, r[i]));
            }
        }
        if spec_texts(acc).no_duplicates() {
            if a1 != acc {
                let ta = spec_texts(acc);
                let t1 = spec_texts(a1);
                assert(t1 =~= ta.push(spec_text(a1.last())));
                assert forall|x: int, y: int| 0 <= x < t1.len() && 0 <= y < t1.len() && x != y implies t1[x] != t1[y] by {
                    if x < ta.len() && y < ta.len() {
                        assert(ta[x] != ta[y]);
                    } else if x < ta.len() {
                        assert(ta[x] == t1[x]);
                    } else {
                        assert(ta[y] == t1[y]);
                    }
                }
            }
        }
    }
}

/// Every package a source imports in quotes (`"@namespace/name:version"`),
/// anywhere in it, that is not installed ends up in the list that the
/// source's scan leaves, whatever the list held before.
pub proof fn law_imports_found(s: Seq<char>, acc: Seq<SpecParts>, c: CacheView, j: int, q: int, p: SpecParts)
    requires
        quote_at(s, j),
        first_index_of(s.skip(j + 1), '"') == Some(q),
        names_missing(s.skip(j + 1).take(q), c, p),
    ensures
        spec_texts(add_missing(acc, quoted_specs(s, 0), c)).contains(spec_text(p)),
{
    law_quoted_specs_found(s, 0, j, q);
    let cands = quoted_specs(s, 0);
    let k = choose|k: int| 0 <= k < cands.len() && #[trigger] cands[k] == s.skip(j + 1).take(q);
    law_add_missing_covers(acc, cands, c, k, p);
}

/// The texts a scan for missing packages reads: the main source, then each
/// `.typ` file's text in order.
pub open spec fn scanned_texts(main_source: Seq<char>, files: Seq<(Seq<char>, Seq<char>)>) -> Seq<Seq<char>>
    decreases files.len(),
{
    if files.len() == 0 {
        seq![main_source]
    } else {
        let rest = scanned_texts(main_source, files.drop_last());
        if has_suffix(files.last().0, ".typ"@) {
            rest.push(files.last().1)
        } else {
            rest
        }
    }
}

/// The packages the texts import that are missing, in order of first
/// import.
pub open spec fn missing_in(acc: Seq<SpecParts>, texts: Seq<Seq<char>>, c: CacheView) -> Seq<SpecParts>
    decreases texts.len(),
{
    if texts.len() == 0 {
        acc
    } else {
        missing_in(add_missing(acc, quoted_specs(texts[0], 0), c), texts.drop_first(), c)
    }
}

proof fn lemma_missing_in_push(acc: Seq<SpecParts>, texts: Seq<Seq<char>>, t: Seq<char>, c: CacheView)
    ensures
        missing_in(acc, texts.push(t), c) == add_missing(missing_in(acc, texts, c), quoted_specs(t, 0), c),
    decreases texts.len(),
{
    if texts.len() == 0 {
        assert(texts.push(t).drop_first() =~= Seq::<Seq<char>>::empty());
        assert(texts.push(t)[0] == t);
        let a1 = add_missing(acc, quoted_specs(t, 0), c);
        assert(missing_in(a1, Seq::<Seq<char>>::empty(), c) == a1);
    } else {
        assert(texts.push(t).drop_first() =~= texts.drop_first().push(t));
        assert(texts.push(t)[0] == texts[0]);
        lemma_missing_in_push(add_missing(acc, quoted_specs(texts[0], 0), c), texts.drop_first(), t, c);
    }
}

/// The packages that the main source and the project's `.typ` files import
/// and that are not installed, each once, in order of first import.
pub fn scan_all_missing_packages(
    main_source: &str,
    file_contents: &[(String, String)],
    cache: &PackageCache,
) -> (r: Vec<PkgSpec>)
    ensures
        specs_view(r@) == missing_in(
            Seq::empty(),
            scanned_texts(main_source@, file_contents@.map_values(|e: (String, String)| (e.0@, e.1@))),
            cache@,
        ),
{
    let mut missing: Vec<PkgSpec> = Vec::new();
    let ghost fv = file_contents@.map_values(|e: (String, String)| (e.0@, e.1@));
    assert(specs_view(missing@) =~= Seq::<SpecParts>::empty());
    extract_package_imports(main_source, cache, &mut missing);
    proof {
        assert(scanned_texts(main_source@, fv.take(0)) == seq![main_source@]);
        let a1 = add_missing(Seq::<SpecParts>::empty(), quoted_specs(main_source@, 0), cache@);
        assert(seq![main_source@][0] == main_source@);
        assert(missing_in(a1, Seq::<Seq<char>>::empty(), cache@) == a1);
        assert(seq![main_source@].drop_first() =~= Seq::<Seq<char>>::empty());
        assert(fv.take(0) =~= Seq::<(Seq<char>, Seq<char>)>::empty());
    }
    let typ = chars_of(".typ");
    let mut i: usize = 0;
    while i < file_contents.len()
        invariant
            i <= file_contents.len(),
            fv == file_contents@.map_values(|e: (String, String)| (e.0@, e.1@)),
            typ@ == ".typ"@,
            specs_view(missing@) == missing_in(Seq::empty(), scanned_texts(main_source@, fv.take(i as int)), cache@),
        decreases file_contents.len() - i,
    {
        assert(fv.take(i + 1).drop_last() =~= fv.take(i as int));
        assert(fv.take(i + 1).last() == (file_contents@[i as int].0@, file_contents@[i as int].1@));
        let path = chars_of(file_contents[i].0.as_str());
        if ends_with_chars(&path, &typ) {
            proof {
                lemma_missing_in_push(
                    Seq::empty(),
                    scanned_texts(main_source@, fv.take(i as int)),
                    file_contents@[i as int].1@,
                    cache@,
                );
            }
            extract_package_imports(file_contents[i].1.as_str(), cache, &mut missing);
        }
        i = i + 1;
    }
    assert(fv.take(file_contents.len() as int) =~= fv);
    missing
}

} // verus!
