//! `--exclude` globs: compiled once, matched against root-relative paths.
use crate::extract::{Extraction, FnRecordView, TypeRecordView};
use crate::text::{ends_with, ends_with_exec, from_chars, slice_chars, to_chars};
use crate::glob_set::{add_glob, build_set, error_message, new_builder, new_glob};
pub use crate::glob_set::{Excludes, glob_parses, globs_match, set_builds};
use vstd::prelude::*;

verus! {

/// Why the patterns could not be compiled.
pub enum GlobError {
    /// A pattern as given does not parse.
    Pattern { pattern: String, message: String },
    /// The directory a `dir/**` pattern also names does not parse.
    Stem { stem: String, message: String },
    /// The set could not be built.
    Build { message: String },
}

/// `p` without a trailing `/**`, when it has one.
pub open spec fn stem(p: Seq<char>) -> Option<Seq<char>> {
    if ends_with(p, "/**"@) {
        Some(p.take(p.len() - 3))
    } else {
        None
    }
}

/// The globs compiled for the first `k` patterns: each pattern, and after a
/// `dir/**` pattern also `dir` itself.
pub open spec fn compiled(pats: Seq<Seq<char>>, k: int) -> Seq<Seq<char>>
    decreases k,
{
    if k <= 0 || k > pats.len() {
        seq![]
    } else {
        compiled(pats, k - 1) + seq![pats[k - 1]] + match stem(pats[k - 1]) {
            Some(s) => seq![s],
            None => seq![],
        }
    }
}

/// The first failure among patterns `i..`: its index, and whether the pattern
/// itself (`false`) or its directory (`true`) fails to parse.
pub open spec fn first_bad(pats: Seq<Seq<char>>, i: int) -> Option<(int, bool)>
    decreases pats.len() - i,
{
    if i < 0 || i >= pats.len() {
        None
    } else if !glob_parses(pats[i]) {
        Some((i, false))
    } else if stem(pats[i]) matches Some(s) && !glob_parses(s) {
        Some((i, true))
    } else {
        first_bad(pats, i + 1)
    }
}

pub open spec fn strs(v: Seq<String>) -> Seq<Seq<char>> {
    v.map_values(|s: String| s@)
}

/// Compiles `--exclude` globs; a bare `dir/**` also excludes `dir` itself. Fails on
/// the first pattern (or its directory) that does not parse, naming it, and else
/// exactly where globset cannot build the set.
pub fn build_globs(patterns: &Vec<String>) -> (r: Result<Excludes, GlobError>)
    ensures
        ({
            let pats = strs(patterns@);
            &&& r matches Ok(e) ==> e@ == compiled(pats, pats.len() as int) && first_bad(pats, 0) is None
            &&& r matches Err(GlobError::Pattern { pattern, .. }) ==> first_bad(pats, 0) matches Some((i, false))
                && pattern@ == pats[i]
            &&& r matches Err(GlobError::Stem { stem: s, .. }) ==> first_bad(pats, 0) matches Some((i, true))
                && stem(pats[i]) == Some(s@)
            &&& r matches Err(GlobError::Build { .. }) ==> first_bad(pats, 0) is None
            &&& first_bad(pats, 0) is None ==> (r is Ok <==> set_builds(compiled(pats, pats.len() as int)))
            &&& first_bad(pats, 0) is Some ==> r is Err && !(r matches Err(GlobError::Build { .. }))
        }),
{
    let ghost pats = strs(patterns@);
    let mut builder = new_builder();
    let mut i: usize = 0;
    proof {
        reveal_strlit("/**");
    }
    while i < patterns.len()
        invariant
            pats == strs(patterns@),
            i <= pats.len(),
            builder@ == compiled(pats, i as int),
            first_bad(pats, 0) == first_bad(pats, i as int),
        decreases pats.len() - i,
    {
        let p = &patterns[i];
        assert(pats[i as int] == p@);
        proof {
            reveal_strlit("/**");
        }
        let glob = match new_glob(p.as_str()) {
            Ok(g) => g,
            Err(e) => {
                return Err(GlobError::Pattern { pattern: p.clone(), message: error_message(&e) });
            },
        };
        add_glob(&mut builder, glob);
        let chars = to_chars(p.as_str());
        let suffix = to_chars("/**");
        if ends_with_exec(chars.as_slice(), suffix.as_slice()) {
            let s = from_chars(slice_chars(chars.as_slice(), 0, chars.len() - 3).as_slice());
            assert(s@ =~= p@.take(p@.len() - 3));
            match new_glob(s.as_str()) {
                Ok(g) => add_glob(&mut builder, g),
                Err(e) => {
                    let message = error_message(&e);
                    return Err(GlobError::Stem { stem: s, message });
                },
            }
            assert(builder@ =~= compiled(pats, i as int) + seq![p@] + seq![s@]);
        } else {
            assert(builder@ =~= compiled(pats, i as int) + seq![p@]);
        }
        assert(builder@ =~= compiled(pats, i + 1));
        i += 1;
    }
    match build_set(&builder) {
        Ok(set) => Ok(set),
        Err(e) => Err(GlobError::Build { message: error_message(&e) }),
    }
}

/// The functions of the first `k` whose file is not excluded.
pub open spec fn kept_fns(fs: Seq<FnRecordView>, pats: Seq<Seq<char>>, k: int) -> Seq<FnRecordView>
    decreases k,
{
    if k <= 0 || k > fs.len() {
        seq![]
    } else {
        kept_fns(fs, pats, k - 1) + if globs_match(pats, fs[k - 1].file) {
            seq![]
        } else {
            seq![fs[k - 1]]
        }
    }
}

/// The types of the first `k` whose file is not excluded.
pub open spec fn kept_types(ts: Seq<TypeRecordView>, pats: Seq<Seq<char>>, k: int) -> Seq<TypeRecordView>
    decreases k,
{
    if k <= 0 || k > ts.len() {
        seq![]
    } else {
        kept_types(ts, pats, k - 1) + if globs_match(pats, ts[k - 1].file) {
            seq![]
        } else {
            seq![ts[k - 1]]
        }
    }
}

/// Drops the functions and types whose file an exclude pattern matches, keeping
/// the order of the rest.
pub fn drop_excluded(ex: &mut Extraction, e: &Excludes)
    ensures
        final(ex)@.fns == kept_fns(old(ex)@.fns, e@, old(ex)@.fns.len() as int),
        final(ex)@.types == kept_types(old(ex)@.types, e@, old(ex)@.types.len() as int),
{
    let ghost ev = ex@;
    let mut fns: Vec<crate::extract::FnRecord> = Vec::new();
    let mut types: Vec<crate::extract::TypeRecord> = Vec::new();
    std::mem::swap(&mut fns, &mut ex.fns);
    std::mem::swap(&mut types, &mut ex.types);
    assert(fns@.map_values(|r: crate::extract::FnRecord| r@) == ev.fns);
    assert(types@.map_values(|r: crate::extract::TypeRecord| r@) == ev.types);
    let mut i: usize = 0;
    while i < fns.len()
        invariant
            i <= fns@.len(),
            fns@.map_values(|r: crate::extract::FnRecord| r@) == ev.fns,
            ex.types@.len() == 0,
            ex.fns@.map_values(|r: crate::extract::FnRecord| r@) == kept_fns(ev.fns, e@, i as int),
        decreases fns@.len() - i,
    {
        let r = &fns[i];
        assert(ev.fns[i as int] == r@);
        if !e.is_match(r.file.as_str()) {
            ex.fns.push(r.clone_record());
        }
        assert(ex.fns@.map_values(|r: crate::extract::FnRecord| r@) =~= kept_fns(ev.fns, e@, i + 1));
        i += 1;
    }
    let mut j: usize = 0;
    while j < types.len()
        invariant
            j <= types@.len(),
            types@.map_values(|r: crate::extract::TypeRecord| r@) == ev.types,
            ex.types@.map_values(|r: crate::extract::TypeRecord| r@) == kept_types(ev.types, e@, j as int),
            ex.fns@.map_values(|r: crate::extract::FnRecord| r@) == kept_fns(ev.fns, e@, ev.fns.len() as int),
        decreases types@.len() - j,
    {
        let t = &types[j];
        assert(ev.types[j as int] == t@);
        if !e.is_match(t.file.as_str()) {
            ex.types.push(t.clone_record());
        }
        assert(ex.types@.map_values(|r: crate::extract::TypeRecord| r@) =~= kept_types(ev.types, e@, j + 1));
        j += 1;
    }
}


/// Each pattern is compiled, and a bare `dir/**` pattern brings `dir` itself along,
/// so the directory is excluded as well as what is under it.
pub proof fn law_dir_glob_covers_dir(pats: Seq<Seq<char>>, i: int)
    requires
        0 <= i < pats.len(),
    ensures
        compiled(pats, pats.len() as int).contains(pats[i]),
        stem(pats[i]) matches Some(s) ==> compiled(pats, pats.len() as int).contains(s),
{
    lemma_compiled_keeps(pats, i, pats.len() as int);
}

proof fn lemma_compiled_keeps(pats: Seq<Seq<char>>, i: int, k: int)
    requires
        0 <= i < k <= pats.len(),
    ensures
        compiled(pats, k).contains(pats[i]),
        stem(pats[i]) matches Some(s) ==> compiled(pats, k).contains(s),
    decreases k,
{
    let prev = compiled(pats, k - 1);
    let tail = match stem(pats[k - 1]) {
        Some(s) => seq![s],
        None => Seq::<Seq<char>>::empty(),
    };
    assert(compiled(pats, k) == prev + seq![pats[k - 1]] + tail);
    if i < k - 1 {
        lemma_compiled_keeps(pats, i, k - 1);
        let x = choose|x: int| 0 <= x < prev.len() && prev[x] == pats[i];
        assert(compiled(pats, k)[x] == pats[i]);
        if let Some(s) = stem(pats[i]) {
            let z = choose|z: int| 0 <= z < prev.len() && prev[z] == s;
            assert(compiled(pats, k)[z] == s);
        }
    } else {
        assert(compiled(pats, k)[prev.len() as int] == pats[i]);
        if let Some(s) = stem(pats[i]) {
            assert(compiled(pats, k)[prev.len() as int + 1] == s);
        }
    }
}


/// Whether a file may contribute findings: not excluded, and not a test file unless
/// tests are included.
pub fn allowed_file(e: &Excludes, include_tests: bool, file: &str) -> (r: bool)
    ensures
        r == (!globs_match(e@, file@) && (include_tests || !crate::extract::is_test_path(file@))),
{
    !e.is_match(file) && (include_tests || !crate::extract::is_test_file(file))
}

} // verus!
