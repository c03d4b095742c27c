//! The API index: every listed function and type, grouped by file, as markdown.
use crate::extract::{Extraction, ExtractionView, FnRecordView, TypeRecordView, is_test_path};
use crate::text::{
    before_first, contains, occurs_at, decimal, decimal_chars, extend_chars, find_from_exec, from_chars,
    lemma_seq_lt_total, lemma_seq_lt_transitive, occurs_at_exec, seq_lt,
    slice_chars, starts_with, str_eq, str_lt, to_chars,
};
use vstd::prelude::*;

verus! {

/// `s.replace(p, q)` for a non-empty `p`: occurrences replaced left to right.
pub open spec fn replace_all(s: Seq<char>, p: Seq<char>, q: Seq<char>) -> Seq<char>
    decreases s.len(),
{
    if s.len() == 0 || p.len() == 0 {
        s
    } else if starts_with(s, p) {
        q + replace_all(s.skip(p.len() as int), p, q)
    } else {
        seq![s[0]] + replace_all(s.drop_first(), p, q)
    }
}

/// The first `max` chars of `s` and an ellipsis when `s` is longer.
pub open spec fn clip_spec(s: Seq<char>, max: nat) -> Seq<char> {
    if s.len() > max {
        s.take(max as int) + seq!['…']
    } else {
        s
    }
}

/// Text up to the first `". "`, clipped to 110 chars.
pub open spec fn first_sentence_spec(doc: Seq<char>) -> Seq<char> {
    clip_spec(before_first(doc, ". "@), 110)
}

pub fn replace_all_exec(s: &[char], p: &[char], q: &[char]) -> (r: Vec<char>)
    requires
        p@.len() > 0,
    ensures
        r@ == replace_all(s@, p@, q@),
{
    let mut r: Vec<char> = Vec::new();
    let mut i: usize = 0;
    assert(s@.skip(0) =~= s@);
    while i < s.len()
        invariant
            p@.len() > 0,
            i <= s@.len(),
            replace_all(s@, p@, q@) == r@ + replace_all(s@.skip(i as int), p@, q@),
        decreases s@.len() - i,
    {
        let ghost t = s@.skip(i as int);
        if p.len() <= s.len() - i && occurs_at_exec(s, p, i) {
            proof {
                assert(t.subrange(0, p@.len() as int) =~= s@.subrange(i as int, i + p@.len()));
                assert(t.skip(p@.len() as int) =~= s@.skip(i + p@.len()));
            }
            extend_chars(&mut r, q);
            i += p.len();
            assert(replace_all(s@, p@, q@) == r@ + replace_all(s@.skip(i as int), p@, q@));
        } else {
            proof {
                if starts_with(t, p@) {
                    assert(t.subrange(0, p@.len() as int) =~= s@.subrange(i as int, i + p@.len()));
                }
                assert(t.drop_first() =~= s@.skip(i + 1));
            }
            r.push(s[i]);
            i += 1;
            assert(replace_all(s@, p@, q@) == r@ + replace_all(s@.skip(i as int), p@, q@));
        }
    }
    assert(s@.skip(i as int) =~= Seq::<char>::empty());
    assert(r@ + Seq::<char>::empty() =~= r@);
    r
}

/// The first `max` chars of `s`, followed by `…` when `s` is longer.
pub fn clip(s: &str, max: usize) -> (r: String)
    ensures
        r@ == clip_spec(s@, max as nat),
{
    let c = to_chars(s);
    if c.len() > max {
        let mut v = slice_chars(c.as_slice(), 0, max);
        v.push('…');
        from_chars(v.as_slice())
    } else {
        from_chars(c.as_slice())
    }
}

/// The doc text up to its first `". "`, clipped to 110 chars.
pub fn first_sentence(doc: &str) -> (r: String)
    ensures
        r@ == first_sentence_spec(doc@),
{
    let d = to_chars(doc);
    let sep = to_chars(". ");
    let head = match find_from_exec(d.as_slice(), sep.as_slice(), 0) {
        Some(k) => {
            proof {
                crate::text::lemma_find_from_some(d@, sep@, 0);
            }
            slice_chars(d.as_slice(), 0, k)
        },
        None => d,
    };
    assert(head@ == before_first(doc@, ". "@));
    clip(from_chars(head.as_slice()).as_str(), 110)
}

// ---------------------------------------------------------------- entries

pub open spec fn fn_testish(r: FnRecordView) -> bool {
    contains(r.context, "mod tests"@) || is_test_path(r.file)
}

pub open spec fn type_listed(t: TypeRecordView, private: bool) -> bool {
    t.public || private
}

pub open spec fn fn_listed(r: FnRecordView, private: bool) -> bool {
    (r.public || private) && !fn_testish(r)
}

/// ` — ` and the doc's first sentence, when there is a doc.
pub open spec fn doc_suffix(doc: Seq<char>) -> Seq<char> {
    if doc.len() == 0 {
        seq![]
    } else {
        " — "@ + first_sentence_spec(doc)
    }
}

pub open spec fn location_suffix(file: Seq<char>, start: u32) -> Seq<char> {
    "  ("@ + file + ":"@ + decimal(start as nat) + ")\n"@
}

pub open spec fn type_line(t: TypeRecordView) -> Seq<char> {
    "- "@ + t.kind + " `"@ + t.name + "`"@ + doc_suffix(t.doc) + location_suffix(t.file, t.start)
}

/// The signature as listed: `pub fn` and `pub(crate) fn` shown as `fn`.
pub open spec fn listed_sig(sig: Seq<char>) -> Seq<char> {
    replace_all(replace_all(sig, "pub fn "@, "fn "@), "pub(crate) fn "@, "fn "@)
}

pub open spec fn fn_line(r: FnRecordView) -> Seq<char> {
    "- `"@ + clip_spec(listed_sig(r.sig), 150) + "`"@ + doc_suffix(r.doc) + location_suffix(r.file, r.start)
}

/// Lines of the first `k` types that are listed and in `file`.
pub open spec fn type_lines(ts: Seq<TypeRecordView>, file: Seq<char>, private: bool, k: int) -> Seq<char>
    decreases k,
{
    if k <= 0 || k > ts.len() {
        seq![]
    } else {
        type_lines(ts, file, private, k - 1) + if ts[k - 1].file == file && type_listed(ts[k - 1], private) {
            type_line(ts[k - 1])
        } else {
            seq![]
        }
    }
}

/// Lines of the first `k` functions that are listed and in `file`.
pub open spec fn fn_lines(fs: Seq<FnRecordView>, file: Seq<char>, private: bool, k: int) -> Seq<char>
    decreases k,
{
    if k <= 0 || k > fs.len() {
        seq![]
    } else {
        fn_lines(fs, file, private, k - 1) + if fs[k - 1].file == file && fn_listed(fs[k - 1], private) {
            fn_line(fs[k - 1])
        } else {
            seq![]
        }
    }
}

/// A file's section: its listed types, then its listed functions.
pub open spec fn section(ex: ExtractionView, file: Seq<char>, private: bool) -> Seq<char> {
    type_lines(ex.types, file, private, ex.types.len() as int) + fn_lines(
        ex.fns,
        file,
        private,
        ex.fns.len() as int,
    )
}

pub open spec fn index_header() -> Seq<char> {
    "# API index\n\nGenerated by dupfinder. Grep here for an existing helper before writing a new one.\n"@
}

/// The sections of the first `k` files, each under a `##` heading, files with
/// nothing listed left out.
pub open spec fn index_body(ex: ExtractionView, private: bool, files: Seq<Seq<char>>, k: int) -> Seq<char>
    decreases k,
{
    if k <= 0 || k > files.len() {
        seq![]
    } else {
        let s = section(ex, files[k - 1], private);
        index_body(ex, private, files, k - 1) + if s.len() == 0 {
            seq![]
        } else {
            "\n## "@ + files[k - 1] + "\n"@ + s
        }
    }
}

/// The files that hold a function or a type.
pub open spec fn file_set(ex: ExtractionView) -> Set<Seq<char>> {
    Set::new(
        |f: Seq<char>|
            (exists|i: int| 0 <= i < ex.fns.len() && #[trigger] ex.fns[i].file == f) || (exists|j: int|
                0 <= j < ex.types.len() && #[trigger] ex.types[j].file == f),
    )
}

pub open spec fn sorted_unique(fs: Seq<Seq<char>>) -> bool {
    forall|x: int, y: int| 0 <= x < y < fs.len() ==> seq_lt(#[trigger] fs[x], #[trigger] fs[y])
}

pub open spec fn count_types(ts: Seq<TypeRecordView>, private: bool, k: int) -> int
    decreases k,
{
    if k <= 0 || k > ts.len() {
        0
    } else {
        count_types(ts, private, k - 1) + if type_listed(ts[k - 1], private) {
            1int
        } else {
            0
        }
    }
}

pub open spec fn count_fns(fs: Seq<FnRecordView>, private: bool, k: int) -> int
    decreases k,
{
    if k <= 0 || k > fs.len() {
        0
    } else {
        count_fns(fs, private, k - 1) + if fn_listed(fs[k - 1], private) {
            1int
        } else {
            0
        }
    }
}


pub open spec fn strs(v: Seq<String>) -> Seq<Seq<char>> {
    v.map_values(|s: String| s@)
}

fn cat3(a: &mut Vec<char>, b: &str)
    ensures
        final(a)@ == old(a)@ + b@,
{
    let t = to_chars(b);
    extend_chars(a, t.as_slice());
}

fn doc_suffix_exec(doc: &String) -> (r: Vec<char>)
    ensures
        r@ == doc_suffix(doc@),
{
    let d = to_chars(doc.as_str());
    if d.len() == 0 {
        Vec::new()
    } else {
        let mut r = to_chars(" — ");
        let f = first_sentence(doc.as_str());
        cat3(&mut r, f.as_str());
        r
    }
}

fn location_exec(file: &String, start: u32) -> (r: Vec<char>)
    ensures
        r@ == location_suffix(file@, start),
{
    let mut r = to_chars("  (");
    cat3(&mut r, file.as_str());
    cat3(&mut r, ":");
    let d = decimal_chars(start as usize);
    extend_chars(&mut r, d.as_slice());
    cat3(&mut r, ")\n");
    r
}

fn type_line_exec(t: &crate::extract::TypeRecord) -> (r: Vec<char>)
    ensures
        r@ == type_line(t@),
{
    let mut r = to_chars("- ");
    cat3(&mut r, t.kind.as_str());
    cat3(&mut r, " `");
    cat3(&mut r, t.name.as_str());
    cat3(&mut r, "`");
    let d = doc_suffix_exec(&t.doc);
    extend_chars(&mut r, d.as_slice());
    let l = location_exec(&t.file, t.start);
    extend_chars(&mut r, l.as_slice());
    r
}

fn fn_line_exec(f: &crate::extract::FnRecord) -> (r: Vec<char>)
    ensures
        r@ == fn_line(f@),
{
    proof {
        reveal_strlit("pub fn ");
        reveal_strlit("pub(crate) fn ");
    }
    let sig = to_chars(f.sig.as_str());
    let a = replace_all_exec(sig.as_slice(), to_chars("pub fn ").as_slice(), to_chars("fn ").as_slice());
    let b = replace_all_exec(a.as_slice(), to_chars("pub(crate) fn ").as_slice(), to_chars("fn ").as_slice());
    let clipped = clip(from_chars(b.as_slice()).as_str(), 150);
    let mut r = to_chars("- `");
    cat3(&mut r, clipped.as_str());
    cat3(&mut r, "`");
    let d = doc_suffix_exec(&f.doc);
    extend_chars(&mut r, d.as_slice());
    let l = location_exec(&f.file, f.start);
    extend_chars(&mut r, l.as_slice());
    r
}

fn section_exec(ex: &Extraction, file: &str, private: bool) -> (r: Vec<char>)
    ensures
        r@ == section(ex@, file@, private),
{
    let ghost ev = ex@;
    let mut r: Vec<char> = Vec::new();
    let mut i: usize = 0;
    while i < ex.types.len()
        invariant
            ev == ex@,
            i <= ex.types@.len(),
            r@ == type_lines(ev.types, file@, private, i as int),
        decreases ex.types@.len() - i,
    {
        let t = &ex.types[i];
        assert(ev.types[i as int] == t@);
        if str_eq(t.file.as_str(), file) && (t.public || private) {
            let l = type_line_exec(t);
            extend_chars(&mut r, l.as_slice());
        }
        i += 1;
    }
    let ghost head = r@;
    let mut j: usize = 0;
    while j < ex.fns.len()
        invariant
            ev == ex@,
            j <= ex.fns@.len(),
            head == type_lines(ev.types, file@, private, ev.types.len() as int),
            r@ == head + fn_lines(ev.fns, file@, private, j as int),
        decreases ex.fns@.len() - j,
    {
        let f = &ex.fns[j];
        assert(ev.fns[j as int] == f@);
        if str_eq(f.file.as_str(), file) && (f.public || private) && !f.is_testish() {
            let l = fn_line_exec(f);
            extend_chars(&mut r, l.as_slice());
        }
        assert(r@ =~= head + fn_lines(ev.fns, file@, private, j + 1));
        j += 1;
    }
    r
}

/// Adds `f` to the sorted list of distinct files.
fn insert_file(files: &mut Vec<String>, f: &String)
    requires
        sorted_unique(strs(old(files)@)),
    ensures
        sorted_unique(strs(final(files)@)),
        strs(final(files)@).to_set() == strs(old(files)@).to_set().insert(f@),
{
    let ghost old_s = strs(files@);
    let mut pos: usize = 0;
    while pos < files.len() && str_lt(files[pos].as_str(), f.as_str())
        invariant
            old_s == strs(files@),
            files@ == old(files)@,
            pos <= files@.len(),
            forall|x: int| 0 <= x < pos ==> seq_lt(#[trigger] old_s[x], f@),
        decreases files@.len() - pos,
    {
        pos += 1;
    }
    if pos < files.len() && str_eq(files[pos].as_str(), f.as_str()) {
        proof {
            assert(old_s[pos as int] == f@);
            assert(old_s.to_set().insert(f@) =~= old_s.to_set());
        }
        return ;
    }
    proof {
        if pos < old_s.len() {
            lemma_seq_lt_total(old_s[pos as int], f@);
        }
    }
    files.insert(pos, f.clone());
    proof {
        let ns = strs(files@);
        assert(ns =~= old_s.insert(pos as int, f@));
        assert forall|x: int, y: int| 0 <= x < y < ns.len() implies seq_lt(#[trigger] ns[x], #[trigger] ns[y]) by {
            if y < pos {
            } else if x > pos {
                assert(ns[x] == old_s[x - 1] && ns[y] == old_s[y - 1]);
            } else if x == pos {
                assert(ns[y] == old_s[y - 1]);
                if y - 1 > pos {
                    assert(seq_lt(old_s[pos as int], old_s[y - 1]));
                    lemma_seq_lt_transitive(f@, old_s[pos as int], old_s[y - 1]);
                }
            } else if y == pos {
            } else {
                assert(ns[y] == old_s[y - 1]);
                assert(seq_lt(old_s[x], f@));
                assert(seq_lt(f@, old_s[pos as int]));
                lemma_seq_lt_transitive(old_s[x], f@, old_s[pos as int]);
                if y - 1 > pos {
                    lemma_seq_lt_transitive(old_s[x], old_s[pos as int], old_s[y - 1]);
                }
            }
        }
        assert(ns.to_set() =~= old_s.to_set().insert(f@)) by {
            assert forall|t: Seq<char>| ns.to_set().contains(t) implies old_s.to_set().insert(f@).contains(t) by {
                let x = choose|x: int| 0 <= x < ns.len() && ns[x] == t;
                if x < pos {
                    assert(old_s[x] == t);
                } else if x > pos {
                    assert(old_s[x - 1] == t);
                }
            }
            assert forall|t: Seq<char>| old_s.to_set().insert(f@).contains(t) implies ns.to_set().contains(t) by {
                if t == f@ {
                    assert(ns[pos as int] == t);
                } else {
                    let x = choose|x: int| 0 <= x < old_s.len() && old_s[x] == t;
                    if x < pos {
                        assert(ns[x] == t);
                    } else {
                        assert(ns[x + 1] == t);
                    }
                }
            }
        }
    }
}

/// The files of `ex`, sorted, each once.
fn file_list(ex: &Extraction) -> (r: Vec<String>)
    ensures
        sorted_unique(strs(r@)),
        strs(r@).to_set() == file_set(ex@),
{
    let ghost ev = ex@;
    let mut files: Vec<String> = Vec::new();
    let mut i: usize = 0;
    assert(strs(files@).to_set() =~= Set::<Seq<char>>::empty());
    while i < ex.fns.len()
        invariant
            ev == ex@,
            i <= ex.fns@.len(),
            sorted_unique(strs(files@)),
            strs(files@).to_set() == Set::new(|f: Seq<char>| exists|x: int| 0 <= x < i && #[trigger] ev.fns[x].file == f),
        decreases ex.fns@.len() - i,
    {
        let ghost before = strs(files@).to_set();
        insert_file(&mut files, &ex.fns[i].file);
        proof {
            assert(ev.fns[i as int].file == ex.fns@[i as int].file@);
            assert(strs(files@).to_set() =~= Set::new(|f: Seq<char>| exists|x: int| 0 <= x < i + 1 && #[trigger] ev.fns[x].file == f)) by {
                assert forall|f: Seq<char>| Set::new(|f: Seq<char>| exists|x: int| 0 <= x < i + 1 && #[trigger] ev.fns[x].file == f).contains(f) implies strs(files@).to_set().contains(f) by {
                    let x = choose|x: int| 0 <= x < i + 1 && #[trigger] ev.fns[x].file == f;
                    if x < i {
                        assert(before.contains(f));
                    }
                }
            }
        }
        i += 1;
    }
    let mut j: usize = 0;
    while j < ex.types.len()
        invariant
            ev == ex@,
            j <= ex.types@.len(),
            sorted_unique(strs(files@)),
            strs(files@).to_set() == Set::new(
                |f: Seq<char>|
                    (exists|x: int| 0 <= x < ev.fns.len() && #[trigger] ev.fns[x].file == f) || (exists|y: int|
                        0 <= y < j && #[trigger] ev.types[y].file == f),
            ),
        decreases ex.types@.len() - j,
    {
        let ghost before = strs(files@).to_set();
        insert_file(&mut files, &ex.types[j].file);
        proof {
            assert(ev.types[j as int].file == ex.types@[j as int].file@);
            let target = Set::new(
                |f: Seq<char>|
                    (exists|x: int| 0 <= x < ev.fns.len() && #[trigger] ev.fns[x].file == f) || (exists|y: int|
                        0 <= y < j + 1 && #[trigger] ev.types[y].file == f),
            );
            assert(strs(files@).to_set() =~= target) by {
                assert forall|f: Seq<char>| target.contains(f) implies strs(files@).to_set().contains(f) by {
                    if exists|y: int| 0 <= y < j + 1 && #[trigger] ev.types[y].file == f {
                        let y = choose|y: int| 0 <= y < j + 1 && #[trigger] ev.types[y].file == f;
                        if y < j {
                            assert(before.contains(f));
                        }
                    }
                }
            }
        }
        j += 1;
    }
    assert(strs(files@).to_set() =~= file_set(ev));
    files
}

fn count_listed(ex: &Extraction, private: bool) -> (r: usize)
    requires
        ex.fns@.len() + ex.types@.len() <= usize::MAX,
    ensures
        r == count_types(ex@.types, private, ex@.types.len() as int) + count_fns(ex@.fns, private, ex@.fns.len() as int),
{
    let ghost ev = ex@;
    let mut n: usize = 0;
    let mut i: usize = 0;
    while i < ex.types.len()
        invariant
            ev == ex@,
            i <= ex.types@.len(),
            n == count_types(ev.types, private, i as int),
            n <= i,
        decreases ex.types@.len() - i,
    {
        assert(ev.types[i as int] == ex.types@[i as int]@);
        if ex.types[i].public || private {
            n += 1;
        }
        i += 1;
    }
    let mut j: usize = 0;
    while j < ex.fns.len()
        invariant
            ev == ex@,
            j <= ex.fns@.len(),
            ex.fns@.len() + ex.types@.len() <= usize::MAX,
            n == count_types(ev.types, private, ev.types.len() as int) + count_fns(ev.fns, private, j as int),
            n <= ev.types.len() + j,
        decreases ex.fns@.len() - j,
    {
        let f = &ex.fns[j];
        assert(ev.fns[j as int] == f@);
        if (f.public || private) && !f.is_testish() {
            n += 1;
        }
        j += 1;
    }
    n
}

/// The API index of `ex` as markdown, and how many items it lists: under a header,
/// one `## file` section per file in sorted order, each listing the file's public
/// types, then its public non-test functions (all of them with `private`).
pub fn index_markdown(ex: &Extraction, private: bool) -> (r: (String, usize))
    requires
        ex.fns@.len() + ex.types@.len() <= usize::MAX,
    ensures
        exists|files: Seq<Seq<char>>|
            sorted_unique(files) && files.to_set() == file_set(ex@) && r.0@ == index_header() + index_body(
                ex@,
                private,
                files,
                files.len() as int,
            ),
        r.1 == count_types(ex@.types, private, ex@.types.len() as int) + count_fns(ex@.fns, private, ex@.fns.len() as int),
{
    let files = file_list(ex);
    let ghost fv = strs(files@);
    let mut md = to_chars("# API index\n\nGenerated by dupfinder. Grep here for an existing helper before writing a new one.\n");
    let mut k: usize = 0;
    while k < files.len()
        invariant
            fv == strs(files@),
            k <= files@.len(),
            md@ == index_header() + index_body(ex@, private, fv, k as int),
        decreases files@.len() - k,
    {
        let s = section_exec(ex, files[k].as_str(), private);
        assert(fv[k as int] == files@[k as int]@);
        if s.len() > 0 {
            cat3(&mut md, "\n## ");
            cat3(&mut md, files[k].as_str());
            cat3(&mut md, "\n");
            extend_chars(&mut md, s.as_slice());
        }
        assert(md@ =~= index_header() + index_body(ex@, private, fv, k + 1));
        k += 1;
    }
    (from_chars(md.as_slice()), count_listed(ex, private))
}


// ---------------------------------------------------------------- laws

proof fn lemma_contains_within(a: Seq<char>, m: Seq<char>, b: Seq<char>, p: Seq<char>)
    requires
        contains(m, p),
    ensures
        contains(a + m + b, p),
{
    let i = choose|i: int| occurs_at(m, p, i);
    assert((a + m + b).subrange(a.len() + i, a.len() + i + p.len()) =~= m.subrange(i, i + p.len()));
    assert(occurs_at(a + m + b, p, a.len() + i));
}

proof fn lemma_type_lines_contain(ts: Seq<TypeRecordView>, file: Seq<char>, private: bool, k: int, j: int)
    requires
        0 <= j < k <= ts.len(),
        ts[j].file == file,
        type_listed(ts[j], private),
    ensures
        contains(type_lines(ts, file, private, k), type_line(ts[j])),
    decreases k,
{
    let prev = type_lines(ts, file, private, k - 1);
    if j == k - 1 {
        let l = type_line(ts[j]);
        assert(type_lines(ts, file, private, k) == prev + l);
        assert((prev + l).subrange(prev.len() as int, (prev.len() + l.len()) as int) =~= l);
        assert(occurs_at(prev + l, l, prev.len() as int));
    } else {
        lemma_type_lines_contain(ts, file, private, k - 1, j);
        let tail = if ts[k - 1].file == file && type_listed(ts[k - 1], private) {
            type_line(ts[k - 1])
        } else {
            seq![]
        };
        assert(type_lines(ts, file, private, k) == prev + tail);
        lemma_contains_within(seq![], prev, tail, type_line(ts[j]));
        assert(Seq::<char>::empty() + prev + tail =~= prev + tail);
    }
}

proof fn lemma_index_body_contains(
    ex: ExtractionView,
    private: bool,
    files: Seq<Seq<char>>,
    k: int,
    f: int,
    p: Seq<char>,
)
    requires
        0 <= f < k <= files.len(),
        p.len() > 0,
        contains(section(ex, files[f], private), p),
    ensures
        contains(index_body(ex, private, files, k), p),
    decreases k,
{
    let prev = index_body(ex, private, files, k - 1);
    let sec = section(ex, files[k - 1], private);
    let tail = if sec.len() == 0 {
        seq![]
    } else {
        "\n## "@ + files[k - 1] + "\n"@ + sec
    };
    assert(index_body(ex, private, files, k) == prev + tail);
    if f == k - 1 {
        let i = choose|i: int| occurs_at(sec, p, i);
        assert(sec.len() > 0);
        lemma_contains_within(prev + "\n## "@ + files[k - 1] + "\n"@, sec, seq![], p);
        assert(prev + "\n## "@ + files[k - 1] + "\n"@ + sec + Seq::<char>::empty() =~= prev + tail);
    } else {
        lemma_index_body_contains(ex, private, files, k - 1, f, p);
        lemma_contains_within(seq![], prev, tail, p);
        assert(Seq::<char>::empty() + prev + tail =~= prev + tail);
    }
}

/// The index lists every listed type on a line of its own file's section, made of
/// its kind, its name, ` — ` and the first sentence of its doc (clipped to 110
/// characters) when it has a doc, and its location, just as it lists functions.
pub proof fn law_index_lists_types(ex: ExtractionView, private: bool, files: Seq<Seq<char>>, j: int)
    requires
        files.to_set() == file_set(ex),
        0 <= j < ex.types.len(),
        type_listed(ex.types[j], private),
    ensures
        ({
            let t = ex.types[j];
            contains(
                index_header() + index_body(ex, private, files, files.len() as int),
                "- "@ + t.kind + " `"@ + t.name + "`"@ + (if t.doc.len() == 0 {
                    Seq::<char>::empty()
                } else {
                    " — "@ + clip_spec(before_first(t.doc, ". "@), 110)
                }) + "  ("@ + t.file + ":"@ + decimal(t.start as nat) + ")\n"@,
            )
        }),
{
    let t = ex.types[j];
    let line = "- "@ + t.kind + " `"@ + t.name + "`"@ + (if t.doc.len() == 0 {
        Seq::<char>::empty()
    } else {
        " — "@ + clip_spec(before_first(t.doc, ". "@), 110)
    }) + "  ("@ + t.file + ":"@ + decimal(t.start as nat) + ")\n"@;
    assert(type_line(t) =~= line);
    assert(file_set(ex).contains(t.file));
    assert(files.to_set().contains(t.file));
    let f = choose|f: int| 0 <= f < files.len() && files[f] == t.file;
    lemma_type_lines_contain(ex.types, t.file, private, ex.types.len() as int, j);
    lemma_contains_within(
        seq![],
        type_lines(ex.types, t.file, private, ex.types.len() as int),
        fn_lines(ex.fns, t.file, private, ex.fns.len() as int),
        line,
    );
    assert(Seq::<char>::empty() + type_lines(ex.types, t.file, private, ex.types.len() as int) + fn_lines(
        ex.fns,
        t.file,
        private,
        ex.fns.len() as int,
    ) =~= section(ex, t.file, private));
    lemma_index_body_contains(ex, private, files, files.len() as int, f, line);
    lemma_contains_within(index_header(), index_body(ex, private, files, files.len() as int), seq![], line);
    assert(index_header() + index_body(ex, private, files, files.len() as int) + Seq::<char>::empty()
        =~= index_header() + index_body(ex, private, files, files.len() as int));
}


proof fn lemma_fn_lines_contain(fs: Seq<FnRecordView>, file: Seq<char>, private: bool, k: int, j: int)
    requires
        0 <= j < k <= fs.len(),
        fs[j].file == file,
        fn_listed(fs[j], private),
    ensures
        contains(fn_lines(fs, file, private, k), fn_line(fs[j])),
    decreases k,
{
    let prev = fn_lines(fs, file, private, k - 1);
    if j == k - 1 {
        let l = fn_line(fs[j]);
        assert(fn_lines(fs, file, private, k) == prev + l);
        assert((prev + l).subrange(prev.len() as int, (prev.len() + l.len()) as int) =~= l);
        assert(occurs_at(prev + l, l, prev.len() as int));
    } else {
        lemma_fn_lines_contain(fs, file, private, k - 1, j);
        let tail = if fs[k - 1].file == file && fn_listed(fs[k - 1], private) {
            fn_line(fs[k - 1])
        } else {
            seq![]
        };
        assert(fn_lines(fs, file, private, k) == prev + tail);
        lemma_contains_within(seq![], prev, tail, fn_line(fs[j]));
        assert(Seq::<char>::empty() + prev + tail =~= prev + tail);
    }
}

/// The index lists every listed function on a line of its own file's section: its
/// signature (with `pub fn` shown as `fn`, clipped to 150 characters) in backticks,
/// ` — ` and the first sentence of its doc (clipped to 110 characters) when it has a
/// doc, and its location.
pub proof fn law_index_lists_functions(ex: ExtractionView, private: bool, files: Seq<Seq<char>>, j: int)
    requires
        files.to_set() == file_set(ex),
        0 <= j < ex.fns.len(),
        fn_listed(ex.fns[j], private),
    ensures
        ({
            let r = ex.fns[j];
            contains(
                index_header() + index_body(ex, private, files, files.len() as int),
                "- `"@ + clip_spec(listed_sig(r.sig), 150) + "`"@ + (if r.doc.len() == 0 {
                    Seq::<char>::empty()
                } else {
                    " — "@ + clip_spec(before_first(r.doc, ". "@), 110)
                }) + "  ("@ + r.file + ":"@ + decimal(r.start as nat) + ")\n"@,
            )
        }),
{
    let r = ex.fns[j];
    let line = "- `"@ + clip_spec(listed_sig(r.sig), 150) + "`"@ + (if r.doc.len() == 0 {
        Seq::<char>::empty()
    } else {
        " — "@ + clip_spec(before_first(r.doc, ". "@), 110)
    }) + "  ("@ + r.file + ":"@ + decimal(r.start as nat) + ")\n"@;
    assert(fn_line(r) =~= line);
    assert(file_set(ex).contains(r.file));
    assert(files.to_set().contains(r.file));
    let f = choose|f: int| 0 <= f < files.len() && files[f] == r.file;
    lemma_fn_lines_contain(ex.fns, r.file, private, ex.fns.len() as int, j);
    lemma_contains_within(
        type_lines(ex.types, r.file, private, ex.types.len() as int),
        fn_lines(ex.fns, r.file, private, ex.fns.len() as int),
        seq![],
        line,
    );
    assert(type_lines(ex.types, r.file, private, ex.types.len() as int) + fn_lines(
        ex.fns,
        r.file,
        private,
        ex.fns.len() as int,
    ) + Seq::<char>::empty() =~= section(ex, r.file, private));
    lemma_index_body_contains(ex, private, files, files.len() as int, f, line);
    lemma_contains_within(index_header(), index_body(ex, private, files, files.len() as int), seq![], line);
    assert(index_header() + index_body(ex, private, files, files.len() as int) + Seq::<char>::empty()
        =~= index_header() + index_body(ex, private, files, files.len() as int));
}

} // verus!
