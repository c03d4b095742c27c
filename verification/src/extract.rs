//! Multi-language function/type extraction: Rust and TypeScript from their
//! syntax trees, Functor Lang (.fun) via a line-based parser (top-level
//! bindings only, which is Functor's whole reuse surface: file = module).
use crate::normalized::{Shape, ShapeView};
use crate::text::{
    collapse_ws_exec, contains, contains_exec, ends_with, ends_with_exec, extend_chars, from_chars,
    index_of_char, join, lemma_join_push, lines, lines_of, occurs_at, occurs_at_exec, skip_ws,
    slice_chars, starts_with, starts_with_exec, to_chars, trim, trim_exec, trim_start,
    trim_start_exec, trim_start_matches, trim_start_matches_exec, truncate,
};
use vstd::prelude::*;

verus! {

#[derive(Clone)]
pub struct FnRecord {
    pub name: String,
    /// Enclosing impl/trait/mod/class chain, outermost first.
    pub context: String,
    pub sig: String,
    pub doc: String,
    pub body: String,
    /// Root-relative path, '/'-separated.
    pub file: String,
    /// 1-based lines.
    pub start: u32,
    pub end: u32,
    pub public: bool,
    /// Normalized body, when one was computed.
    pub shape: Option<Shape>,
}

#[derive(Clone)]
pub struct TypeRecord {
    pub name: String,
    pub kind: String,
    pub doc: String,
    pub file: String,
    pub start: u32,
    pub end: u32,
    pub public: bool,
}

impl TypeRecord {
    /// An equal record.
    pub fn clone_record(&self) -> (r: TypeRecord)
        ensures
            r@ == self@,
    {
        TypeRecord {
            name: self.name.clone(),
            kind: self.kind.clone(),
            doc: self.doc.clone(),
            file: self.file.clone(),
            start: self.start,
            end: self.end,
            public: self.public,
        }
    }
}

pub struct Extraction {
    pub fns: Vec<FnRecord>,
    pub types: Vec<TypeRecord>,
}

pub struct FnRecordView {
    pub name: Seq<char>,
    pub context: Seq<char>,
    pub sig: Seq<char>,
    pub doc: Seq<char>,
    pub body: Seq<char>,
    pub file: Seq<char>,
    pub start: u32,
    pub end: u32,
    pub public: bool,
    pub shape: Option<ShapeView>,
}

pub struct TypeRecordView {
    pub name: Seq<char>,
    pub kind: Seq<char>,
    pub doc: Seq<char>,
    pub file: Seq<char>,
    pub start: u32,
    pub end: u32,
    pub public: bool,
}

pub struct ExtractionView {
    pub fns: Seq<FnRecordView>,
    pub types: Seq<TypeRecordView>,
}

impl View for FnRecord {
    type V = FnRecordView;

    open spec fn view(&self) -> FnRecordView {
        FnRecordView {
            name: self.name@,
            context: self.context@,
            sig: self.sig@,
            doc: self.doc@,
            body: self.body@,
            file: self.file@,
            start: self.start,
            end: self.end,
            public: self.public,
            shape: match self.shape {
                Some(s) => Some(s@),
                None => None,
            },
        }
    }
}

impl View for TypeRecord {
    type V = TypeRecordView;

    open spec fn view(&self) -> TypeRecordView {
        TypeRecordView {
            name: self.name@,
            kind: self.kind@,
            doc: self.doc@,
            file: self.file@,
            start: self.start,
            end: self.end,
            public: self.public,
        }
    }
}

impl View for Extraction {
    type V = ExtractionView;

    open spec fn view(&self) -> ExtractionView {
        ExtractionView {
            fns: self.fns@.map_values(|r: FnRecord| r@),
            types: self.types@.map_values(|t: TypeRecord| t@),
        }
    }
}

/// A path component (text between `/` separators, or the ends) equal to `name`.
pub open spec fn has_component(file: Seq<char>, name: Seq<char>) -> bool {
    exists|i: int|
        #![trigger occurs_at(file, name, i)]
        occurs_at(file, name, i) && (i == 0 || file[i - 1] == '/') && (i + name.len()
            == file.len() || file[i + name.len()] == '/')
}

pub open spec fn has_test_suffix(file: Seq<char>, ext: Seq<char>) -> bool {
    ends_with(file, ".test."@ + ext) || ends_with(file, ".spec."@ + ext)
}

/// Test directories anywhere in the path, or a `.test.`/`.spec.` JS/TS file name.
pub open spec fn is_test_path(file: Seq<char>) -> bool {
    ||| has_component(file, "tests"@)
    ||| has_component(file, "test"@)
    ||| has_component(file, "__tests__"@)
    ||| has_component(file, "__mocks__"@)
    ||| has_test_suffix(file, "ts"@)
    ||| has_test_suffix(file, "tsx"@)
    ||| has_test_suffix(file, "js"@)
    ||| has_test_suffix(file, "jsx"@)
    ||| has_test_suffix(file, "mts"@)
    ||| has_test_suffix(file, "cts"@)
    ||| has_test_suffix(file, "mjs"@)
    ||| has_test_suffix(file, "cjs"@)
}

impl FnRecord {
    /// An equal record.
    pub fn clone_record(&self) -> (r: FnRecord)
        ensures
            r@ == self@,
    {
        FnRecord {
            name: self.name.clone(),
            context: self.context.clone(),
            sig: self.sig.clone(),
            doc: self.doc.clone(),
            body: self.body.clone(),
            file: self.file.clone(),
            start: self.start,
            end: self.end,
            public: self.public,
            shape: match &self.shape {
                Some(s) => Some(s.copy()),
                None => None,
            },
        }
    }

    /// Inside a `mod tests` context or in a test file.
    pub open spec fn spec_testish(&self) -> bool {
        contains(self.context@, "mod tests"@) || is_test_path(self.file@)
    }

    pub fn is_testish(&self) -> (r: bool)
        ensures
            r == self.spec_testish(),
    {
        let ctx = to_chars(self.context.as_str());
        let pat = to_chars("mod tests");
        contains_exec(&ctx, &pat) || is_test_file(self.file.as_str())
    }
}

fn has_component_exec(file: &[char], name: &[char]) -> (r: bool)
    ensures
        r == has_component(file@, name@),
{
    let mut i: usize = 0;
    loop
        invariant
            i <= file@.len(),
            forall|j: int|
                0 <= j < i ==> !(#[trigger] occurs_at(file@, name@, j) && (j == 0 || file@[j - 1]
                    == '/') && (j + name@.len() == file@.len() || file@[j + name@.len()] == '/')),
        ensures
            forall|j: int|
                0 <= j <= file@.len() ==> !(#[trigger] occurs_at(file@, name@, j) && (j == 0
                    || file@[j - 1] == '/') && (j + name@.len() == file@.len() || file@[j
                    + name@.len()] == '/')),
        decreases file@.len() - i,
    {
        if (i == 0 || file[i - 1] == '/') && occurs_at_exec(file, name, i) {
            let e = i + name.len();
            if e == file.len() || file[e] == '/' {
                return true;
            }
        }
        if i == file.len() {
            break;
        }
        i += 1;
    }
    proof {
        assert forall|j: int|
            #![trigger occurs_at(file@, name@, j)]
            occurs_at(file@, name@, j) implies !((j == 0 || file@[j - 1] == '/') && (j
                + name@.len() == file@.len() || file@[j + name@.len()] == '/')) by {
            assert(j <= file@.len());
        }
    }
    false
}

fn has_test_suffix_exec(file: &[char], ext: &str) -> (r: bool)
    ensures
        r == has_test_suffix(file@, ext@),
{
    let e = to_chars(ext);
    let mut t = to_chars(".test.");
    extend_chars(&mut t, &e);
    let mut s = to_chars(".spec.");
    extend_chars(&mut s, &e);
    ends_with_exec(file, &t) || ends_with_exec(file, &s)
}

/// Shared by function and type candidates so test declarations stay out of audits.
pub fn is_test_file(file: &str) -> (r: bool)
    ensures
        r == is_test_path(file@),
{
    let f = to_chars(file);
    has_component_exec(&f, &to_chars("tests")) || has_component_exec(&f, &to_chars("test"))
        || has_component_exec(&f, &to_chars("__tests__")) || has_component_exec(
        &f,
        &to_chars("__mocks__"),
    ) || has_test_suffix_exec(&f, "ts") || has_test_suffix_exec(&f, "tsx")
        || has_test_suffix_exec(&f, "js") || has_test_suffix_exec(&f, "jsx")
        || has_test_suffix_exec(&f, "mts") || has_test_suffix_exec(&f, "cts")
        || has_test_suffix_exec(&f, "mjs") || has_test_suffix_exec(&f, "cjs")
}

/// The first `max` chars of `s`.
pub fn truncate_chars(s: &str, max: usize) -> (r: String)
    ensures
        r@ == truncate(s@, max as nat),
{
    let c = to_chars(s);
    if c.len() > max {
        from_chars(&slice_chars(&c, 0, max))
    } else {
        assert(c@.subrange(0, c@.len() as int) =~= c@);
        from_chars(&c)
    }
}

pub fn clip_doc(s: String) -> (r: String)
    ensures
        r@ == truncate(s@, 300),
{
    truncate_chars(s.as_str(), 300)
}

/// Whitespace runs collapsed to single spaces, ends trimmed.
pub fn collapse_ws(s: &str) -> (r: String)
    ensures
        r@ == crate::text::collapse_ws(s@),
{
    let c = to_chars(s);
    from_chars(&collapse_ws_exec(&c))
}

/// Unicode `Alphabetic` or `Numeric`, as `char::is_alphanumeric` decides it.
pub uninterp spec fn char_is_alphanumeric(c: char) -> bool;

/// `char::is_alphanumeric`; its result is named by `char_is_alphanumeric`. Among
/// ASCII characters exactly the letters and digits are alphanumeric.
#[verifier::external_body]
fn is_alphanumeric(c: char) -> (r: bool)
    ensures
        r == char_is_alphanumeric(c),
        ('a' <= c <= 'z' || 'A' <= c <= 'Z' || '0' <= c <= '9') ==> r,
        (c as u32) < 128 && !('a' <= c <= 'z' || 'A' <= c <= 'Z' || '0' <= c <= '9') ==> !r,
{
    c.is_alphanumeric()
}

pub open spec fn is_ident_char(c: char) -> bool {
    char_is_alphanumeric(c) || c == '_'
}

/// Length of the leading run of identifier chars.
pub open spec fn ident_len(s: Seq<char>) -> nat
    decreases s.len(),
{
    if s.len() > 0 && is_ident_char(s[0]) {
        1 + ident_len(s.drop_first())
    } else {
        0
    }
}

/// A leading identifier followed (after optional whitespace) by `=` or `:`.
pub open spec fn ident_prefix_of(s: Seq<char>) -> Option<Seq<char>> {
    let n = ident_len(s);
    let rest = trim_start(s.skip(n as int));
    if n > 0 && rest.len() > 0 && (rest[0] == '=' || rest[0] == ':') {
        Some(s.take(n as int))
    } else {
        None
    }
}

proof fn lemma_ident_len_at(s: Seq<char>, i: int)
    requires
        0 <= i <= s.len(),
        forall|j: int| 0 <= j < i ==> is_ident_char(#[trigger] s[j]),
        i < s.len() ==> !is_ident_char(s[i]),
    ensures
        ident_len(s) == i,
    decreases i,
{
    if i > 0 {
        let t = s.drop_first();
        assert forall|j: int| 0 <= j < i - 1 implies is_ident_char(#[trigger] t[j]) by {
            assert(t[j] == s[j + 1]);
        }
        if i - 1 < t.len() {
            assert(t[i - 1] == s[i]);
        }
        lemma_ident_len_at(t, i - 1);
    }
}

pub fn ident_prefix(s: &[char]) -> (r: Option<Vec<char>>)
    ensures
        r matches Some(v) ==> ident_prefix_of(s@) == Some(v@),
        r is None ==> ident_prefix_of(s@) is None,
{
    let mut n: usize = 0;
    while n < s.len() && (is_alphanumeric(s[n]) || s[n] == '_')
        invariant
            n <= s@.len(),
            forall|j: int| 0 <= j < n ==> is_ident_char(#[trigger] s@[j]),
        decreases s@.len() - n,
    {
        n += 1;
    }
    proof {
        lemma_ident_len_at(s@, n as int);
    }
    let k = skip_ws(s, n);
    if n > 0 && k < s.len() && (s[k] == '=' || s[k] == ':') {
        proof {
            assert(trim_start(s@.skip(n as int))[0] == s@[k as int]);
        }
        Some(slice_chars(s, 0, n))
    } else {
        proof {
            if k >= s@.len() {
                assert(s@.skip(k as int).len() == 0);
            } else {
                assert(trim_start(s@.skip(n as int))[0] == s@[k as int]);
            }
        }
        None
    }
}


// -------------------------------------------------------- Functor Lang

/// A top-level `let name = ...` / `type name = ...` line: the name and whether it is a type.
pub open spec fn binding_of(l: Seq<char>) -> Option<(Seq<char>, bool)> {
    if starts_with(l, "let "@) {
        match ident_prefix_of(l.skip("let "@.len() as int)) {
            Some(n) => Some((n, false)),
            None => None,
        }
    } else if starts_with(l, "type "@) {
        match ident_prefix_of(l.skip("type "@.len() as int)) {
            Some(n) => Some((n, true)),
            None => None,
        }
    } else {
        None
    }
}

pub open spec fn is_comment_line(l: Seq<char>) -> bool {
    starts_with(trim_start(l), "//"@)
}

/// A non-indented, non-blank, non-comment line ends the current body.
pub open spec fn ends_body(l: Seq<char>) -> bool {
    &&& l.len() > 0
    &&& l[0] != ' '
    &&& l[0] != '\t'
    &&& trim(l).len() > 0
    &&& !is_comment_line(l)
}

/// Blank or comment-only lines are trimmed off the end of a body.
pub open spec fn is_filler_line(l: Seq<char>) -> bool {
    trim(l).len() == 0 || starts_with(trim(l), "//"@)
}

/// First line at or after `j` that ends a body, or the line count.
pub open spec fn scan_end(ls: Seq<Seq<char>>, j: int) -> int
    decreases ls.len() - j,
{
    if j >= ls.len() {
        ls.len() as int
    } else if ends_body(ls[j]) {
        j
    } else {
        scan_end(ls, j + 1)
    }
}

pub open spec fn trim_body_end(ls: Seq<Seq<char>>, i: int, e: int) -> int
    decreases e,
{
    if e > i + 1 && e > 0 && is_filler_line(ls[e - 1]) {
        trim_body_end(ls, i, e - 1)
    } else {
        e
    }
}

/// Exclusive end line index of the binding starting at line `i`.
pub open spec fn body_end(ls: Seq<Seq<char>>, i: int) -> int {
    trim_body_end(ls, i, scan_end(ls, i + 1))
}

pub open spec fn doc_line(l: Seq<char>) -> Seq<char> {
    trim(trim_start_matches(trim_start(l), "//"@))
}

/// The contiguous comment lines right above line `j`, top to bottom, cleaned.
pub open spec fn doc_parts(ls: Seq<Seq<char>>, j: int) -> Seq<Seq<char>>
    decreases j,
{
    if j > 0 && is_comment_line(ls[j - 1]) {
        doc_parts(ls, j - 1).push(doc_line(ls[j - 1]))
    } else {
        seq![]
    }
}

pub open spec fn functor_doc(ls: Seq<Seq<char>>, i: int) -> Seq<char> {
    join(doc_parts(ls, i), seq![' '])
}

pub open spec fn functor_fn_view(
    ls: Seq<Seq<char>>,
    file: Seq<char>,
    i: int,
    name: Seq<char>,
) -> FnRecordView {
    FnRecordView {
        name: name,
        context: seq![],
        sig: trim(ls[i]),
        doc: functor_doc(ls, i),
        body: join(ls.subrange(i, body_end(ls, i)), seq!['\n']),
        file: file,
        start: (i + 1) as u32,
        end: body_end(ls, i) as u32,
        public: true,
        shape: None,
    }
}

pub open spec fn functor_type_view(
    ls: Seq<Seq<char>>,
    file: Seq<char>,
    i: int,
    name: Seq<char>,
) -> TypeRecordView {
    TypeRecordView {
        name: name,
        kind: "type"@,
        doc: functor_doc(ls, i),
        file: file,
        start: (i + 1) as u32,
        end: body_end(ls, i) as u32,
        public: true,
    }
}

/// Function records for the `let` bindings among the first `n` lines.
pub open spec fn functor_fns(ls: Seq<Seq<char>>, file: Seq<char>, n: int) -> Seq<FnRecordView>
    decreases n,
{
    if n <= 0 {
        seq![]
    } else {
        functor_fns(ls, file, n - 1) + match binding_of(ls[n - 1]) {
            Some((name, false)) => seq![functor_fn_view(ls, file, n - 1, name)],
            _ => seq![],
        }
    }
}

/// Type records for the `type` bindings among the first `n` lines.
pub open spec fn functor_types(ls: Seq<Seq<char>>, file: Seq<char>, n: int) -> Seq<
    TypeRecordView,
>
    decreases n,
{
    if n <= 0 {
        seq![]
    } else {
        functor_types(ls, file, n - 1) + match binding_of(ls[n - 1]) {
            Some((name, true)) => seq![functor_type_view(ls, file, n - 1, name)],
            _ => seq![],
        }
    }
}

proof fn lemma_scan_end(ls: Seq<Seq<char>>, j: int, e: int)
    requires
        0 <= j <= e <= ls.len(),
        forall|k: int| j <= k < e ==> !ends_body(#[trigger] ls[k]),
        e < ls.len() ==> ends_body(ls[e]),
    ensures
        scan_end(ls, j) == e,
    decreases e - j,
{
    if j < e {
        lemma_scan_end(ls, j + 1, e);
    }
}

proof fn lemma_trim_body_end(ls: Seq<Seq<char>>, i: int, e0: int, e: int)
    requires
        0 <= i,
        i + 1 <= e <= e0,
        forall|k: int| e <= k < e0 ==> is_filler_line(#[trigger] ls[k]),
        e > i + 1 ==> !is_filler_line(ls[e - 1]),
    ensures
        trim_body_end(ls, i, e0) == e,
    decreases e0 - e,
{
    if e0 > e {
        lemma_trim_body_end(ls, i, e0 - 1, e);
    }
}

proof fn lemma_scan_props(ls: Seq<Seq<char>>, j: int)
    requires
        0 <= j <= ls.len(),
    ensures
        j <= scan_end(ls, j) <= ls.len(),
        forall|k: int| j <= k < scan_end(ls, j) ==> !ends_body(#[trigger] ls[k]),
        scan_end(ls, j) < ls.len() ==> ends_body(ls[scan_end(ls, j)]),
    decreases ls.len() - j,
{
    if j < ls.len() && !ends_body(ls[j]) {
        lemma_scan_props(ls, j + 1);
    }
}

proof fn lemma_trim_props(ls: Seq<Seq<char>>, i: int, e: int)
    requires
        0 <= i,
        i + 1 <= e <= ls.len(),
    ensures
        i + 1 <= trim_body_end(ls, i, e) <= e,
        forall|k: int| trim_body_end(ls, i, e) <= k < e ==> is_filler_line(#[trigger] ls[k]),
        trim_body_end(ls, i, e) > i + 1 ==> !is_filler_line(ls[trim_body_end(ls, i, e) - 1]),
    decreases e,
{
    if e > i + 1 && is_filler_line(ls[e - 1]) {
        lemma_trim_props(ls, i, e - 1);
    }
}

/// Where the body of the binding on line `i` ends, described by the lines alone.
proof fn lemma_body_end_props(ls: Seq<Seq<char>>, i: int)
    requires
        0 <= i < ls.len(),
    ensures
        i + 1 <= body_end(ls, i) <= ls.len(),
        body_end(ls, i) == i + 1 || !is_filler_line(ls[body_end(ls, i) - 1]),
        forall|j: int| i + 1 <= j < body_end(ls, i) ==> !ends_body(#[trigger] ls[j]),
        forall|j: int|
            body_end(ls, i) <= j < ls.len() && (forall|m: int| i + 1 <= m <= j ==> !ends_body(#[trigger] ls[m]))
                ==> is_filler_line(ls[j]),
{
    let se = scan_end(ls, i + 1);
    lemma_scan_props(ls, i + 1);
    lemma_trim_props(ls, i, se);
    let e = body_end(ls, i);
    assert forall|j: int|
        e <= j < ls.len() && (forall|m: int| i + 1 <= m <= j ==> !ends_body(#[trigger] ls[m])) implies is_filler_line(
        ls[j],
    ) by {
        if j >= se {
            assert(se < ls.len());
            assert(ends_body(ls[se]));
            assert(!ends_body(ls[se]));
        }
    }
}

proof fn lemma_functor_fns_elem(ls: Seq<Seq<char>>, file: Seq<char>, n: int, k: int)
    requires
        0 <= n <= ls.len(),
        0 <= k < functor_fns(ls, file, n).len(),
    ensures
        exists|i: int|
            0 <= i < n && #[trigger] binding_of(ls[i]) == Some((functor_fns(ls, file, n)[k].name, false))
                && functor_fns(ls, file, n)[k] == functor_fn_view(ls, file, i, functor_fns(ls, file, n)[k].name),
    decreases n,
{
    let prev = functor_fns(ls, file, n - 1);
    if k < prev.len() {
        lemma_functor_fns_elem(ls, file, n - 1, k);
        assert(functor_fns(ls, file, n)[k] == prev[k]);
    } else {
        assert(functor_fns(ls, file, n)[k] == functor_fn_view(ls, file, n - 1, functor_fns(ls, file, n)[k].name));
    }
}

proof fn lemma_functor_types_elem(ls: Seq<Seq<char>>, file: Seq<char>, n: int, k: int)
    requires
        0 <= n <= ls.len(),
        0 <= k < functor_types(ls, file, n).len(),
    ensures
        exists|i: int|
            0 <= i < n && #[trigger] binding_of(ls[i]) == Some((functor_types(ls, file, n)[k].name, true))
                && functor_types(ls, file, n)[k] == functor_type_view(ls, file, i, functor_types(ls, file, n)[k].name),
    decreases n,
{
    let prev = functor_types(ls, file, n - 1);
    if k < prev.len() {
        lemma_functor_types_elem(ls, file, n - 1, k);
        assert(functor_types(ls, file, n)[k] == prev[k]);
    } else {
        assert(functor_types(ls, file, n)[k] == functor_type_view(ls, file, n - 1, functor_types(ls, file, n)[k].name));
    }
}

/// A Functor function's record spans its binding: from its `let` line (`start`,
/// 1-based) through the last line before the next top-level construct that is
/// neither blank nor a comment (`end`), so trailing blank lines and the next
/// binding's doc comment stay outside it, and every other line up to that construct
/// is inside; its body is exactly those lines.
pub proof fn law_functor_fn_span(ls: Seq<Seq<char>>, file: Seq<char>, k: int)
    requires
        ls.len() < u32::MAX,
        0 <= k < functor_fns(ls, file, ls.len() as int).len(),
    ensures
        ({
            let r = functor_fns(ls, file, ls.len() as int)[k];
            let s = r.start as int;
            let e = r.end as int;
            &&& 1 <= s <= e <= ls.len()
            &&& binding_of(ls[s - 1]) == Some((r.name, false))
            &&& r.body == join(ls.subrange(s - 1, e), seq!['\n'])
            &&& (e == s || !is_filler_line(ls[e - 1]))
            &&& forall|j: int| s <= j < e ==> !ends_body(#[trigger] ls[j])
            &&& forall|j: int|
                e <= j < ls.len() && (forall|m: int| s <= m <= j ==> !ends_body(#[trigger] ls[m])) ==> is_filler_line(
                    ls[j],
                )
        }),
{
    lemma_functor_fns_elem(ls, file, ls.len() as int, k);
    let r = functor_fns(ls, file, ls.len() as int)[k];
    let i = choose|i: int|
        0 <= i < ls.len() && #[trigger] binding_of(ls[i]) == Some((r.name, false)) && r == functor_fn_view(
            ls,
            file,
            i,
            r.name,
        );
    lemma_body_end_props(ls, i);
    assert(r.start as int == i + 1);
    assert(r.end as int == body_end(ls, i));
}

/// A Functor type's record spans its binding the same way: from its `type` line
/// through the last line before the next top-level construct that is neither blank
/// nor a comment.
pub proof fn law_functor_type_span(ls: Seq<Seq<char>>, file: Seq<char>, k: int)
    requires
        ls.len() < u32::MAX,
        0 <= k < functor_types(ls, file, ls.len() as int).len(),
    ensures
        ({
            let r = functor_types(ls, file, ls.len() as int)[k];
            let s = r.start as int;
            let e = r.end as int;
            &&& 1 <= s <= e <= ls.len()
            &&& binding_of(ls[s - 1]) == Some((r.name, true))
            &&& (e == s || !is_filler_line(ls[e - 1]))
            &&& forall|j: int| s <= j < e ==> !ends_body(#[trigger] ls[j])
            &&& forall|j: int|
                e <= j < ls.len() && (forall|m: int| s <= m <= j ==> !ends_body(#[trigger] ls[m])) ==> is_filler_line(
                    ls[j],
                )
        }),
{
    lemma_functor_types_elem(ls, file, ls.len() as int, k);
    let r = functor_types(ls, file, ls.len() as int)[k];
    let i = choose|i: int|
        0 <= i < ls.len() && #[trigger] binding_of(ls[i]) == Some((r.name, true)) && r == functor_type_view(
            ls,
            file,
            i,
            r.name,
        );
    lemma_body_end_props(ls, i);
    assert(r.start as int == i + 1);
    assert(r.end as int == body_end(ls, i));
}

proof fn lemma_doc_parts(ls: Seq<Seq<char>>, j: int, i: int)
    requires
        0 <= j <= i,
        forall|k: int| j <= k < i ==> is_comment_line(#[trigger] ls[k]),
        j > 0 ==> !is_comment_line(ls[j - 1]),
    ensures
        doc_parts(ls, i) =~= Seq::new((i - j) as nat, |k: int| doc_line(ls[j + k])),
    decreases i - j,
{
    if i > j {
        lemma_doc_parts(ls, j, i - 1);
    }
}

proof fn lemma_lines_len(s: Seq<char>)
    ensures
        lines_of(s).len() <= s.len(),
    decreases s.len(),
{
    if s.len() > 0 {
        let k = index_of_char(s, '\n');
        if k < s.len() {
            lemma_lines_len(s.skip((k + 1) as int));
        }
    }
}

/// `parts[from..to].join(sep)`.
fn join_exec(parts: &Vec<Vec<char>>, from: usize, to: usize, sep: char) -> (r: Vec<char>)
    requires
        from <= to <= parts@.len(),
    ensures
        r@ == join(parts.deep_view().subrange(from as int, to as int), seq![sep]),
{
    let mut r: Vec<char> = Vec::new();
    let mut k = from;
    while k < to
        invariant
            from <= k <= to <= parts@.len(),
            r@ == join(parts.deep_view().subrange(from as int, k as int), seq![sep]),
        decreases to - k,
    {
        proof {
            assert(parts@[k as int].deep_view() =~= parts@[k as int]@);
            lemma_join_push(parts.deep_view().subrange(from as int, k as int), seq![sep], parts@[k as int]@);
            assert(parts.deep_view().subrange(from as int, k + 1) =~= parts.deep_view().subrange(
                from as int,
                k as int,
            ).push(parts@[k as int]@));
        }
        if k > from {
            r.push(sep);
        }
        extend_chars(&mut r, &parts[k]);
        assert(r@ =~= join(parts.deep_view().subrange(from as int, k + 1), seq![sep]));
        k += 1;
    }
    r
}

fn is_comment_line_exec(l: &[char]) -> (r: bool)
    ensures
        r == is_comment_line(l@),
{
    let t = trim_start_exec(l);
    starts_with_exec(&t, &to_chars("//"))
}

fn ends_body_exec(l: &[char]) -> (r: bool)
    ensures
        r == ends_body(l@),
{
    l.len() > 0 && l[0] != ' ' && l[0] != '\t' && trim_exec(l).len() > 0 && !is_comment_line_exec(
        l,
    )
}

fn is_filler_line_exec(l: &[char]) -> (r: bool)
    ensures
        r == is_filler_line(l@),
{
    let t = trim_exec(l);
    t.len() == 0 || starts_with_exec(&t, &to_chars("//"))
}

fn binding_exec(l: &[char]) -> (r: Option<(Vec<char>, bool)>)
    ensures
        r matches Some((n, t)) ==> binding_of(l@) == Some((n@, t)),
        r is None ==> binding_of(l@) is None,
{
    let kw_let = to_chars("let ");
    let kw_type = to_chars("type ");
    if starts_with_exec(l, &kw_let) {
        let rest = slice_chars(l, kw_let.len(), l.len());
        assert(rest@ =~= l@.skip("let "@.len() as int));
        match ident_prefix(&rest) {
            Some(n) => Some((n, false)),
            None => None,
        }
    } else if starts_with_exec(l, &kw_type) {
        let rest = slice_chars(l, kw_type.len(), l.len());
        assert(rest@ =~= l@.skip("type "@.len() as int));
        match ident_prefix(&rest) {
            Some(n) => Some((n, true)),
            None => None,
        }
    } else {
        None
    }
}

/// Line-based: a top-level binding is `let name = ...` at column 0; its body
/// runs to the next top-level construct. Doc = contiguous `//` lines above.
pub fn extract_functor(src: &str, file: &str, ex: &mut Extraction)
    requires
        src@.len() < u32::MAX,
    ensures
        final(ex)@.fns == old(ex)@.fns + functor_fns(lines_of(src@), file@, lines_of(src@).len() as int),
        final(ex)@.types == old(ex)@.types + functor_types(lines_of(src@), file@, lines_of(src@).len() as int),
{
    let s = to_chars(src);
    let ls = lines(&s);
    let ghost lsv = lines_of(src@);
    proof {
        lemma_lines_len(src@);
    }
    assert(ls.deep_view() == lsv);
    let mut i: usize = 0;
    while i < ls.len()
        invariant
            ls.deep_view() == lsv,
            lsv.len() < u32::MAX,
            i <= ls@.len(),
            ex@.fns == old(ex)@.fns + functor_fns(lsv, file@, i as int),
            ex@.types == old(ex)@.types + functor_types(lsv, file@, i as int),
        decreases ls@.len() - i,
    {
        assert(ls@[i as int]@ == lsv[i as int]);
        let b = binding_exec(&ls[i]);
        let ghost fns0 = ex@.fns;
        let ghost types0 = ex@.types;
        match b {
            None => {
                assert(functor_fns(lsv, file@, i + 1) =~= functor_fns(lsv, file@, i as int));
                assert(functor_types(lsv, file@, i + 1) =~= functor_types(lsv, file@, i as int));
            },
            Some((name, is_type)) => {
                // End of body: the next top-level construct, then trailing filler trimmed.
                let mut e = i + 1;
                while e < ls.len() && !ends_body_exec(&ls[e])
                    invariant
                        ls.deep_view() == lsv,
                        i < ls@.len(),
                        i + 1 <= e <= ls@.len(),
                        forall|k: int| i + 1 <= k < e ==> !ends_body(#[trigger] lsv[k]),
                    decreases ls@.len() - e,
                {
                    assert(ls@[e as int]@ == lsv[e as int]);
                    e += 1;
                }
                proof {
                    if e < ls@.len() {
                        assert(ls@[e as int]@ == lsv[e as int]);
                    }
                    lemma_scan_end(lsv, i + 1, e as int);
                }
                let ghost e0 = e;
                while e > i + 1 && is_filler_line_exec(&ls[e - 1])
                    invariant
                        ls.deep_view() == lsv,
                        i + 1 <= e <= e0 <= ls@.len(),
                        forall|k: int| e <= k < e0 ==> is_filler_line(#[trigger] lsv[k]),
                    decreases e,
                {
                    assert(ls@[e - 1]@ == lsv[e - 1]);
                    e -= 1;
                }
                proof {
                    if e > i + 1 {
                        assert(ls@[e - 1]@ == lsv[e - 1]);
                    }
                    lemma_trim_body_end(lsv, i as int, e0 as int, e as int);
                }
                // Doc comment: contiguous comment lines directly above.
                let mut j = i;
                while j > 0 && is_comment_line_exec(&ls[j - 1])
                    invariant
                        ls.deep_view() == lsv,
                        j <= i < ls@.len(),
                        forall|k: int| j <= k < i ==> is_comment_line(#[trigger] lsv[k]),
                    decreases j,
                {
                    assert(ls@[j - 1]@ == lsv[j - 1]);
                    j -= 1;
                }
                proof {
                    if j > 0 {
                        assert(ls@[j - 1]@ == lsv[j - 1]);
                    }
                    lemma_doc_parts(lsv, j as int, i as int);
                }
                let mut parts: Vec<Vec<char>> = Vec::new();
                let mut k = j;
                while k < i
                    invariant
                        ls.deep_view() == lsv,
                        j <= k <= i < ls@.len(),
                        parts.deep_view() =~= Seq::new(
                            (k - j) as nat,
                            |m: int| doc_line(lsv[j + m]),
                        ),
                    decreases i - k,
                {
                    assert(ls@[k as int]@ == lsv[k as int]);
                    let t = trim_start_exec(&ls[k]);
                    proof {
                        reveal_strlit("//");
                    }
                    let u = trim_start_matches_exec(&t, &to_chars("//"));
                    let d = trim_exec(&u);
                    let ghost old_parts = parts.deep_view();
                    assert(d.deep_view() =~= d@);
                    parts.push(d);
                    assert(parts.deep_view() =~= old_parts.push(d@));
                    k += 1;
                }
                let doc = join_exec(&parts, 0, parts.len(), ' ');
                assert(parts.deep_view().subrange(0, parts@.len() as int) =~= doc_parts(lsv, i as int));
                assert(doc@ == functor_doc(lsv, i as int));
                let start = (i + 1) as u32;
                let end = e as u32;
                if is_type {
                    ex.types.push(
                        TypeRecord {
                            name: from_chars(&name),
                            kind: "type".to_owned(),
                            doc: from_chars(&doc),
                            file: file.to_owned(),
                            start,
                            end,
                            public: true,
                        },
                    );
                    proof {
                        assert(ex@.types =~= types0.push(functor_type_view(lsv, file@, i as int, name@)));
                        assert(functor_types(lsv, file@, i + 1) =~= functor_types(lsv, file@, i as int).push(functor_type_view(lsv, file@, i as int, name@)));
                        assert(functor_fns(lsv, file@, i + 1) =~= functor_fns(lsv, file@, i as int));
                    }
                } else {
                    let body = join_exec(&ls, i, e, '\n');
                    assert(ls.deep_view().subrange(i as int, e as int) == lsv.subrange(i as int, e as int));
                    let sig = trim_exec(&ls[i]);
                    ex.fns.push(
                        FnRecord {
                            name: from_chars(&name),
                            context: String::new(),
                            sig: from_chars(&sig),
                            doc: from_chars(&doc),
                            body: from_chars(&body),
                            file: file.to_owned(),
                            start,
                            end,
                            public: true,
                            shape: None,
                        },
                    );
                    proof {
                        assert(ex@.fns =~= fns0.push(functor_fn_view(lsv, file@, i as int, name@)));
                        assert(functor_fns(lsv, file@, i + 1) =~= functor_fns(lsv, file@, i as int).push(functor_fn_view(lsv, file@, i as int, name@)));
                        assert(functor_types(lsv, file@, i + 1) =~= functor_types(lsv, file@, i as int));
                    }
                }
            },
        }
        i += 1;
    }
}

} // verus!
