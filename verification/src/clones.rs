//! Token-level copy-paste clones as reported by jscpd.
use crate::gitdiff::{any_overlap, overlaps, ChangedRanges};
use crate::text::{from_chars, to_chars};
use vstd::prelude::*;

verus! {

pub struct TokenClone {
    pub file_a: String,
    pub a: (u32, u32),
    pub file_b: String,
    pub b: (u32, u32),
    pub lines: u32,
}

/// `file` has a changed range overlapping the inclusive `lines`.
pub open spec fn touches(changed: Map<Seq<char>, Seq<(u32, u32)>>, file: Seq<char>, lines: (u32, u32)) -> bool {
    changed.contains_key(file) && any_overlap(changed[file], lines.0, lines.1)
}

impl TokenClone {
    /// Either side overlaps changed lines of its own file.
    pub fn touches_change(&self, changed: &ChangedRanges) -> (r: bool)
        ensures
            r == (touches(changed.view(), self.file_a@, self.a) || touches(
                changed.view(),
                self.file_b@,
                self.b,
            )),
    {
        let hit_a = match changed.get(self.file_a.as_str()) {
            Some(ranges) => overlaps(ranges.as_slice(), self.a.0, self.a.1),
            None => false,
        };
        if hit_a {
            return true;
        }
        match changed.get(self.file_b.as_str()) {
            Some(ranges) => overlaps(ranges.as_slice(), self.b.0, self.b.1),
            None => false,
        }
    }
}

/// One side of a jscpd duplicate (`firstFile`/`secondFile`): `name`, `start`, `end`.
pub struct ReportSide {
    pub name: Option<String>,
    pub start: Option<u64>,
    pub end: Option<u64>,
}

/// One entry of a jscpd report's `duplicates`, with its `lines` count.
pub struct ReportDuplicate {
    pub first: ReportSide,
    pub second: ReportSide,
    pub lines: Option<u64>,
}

pub type ReportSideView = (Option<Seq<char>>, Option<u64>, Option<u64>);

pub type ReportDuplicateView = (ReportSideView, ReportSideView, Option<u64>);

impl View for ReportSide {
    type V = ReportSideView;

    open spec fn view(&self) -> ReportSideView {
        (
            match self.name {
                Some(n) => Some(n@),
                None => None,
            },
            self.start,
            self.end,
        )
    }
}

impl View for ReportDuplicate {
    type V = ReportDuplicateView;

    open spec fn view(&self) -> ReportDuplicateView {
        (self.first@, self.second@, self.lines)
    }
}

pub open spec fn dup_views(ds: Seq<ReportDuplicate>) -> Seq<ReportDuplicateView> {
    ds.map_values(|d: ReportDuplicate| d@)
}

/// `Path::strip_prefix(base)` of `path`, as the platform the crate is built for
/// reads paths: the rest of `path` after the components that spell `base`, or
/// `None` when `base` does not lead `path`.
pub uninterp spec fn path_strip(path: Seq<char>, base: Seq<char>) -> Option<Seq<char>>;

pub open spec fn string_opt_view(o: Option<String>) -> Option<Seq<char>> {
    match o {
        Some(t) => Some(t@),
        None => None,
    }
}

/// `Path::strip_prefix`, its result as a string; named by `path_strip`.
#[verifier::external_body]
fn strip_path_prefix(path: &str, base: &str) -> (r: Option<String>)
    ensures
        string_opt_view(r) == path_strip(path@, base@),
{
    match std::path::Path::new(path).strip_prefix(base) {
        Ok(p) => Some(p.to_string_lossy().into_owned()),
        Err(_) => None,
    }
}

/// `s` stripped of `base` where `base` leads it, else `s` as it is.
pub open spec fn strip_or_keep(s: Seq<char>, base: Seq<char>) -> Seq<char> {
    match path_strip(s, base) {
        Some(p) => p,
        None => s,
    }
}

/// A report path made relative: without a leading `root`, then without a leading `.`.
pub open spec fn report_relative(name: Seq<char>, root: Seq<char>) -> Seq<char> {
    strip_or_keep(strip_or_keep(name, root), "."@)
}

fn strip_report_path(root: &str, name: &str) -> (r: String)
    ensures
        r@ == report_relative(name@, root@),
{
    let relative = match strip_path_prefix(name, root) {
        Some(p) => p,
        None => name.to_string(),
    };
    match strip_path_prefix(relative.as_str(), ".") {
        Some(p) => p,
        None => relative,
    }
}

pub open spec fn slash_path(s: Seq<char>) -> Seq<char> {
    s.map_values(|c: char| if c == '\\' { '/' } else { c })
}

fn to_slashes(s: &str) -> (r: String)
    ensures
        r@ == slash_path(s@),
{
    let mut c = to_chars(s);
    let mut i: usize = 0;
    while i < c.len()
        invariant
            c@.len() == s@.len(),
            i <= c@.len(),
            forall|j: int| 0 <= j < i ==> #[trigger] c@[j] == slash_path(s@)[j],
            forall|j: int| i <= j < c@.len() ==> #[trigger] c@[j] == s@[j],
        decreases c@.len() - i,
    {
        if c[i] == '\\' {
            c.set(i, '/');
        }
        i += 1;
    }
    assert(c@ =~= slash_path(s@));
    from_chars(&c)
}

/// Both sides of a report entry are complete (name, start, end).
pub open spec fn complete_side(s: ReportSideView) -> bool {
    s.0 is Some && s.1 is Some && s.2 is Some
}

/// The file a report side names, relative to `root` and `/`-separated.
pub open spec fn clone_file(s: ReportSideView, root: Seq<char>) -> Seq<char> {
    slash_path(report_relative(s.0->0, root))
}

/// The clone an entry yields when both sides are complete: its files relative to
/// `root` with `/` separators, line numbers truncated to `u32`, `lines` defaulting to 0.
pub open spec fn clone_of(d: ReportDuplicateView, c: TokenClone, root: Seq<char>) -> bool {
    &&& c.file_a@ == clone_file(d.0, root)
    &&& c.a == (d.0.1->0 as u32, d.0.2->0 as u32)
    &&& c.file_b@ == clone_file(d.1, root)
    &&& c.b == (d.1.1->0 as u32, d.1.2->0 as u32)
    &&& c.lines == (match d.2 {
        Some(n) => n as u32,
        None => 0u32,
    })
}

/// Indices of the entries with two complete sides.
pub open spec fn complete_entries(ds: Seq<ReportDuplicateView>, n: int) -> Seq<int>
    decreases n,
{
    if n <= 0 {
        seq![]
    } else {
        complete_entries(ds, n - 1) + if complete_side(ds[n - 1].0) && complete_side(ds[n - 1].1) {
            seq![n - 1]
        } else {
            seq![]
        }
    }
}

fn side(root: &str, s: &ReportSide) -> (r: Option<(String, (u32, u32))>)
    ensures
        r is Some <==> complete_side(s@),
        r matches Some((f, (a, b))) ==> f@ == clone_file(s@, root@) && a == s.start->0 as u32 && b
            == s.end->0 as u32,
{
    match (&s.name, s.start, s.end) {
        (Some(name), Some(start), Some(end)) => {
            let stripped = strip_report_path(root, name.as_str());
            let file = to_slashes(stripped.as_str());
            #[verifier::truncate]
            let a = start as u32;
            #[verifier::truncate]
            let b = end as u32;
            Some((file, (a, b)))
        },
        _ => None,
    }
}

/// The indices `complete_entries` lists are in report order.
proof fn lemma_complete_entries_ordered(ds: Seq<ReportDuplicateView>, n: int)
    ensures
        forall|k: int, l: int|
            0 <= k < l < complete_entries(ds, n).len() ==> #[trigger] complete_entries(ds, n)[k]
                < #[trigger] complete_entries(ds, n)[l],
        forall|k: int| 0 <= k < complete_entries(ds, n).len() ==> 0 <= #[trigger] complete_entries(ds, n)[k] < n,
    decreases n,
{
    if n > 0 {
        lemma_complete_entries_ordered(ds, n - 1);
        let prev = complete_entries(ds, n - 1);
        let cur = complete_entries(ds, n);
        if complete_side(ds[n - 1].0) && complete_side(ds[n - 1].1) {
            assert(cur =~= prev.push(n - 1));
        } else {
            assert(cur =~= prev);
        }
        assert forall|k: int| 0 <= k < cur.len() implies 0 <= #[trigger] cur[k] < n by {
            if k < prev.len() {
                assert(cur[k] == prev[k]);
            }
        }
        assert forall|k: int, l: int| 0 <= k < l < cur.len() implies #[trigger] cur[k] < #[trigger] cur[l] by {
            assert(cur[k] == prev[k]);
            if l < prev.len() {
                assert(cur[l] == prev[l]);
            }
        }
    }
}

/// The clones of report entries `ds` taken relative to `root`: `r` holds one clone
/// per entry with two complete sides, in report order.
pub open spec fn clones_of_entries(ds: Seq<ReportDuplicateView>, root: Seq<char>, r: Seq<TokenClone>) -> bool {
    &&& r.len() == complete_entries(ds, ds.len() as int).len()
    &&& forall|k: int, l: int|
        0 <= k < l < r.len() ==> #[trigger] complete_entries(ds, ds.len() as int)[k]
            < #[trigger] complete_entries(ds, ds.len() as int)[l]
    &&& forall|k: int|
        0 <= k < r.len() ==> clone_of(ds[complete_entries(ds, ds.len() as int)[k]], #[trigger] r[k], root)
}

/// Clones from a jscpd report, in report order, paths relative to `root` and
/// `/`-separated; entries missing a name or a line number are skipped.
pub fn clones_from_report(root: &str, duplicates: &[ReportDuplicate]) -> (r: Vec<TokenClone>)
    ensures
        clones_of_entries(dup_views(duplicates@), root@, r@),
{
    let ghost ds = dup_views(duplicates@);
    let mut out: Vec<TokenClone> = Vec::new();
    let mut i: usize = 0;
    while i < duplicates.len()
        invariant
            ds == dup_views(duplicates@),
            i <= duplicates@.len(),
            out@.len() == complete_entries(ds, i as int).len(),
            forall|k: int|
                0 <= k < out@.len() ==> clone_of(ds[complete_entries(ds, i as int)[k]], #[trigger] out@[k], root@),
        decreases duplicates@.len() - i,
    {
        let d = &duplicates[i];
        assert(ds[i as int] == d@);
        let ghost prev = complete_entries(ds, i as int);
        match (side(root, &d.first), side(root, &d.second)) {
            (Some((file_a, a)), Some((file_b, b))) => {
                #[verifier::truncate]
                let lines = match d.lines {
                    Some(n) => n as u32,
                    None => 0,
                };
                out.push(TokenClone { file_a, a, file_b, b, lines });
                assert(complete_entries(ds, i + 1) =~= prev.push(i as int));
            },
            _ => {
                assert(complete_entries(ds, i + 1) =~= prev);
            },
        }
        i += 1;
    }
    proof {
        lemma_complete_entries_ordered(ds, ds.len() as int);
    }
    out
}

/// Whether `serde_json::from_str` reads `text` as a JSON value.
pub uninterp spec fn json_parses(text: Seq<char>) -> bool;

/// The entries of the `duplicates` array of the JSON value `text` holds, each read
/// as `firstFile`/`secondFile` (`name` as a string, `start`, `end` as `u64`) and
/// `lines` (as `u64`), a missing or mistyped field as `None`; none when there is no
/// such array.
pub uninterp spec fn named_entries(text: Seq<char>) -> Seq<ReportDuplicateView>;

/// `serde_json::from_str` into a `serde_json::Value`, its `duplicates` entries
/// read field by field (`Value::as_str`, `Value::as_u64`).
#[verifier::external_body]
fn report_entries(text: &str) -> (r: Option<Vec<ReportDuplicate>>)
    ensures
        r is Some == json_parses(text@),
        r matches Some(v) ==> dup_views(v@) == named_entries(text@),
{
    let side = |f: &serde_json::Value| ReportSide {
        name: f["name"].as_str().map(|n| n.to_string()),
        start: f["start"].as_u64(),
        end: f["end"].as_u64(),
    };
    match serde_json::from_str::<serde_json::Value>(text) {
        Ok(v) => Some(v["duplicates"].as_array().into_iter().flatten().map(|d| ReportDuplicate {
            first: side(&d["firstFile"]), second: side(&d["secondFile"]), lines: d["lines"].as_u64(),
        }).collect()),
        Err(_) => None,
    }
}

/// Clones from the text of a jscpd JSON report (see `clones_from_report`); `None`
/// exactly when the text is not JSON.
pub fn clones_from_report_text(root: &str, text: &str) -> (r: Option<Vec<TokenClone>>)
    ensures
        r is Some == json_parses(text@),
        r matches Some(v) ==> clones_of_entries(named_entries(text@), root@, v@),
{
    match report_entries(text) {
        Some(entries) => Some(clones_from_report(root, entries.as_slice())),
        None => None,
    }
}

/// Indices of the first `k` clones that touch a change.
pub open spec fn touching_indices(list: Seq<TokenClone>, changed: Map<Seq<char>, Seq<(u32, u32)>>, k: int) -> Seq<int>
    decreases k,
{
    if k <= 0 || k > list.len() {
        seq![]
    } else {
        touching_indices(list, changed, k - 1) + if touches(changed, list[k - 1].file_a@, list[k - 1].a) || touches(
            changed,
            list[k - 1].file_b@,
            list[k - 1].b,
        ) {
            seq![k - 1]
        } else {
            seq![]
        }
    }
}

/// The clones with a side overlapping changed lines of its own file, in order.
pub fn clones_touching<'a>(list: &'a Vec<TokenClone>, changed: &ChangedRanges) -> (r: Vec<&'a TokenClone>)
    ensures
        r@.len() == touching_indices(list@, changed.view(), list@.len() as int).len(),
        forall|x: int|
            0 <= x < r@.len() ==> *#[trigger] r@[x] == list@[touching_indices(list@, changed.view(), list@.len() as int)[x]],
{
    let mut r: Vec<&'a TokenClone> = Vec::new();
    let mut i: usize = 0;
    while i < list.len()
        invariant
            i <= list@.len(),
            r@.len() == touching_indices(list@, changed.view(), i as int).len(),
            forall|x: int|
                0 <= x < r@.len() ==> *#[trigger] r@[x] == list@[touching_indices(list@, changed.view(), i as int)[x]],
        decreases list@.len() - i,
    {
        let ghost prev = touching_indices(list@, changed.view(), i as int);
        if list[i].touches_change(changed) {
            r.push(&list[i]);
            assert(touching_indices(list@, changed.view(), i + 1) == prev.push(i as int));
        } else {
            assert(touching_indices(list@, changed.view(), i + 1) =~= prev);
        }
        i += 1;
    }
    r
}

// ---------------------------------------------------------------- running jscpd

/// How to run jscpd: the program, the arguments before the report directory and
/// the arguments after it.
pub struct ScanPlan {
    pub program: String,
    pub before_output: Vec<String>,
    pub after_output: Vec<String>,
}

pub open spec fn string_views(v: Seq<String>) -> Seq<Seq<char>> {
    v.map_values(|s: String| s@)
}

/// Paths jscpd skips when the repository has no `.jscpd.json`.
pub open spec fn default_ignore() -> Seq<char> {
    "**/node_modules/**,**/target/**,**/dist/**,**/build/**,**/.git/**,**/*.min.js,**/*.json,**/*.md"@
}

/// The plan's arguments before the report directory.
pub open spec fn plan_before(have_jscpd: bool) -> Seq<Seq<char>> {
    (if have_jscpd {
        seq![]
    } else {
        seq!["--yes"@, "jscpd"@]
    }) + seq!["--reporters"@, "json"@, "--silent"@, "--output"@]
}

/// The plan's arguments after it: jscpd's own configuration where the repository
/// has one, else a 70-token minimum, the default ignores, and the scan root.
pub open spec fn plan_after(has_config: bool) -> Seq<Seq<char>> {
    if has_config {
        seq![]
    } else {
        seq!["--min-tokens"@, "70"@, "--ignore"@, default_ignore(), "."@]
    }
}

/// The token-clone pass: `jscpd` when it runs, else `npx --yes jscpd` when npx
/// runs, else none (`None`); without a `.jscpd.json`, the default minimum and ignores.
pub fn scan_plan(have_jscpd: bool, have_npx: bool, has_config: bool) -> (r: Option<ScanPlan>)
    ensures
        r is Some == (have_jscpd || have_npx),
        r matches Some(p) ==> {
            &&& p.program@ == (if have_jscpd { "jscpd"@ } else { "npx"@ })
            &&& string_views(p.before_output@) == plan_before(have_jscpd)
            &&& string_views(p.after_output@) == plan_after(has_config)
        },
{
    if !have_jscpd && !have_npx {
        return None;
    }
    let program = if have_jscpd { "jscpd".to_owned() } else { "npx".to_owned() };
    let mut before: Vec<String> = Vec::new();
    if !have_jscpd {
        before.push("--yes".to_owned());
        before.push("jscpd".to_owned());
    }
    before.push("--reporters".to_owned());
    before.push("json".to_owned());
    before.push("--silent".to_owned());
    before.push("--output".to_owned());
    assert(string_views(before@) =~= plan_before(have_jscpd));
    let mut after: Vec<String> = Vec::new();
    if !has_config {
        after.push("--min-tokens".to_owned());
        after.push("70".to_owned());
        after.push("--ignore".to_owned());
        after.push(
            "**/node_modules/**,**/target/**,**/dist/**,**/build/**,**/.git/**,**/*.min.js,**/*.json,**/*.md".to_owned(),
        );
        after.push(".".to_owned());
    }
    assert(string_views(after@) =~= plan_after(has_config));
    Some(ScanPlan { program, before_output: before, after_output: after })
}

} // verus!
