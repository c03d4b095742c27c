//! Changed-line ranges for the working tree vs a base ref, read from the
//! output of `git diff -U0` and `git ls-files --others`.
use crate::text::{
    before_first, find_from, find_from_exec, from_chars, lines, lines_of, parse_u32,
    parse_u32_exec, slice_chars, starts_with, starts_with_exec, to_chars, words, words_exec,
};
use vstd::prelude::*;

verus! {

/// Changed line ranges (inclusive, 1-based) per root-relative file.
pub struct ChangedRanges {
    entries: Vec<(String, Vec<(u32, u32)>)>,
}

pub open spec fn entries_map(es: Seq<(String, Vec<(u32, u32)>)>) -> Map<Seq<char>, Seq<(u32, u32)>>
    decreases es.len(),
{
    if es.len() == 0 {
        Map::empty()
    } else {
        entries_map(es.drop_last()).insert(es.last().0@, es.last().1@)
    }
}

pub open spec fn distinct_keys(es: Seq<(String, Vec<(u32, u32)>)>) -> bool {
    forall|i: int, j: int|
        0 <= i < es.len() && 0 <= j < es.len() && i != j ==> #[trigger] es[i].0@ != #[trigger] es[j].0@
}

/// `m` with `r` appended to the ranges of `f` (`entry(f).or_default().push(r)`).
pub open spec fn with_range(m: Map<Seq<char>, Seq<(u32, u32)>>, f: Seq<char>, r: (u32, u32)) -> Map<
    Seq<char>,
    Seq<(u32, u32)>,
> {
    m.insert(
        f,
        if m.contains_key(f) {
            m[f].push(r)
        } else {
            seq![r]
        },
    )
}

/// The map built by pushing each `(file, range)` in order.
pub open spec fn fold_ranges(es: Seq<(Seq<char>, (u32, u32))>) -> Map<Seq<char>, Seq<(u32, u32)>>
    decreases es.len(),
{
    if es.len() == 0 {
        Map::empty()
    } else {
        with_range(fold_ranges(es.drop_last()), es.last().0, es.last().1)
    }
}

proof fn lemma_entries_map_keys(es: Seq<(String, Vec<(u32, u32)>)>)
    requires
        distinct_keys(es),
    ensures
        forall|k: Seq<char>|
            #[trigger] entries_map(es).contains_key(k) <==> exists|i: int|
                0 <= i < es.len() && es[i].0@ == k,
        forall|i: int| 0 <= i < es.len() ==> #[trigger] entries_map(es)[es[i].0@] == es[i].1@,
        entries_map(es).dom().finite(),
        entries_map(es).dom().len() == es.len(),
    decreases es.len(),
{
    if es.len() > 0 {
        let p = es.drop_last();
        assert(distinct_keys(p)) by {
            assert forall|i: int, j: int|
                0 <= i < p.len() && 0 <= j < p.len() && i != j implies #[trigger] p[i].0@
                != #[trigger] p[j].0@ by {
                assert(p[i] == es[i] && p[j] == es[j]);
            }
        }
        lemma_entries_map_keys(p);
        let last = es.last();
        assert(!entries_map(p).contains_key(last.0@)) by {
            if entries_map(p).contains_key(last.0@) {
                let i = choose|i: int| 0 <= i < p.len() && p[i].0@ == last.0@;
                assert(es[i].0@ == es[es.len() - 1].0@);
            }
        }
        assert forall|k: Seq<char>|
            #[trigger] entries_map(es).contains_key(k) <==> exists|i: int|
                0 <= i < es.len() && es[i].0@ == k by {
            if entries_map(p).contains_key(k) {
                let i = choose|i: int| 0 <= i < p.len() && p[i].0@ == k;
                assert(es[i].0@ == k);
            }
            if exists|i: int| 0 <= i < es.len() && es[i].0@ == k {
                let i = choose|i: int| 0 <= i < es.len() && es[i].0@ == k;
                if i < es.len() - 1 {
                    assert(p[i].0@ == k);
                }
            }
        }
        assert forall|i: int| 0 <= i < es.len() implies #[trigger] entries_map(es)[es[i].0@]
            == es[i].1@ by {
            if i < es.len() - 1 {
                assert(p[i] == es[i]);
                assert(es[i].0@ != last.0@);
            }
        }
        assert(entries_map(es).dom() == entries_map(p).dom().insert(last.0@));
    }
}

impl ChangedRanges {
    #[verifier::type_invariant]
    spec fn keys_distinct(self) -> bool {
        distinct_keys(self.entries@)
    }

    pub closed spec fn view(self) -> Map<Seq<char>, Seq<(u32, u32)>> {
        entries_map(self.entries@)
    }

    pub fn new() -> (r: Self)
        ensures
            r.view() == Map::<Seq<char>, Seq<(u32, u32)>>::empty(),
    {
        ChangedRanges { entries: Vec::new() }
    }

    /// Number of files with changes.
    pub fn len(&self) -> (r: usize)
        ensures
            self.view().dom().finite(),
            r == self.view().dom().len(),
    {
        proof {
            use_type_invariant(self);
            lemma_entries_map_keys(self.entries@);
        }
        self.entries.len()
    }

    pub fn is_empty(&self) -> (r: bool)
        ensures
            r == (self.view().dom() =~= Set::<Seq<char>>::empty()),
    {
        proof {
            use_type_invariant(self);
            lemma_entries_map_keys(self.entries@);
            if self.entries@.len() > 0 {
                assert(self.view().dom().contains(self.entries@[0].0@));
            }
        }
        self.entries.len() == 0
    }

    fn position(&self, file: &String) -> (r: Option<usize>)
        ensures
            r matches Some(i) ==> i < self.entries@.len() && self.entries@[i as int].0@ == file@,
            r is None ==> forall|i: int|
                0 <= i < self.entries@.len() ==> self.entries@[i].0@ != file@,
    {
        let mut i: usize = 0;
        while i < self.entries.len()
            invariant
                i <= self.entries@.len(),
                forall|j: int| 0 <= j < i ==> self.entries@[j].0@ != file@,
            decreases self.entries@.len() - i,
        {
            if self.entries[i].0 == *file {
                return Some(i);
            }
            i += 1;
        }
        None
    }

    /// The ranges recorded for `file`.
    pub fn get(&self, file: &str) -> (r: Option<&Vec<(u32, u32)>>)
        ensures
            r matches Some(v) ==> self.view().contains_key(file@) && v@ == self.view()[file@],
            r is None ==> !self.view().contains_key(file@),
    {
        proof {
            use_type_invariant(self);
            lemma_entries_map_keys(self.entries@);
        }
        let key = file.to_owned();
        match self.position(&key) {
            Some(i) => Some(&self.entries[i].1),
            None => None,
        }
    }

    /// Replaces the ranges of `file`.
    pub fn insert(&mut self, file: String, ranges: Vec<(u32, u32)>)
        ensures
            final(self).view() == old(self).view().insert(file@, ranges@),
    {
        proof {
            use_type_invariant(&*self);
            lemma_entries_map_keys(self.entries@);
        }
        match self.position(&file) {
            Some(i) => {
                let ghost old_es = self.entries@;
                let mut es: Vec<(String, Vec<(u32, u32)>)> = Vec::new();
                std::mem::swap(&mut es, &mut self.entries);
                let ghost fv = file@;
                let ghost rv = ranges@;
                es.set(i, (file, ranges));
                proof {
                    assert(distinct_keys(es@)) by {
                        assert forall|a: int, b: int|
                            0 <= a < es@.len() && 0 <= b < es@.len() && a != b implies #[trigger] es@[a].0@
                            != #[trigger] es@[b].0@ by {
                            if a != i && b != i {
                                assert(es@[a] == old_es[a] && es@[b] == old_es[b]);
                            } else if a == i {
                                assert(es@[b] == old_es[b]);
                            } else {
                                assert(es@[a] == old_es[a]);
                            }
                        }
                    }
                    lemma_entries_map_keys(es@);
                    let m0 = entries_map(old_es);
                    let m1 = entries_map(es@);
                    assert forall|k: Seq<char>| #[trigger] m1.contains_key(k) <==> m0.insert(fv, rv).contains_key(k) by {
                        if k == fv {
                            assert(es@[i as int].0@ == k);
                        }
                        if m0.contains_key(k) {
                            let j = choose|j: int| 0 <= j < old_es.len() && old_es[j].0@ == k;
                            if j != i {
                                assert(es@[j] == old_es[j]);
                            }
                        }
                        if m1.contains_key(k) {
                            let j = choose|j: int| 0 <= j < es@.len() && es@[j].0@ == k;
                            if j != i {
                                assert(es@[j] == old_es[j]);
                            }
                        }
                    }
                    assert forall|k: Seq<char>| #[trigger] m1.contains_key(k) implies m1[k] == m0.insert(fv, rv)[k] by {
                        let j = choose|j: int| 0 <= j < es@.len() && es@[j].0@ == k;
                        if j != i {
                            assert(es@[j] == old_es[j]);
                        }
                    }
                    assert(m1 =~= m0.insert(fv, rv));
                }
                self.entries = es;
            },
            None => {
                let ghost old_es = self.entries@;
                let mut es: Vec<(String, Vec<(u32, u32)>)> = Vec::new();
                std::mem::swap(&mut es, &mut self.entries);
                es.push((file, ranges));
                proof {
                    assert(es@.drop_last() =~= old_es);
                    assert(distinct_keys(es@)) by {
                        assert forall|a: int, b: int|
                            0 <= a < es@.len() && 0 <= b < es@.len() && a != b implies #[trigger] es@[a].0@
                            != #[trigger] es@[b].0@ by {
                            if a < old_es.len() && b < old_es.len() {
                                assert(es@[a] == old_es[a] && es@[b] == old_es[b]);
                            } else if a < old_es.len() {
                                assert(es@[a] == old_es[a]);
                            } else {
                                assert(es@[b] == old_es[b]);
                            }
                        }
                    }
                }
                self.entries = es;
            },
        }
    }

    /// Appends `range` to the ranges of `file` (`entry(file).or_default().push(range)`).
    pub fn push_range(&mut self, file: &str, range: (u32, u32))
        ensures
            final(self).view() == with_range(old(self).view(), file@, range),
    {
        proof {
            use_type_invariant(&*self);
            lemma_entries_map_keys(self.entries@);
        }
        let key = file.to_owned();
        let mut ranges: Vec<(u32, u32)> = Vec::new();
        match self.get(file) {
            Some(v) => {
                let mut k: usize = 0;
                while k < v.len()
                    invariant
                        k <= v@.len(),
                        ranges@ == v@.take(k as int),
                    decreases v@.len() - k,
                {
                    ranges.push(v[k]);
                    assert(v@.take(k + 1) =~= v@.take(k as int).push(v@[k as int]));
                    k += 1;
                }
                assert(v@.take(v@.len() as int) =~= v@);
            },
            None => {},
        }
        ranges.push(range);
        self.insert(key, ranges);
    }
}

/// Whether any inclusive line range in `ranges` intersects `start..=end`.
pub open spec fn any_overlap(ranges: Seq<(u32, u32)>, start: u32, end: u32) -> bool {
    exists|i: int| 0 <= i < ranges.len() && !(ranges[i].1 < start || ranges[i].0 > end)
}

pub fn overlaps(ranges: &[(u32, u32)], start: u32, end: u32) -> (r: bool)
    ensures
        r == any_overlap(ranges@, start, end),
{
    let mut i: usize = 0;
    while i < ranges.len()
        invariant
            i <= ranges@.len(),
            forall|k: int| 0 <= k < i ==> (ranges@[k].1 < start || ranges@[k].0 > end),
        decreases ranges@.len() - i,
    {
        let (a, b) = ranges[i];
        if !(b < start || a > end) {
            return true;
        }
        i += 1;
    }
    false
}

// ------------------------------------------------------------ base refs

pub open spec fn base_candidate(i: int) -> Seq<char> {
    if i == 0 {
        "origin/main"@
    } else if i == 1 {
        "origin/master"@
    } else if i == 2 {
        "main"@
    } else {
        "master"@
    }
}

/// Next move in choosing the base ref.
pub enum BaseStep {
    /// The base ref to diff against.
    Found(String),
    /// Check whether this ref exists (`git rev-parse --verify --quiet`), then ask again
    /// with the answer appended.
    Probe(String),
    /// None of the candidates exists.
    NotFound,
}

/// Index of the first `true` among the first `n` answers.
pub open spec fn first_yes(probes: Seq<bool>, n: int) -> Option<int>
    decreases n,
{
    if n <= 0 {
        None
    } else {
        match first_yes(probes, n - 1) {
            Some(i) => Some(i),
            None => if probes[n - 1] {
                Some(n - 1)
            } else {
                None
            },
        }
    }
}

proof fn lemma_first_yes_stable(probes: Seq<bool>, m: int, n: int)
    requires
        first_yes(probes, m) is Some,
        m <= n,
    ensures
        first_yes(probes, n) == first_yes(probes, m),
    decreases n - m,
{
    if n > m {
        lemma_first_yes_stable(probes, m, n - 1);
    }
}

/// An explicit base wins; otherwise origin/main, origin/master, main and master are
/// tried in that order, and `probes[i]` is the answer for the `i`-th of them.
pub fn resolve_base(explicit: Option<String>, probes: &[bool]) -> (r: BaseStep)
    ensures
        explicit matches Some(b) ==> r == BaseStep::Found(b),
        explicit is None ==> match first_yes(probes@, if probes@.len() < 4 {
            probes@.len() as int
        } else {
            4
        }) {
            Some(i) => r matches BaseStep::Found(b) && b@ == base_candidate(i),
            None => if probes@.len() < 4 {
                r matches BaseStep::Probe(c) && c@ == base_candidate(probes@.len() as int)
            } else {
                r is NotFound
            },
        },
{
    if explicit.is_some() {
        return BaseStep::Found(explicit.unwrap());
    }
    let mut i: usize = 0;
    while i < 4 && i < probes.len()
        invariant
            explicit is None,
            i <= 4,
            i <= probes@.len(),
            first_yes(probes@, i as int) is None,
        decreases 4 - i,
    {
        if probes[i] {
            proof {
                lemma_first_yes_stable(probes@, i as int + 1, if probes@.len() < 4 {
                    probes@.len() as int
                } else {
                    4
                });
            }
            return BaseStep::Found(candidate(i));
        }
        i += 1;
    }
    if i < 4 {
        BaseStep::Probe(candidate(i))
    } else {
        BaseStep::NotFound
    }
}

fn candidate(i: usize) -> (r: String)
    ensures
        r@ == base_candidate(i as int),
{
    if i == 0 {
        "origin/main".to_owned()
    } else if i == 1 {
        "origin/master".to_owned()
    } else if i == 2 {
        "main".to_owned()
    } else {
        "master".to_owned()
    }
}

// ------------------------------------------------------------ diff text

/// First whitespace-separated word that starts with `+`.
pub open spec fn first_plus_word(ws: Seq<Seq<char>>) -> Option<Seq<char>>
    decreases ws.len(),
{
    if ws.len() == 0 {
        None
    } else if starts_with(ws[0], seq!['+']) {
        Some(ws[0])
    } else {
        first_plus_word(ws.drop_first())
    }
}

/// The new-file side `+c[,d]` of an `@@ -a[,b] +c[,d] @@` header as (start, count),
/// when both are positive; an unparsable start counts as 0, an unparsable count as 1.
pub open spec fn hunk_of(l: Seq<char>) -> Option<(u32, u32)> {
    match first_plus_word(words(l)) {
        None => None,
        Some(w) => {
            let body = w.drop_first();
            let start = match parse_u32(before_first(body, seq![','])) {
                Some(v) => v,
                None => 0u32,
            };
            let len = match find_from(body, seq![','], 0) {
                None => 1u32,
                Some(k) => match parse_u32(body.skip(k + 1)) {
                    Some(v) => v,
                    None => 1u32,
                },
            };
            if len > 0 && start > 0 {
                Some((start, len))
            } else {
                None
            }
        },
    }
}

// ------------------------------------------------------------ quoted paths

/// The text `String::from_utf8` makes of `bytes`, or `None` where they are not UTF-8.
pub uninterp spec fn decoded_utf8(bytes: Seq<u8>) -> Option<Seq<char>>;

pub open spec fn string_opt_view(o: Option<String>) -> Option<Seq<char>> {
    match o {
        Some(t) => Some(t@),
        None => None,
    }
}

/// `String::from_utf8`; its text is named by `decoded_utf8`.
#[verifier::external_body]
fn from_utf8(bytes: Vec<u8>) -> (r: Option<String>)
    ensures
        string_opt_view(r) == decoded_utf8(bytes@),
{
    match String::from_utf8(bytes) {
        Ok(t) => Some(t),
        Err(_) => None,
    }
}

pub open spec fn octal_digit(c: char) -> bool {
    '0' <= c <= '7'
}

/// `s` starts with an escaped byte `\ooo` (at most `\377`).
pub open spec fn octal_escape_at(s: Seq<char>) -> bool {
    &&& s.len() >= 4
    &&& s[0] == '\\'
    &&& '0' <= s[1] <= '3'
    &&& octal_digit(s[2])
    &&& octal_digit(s[3])
}

pub open spec fn octal_byte(s: Seq<char>) -> u8 {
    ((s[1] as int - '0' as int) * 64 + (s[2] as int - '0' as int) * 8 + (s[3] as int - '0' as int)) as u8
}

/// The bytes of the escapes `\ooo` that `s` starts with, and how many characters
/// they take.
pub open spec fn octal_run(s: Seq<char>) -> (Seq<u8>, int)
    decreases s.len(),
{
    if octal_escape_at(s) {
        let (b, n) = octal_run(s.skip(4));
        (seq![octal_byte(s)] + b, n + 4)
    } else {
        (seq![], 0)
    }
}

pub proof fn lemma_octal_run(s: Seq<char>)
    ensures
        0 <= octal_run(s).1 <= s.len(),
        octal_escape_at(s) ==> octal_run(s).1 >= 4,
    decreases s.len(),
{
    if octal_escape_at(s) {
        lemma_octal_run(s.skip(4));
    }
}

/// What a one-letter escape `\c` stands for.
pub open spec fn simple_escape(c: char) -> Option<char> {
    if c == 'a' {
        Some('\x07')
    } else if c == 'b' {
        Some('\x08')
    } else if c == 't' {
        Some('\t')
    } else if c == 'n' {
        Some('\n')
    } else if c == 'v' {
        Some('\x0b')
    } else if c == 'f' {
        Some('\x0c')
    } else if c == 'r' {
        Some('\r')
    } else if c == '"' {
        Some('"')
    } else if c == '\\' {
        Some('\\')
    } else {
        None
    }
}

/// The text of a path git quoted C-style, from just after the opening `"` up to the
/// closing one: escapes resolved, runs of `\ooo` bytes read as UTF-8; `None` where
/// the quoting is broken.
pub open spec fn unquote(s: Seq<char>) -> Option<Seq<char>>
    decreases s.len(),
{
    if s.len() == 0 {
        None
    } else if s[0] == '"' {
        Some(seq![])
    } else if s[0] == '\\' {
        if octal_escape_at(s) {
            proof {
                lemma_octal_run(s);
            }
            let (b, n) = octal_run(s);
            match decoded_utf8(b) {
                None => None,
                Some(t) => match unquote(s.skip(n)) {
                    None => None,
                    Some(u) => Some(t + u),
                },
            }
        } else if s.len() >= 2 && simple_escape(s[1]) is Some {
            match unquote(s.skip(2)) {
                None => None,
                Some(u) => Some(seq![simple_escape(s[1])->0] + u),
            }
        } else {
            None
        }
    } else {
        match unquote(s.skip(1)) {
            None => None,
            Some(u) => Some(seq![s[0]] + u),
        }
    }
}

// ------------------------------------------------------------ sections

/// The new-side path a `+++ ` header names: `b/<path>`, or `"b/<path>"` quoted;
/// `None` for `/dev/null` (a deleted file).
pub open spec fn header_path(l: Seq<char>) -> Option<Seq<char>> {
    let rest = l.skip(4);
    let p = if rest.len() > 0 && rest[0] == '"' {
        unquote(rest.skip(1))
    } else {
        Some(rest)
    };
    match p {
        Some(q) => if starts_with(q, "b/"@) {
            Some(q.skip(2))
        } else {
            None
        },
        None => None,
    }
}

/// Where the reader is: in the header part of a file's section (before its first
/// hunk), and the file the section is about.
pub type DiffState = (bool, Option<Seq<char>>);

/// A `diff ` line opens a section; in the header part, the `+++ ` line names the
/// section's file; an `@@` line starts the hunks. Inside hunks no line is a header.
pub open spec fn next_state(st: DiffState, l: Seq<char>) -> DiffState {
    if starts_with(l, "diff "@) {
        (true, None)
    } else if st.0 && starts_with(l, "+++ "@) {
        (true, header_path(l))
    } else if starts_with(l, "@@"@) {
        (false, st.1)
    } else {
        st
    }
}

/// The state before line `i`.
pub open spec fn state_before(ls: Seq<Seq<char>>, i: int) -> DiffState
    decreases i,
{
    if i <= 0 {
        (true, None)
    } else {
        next_state(state_before(ls, i - 1), ls[i - 1])
    }
}

/// A hunk header inside a file's section: its (start, count).
pub open spec fn hunk_at(st: DiffState, l: Seq<char>) -> Option<(u32, u32)> {
    if st.1 is None || !starts_with(l, "@@"@) {
        None
    } else {
        hunk_of(l)
    }
}

/// The (file, inclusive range) that line `l` contributes.
pub open spec fn hunk_entry(st: DiffState, l: Seq<char>) -> Option<(Seq<char>, (u32, u32))> {
    match hunk_at(st, l) {
        Some((s, n)) => Some((st.1->0, (s, (s + n - 1) as u32))),
        None => None,
    }
}

fn octal_escape_exec(s: &[char], j: usize) -> (r: bool)
    requires
        j <= s@.len(),
    ensures
        r == octal_escape_at(s@.skip(j as int)),
{
    if s.len() - j < 4 {
        return false;
    }
    let a = s[j];
    let b = s[j + 1];
    let c = s[j + 2];
    let d = s[j + 3];
    a == '\\' && '0' <= b && b <= '3' && '0' <= c && c <= '7' && '0' <= d && d <= '7'
}

fn octal_value(c: char) -> (r: u32)
    requires
        octal_digit(c),
    ensures
        r == c as int - '0' as int,
{
    if c == '0' {
        0
    } else if c == '1' {
        1
    } else if c == '2' {
        2
    } else if c == '3' {
        3
    } else if c == '4' {
        4
    } else if c == '5' {
        5
    } else if c == '6' {
        6
    } else {
        7
    }
}

fn octal_run_exec(s: &[char], i: usize) -> (r: (Vec<u8>, usize))
    requires
        i <= s@.len(),
    ensures
        r.0@ == octal_run(s@.skip(i as int)).0,
        r.1 as int == octal_run(s@.skip(i as int)).1,
{
    let mut bytes: Vec<u8> = Vec::new();
    let mut j: usize = i;
    proof {
        lemma_octal_run(s@.skip(i as int));
    }
    while octal_escape_exec(s, j)
        invariant
            i <= j <= s@.len(),
            octal_run(s@.skip(i as int)).0 == bytes@ + octal_run(s@.skip(j as int)).0,
            octal_run(s@.skip(i as int)).1 == (j - i) + octal_run(s@.skip(j as int)).1,
        decreases s@.len() - j,
    {
        let ghost t = s@.skip(j as int);
        assert(octal_escape_at(t));
        assert(t.len() == s@.len() - j);
        let len = s.len();
        assert(j + 4 <= len);
        assert(t[1] == s@[j + 1] && t[2] == s@[j + 2] && t[3] == s@[j + 3]);
        let b1 = octal_value(s[j + 1]);
        let b2 = octal_value(s[j + 2]);
        let b3 = octal_value(s[j + 3]);
        let v = b1 * 64 + b2 * 8 + b3;
        assert(v == octal_byte(t));
        #[verifier::truncate]
        let byte = v as u8;
        assert(t.skip(4) =~= s@.skip(j + 4));
        let ghost before = bytes@;
        bytes.push(byte);
        assert(before + octal_run(t).0 =~= bytes@ + octal_run(s@.skip(j + 4)).0);
        j = j + 4;
    }
    (bytes, j - i)
}

/// `unquote` of `s` from index `i`.
fn unquote_exec(s: &[char], i: usize) -> (r: Option<Vec<char>>)
    requires
        i <= s@.len(),
    ensures
        opt_chars(r) == unquote(s@.skip(i as int)),
    decreases s@.len() - i,
{
    let ghost t = s@.skip(i as int);
    if i >= s.len() {
        return None;
    }
    assert(t[0] == s@[i as int]);
    if s[i] == '"' {
        return Some(Vec::new());
    }
    if s[i] == '\\' {
        if octal_escape_exec(s, i) {
            proof {
                lemma_octal_run(t);
            }
            let (bytes, n) = octal_run_exec(s, i);
            assert(t.skip(n as int) =~= s@.skip(i + n));
            match from_utf8(bytes) {
                None => None,
                Some(text) => match unquote_exec(s, i + n) {
                    None => None,
                    Some(rest) => {
                        let mut out = to_chars(text.as_str());
                        let ghost head = out@;
                        crate::text::extend_chars(&mut out, &rest);
                        assert(out@ =~= head + rest@);
                        Some(out)
                    },
                },
            }
        } else if s.len() - i >= 2 {
            assert(t[1] == s@[i + 1]);
            let c = s[i + 1];
            let e = if c == 'a' {
                Some('\x07')
            } else if c == 'b' {
                Some('\x08')
            } else if c == 't' {
                Some('\t')
            } else if c == 'n' {
                Some('\n')
            } else if c == 'v' {
                Some('\x0b')
            } else if c == 'f' {
                Some('\x0c')
            } else if c == 'r' {
                Some('\r')
            } else if c == '"' {
                Some('"')
            } else if c == '\\' {
                Some('\\')
            } else {
                None
            };
            assert(e == simple_escape(t[1]));
            match e {
                None => None,
                Some(ch) => {
                    assert(t.skip(2) =~= s@.skip(i + 2));
                    match unquote_exec(s, i + 2) {
                        None => None,
                        Some(rest) => {
                            let mut out: Vec<char> = Vec::new();
                            out.push(ch);
                            crate::text::extend_chars(&mut out, &rest);
                            assert(out@ =~= seq![ch] + rest@);
                            Some(out)
                        },
                    }
                },
            }
        } else {
            None
        }
    } else {
        assert(t.skip(1) =~= s@.skip(i + 1));
        match unquote_exec(s, i + 1) {
            None => None,
            Some(rest) => {
                let mut out: Vec<char> = Vec::new();
                out.push(s[i]);
                crate::text::extend_chars(&mut out, &rest);
                assert(out@ =~= seq![s@[i as int]] + rest@);
                Some(out)
            },
        }
    }
}

/// `header_path` of a line that starts with `+++ `.
fn header_path_exec(l: &[char]) -> (r: Option<Vec<char>>)
    requires
        starts_with(l@, "+++ "@),
    ensures
        opt_chars(r) == header_path(l@),
{
    proof {
        reveal_strlit("+++ ");
    }
    assert(l@.len() >= 4);
    let ghost rest = l@.skip(4);
    let p = if l.len() > 4 && l[4] == '"' {
        assert(rest.skip(1) =~= l@.skip(5));
        unquote_exec(l, 5)
    } else {
        assert(rest =~= l@.skip(4));
        Some(slice_chars(l, 4, l.len()))
    };
    let b = to_chars("b/");
    proof {
        reveal_strlit("b/");
    }
    match p {
        Some(q) => {
            if starts_with_exec(&q, &b) {
                let tail = slice_chars(&q, 2, q.len());
                assert(tail@ =~= q@.skip(2));
                Some(tail)
            } else {
                None
            }
        },
        None => None,
    }
}

/// One line's step of `next_state`.
fn step_exec(in_header: bool, current: Option<Vec<char>>, l: &[char]) -> (r: (bool, Option<Vec<char>>))
    ensures
        (r.0, opt_chars(r.1)) == next_state((in_header, opt_chars(current)), l@),
{
    let diff = to_chars("diff ");
    let head = to_chars("+++ ");
    let at = to_chars("@@");
    if starts_with_exec(l, &diff) {
        (true, None)
    } else if in_header && starts_with_exec(l, &head) {
        (true, header_path_exec(l))
    } else if starts_with_exec(l, &at) {
        (false, current)
    } else {
        (in_header, current)
    }
}

pub open spec fn diff_entries(ls: Seq<Seq<char>>, n: int) -> Seq<(Seq<char>, (u32, u32))>
    decreases n,
{
    if n <= 0 {
        seq![]
    } else {
        diff_entries(ls, n - 1) + match hunk_entry(state_before(ls, n - 1), ls[n - 1]) {
            Some(e) => seq![e],
            None => seq![],
        }
    }
}

/// Every hunk's last line `start + count - 1` fits in a `u32`.
pub open spec fn diff_fits(diff: Seq<char>) -> bool {
    let ls = lines_of(diff);
    forall|i: int|
        0 <= i < ls.len() ==> match #[trigger] hunk_at(state_before(ls, i), ls[i]) {
            Some((s, n)) => s + n - 1 <= u32::MAX,
            None => true,
        }
}

/// Each non-empty line names an untracked file, changed as a whole.
pub open spec fn untracked_entries(us: Seq<Seq<char>>, n: int) -> Seq<(Seq<char>, (u32, u32))>
    decreases n,
{
    if n <= 0 {
        seq![]
    } else {
        untracked_entries(us, n - 1) + if us[n - 1].len() > 0 {
            seq![(us[n - 1], (1u32, u32::MAX))]
        } else {
            seq![]
        }
    }
}

/// All changed ranges: the diff hunks, then the untracked files.
pub open spec fn changed_entries(diff: Seq<char>, untracked: Seq<char>) -> Seq<
    (Seq<char>, (u32, u32)),
> {
    let ls = lines_of(diff);
    let us = lines_of(untracked);
    diff_entries(ls, ls.len() as int) + untracked_entries(us, us.len() as int)
}

proof fn lemma_fold_push(es: Seq<(Seq<char>, (u32, u32))>, e: (Seq<char>, (u32, u32)))
    ensures
        fold_ranges(es.push(e)) == with_range(fold_ranges(es), e.0, e.1),
{
    assert(es.push(e).drop_last() =~= es);
}

pub open spec fn opt_chars(c: Option<Vec<char>>) -> Option<Seq<char>> {
    match c {
        Some(v) => Some(v@),
        None => None,
    }
}

/// (start, count) of a hunk header line, as `hunk_of` defines it.
fn hunk_exec(l: &[char]) -> (r: Option<(u32, u32)>)
    ensures
        r == hunk_of(l@),
{
    let ws = words_exec(l);
    let mut i: usize = 0;
    assert(ws.deep_view().skip(0) =~= ws.deep_view());
    while i < ws.len()
        invariant
            ws.deep_view() == words(l@),
            i <= ws@.len(),
            first_plus_word(ws.deep_view()) == first_plus_word(ws.deep_view().skip(i as int)),
        decreases ws@.len() - i,
    {
        let plus = to_chars("+");
        assert(plus@ =~= seq!['+']) by {
            reveal_strlit("+");
        }
        assert(ws@[i as int].deep_view() =~= ws@[i as int]@);
        if starts_with_exec(&ws[i], &plus) {
            assert(ws.deep_view().skip(i as int)[0] == ws@[i as int]@);
            let w = &ws[i];
            let body = slice_chars(w, 1, w.len());
            assert(body@ =~= ws@[i as int]@.drop_first());
            let comma = to_chars(",");
            assert(comma@ =~= seq![',']) by {
                reveal_strlit(",");
            }
            let start = match find_from_exec(&body, &comma, 0) {
                Some(k) => {
                    proof {
                        crate::text::lemma_find_from_some(body@, comma@, 0);
                    }
                    let first = slice_chars(&body, 0, k);
                    assert(first@ =~= before_first(body@, seq![',']));
                    match parse_u32_exec(&first) {
                        Some(v) => v,
                        None => 0,
                    }
                },
                None => match parse_u32_exec(&body) {
                    Some(v) => v,
                    None => 0,
                },
            };
            let len = match find_from_exec(&body, &comma, 0) {
                None => 1,
                Some(k) => {
                    proof {
                        crate::text::lemma_find_from_some(body@, comma@, 0);
                    }
                    assert(body@.skip(k + 1) =~= body@.subrange(k + 1, body@.len() as int));
                    match parse_u32_exec(&slice_chars(&body, k + 1, body.len())) {
                        Some(v) => v,
                        None => 1,
                    }
                },
            };
            assert(ws.deep_view() == words(l@));
            assert(first_plus_word(ws.deep_view()) == Some(body@.insert(0, '+'))) by {
                assert(ws@[i as int]@.subrange(0, 1)[0] == '+');
                assert(ws@[i as int]@ =~= body@.insert(0, '+'));
            }
            if len > 0 && start > 0 {
                return Some((start, len));
            } else {
                return None;
            }
        }
        assert(ws.deep_view().skip(i as int).drop_first() =~= ws.deep_view().skip(i + 1));
        i += 1;
    }
    None
}

/// Diff lines that fit, as `diff_fits` states.
pub fn diff_ranges_fit(diff: &str) -> (r: bool)
    ensures
        r == diff_fits(diff@),
{
    let d = to_chars(diff);
    let ls = lines(&d);
    let ghost lsv = lines_of(diff@);
    let at = to_chars("@@");
    let mut in_header = true;
    let mut current: Option<Vec<char>> = None;
    let mut i: usize = 0;
    while i < ls.len()
        invariant
            ls.deep_view() == lsv,
            at@ == "@@"@,
            lsv == lines_of(diff@),
            i <= ls@.len(),
            (in_header, opt_chars(current)) == state_before(lsv, i as int),
            forall|j: int|
                0 <= j < i ==> match #[trigger] hunk_at(state_before(lsv, j), lsv[j]) {
                    Some((s, n)) => s + n - 1 <= u32::MAX,
                    None => true,
                },
        decreases ls@.len() - i,
    {
        let l = &ls[i];
        assert(l@ == lsv[i as int]);
        if current.is_some() && starts_with_exec(l, &at) {
            match hunk_exec(l) {
                Some((s, n)) => {
                    if (s as u64) + (n as u64) - 1 > 0xffff_ffff {
                        assert(hunk_at(state_before(lsv, i as int), lsv[i as int]) == Some((s, n)));
                        assert(!(match hunk_at(state_before(lsv, i as int), lsv[i as int]) {
                            Some((s, n)) => s + n - 1 <= u32::MAX,
                            None => true,
                        }));
                        return false;
                    }
                },
                None => {},
            }
        }
        let (h, c) = step_exec(in_header, current, l);
        in_header = h;
        current = c;
        i += 1;
    }
    true
}

/// Ranges of new/changed lines per file: the `+c,d` side of each hunk of
/// `diff` (`git diff --relative -U0 --no-color --merge-base <base>`), credited to
/// the file its section's `+++` header names (quoted paths unquoted; lines inside
/// hunks are never headers), then the whole of each file listed in `untracked`
/// (`git ls-files --others --exclude-standard`).
pub fn changed_ranges(diff: &str, untracked: &str) -> (r: ChangedRanges)
    requires
        diff_fits(diff@),
    ensures
        r.view() == fold_ranges(changed_entries(diff@, untracked@)),
{
    let d = to_chars(diff);
    let ls = lines(&d);
    let ghost lsv = lines_of(diff@);
    let at = to_chars("@@");
    let mut ranges = ChangedRanges::new();
    let mut in_header = true;
    let mut current: Option<Vec<char>> = None;
    let mut i: usize = 0;
    while i < ls.len()
        invariant
            ls.deep_view() == lsv,
            at@ == "@@"@,
            diff_fits(diff@),
            lsv == lines_of(diff@),
            i <= ls@.len(),
            (in_header, opt_chars(current)) == state_before(lsv, i as int),
            ranges.view() == fold_ranges(diff_entries(lsv, i as int)),
        decreases ls@.len() - i,
    {
        let l = &ls[i];
        assert(l@ == lsv[i as int]);
        let ghost es = diff_entries(lsv, i as int);
        let mut added = false;
        if current.is_some() && starts_with_exec(l, &at) {
            match hunk_exec(l) {
                Some((s, n)) => {
                    assert(match hunk_at(state_before(lsv, i as int), lsv[i as int]) {
                        Some((s, n)) => s + n - 1 <= u32::MAX,
                        None => true,
                    });
                    let file = match &current {
                        Some(f) => from_chars(f),
                        None => String::new(),
                    };
                    assert(hunk_at(state_before(lsv, i as int), lsv[i as int]) == Some((s, n)));
                    ranges.push_range(file.as_str(), (s, s + (n - 1)));
                    proof {
                        lemma_fold_push(es, (file@, (s, (s + n - 1) as u32)));
                    }
                    added = true;
                },
                None => {},
            }
        }
        proof {
            if !added {
                assert(diff_entries(lsv, i + 1) =~= es);
            } else {
                assert(diff_entries(lsv, i + 1) =~= es.push(hunk_entry(state_before(lsv, i as int), lsv[i as int])->0));
            }
        }
        let (h, c) = step_exec(in_header, current, l);
        in_header = h;
        current = c;
        i += 1;
    }
    let u = to_chars(untracked);
    let us = lines(&u);
    let ghost usv = lines_of(untracked@);
    let ghost des = diff_entries(lsv, lsv.len() as int);
    let mut k: usize = 0;
    while k < us.len()
        invariant
            us.deep_view() == usv,
            k <= us@.len(),
            ranges.view() == fold_ranges(des + untracked_entries(usv, k as int)),
        decreases us@.len() - k,
    {
        let ghost es = des + untracked_entries(usv, k as int);
        assert(us@[k as int]@ == usv[k as int]);
        if us[k].len() > 0 {
            let f = from_chars(&us[k]);
            ranges.push_range(f.as_str(), (1, 0xffff_ffff));
            proof {
                lemma_fold_push(es, (f@, (1u32, u32::MAX)));
                assert(des + untracked_entries(usv, k + 1) =~= es.push((f@, (1u32, u32::MAX))));
            }
        } else {
            assert(des + untracked_entries(usv, k + 1) =~= es);
        }
        k += 1;
    }
    ranges
}

} // verus!
