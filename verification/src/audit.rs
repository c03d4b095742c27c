//! Structural edges form review groups; name-only edges cannot join unrelated groups.
use crate::extract::{Extraction, FnRecord};
use crate::blocks::{copy_indices, hit};
use crate::grouping::{int_groups, int_seq};
use crate::text::{lemma_seq_lt_irreflexive, lemma_seq_lt_total, lemma_seq_lt_transitive, seq_lt, str_eq, str_lt};
use vstd::prelude::*;

verus! {

/// A line range of one file.
pub struct Site {
    pub file: String,
    pub start: u32,
    pub end: u32,
}

pub type SiteView = (Seq<char>, u32, u32);

impl View for Site {
    type V = SiteView;

    open spec fn view(&self) -> SiteView {
        (self.file@, self.start, self.end)
    }
}

impl Site {
    pub fn copy(&self) -> (r: Site)
        ensures
            r@ == self@,
    {
        Site { file: self.file.clone(), start: self.start, end: self.end }
    }
}

/// Order of sites: file, then start, then end.
pub open spec fn site_lt(x: SiteView, y: SiteView) -> bool {
    ||| seq_lt(x.0, y.0)
    ||| x.0 == y.0 && x.1 < y.1
    ||| x.0 == y.0 && x.1 == y.1 && x.2 < y.2
}

pub proof fn lemma_site_order(x: SiteView, y: SiteView, z: SiteView)
    ensures
        !site_lt(x, x),
        x == y || site_lt(x, y) || site_lt(y, x),
        !(site_lt(x, y) && site_lt(y, x)),
        site_lt(x, y) && site_lt(y, z) ==> site_lt(x, z),
{
    lemma_seq_lt_irreflexive(x.0);
    lemma_seq_lt_total(x.0, y.0);
    lemma_seq_lt_total(y.0, z.0);
    lemma_seq_lt_total(x.0, z.0);
    if seq_lt(x.0, y.0) && seq_lt(y.0, z.0) {
        lemma_seq_lt_transitive(x.0, y.0, z.0);
    }
}

pub fn site_lt_exec(x: &Site, y: &Site) -> (r: bool)
    ensures
        r == site_lt(x@, y@),
{
    proof {
        lemma_seq_lt_irreflexive(x.file@);
    }
    if !str_eq(x.file.as_str(), y.file.as_str()) {
        return str_lt(x.file.as_str(), y.file.as_str());
    }
    x.start < y.start || (x.start == y.start && x.end < y.end)
}

pub fn site_eq(x: &Site, y: &Site) -> (r: bool)
    ensures
        r == (x@ == y@),
{
    str_eq(x.file.as_str(), y.file.as_str()) && x.start == y.start && x.end == y.end
}

/// A function of `f` in the site's file whose lines cover the site.
pub open spec fn covers(r: FnRecord, site: SiteView) -> bool {
    r.file@ == site.0 && r.start <= site.1 && r.end >= site.2
}

/// The innermost function around `site` (the first among equally short ones), as a
/// site; `site` itself when no function covers it.
pub open spec fn enclosing_spec(fns: Seq<FnRecord>, site: SiteView) -> SiteView {
    if exists|i: int| 0 <= i < fns.len() && covers(fns[i], site) {
        let i = choose|i: int|
            0 <= i < fns.len() && covers(fns[i], site) && (forall|j: int|
                0 <= j < fns.len() && covers(fns[j], site) ==> fns[i].end - fns[i].start <= fns[j].end
                    - fns[j].start) && (forall|j: int|
                0 <= j < i && covers(fns[j], site) ==> fns[i].end - fns[i].start < fns[j].end
                    - fns[j].start);
        (fns[i].file@, fns[i].start, fns[i].end)
    } else {
        site
    }
}

pub open spec fn lines_ordered(fns: Seq<FnRecord>) -> bool {
    forall|i: int| 0 <= i < fns.len() ==> #[trigger] fns[i].start <= fns[i].end
}

pub fn enclosing(site: Site, ex: &Extraction) -> (r: Site)
    requires
        lines_ordered(ex.fns@),
    ensures
        r@ == enclosing_spec(ex.fns@, site@),
{
    let fns = &ex.fns;
    let mut best: Option<usize> = None;
    let mut i: usize = 0;
    while i < fns.len()
        invariant
            lines_ordered(fns@),
            i <= fns@.len(),
            best matches Some(b) ==> b < i && covers(fns@[b as int], site@) && (forall|j: int|
                0 <= j < i && covers(fns@[j], site@) ==> fns@[b as int].end - fns@[b as int].start
                    <= fns@[j].end - fns@[j].start) && (forall|j: int|
                0 <= j < b && covers(fns@[j], site@) ==> fns@[b as int].end - fns@[b as int].start
                    < fns@[j].end - fns@[j].start),
            best is None ==> forall|j: int| 0 <= j < i ==> !covers(#[trigger] fns@[j], site@),
        decreases fns@.len() - i,
    {
        let r = &fns[i];
        if str_eq(r.file.as_str(), site.file.as_str()) && r.start <= site.start && r.end >= site.end {
            assert(fns@[i as int].start <= fns@[i as int].end);
            let width = r.end - r.start;
            match best {
                None => {
                    best = Some(i);
                },
                Some(b) => {
                    let bw = fns[b].end - fns[b].start;
                    if width < bw {
                        best = Some(i);
                    }
                },
            }
        }
        i += 1;
    }
    match best {
        Some(b) => {
            let ghost fv = fns@;
            proof {
                let c = choose|c: int|
                    0 <= c < fv.len() && covers(fv[c], site@) && (forall|j: int|
                        0 <= j < fv.len() && covers(fv[j], site@) ==> fv[c].end - fv[c].start <= fv[j].end
                            - fv[j].start) && (forall|j: int|
                        0 <= j < c && covers(fv[j], site@) ==> fv[c].end - fv[c].start < fv[j].end
                            - fv[j].start);
                assert(covers(fv[b as int], site@));
                if c < b {
                    assert(false);
                } else if c > b {
                    assert(false);
                }
            }
            Site { file: fns[b].file.clone(), start: fns[b].start, end: fns[b].end }
        },
        None => site,
    }
}

// -------------------------------------------------------------- grouping

/// Kinds of evidence that link two sites.
#[derive(Clone, Copy, PartialEq, Eq, Structural)]
pub enum EvidenceKind {
    Name,
    Body,
    Block,
    Clone,
}

/// The kinds of evidence a pair has gathered.
#[derive(Clone, Copy)]
pub struct Evidence {
    pub name: bool,
    pub body: bool,
    pub block: bool,
    pub clone: bool,
}

/// One piece of evidence as found, before widening to enclosing functions.
pub struct Fragment {
    pub a: Site,
    pub b: Site,
    pub kind: EvidenceKind,
}

/// Two sites with everything that links them.
pub struct Pair {
    pub a: Site,
    pub b: Site,
    pub evidence: Evidence,
    /// Longest structural match, in lines.
    pub lines: u32,
    /// Best name score, in thousandths.
    pub name_score: u32,
    pub fragments: Vec<Fragment>,
}

/// Body, block or clone evidence (anything beyond a shared name).
pub open spec fn structural(p: Pair) -> bool {
    p.evidence.body || p.evidence.block || p.evidence.clone
}

/// Two structural pairs that share a site.
pub open spec fn touch(ps: Seq<Pair>, j: int, k: int) -> bool {
    &&& structural(ps[j])
    &&& structural(ps[k])
    &&& (ps[j].a@ == ps[k].a@ || ps[j].a@ == ps[k].b@ || ps[j].b@ == ps[k].a@ || ps[j].b@
        == ps[k].b@)
}

/// A walk through structural pairs, each sharing a site with the next.
pub open spec fn is_chain(ps: Seq<Pair>, c: Seq<int>) -> bool {
    &&& c.len() >= 1
    &&& forall|x: int| 0 <= x < c.len() ==> 0 <= #[trigger] c[x] < ps.len() && structural(ps[c[x]])
    &&& forall|x: int| 0 <= x < c.len() - 1 ==> touch(ps, #[trigger] c[x], c[x + 1])
}

pub open spec fn pair_conn(ps: Seq<Pair>, j: int, k: int) -> bool {
    exists|c: Seq<int>| #[trigger] is_chain(ps, c) && c[0] == j && c.last() == k
}

proof fn lemma_conn_refl(ps: Seq<Pair>, j: int)
    requires
        0 <= j < ps.len(),
        structural(ps[j]),
    ensures
        pair_conn(ps, j, j),
{
    assert(is_chain(ps, seq![j]));
}

proof fn lemma_conn_step(ps: Seq<Pair>, j: int, k: int, m: int)
    requires
        pair_conn(ps, j, k),
        0 <= m < ps.len(),
        touch(ps, k, m),
    ensures
        pair_conn(ps, j, m),
{
    let c = choose|c: Seq<int>| #[trigger] is_chain(ps, c) && c[0] == j && c.last() == k;
    let d = c.push(m);
    assert forall|x: int| 0 <= x < d.len() - 1 implies touch(ps, #[trigger] d[x], d[x + 1]) by {
        if x < c.len() - 1 {
            assert(d[x] == c[x] && d[x + 1] == c[x + 1]);
        }
    }
    assert(is_chain(ps, d));
}

proof fn lemma_conn_sym(ps: Seq<Pair>, j: int, k: int)
    requires
        pair_conn(ps, j, k),
    ensures
        pair_conn(ps, k, j),
{
    let c = choose|c: Seq<int>| #[trigger] is_chain(ps, c) && c[0] == j && c.last() == k;
    let d = c.reverse();
    assert forall|x: int| 0 <= x < d.len() - 1 implies touch(ps, #[trigger] d[x], d[x + 1]) by {
        let y = c.len() - 2 - x;
        assert(d[x] == c[y + 1] && d[x + 1] == c[y]);
        assert(touch(ps, c[y], c[y + 1]));
    }
    assert(is_chain(ps, d));
}

proof fn lemma_conn_trans(ps: Seq<Pair>, j: int, k: int, m: int)
    requires
        pair_conn(ps, j, k),
        pair_conn(ps, k, m),
    ensures
        pair_conn(ps, j, m),
{
    let c = choose|c: Seq<int>| #[trigger] is_chain(ps, c) && c[0] == j && c.last() == k;
    let e = choose|c: Seq<int>| #[trigger] is_chain(ps, c) && c[0] == k && c.last() == m;
    let d = c + e.drop_first();
    assert forall|x: int| 0 <= x < d.len() implies 0 <= #[trigger] d[x] < ps.len() && structural(ps[d[x]]) by {
        if x >= c.len() {
            assert(d[x] == e[x - c.len() + 1]);
        }
    }
    assert forall|x: int| 0 <= x < d.len() - 1 implies touch(ps, #[trigger] d[x], d[x + 1]) by {
        if x < c.len() - 1 {
            assert(d[x] == c[x] && d[x + 1] == c[x + 1]);
        } else if x == c.len() - 1 {
            assert(d[x] == k && d[x + 1] == e[1]);
            assert(e[0] == k);
            assert(touch(ps, e[0], e[1]));
        } else {
            let y = x - c.len() + 1;
            assert(d[x] == e[y] && d[x + 1] == e[y + 1]);
        }
    }
    if e.len() == 1 {
        assert(d =~= c);
    }
    assert(is_chain(ps, d));
}

/// Labels agree along every touching pair once a label is set.
pub open spec fn closed_under_touch(ps: Seq<Pair>, lab: Seq<Option<usize>>, l: usize) -> bool {
    forall|x: int, y: int|
        0 <= x < ps.len() && 0 <= y < ps.len() && #[trigger] touch(ps, x, y) && lab[x] == Some(l)
            ==> #[trigger] lab[y] == Some(l)
}

proof fn lemma_closed_chain(ps: Seq<Pair>, lab: Seq<Option<usize>>, l: usize, c: Seq<int>, n: int)
    requires
        is_chain(ps, c),
        closed_under_touch(ps, lab, l),
        lab[c[0]] == Some(l),
        0 <= n < c.len(),
    ensures
        lab[c[n]] == Some(l),
    decreases n,
{
    if n > 0 {
        lemma_closed_chain(ps, lab, l, c, n - 1);
        assert(touch(ps, c[n - 1], c[n]));
    }
}

pub open spec fn count_none(lab: Seq<Option<usize>>) -> nat
    decreases lab.len(),
{
    if lab.len() == 0 {
        0
    } else {
        count_none(lab.drop_last()) + if lab.last() is None {
            1nat
        } else {
            0nat
        }
    }
}

proof fn lemma_count_none_set(lab: Seq<Option<usize>>, y: int, l: usize)
    requires
        0 <= y < lab.len(),
        lab[y] is None,
    ensures
        count_none(lab.update(y, Some(l))) + 1 == count_none(lab),
    decreases lab.len(),
{
    let u = lab.update(y, Some(l));
    if y < lab.len() - 1 {
        assert(u.drop_last() =~= lab.drop_last().update(y, Some(l)));
        lemma_count_none_set(lab.drop_last(), y, l);
    } else {
        assert(u.drop_last() =~= lab.drop_last());
    }
}

pub open spec fn label_used(lab: Seq<Option<usize>>, l: usize) -> bool {
    exists|j: int| 0 <= j < lab.len() && lab[j] == Some(l)
}

fn touch_exec(ps: &[Pair], j: usize, k: usize) -> (r: bool)
    requires
        j < ps@.len(),
        k < ps@.len(),
    ensures
        r == touch(ps@, j as int, k as int),
{
    let p = &ps[j];
    let q = &ps[k];
    let sj = p.evidence.body || p.evidence.block || p.evidence.clone;
    let sk = q.evidence.body || q.evidence.block || q.evidence.clone;
    sj && sk && (site_eq(&p.a, &q.a) || site_eq(&p.a, &q.b) || site_eq(&p.b, &q.a) || site_eq(
        &p.b,
        &q.b,
    ))
}

/// A label on exactly the structural pairs, each below `count`, equal exactly on
/// connected pairs, and every label below `count` in use.
pub open spec fn labels_ok(ps: Seq<Pair>, lab: Seq<Option<usize>>, count: usize) -> bool {
    &&& lab.len() == ps.len()
    &&& forall|j: int| 0 <= j < ps.len() ==> (#[trigger] lab[j] is Some <==> structural(ps[j]))
    &&& forall|j: int| 0 <= j < ps.len() && #[trigger] lab[j] is Some ==> lab[j]->0 < count
    &&& forall|j: int, k: int|
        0 <= j < ps.len() && 0 <= k < ps.len() && structural(ps[j]) && structural(ps[k])
            ==> (#[trigger] lab[j] == #[trigger] lab[k] <==> pair_conn(ps, j, k))
    &&& forall|l: usize| l < count ==> #[trigger] label_used(lab, l)
}

/// Labels the structural pairs by connected component (pairs connected through
/// shared sites); other pairs get no label.
fn label_components(ps: &[Pair]) -> (r: (Vec<Option<usize>>, usize))
    ensures
        labels_ok(ps@, r.0@, r.1),
{
    let n = ps.len();
    let ghost pv = ps@;
    let mut lab: Vec<Option<usize>> = Vec::new();
    let mut i: usize = 0;
    while i < n
        invariant
            n == ps@.len(),
            i <= n,
            lab@.len() == i,
            forall|j: int| 0 <= j < i ==> lab@[j] is None,
        decreases n - i,
    {
        lab.push(None);
        i += 1;
    }
    let mut count: usize = 0;
    let mut i: usize = 0;
    while i < n
        invariant
            pv == ps@,
            n == pv.len(),
            i <= n,
            lab@.len() == n,
            count <= i,
            forall|j: int| 0 <= j < n && #[trigger] lab@[j] is Some ==> structural(pv[j]) && lab@[j]->0 < count,
            forall|j: int| 0 <= j < i && structural(pv[j]) ==> #[trigger] lab@[j] is Some,
            forall|l: usize| l < count ==> #[trigger] closed_under_touch(pv, lab@, l),
            forall|j: int, k: int|
                0 <= j < n && 0 <= k < n && #[trigger] lab@[j] is Some && lab@[j] == #[trigger] lab@[k]
                    ==> pair_conn(pv, j, k),
            forall|l: usize| l < count ==> #[trigger] label_used(lab@, l),
        decreases n - i,
    {
        let structural_i = ps[i].evidence.body || ps[i].evidence.block || ps[i].evidence.clone;
        if structural_i && lab[i].is_none() {
            let label = count;
            let ghost root = i as int;
            let mut pending: Vec<usize> = Vec::new();
            pending.push(i);
            proof {
                lemma_conn_refl(pv, root);
                assert(pending@[0] == i);
            }
            while pending.len() > 0
                invariant
                    pv == ps@,
                    n == pv.len(),
                    i < n,
                    root == i as int,
                    structural(pv[root]),
                    label == count,
                    count <= i,
                    lab@.len() == n,
                    forall|j: int| 0 <= j < n && #[trigger] lab@[j] is Some ==> structural(pv[j]) && lab@[j]->0 <= count,
                    forall|j: int| 0 <= j < i && structural(pv[j]) ==> #[trigger] lab@[j] is Some,
                    forall|l: usize| l < count ==> #[trigger] closed_under_touch(pv, lab@, l),
                    forall|j: int, k: int|
                        0 <= j < n && 0 <= k < n && #[trigger] lab@[j] is Some && lab@[j]->0 < count && lab@[j] == #[trigger] lab@[k]
                            ==> pair_conn(pv, j, k),
                    forall|l: usize| l < count ==> #[trigger] label_used(lab@, l),
                    forall|j: int| 0 <= j < n && #[trigger] lab@[j] == Some(label) ==> pair_conn(pv, root, j),
                    forall|x: int| 0 <= x < pending@.len() ==> #[trigger] pending@[x] < n && pair_conn(pv, root, pending@[x] as int)
                        && (lab@[pending@[x] as int] is None || lab@[pending@[x] as int] == Some(label)),
                    forall|x: int, y: int|
                        0 <= x < n && 0 <= y < n && #[trigger] touch(pv, x, y) && lab@[x] == Some(label)
                            ==> #[trigger] lab@[y] == Some(label) || pending@.contains(y as usize),
                    lab@[root] is None ==> pending@.contains(i),
                    lab@[root] is Some ==> lab@[root] == Some(label),
                decreases count_none(lab@), pending@.len(),
            {
                let ghost old_pending = pending@;
                let y = pending.pop().unwrap();
                assert(old_pending == pending@.push(y));
                assert forall|z: usize| old_pending.contains(z) && z != y implies pending@.contains(z) by {
                    let x = choose|x: int| 0 <= x < old_pending.len() && old_pending[x] == z;
                    assert(x < pending@.len());
                    assert(pending@[x] == z);
                }
                assert(old_pending[old_pending.len() - 1] == y);
                if lab[y].is_none() {
                    let ghost old_lab = lab@;
                    lab.set(y, Some(label));
                    proof {
                        lemma_count_none_set(old_lab, y as int, label);
                        assert forall|l: usize| l < count implies #[trigger] closed_under_touch(pv, lab@, l) by {
                            assert(closed_under_touch(pv, old_lab, l));
                            assert forall|x: int, z: int|
                                0 <= x < n && 0 <= z < n && #[trigger] touch(pv, x, z) && lab@[x] == Some(l)
                                    ==> #[trigger] lab@[z] == Some(l) by {
                                if 0 <= x < n && 0 <= z < n && touch(pv, x, z) && lab@[x] == Some(l) {
                                    assert(x != y);
                                    assert(old_lab[x] == Some(l));
                                    if z == y {
                                        assert(old_lab[z] == Some(l));
                                    }
                                }
                            }
                        }
                        assert forall|l: usize| l < count implies #[trigger] label_used(lab@, l) by {
                            assert(label_used(old_lab, l));
                            let j = choose|j: int| 0 <= j < old_lab.len() && old_lab[j] == Some(l);
                            assert(lab@[j] == Some(l));
                        }
                    }
                    let mut k: usize = 0;
                    while k < n
                        invariant
                            pv == ps@,
                            n == pv.len(),
                            y < n,
                            k <= n,
                            lab@.len() == n,
                            lab@[y as int] == Some(label),
                            pair_conn(pv, root, y as int),
                            forall|l: usize| l < count ==> #[trigger] closed_under_touch(pv, lab@, l),
                            forall|x: int| 0 <= x < pending@.len() ==> #[trigger] pending@[x] < n && pair_conn(pv, root, pending@[x] as int)
                                && (lab@[pending@[x] as int] is None || lab@[pending@[x] as int] == Some(label)),
                            forall|m: int| 0 <= m < k && touch(pv, y as int, m) ==> #[trigger] lab@[m] == Some(label) || pending@.contains(m as usize),
                            forall|z: usize| #[trigger] old_pending.contains(z) && z != y ==> pending@.contains(z),
                            label == count,
                            forall|j: int| 0 <= j < n && #[trigger] lab@[j] is Some ==> structural(pv[j]) && lab@[j]->0 <= count,
                        decreases n - k,
                    {
                        if lab[k].is_none() && touch_exec(ps, y, k) {
                            let ghost before = pending@;
                            pending.push(k);
                            proof {
                                lemma_conn_step(pv, root, y as int, k as int);
                                assert(pending@[pending@.len() - 1] == k);
                                assert forall|z: usize| before.contains(z) implies pending@.contains(z) by {
                                    let x = choose|x: int| 0 <= x < before.len() && before[x] == z;
                                    assert(pending@[x] == z);
                                }
                            }
                        } else {
                            proof {
                                if touch(pv, y as int, k as int) && lab@[k as int] is Some {
                                    let l = lab@[k as int]->0;
                                    if l < count {
                                        assert(closed_under_touch(pv, lab@, l));
                                        assert(touch(pv, k as int, y as int));
                                        assert(lab@[y as int] == Some(l));
                                    }
                                }
                            }
                        }
                        k += 1;
                    }
                    proof {
                        assert forall|x: int, z: int|
                            0 <= x < n && 0 <= z < n && #[trigger] touch(pv, x, z) && lab@[x] == Some(label)
                                ==> #[trigger] lab@[z] == Some(label) || pending@.contains(z as usize) by {
                            if 0 <= x < n && 0 <= z < n && touch(pv, x, z) && lab@[x] == Some(label) {
                                if x == y {
                                } else {
                                    assert(old_lab[x] == Some(label));
                                    if !(lab@[z] == Some(label)) {
                                        assert(old_lab[z] != Some(label) || z == y);
                                        assert(old_pending.contains(z as usize));
                                    }
                                }
                            }
                        }
                    }
                } else {
                    proof {
                        assert(lab@[y as int] == Some(label));
                    }
                }
            }
            proof {
                assert(lab@[root] is Some);
                assert(lab@[root] == Some(label));
                assert(closed_under_touch(pv, lab@, label)) by {
                    assert forall|x: int, z: int|
                        0 <= x < n && 0 <= z < n && #[trigger] touch(pv, x, z) && lab@[x] == Some(label)
                            ==> #[trigger] lab@[z] == Some(label) by {
                        if 0 <= x < n && 0 <= z < n && touch(pv, x, z) && lab@[x] == Some(label) {
                            if !(lab@[z] == Some(label)) {
                                assert(pending@.contains(z as usize));
                            }
                        }
                    }
                }
                assert(label_used(lab@, label));
                assert forall|j: int, k: int|
                    0 <= j < n && 0 <= k < n && #[trigger] lab@[j] is Some && lab@[j] == #[trigger] lab@[k]
                        ==> pair_conn(pv, j, k) by {
                    if 0 <= j < n && 0 <= k < n && lab@[j] is Some && lab@[j] == lab@[k] && lab@[j]->0 == count {
                        lemma_conn_sym(pv, root, j);
                        lemma_conn_trans(pv, j, root, k);
                    }
                }
            }
            count += 1;
        }
        i += 1;
    }
    proof {
        assert forall|j: int, k: int|
            0 <= j < n && 0 <= k < n && structural(pv[j]) && structural(pv[k]) && pair_conn(pv, j, k)
                implies #[trigger] lab@[j] == #[trigger] lab@[k] by {
            let l = lab@[j]->0;
            assert(closed_under_touch(pv, lab@, l));
            let c = choose|c: Seq<int>| #[trigger] is_chain(pv, c) && c[0] == j && c.last() == k;
            lemma_closed_chain(pv, lab@, l, c, c.len() - 1);
        }
    }
    (lab, count)
}

/// Structural pair `j` has site `s` on one side.
pub open spec fn at_site(ps: Seq<Pair>, s: SiteView, j: int) -> bool {
    0 <= j < ps.len() && structural(ps[j]) && (ps[j].a@ == s || ps[j].b@ == s)
}

/// Sites `s` and `t` are connected through structural evidence.
pub open spec fn sites_joined(ps: Seq<Pair>, s: SiteView, t: SiteView) -> bool {
    exists|j: int, l: int| at_site(ps, s, j) && at_site(ps, t, l) && #[trigger] pair_conn(ps, j, l)
}

/// Pair `i` lies inside one structural component.
pub open spec fn joined(ps: Seq<Pair>, i: int) -> bool {
    sites_joined(ps, ps[i].a@, ps[i].b@)
}

/// Pairs share a review group: the same pair, or both inside one structural component.
pub open spec fn same_group(ps: Seq<Pair>, i: int, k: int) -> bool {
    i == k || (joined(ps, i) && joined(ps, k) && sites_joined(ps, ps[i].a@, ps[k].a@))
}

pub open spec fn any_body(ps: Seq<Pair>, g: Seq<int>) -> bool {
    exists|x: int| 0 <= x < g.len() && #[trigger] ps[g[x]].evidence.body
}

pub open spec fn any_block(ps: Seq<Pair>, g: Seq<int>) -> bool {
    exists|x: int| 0 <= x < g.len() && #[trigger] ps[g[x]].evidence.block
}

pub open spec fn any_clone(ps: Seq<Pair>, g: Seq<int>) -> bool {
    exists|x: int| 0 <= x < g.len() && #[trigger] ps[g[x]].evidence.clone
}

/// Number of distinct structural evidence kinds in the group.
pub open spec fn kinds(ps: Seq<Pair>, g: Seq<int>) -> int {
    (if any_body(ps, g) {
        1int
    } else {
        0
    }) + (if any_block(ps, g) {
        1int
    } else {
        0
    }) + (if any_clone(ps, g) {
        1int
    } else {
        0
    })
}

pub open spec fn max_lines(ps: Seq<Pair>, g: Seq<int>) -> int
    decreases g.len(),
{
    if g.len() == 0 {
        0
    } else {
        let m = max_lines(ps, g.drop_last());
        let v = ps[g.last()].lines as int;
        if v > m {
            v
        } else {
            m
        }
    }
}

pub open spec fn max_score(ps: Seq<Pair>, g: Seq<int>) -> int
    decreases g.len(),
{
    if g.len() == 0 {
        0
    } else {
        let m = max_score(ps, g.drop_last());
        let v = ps[g.last()].name_score as int;
        if v > m {
            v
        } else {
            m
        }
    }
}

/// Group `g` is listed before `h`: more evidence kinds, then longer matches, then a
/// better name score, then the earlier first pair.
pub open spec fn group_lt(ps: Seq<Pair>, g: Seq<int>, h: Seq<int>) -> bool {
    let (k1, l1, s1) = (kinds(ps, g), max_lines(ps, g), max_score(ps, g));
    let (k2, l2, s2) = (kinds(ps, h), max_lines(ps, h), max_score(ps, h));
    ||| k1 > k2
    ||| k1 == k2 && l1 > l2
    ||| k1 == k2 && l1 == l2 && s1 > s2
    ||| k1 == k2 && l1 == l2 && s1 == s2 && g[0] < h[0]
}

/// The pair indices split into nonempty groups, each listed in increasing order,
/// pairs sharing a group exactly when `same_group` relates them, every pair in one.
pub open spec fn partition_ok(ps: Seq<Pair>, gs: Seq<Seq<int>>) -> bool {
    &&& forall|k: int| 0 <= k < gs.len() ==> #[trigger] gs[k].len() > 0
    &&& forall|k: int, x: int| 0 <= k < gs.len() && 0 <= x < gs[k].len() ==> 0 <= #[trigger] gs[k][x] < ps.len()
    &&& forall|k: int, x: int, y: int|
        0 <= k < gs.len() && 0 <= x < y < gs[k].len() ==> #[trigger] gs[k][x] < #[trigger] gs[k][y]
    &&& forall|k: int, x: int, y: int|
        0 <= k < gs.len() && 0 <= x < gs[k].len() && 0 <= y < gs[k].len() ==> same_group(
            ps,
            #[trigger] gs[k][x],
            #[trigger] gs[k][y],
        )
    &&& forall|k: int, l: int, x: int, y: int|
        0 <= k < gs.len() && 0 <= l < gs.len() && k != l && 0 <= x < gs[k].len() && 0 <= y
            < gs[l].len() ==> !same_group(ps, #[trigger] gs[k][x], #[trigger] gs[l][y])
    &&& forall|i: int| 0 <= i < ps.len() ==> #[trigger] in_some_group(gs, i)
}

/// The review groups of `ps`: a partition of the pair indices into groups of pairs
/// that `same_group` relates, each listed in increasing order, groups in `group_lt` order.
pub open spec fn grouping_ok(ps: Seq<Pair>, gs: Seq<Seq<int>>) -> bool {
    &&& partition_ok(ps, gs)
    &&& forall|k: int, l: int| 0 <= k < l < gs.len() ==> group_lt(ps, #[trigger] gs[k], #[trigger] gs[l])
}

pub open spec fn in_some_group(gs: Seq<Seq<int>>, i: int) -> bool {
    exists|k: int, x: int| 0 <= k < gs.len() && 0 <= x < gs[k].len() && gs[k][x] == i
}


/// The label of the structural pairs at site `s`, if any has it on one side.
fn site_label(ps: &[Pair], lab: &Vec<Option<usize>>, count: usize, s: &Site) -> (r: Option<usize>)
    requires
        labels_ok(ps@, lab@, count),
    ensures
        r is None ==> forall|j: int| !#[trigger] at_site(ps@, s@, j),
        r matches Some(l) ==> exists|j: int| #[trigger] at_site(ps@, s@, j) && lab@[j] == Some(l),
{
    let mut j: usize = 0;
    while j < ps.len()
        invariant
            labels_ok(ps@, lab@, count),
            j <= ps@.len(),
            forall|m: int| 0 <= m < j ==> !#[trigger] at_site(ps@, s@, m),
        decreases ps@.len() - j,
    {
        let p = &ps[j];
        if (p.evidence.body || p.evidence.block || p.evidence.clone) && (site_eq(&p.a, s) || site_eq(
            &p.b,
            s,
        )) {
            assert(at_site(ps@, s@, j as int));
            assert(lab@[j as int] is Some);
            return lab[j];
        }
        j += 1;
    }
    None
}

/// Structural pairs at one site carry one label.
proof fn lemma_site_shared(
    ps: Seq<Pair>,
    lab: Seq<Option<usize>>,
    count: usize,
    s: SiteView,
    j: int,
    k: int,
)
    requires
        labels_ok(ps, lab, count),
        at_site(ps, s, j),
        at_site(ps, s, k),
    ensures
        lab[j] == lab[k],
{
    lemma_conn_refl(ps, j);
    assert(touch(ps, j, k));
    lemma_conn_step(ps, j, j, k);
}

/// `o` names the component holding both sites of pair `i`, or is `None` when no
/// component holds both.
pub open spec fn owner_ok(ps: Seq<Pair>, lab: Seq<Option<usize>>, i: int, o: Option<usize>) -> bool {
    &&& (o matches Some(l) ==> exists|j: int, k: int|
        at_site(ps, ps[i].a@, j) && at_site(ps, ps[i].b@, k) && #[trigger] lab[j] == Some(l)
            && #[trigger] lab[k] == Some(l))
    &&& (o is None ==> !joined(ps, i))
    &&& (structural(ps[i]) ==> o == lab[i])
}

proof fn lemma_owner(
    ps: Seq<Pair>,
    lab: Seq<Option<usize>>,
    count: usize,
    i: int,
    la: Option<usize>,
    lb: Option<usize>,
    o: Option<usize>,
)
    requires
        labels_ok(ps, lab, count),
        0 <= i < ps.len(),
        la is None ==> forall|j: int| !#[trigger] at_site(ps, ps[i].a@, j),
        la matches Some(l) ==> exists|j: int| #[trigger] at_site(ps, ps[i].a@, j) && lab[j] == Some(l),
        lb is None ==> forall|j: int| !#[trigger] at_site(ps, ps[i].b@, j),
        lb matches Some(l) ==> exists|j: int| #[trigger] at_site(ps, ps[i].b@, j) && lab[j] == Some(l),
        o == (if la is Some && la == lb {
            la
        } else {
            None
        }),
    ensures
        owner_ok(ps, lab, i, o),
{
    let sa = ps[i].a@;
    let sb = ps[i].b@;
    if let Some(l) = o {
        let j = choose|j: int| #[trigger] at_site(ps, sa, j) && lab[j] == Some(l);
        let k = choose|j: int| #[trigger] at_site(ps, sb, j) && lab[j] == Some(l);
        assert(at_site(ps, sa, j) && at_site(ps, sb, k) && lab[j] == Some(l) && lab[k] == Some(l));
    } else {
        if joined(ps, i) {
            let (j, k) = choose|j: int, k: int|
                at_site(ps, sa, j) && at_site(ps, sb, k) && #[trigger] pair_conn(ps, j, k);
            let x = la->0;
            let y = lb->0;
            let j2 = choose|m: int| #[trigger] at_site(ps, sa, m) && lab[m] == Some(x);
            let k2 = choose|m: int| #[trigger] at_site(ps, sb, m) && lab[m] == Some(y);
            lemma_site_shared(ps, lab, count, sa, j, j2);
            lemma_site_shared(ps, lab, count, sb, k, k2);
            assert(lab[j] == lab[k]);
            assert(false);
        }
    }
    if structural(ps[i]) {
        assert(at_site(ps, sa, i));
        assert(at_site(ps, sb, i));
        let x = la->0;
        let y = lb->0;
        let j2 = choose|m: int| #[trigger] at_site(ps, sa, m) && lab[m] == Some(x);
        let k2 = choose|m: int| #[trigger] at_site(ps, sb, m) && lab[m] == Some(y);
        lemma_site_shared(ps, lab, count, sa, i, j2);
        lemma_site_shared(ps, lab, count, sb, i, k2);
    }
}

/// Two pairs share a review group exactly when they are one pair or carry the same
/// component.
proof fn lemma_same_group(
    ps: Seq<Pair>,
    lab: Seq<Option<usize>>,
    count: usize,
    x: int,
    y: int,
    ox: Option<usize>,
    oy: Option<usize>,
)
    requires
        labels_ok(ps, lab, count),
        0 <= x < ps.len(),
        0 <= y < ps.len(),
        owner_ok(ps, lab, x, ox),
        owner_ok(ps, lab, y, oy),
    ensures
        same_group(ps, x, y) <==> (x == y || (ox is Some && ox == oy)),
{
    if x != y && ox is Some && oy is Some {
        let l = ox->0;
        let m = oy->0;
        let (jx, kx) = choose|j: int, k: int|
            at_site(ps, ps[x].a@, j) && at_site(ps, ps[x].b@, k) && #[trigger] lab[j] == Some(l)
                && #[trigger] lab[k] == Some(l);
        let (jy, ky) = choose|j: int, k: int|
            at_site(ps, ps[y].a@, j) && at_site(ps, ps[y].b@, k) && #[trigger] lab[j] == Some(m)
                && #[trigger] lab[k] == Some(m);
        assert(lab[jx] == lab[kx]);
        assert(pair_conn(ps, jx, kx));
        assert(joined(ps, x));
        assert(lab[jy] == lab[ky]);
        assert(pair_conn(ps, jy, ky));
        assert(joined(ps, y));
        if l == m {
            assert(lab[jx] == lab[jy]);
            assert(pair_conn(ps, jx, jy));
            assert(sites_joined(ps, ps[x].a@, ps[y].a@));
        } else {
            if sites_joined(ps, ps[x].a@, ps[y].a@) {
                let (j, k) = choose|j: int, k: int|
                    at_site(ps, ps[x].a@, j) && at_site(ps, ps[y].a@, k) && #[trigger] pair_conn(ps, j, k);
                lemma_site_shared(ps, lab, count, ps[x].a@, j, jx);
                lemma_site_shared(ps, lab, count, ps[y].a@, k, jy);
                assert(lab[j] == lab[k]);
            }
        }
    }
}

/// The indices `i` with `own[i] == o`, ascending.
fn indices_with(own: &Vec<Option<usize>>, o: Option<usize>) -> (r: Vec<usize>)
    ensures
        forall|x: int| 0 <= x < r@.len() ==> #[trigger] r@[x] < own@.len() && own@[r@[x] as int] == o,
        forall|x: int, y: int| 0 <= x < y < r@.len() ==> #[trigger] r@[x] < #[trigger] r@[y],
        forall|i: int| 0 <= i < own@.len() && #[trigger] own@[i] == o ==> r@.contains(i as usize),
{
    let mut r: Vec<usize> = Vec::new();
    let mut i: usize = 0;
    while i < own.len()
        invariant
            i <= own@.len(),
            forall|x: int| 0 <= x < r@.len() ==> #[trigger] r@[x] < i && own@[r@[x] as int] == o,
            forall|x: int, y: int| 0 <= x < y < r@.len() ==> #[trigger] r@[x] < #[trigger] r@[y],
            forall|m: int| 0 <= m < i && #[trigger] own@[m] == o ==> r@.contains(m as usize),
        decreases own@.len() - i,
    {
        let same = match (own[i], o) {
            (Some(a), Some(b)) => a == b,
            (None, None) => true,
            _ => false,
        };
        if same {
            let ghost before = r@;
            r.push(i);
            proof {
                assert(r@[r@.len() - 1] == i);
                assert forall|m: int| 0 <= m < i + 1 && #[trigger] own@[m] == o implies r@.contains(m as usize) by {
                    if m < i {
                        let x = choose|x: int| 0 <= x < before.len() && before[x] == m as usize;
                        assert(r@[x] == m as usize);
                    }
                }
            }
        }
        i += 1;
    }
    r
}


/// Review groups before ordering: one group per structural component holding every
/// pair whose two sites lie in it, then each remaining pair alone.
fn component_groups(ps: &[Pair]) -> (r: Vec<Vec<usize>>)
    ensures
        partition_ok(ps@, int_groups(r@)),
{
    let ghost pv = ps@;
    let n = ps.len();
    let (lab, count) = label_components(ps);
    let mut own: Vec<Option<usize>> = Vec::new();
    let mut i: usize = 0;
    while i < n
        invariant
            pv == ps@,
            n == pv.len(),
            labels_ok(pv, lab@, count),
            i <= n,
            own@.len() == i,
            forall|m: int| 0 <= m < i ==> #[trigger] owner_ok(pv, lab@, m, own@[m]),
        decreases n - i,
    {
        let la = site_label(ps, &lab, count, &ps[i].a);
        let lb = site_label(ps, &lab, count, &ps[i].b);
        let o = match (la, lb) {
            (Some(x), Some(y)) => if x == y {
                Some(x)
            } else {
                None
            },
            _ => None,
        };
        proof {
            lemma_owner(pv, lab@, count, i as int, la, lb, o);
        }
        own.push(o);
        i += 1;
    }
    let mut gs: Vec<Vec<usize>> = Vec::new();
    let mut l: usize = 0;
    while l < count
        invariant
            pv == ps@,
            n == pv.len(),
            own@.len() == n,
            l <= count,
            gs@.len() == l,
            forall|k: int, x: int|
                0 <= k < l && 0 <= x < gs@[k]@.len() ==> #[trigger] gs@[k]@[x] < n && own@[gs@[k]@[x] as int]
                    == Some(k as usize),
            forall|k: int, x: int, y: int|
                0 <= k < l && 0 <= x < y < gs@[k]@.len() ==> #[trigger] gs@[k]@[x] < #[trigger] gs@[k]@[y],
            forall|k: int, i: int|
                0 <= k < l && 0 <= i < n && #[trigger] own@[i] == Some(k as usize) ==> #[trigger] gs@[k]@.contains(i as usize),
        decreases count - l,
    {
        let g = indices_with(&own, Some(l));
        gs.push(g);
        l += 1;
    }
    let singles = indices_with(&own, None);
    let mut t: usize = 0;
    while t < singles.len()
        invariant
            pv == ps@,
            n == pv.len(),
            own@.len() == n,
            t <= singles@.len(),
            gs@.len() == count + t,
            forall|x: int| 0 <= x < singles@.len() ==> #[trigger] singles@[x] < n && own@[singles@[x] as int] is None,
            forall|x: int, y: int| 0 <= x < y < singles@.len() ==> #[trigger] singles@[x] < #[trigger] singles@[y],
            forall|k: int, x: int|
                0 <= k < count && 0 <= x < gs@[k]@.len() ==> #[trigger] gs@[k]@[x] < n && own@[gs@[k]@[x] as int]
                    == Some(k as usize),
            forall|k: int, x: int, y: int|
                0 <= k < count && 0 <= x < y < gs@[k]@.len() ==> #[trigger] gs@[k]@[x] < #[trigger] gs@[k]@[y],
            forall|k: int, i: int|
                0 <= k < count && 0 <= i < n && #[trigger] own@[i] == Some(k as usize) ==> #[trigger] gs@[k]@.contains(i as usize),
            forall|k: int| count <= k < count + t ==> #[trigger] gs@[k]@ == seq![singles@[k - count]],
        decreases singles@.len() - t,
    {
        let mut one: Vec<usize> = Vec::new();
        one.push(singles[t]);
        gs.push(one);
        t += 1;
    }
    proof {
        let gi = int_groups(gs@);
        let c = count as int;
        assert forall|i: int| 0 <= i < n && #[trigger] own@[i] is Some implies own@[i]->0 < count by {
            let m = own@[i]->0;
            assert(owner_ok(pv, lab@, i, own@[i]));
            let (j, k) = choose|j: int, k: int|
                at_site(pv, pv[i].a@, j) && at_site(pv, pv[i].b@, k) && #[trigger] lab@[j] == Some(m)
                    && #[trigger] lab@[k] == Some(m);
            assert(lab@[j] is Some);
        }
        assert forall|k: int, x: int| 0 <= k < gi.len() && 0 <= x < gi[k].len() implies #[trigger] gi[k][x] == gs@[k]@[x] as int by {}
        // every group is nonempty
        assert forall|k: int| 0 <= k < gi.len() implies #[trigger] gi[k].len() > 0 by {
            if k < c {
                assert(label_used(lab@, k as usize));
                let j = choose|j: int| 0 <= j < lab@.len() && lab@[j] == Some(k as usize);
                assert(owner_ok(pv, lab@, j, own@[j]));
                assert(own@[j] == Some(k as usize));
                assert(gs@[k]@.contains(j as usize));
            } else {
                assert(gs@[k]@ == seq![singles@[k - c]]);
            }
        }
        // the pairs of group k all carry the group's tag
        assert forall|k: int, x: int| 0 <= k < gi.len() && 0 <= x < gi[k].len() implies 0 <= #[trigger] gi[k][x] < n
            && own@[gi[k][x]] == (if k < c { Some(k as usize) } else { None }) by {
            if k >= c {
                assert(gs@[k]@ == seq![singles@[k - c]]);
            }
        }
        assert forall|k: int, x: int, y: int| 0 <= k < gi.len() && 0 <= x < y < gi[k].len() implies #[trigger] gi[k][x]
            < #[trigger] gi[k][y] by {
            if k >= c {
                assert(gs@[k]@ == seq![singles@[k - c]]);
            } else {
                assert(gs@[k]@[x] < gs@[k]@[y]);
            }
        }
        assert forall|k: int, x: int, y: int| 0 <= k < gi.len() && 0 <= x < gi[k].len() && 0 <= y < gi[k].len() implies same_group(
            pv,
            #[trigger] gi[k][x],
            #[trigger] gi[k][y],
        ) by {
            let a = gi[k][x];
            let b = gi[k][y];
            assert(owner_ok(pv, lab@, a, own@[a]));
            assert(owner_ok(pv, lab@, b, own@[b]));
            lemma_same_group(pv, lab@, count, a, b, own@[a], own@[b]);
            if k >= c {
                assert(gs@[k]@ == seq![singles@[k - c]]);
            }
        }
        assert forall|k: int, l2: int, x: int, y: int|
            0 <= k < gi.len() && 0 <= l2 < gi.len() && k != l2 && 0 <= x < gi[k].len() && 0 <= y < gi[l2].len()
                implies !same_group(pv, #[trigger] gi[k][x], #[trigger] gi[l2][y]) by {
            let a = gi[k][x];
            let b = gi[l2][y];
            assert(owner_ok(pv, lab@, a, own@[a]));
            assert(owner_ok(pv, lab@, b, own@[b]));
            lemma_same_group(pv, lab@, count, a, b, own@[a], own@[b]);
            if k >= c && l2 >= c {
                assert(gs@[k]@ == seq![singles@[k - c]]);
                assert(gs@[l2]@ == seq![singles@[l2 - c]]);
                assert(x == 0 && y == 0);
                if k - c < l2 - c {
                    assert(singles@[k - c] < singles@[l2 - c]);
                } else {
                    assert(singles@[l2 - c] < singles@[k - c]);
                }
            }
        }
        assert forall|i: int| 0 <= i < pv.len() implies #[trigger] in_some_group(gi, i) by {
            if let Some(m) = own@[i] {
                assert(m < count);
                assert(gs@[m as int]@.contains(i as usize));
                let x = choose|x: int| 0 <= x < gs@[m as int]@.len() && gs@[m as int]@[x] == i as usize;
                assert(gi[m as int][x] == i);
            } else {
                assert(singles@.contains(i as usize));
                let x = choose|x: int| 0 <= x < singles@.len() && singles@[x] == i as usize;
                assert(gs@[c + x]@ == seq![singles@[x]]);
                assert(gi[c + x][0] == i);
            }
        }
    }
    gs
}


proof fn lemma_partition_perm(ps: Seq<Pair>, a: Seq<Seq<int>>, b: Seq<Seq<int>>, perm: Seq<int>)
    requires
        partition_ok(ps, a),
        b.len() == a.len(),
        perm.len() == a.len(),
        forall|x: int| 0 <= x < a.len() ==> 0 <= #[trigger] perm[x] < a.len() && b[x] == a[perm[x]],
        forall|x: int, y: int|
            0 <= x < a.len() && 0 <= y < a.len() && x != y ==> #[trigger] perm[x] != #[trigger] perm[y],
        forall|m: int| 0 <= m < a.len() ==> #[trigger] hit(perm, m),
    ensures
        partition_ok(ps, b),
{
    assert forall|k: int| 0 <= k < b.len() implies #[trigger] b[k].len() > 0 by {
        assert(b[k] == a[perm[k]]);
    }
    assert forall|k: int, x: int| 0 <= k < b.len() && 0 <= x < b[k].len() implies 0 <= #[trigger] b[k][x] < ps.len() by {
        assert(b[k] == a[perm[k]]);
        assert(a[perm[k]][x] == b[k][x]);
    }
    assert forall|k: int, x: int, y: int| 0 <= k < b.len() && 0 <= x < y < b[k].len() implies #[trigger] b[k][x]
        < #[trigger] b[k][y] by {
        assert(b[k] == a[perm[k]]);
        assert(a[perm[k]][x] < a[perm[k]][y]);
    }
    assert forall|k: int, x: int, y: int| 0 <= k < b.len() && 0 <= x < b[k].len() && 0 <= y < b[k].len() implies same_group(
        ps,
        #[trigger] b[k][x],
        #[trigger] b[k][y],
    ) by {
        assert(b[k] == a[perm[k]]);
        assert(same_group(ps, a[perm[k]][x], a[perm[k]][y]));
    }
    assert forall|k: int, l: int, x: int, y: int|
        0 <= k < b.len() && 0 <= l < b.len() && k != l && 0 <= x < b[k].len() && 0 <= y < b[l].len()
            implies !same_group(ps, #[trigger] b[k][x], #[trigger] b[l][y]) by {
        assert(b[k] == a[perm[k]]);
        assert(b[l] == a[perm[l]]);
        assert(perm[k] != perm[l]);
        assert(!same_group(ps, a[perm[k]][x], a[perm[l]][y]));
    }
    assert forall|i: int| 0 <= i < ps.len() implies #[trigger] in_some_group(b, i) by {
        assert(in_some_group(a, i));
        let (m, x) = choose|m: int, x: int| 0 <= m < a.len() && 0 <= x < a[m].len() && a[m][x] == i;
        assert(hit(perm, m));
        let k = choose|k: int| 0 <= k < perm.len() && perm[k] == m;
        assert(b[k] == a[m]);
        assert(b[k][x] == i);
    }
}

/// `group_lt` is a strict order, total on groups with different first pairs.
proof fn lemma_group_order(ps: Seq<Pair>, g: Seq<int>, h: Seq<int>, m: Seq<int>)
    ensures
        !group_lt(ps, g, g),
        !(group_lt(ps, g, h) && group_lt(ps, h, g)),
        group_lt(ps, g, h) && group_lt(ps, h, m) ==> group_lt(ps, g, m),
        g[0] != h[0] ==> group_lt(ps, g, h) || group_lt(ps, h, g),
{
}

proof fn lemma_any_step(ps: Seq<Pair>, gi: Seq<int>, x: int)
    requires
        0 <= x < gi.len(),
    ensures
        any_body(ps, gi.take(x + 1)) == (any_body(ps, gi.take(x)) || ps[gi[x]].evidence.body),
        any_block(ps, gi.take(x + 1)) == (any_block(ps, gi.take(x)) || ps[gi[x]].evidence.block),
        any_clone(ps, gi.take(x + 1)) == (any_clone(ps, gi.take(x)) || ps[gi[x]].evidence.clone),
        max_lines(ps, gi.take(x + 1)) == (if ps[gi[x]].lines as int > max_lines(ps, gi.take(x)) {
            ps[gi[x]].lines as int
        } else {
            max_lines(ps, gi.take(x))
        }),
        max_score(ps, gi.take(x + 1)) == (if ps[gi[x]].name_score as int > max_score(ps, gi.take(x)) {
            ps[gi[x]].name_score as int
        } else {
            max_score(ps, gi.take(x))
        }),
{
    let t = gi.take(x + 1);
    let u = gi.take(x);
    assert(t.drop_last() =~= u);
    assert(t.last() == gi[x]);
    assert(t[x] == gi[x]);
    if any_body(ps, u) {
        let y = choose|y: int| 0 <= y < u.len() && #[trigger] ps[u[y]].evidence.body;
        assert(t[y] == u[y]);
    }
    if any_body(ps, t) && !ps[gi[x]].evidence.body {
        let y = choose|y: int| 0 <= y < t.len() && #[trigger] ps[t[y]].evidence.body;
        assert(u[y] == t[y]);
    }
    if any_block(ps, u) {
        let y = choose|y: int| 0 <= y < u.len() && #[trigger] ps[u[y]].evidence.block;
        assert(t[y] == u[y]);
    }
    if any_block(ps, t) && !ps[gi[x]].evidence.block {
        let y = choose|y: int| 0 <= y < t.len() && #[trigger] ps[t[y]].evidence.block;
        assert(u[y] == t[y]);
    }
    if any_clone(ps, u) {
        let y = choose|y: int| 0 <= y < u.len() && #[trigger] ps[u[y]].evidence.clone;
        assert(t[y] == u[y]);
    }
    if any_clone(ps, t) && !ps[gi[x]].evidence.clone {
        let y = choose|y: int| 0 <= y < t.len() && #[trigger] ps[t[y]].evidence.clone;
        assert(u[y] == t[y]);
    }
}

/// Number of evidence kinds, longest match and best name score of group `g`.
fn group_rank(ps: &[Pair], g: &Vec<usize>) -> (r: (usize, u32, u32))
    requires
        forall|x: int| 0 <= x < g@.len() ==> #[trigger] g@[x] < ps@.len(),
    ensures
        r.0 == kinds(ps@, int_seq(g@)),
        r.1 == max_lines(ps@, int_seq(g@)),
        r.2 == max_score(ps@, int_seq(g@)),
{
    let ghost gi = int_seq(g@);
    let mut body = false;
    let mut block = false;
    let mut clone = false;
    let mut lines: u32 = 0;
    let mut score: u32 = 0;
    let mut x: usize = 0;
    proof {
        assert(gi.take(0) =~= Seq::<int>::empty());
    }
    while x < g.len()
        invariant
            gi == int_seq(g@),
            x <= g@.len(),
            forall|y: int| 0 <= y < g@.len() ==> #[trigger] g@[y] < ps@.len(),
            body == any_body(ps@, gi.take(x as int)),
            block == any_block(ps@, gi.take(x as int)),
            clone == any_clone(ps@, gi.take(x as int)),
            lines == max_lines(ps@, gi.take(x as int)),
            score == max_score(ps@, gi.take(x as int)),
        decreases g@.len() - x,
    {
        let p = &ps[g[x]];
        proof {
            lemma_any_step(ps@, gi, x as int);
            assert(gi[x as int] == g@[x as int] as int);
        }
        body = body || p.evidence.body;
        block = block || p.evidence.block;
        clone = clone || p.evidence.clone;
        if p.lines > lines {
            lines = p.lines;
        }
        if p.name_score > score {
            score = p.name_score;
        }
        x += 1;
    }
    assert(gi.take(g@.len() as int) =~= gi);
    let k: usize = (if body {
        1
    } else {
        0
    }) + (if block {
        1
    } else {
        0
    }) + (if clone {
        1
    } else {
        0
    });
    (k, lines, score)
}

/// Rank `a` with first pair `fa` comes before rank `b` with first pair `fb`.
fn rank_before(a: (usize, u32, u32), fa: usize, b: (usize, u32, u32), fb: usize) -> (r: bool)
    ensures
        r == (a.0 > b.0 || (a.0 == b.0 && a.1 > b.1) || (a.0 == b.0 && a.1 == b.1 && a.2 > b.2) || (
        a.0 == b.0 && a.1 == b.1 && a.2 == b.2 && fa < fb)),
{
    a.0 > b.0 || (a.0 == b.0 && (a.1 > b.1 || (a.1 == b.1 && (a.2 > b.2 || (a.2 == b.2 && fa < fb)))))
}

/// Inserting group `k` of `g0` at `pos` keeps the groups so far a stable sorted
/// arrangement of the first `k + 1` groups.
proof fn lemma_insert_group(
    pv: Seq<Pair>,
    g0: Seq<Seq<int>>,
    og: Seq<Seq<int>>,
    ng: Seq<Seq<int>>,
    old_perm: Seq<int>,
    pos: int,
    k: int,
    gnew: Seq<int>,
)
    requires
        0 <= k < g0.len(),
        gnew == g0[k],
        og.len() == k,
        old_perm.len() == k,
        0 <= pos <= k,
        forall|x: int| 0 <= x < k ==> 0 <= #[trigger] old_perm[x] < k && og[x] == g0[old_perm[x]],
        forall|x: int, y: int| 0 <= x < k && 0 <= y < k && x != y ==> #[trigger] old_perm[x] != #[trigger] old_perm[y],
        forall|m: int| 0 <= m < k ==> #[trigger] hit(old_perm, m),
        forall|x: int, y: int| 0 <= x < y < k ==> !group_lt(pv, #[trigger] og[y], #[trigger] og[x]),
        forall|x: int| 0 <= x < pos ==> !group_lt(pv, gnew, #[trigger] og[x]),
        pos < k ==> group_lt(pv, gnew, og[pos]),
        ng == og.insert(pos, gnew),
    ensures
        ({
            let perm = old_perm.insert(pos, k);
            &&& forall|x: int| 0 <= x < k + 1 ==> 0 <= #[trigger] perm[x] < k + 1 && ng[x] == g0[perm[x]]
            &&& forall|x: int, y: int| 0 <= x < k + 1 && 0 <= y < k + 1 && x != y ==> #[trigger] perm[x] != #[trigger] perm[y]
            &&& forall|m: int| 0 <= m < k + 1 ==> #[trigger] hit(perm, m)
            &&& forall|x: int, y: int| 0 <= x < y < k + 1 ==> !group_lt(pv, #[trigger] ng[y], #[trigger] ng[x])
        }),
{
    let perm = old_perm.insert(pos, k);
    assert forall|x: int| 0 <= x < k + 1 implies 0 <= #[trigger] perm[x] < k + 1 && ng[x] == g0[perm[x]] by {
        if x < pos {
            assert(og[x] == g0[old_perm[x]]);
        } else if x > pos {
            assert(og[x - 1] == g0[old_perm[x - 1]]);
        }
    }
    assert forall|x: int, y: int| 0 <= x < k + 1 && 0 <= y < k + 1 && x != y implies #[trigger] perm[x]
        != #[trigger] perm[y] by {
        let x0 = if x < pos { x } else { x - 1 };
        let y0 = if y < pos { y } else { y - 1 };
        if x != pos && y != pos {
            assert(perm[x] == old_perm[x0] && perm[y] == old_perm[y0]);
        } else if x == pos {
            assert(perm[y] == old_perm[y0]);
        } else {
            assert(perm[x] == old_perm[x0]);
        }
    }
    assert forall|m: int| 0 <= m < k + 1 implies #[trigger] hit(perm, m) by {
        if m == k {
            assert(perm[pos] == m);
        } else {
            assert(hit(old_perm, m));
            let x0 = choose|x: int| 0 <= x < old_perm.len() && #[trigger] old_perm[x] == m;
            if x0 < pos {
                assert(perm[x0] == m);
            } else {
                assert(perm[x0 + 1] == m);
            }
        }
    }
    assert forall|x: int, y: int| 0 <= x < y < k + 1 implies !group_lt(pv, #[trigger] ng[y], #[trigger] ng[x]) by {
        if x < pos && y < pos {
            assert(ng[x] == og[x] && ng[y] == og[y]);
        } else if x > pos && y > pos {
            assert(ng[x] == og[x - 1] && ng[y] == og[y - 1]);
        } else if x < pos && y > pos {
            assert(ng[x] == og[x] && ng[y] == og[y - 1]);
        } else if x == pos {
            let p0 = og[pos];
            assert(ng[y] == og[y - 1]);
            if y - 1 > pos {
                assert(!group_lt(pv, og[y - 1], p0));
            }
            lemma_group_order(pv, og[y - 1], gnew, p0);
        } else {
            assert(ng[x] == og[x] && ng[y] == gnew);
        }
    }
}

proof fn lemma_insert_keys(
    pv: Seq<Pair>,
    old_keys: Seq<(usize, u32, u32)>,
    keys: Seq<(usize, u32, u32)>,
    og: Seq<Seq<int>>,
    ng: Seq<Seq<int>>,
    pos: int,
    k: int,
    rk: (usize, u32, u32),
    gnew: Seq<int>,
)
    requires
        0 <= pos <= k,
        old_keys.len() == k,
        og.len() == k,
        keys == old_keys.insert(pos, rk),
        ng == og.insert(pos, gnew),
        forall|x: int|
            0 <= x < k ==> #[trigger] old_keys[x].0 == kinds(pv, og[x]) && old_keys[x].1 == max_lines(pv, og[x])
                && old_keys[x].2 == max_score(pv, og[x]),
        rk.0 == kinds(pv, gnew) && rk.1 == max_lines(pv, gnew) && rk.2 == max_score(pv, gnew),
    ensures
        forall|x: int|
            0 <= x < k + 1 ==> #[trigger] keys[x].0 == kinds(pv, ng[x]) && keys[x].1 == max_lines(pv, ng[x])
                && keys[x].2 == max_score(pv, ng[x]),
{
    assert forall|x: int| 0 <= x < k + 1 implies #[trigger] keys[x].0 == kinds(pv, ng[x]) && keys[x].1 == max_lines(
        pv,
        ng[x],
    ) && keys[x].2 == max_score(pv, ng[x]) by {
        if x < pos {
            let o = old_keys[x];
            assert(keys[x] == o && ng[x] == og[x]);
            assert(o.0 == kinds(pv, og[x]) && o.1 == max_lines(pv, og[x]) && o.2 == max_score(pv, og[x]));
        } else if x > pos {
            let o = old_keys[x - 1];
            assert(keys[x] == o && ng[x] == og[x - 1]);
            assert(o.0 == kinds(pv, og[x - 1]) && o.1 == max_lines(pv, og[x - 1]) && o.2 == max_score(pv, og[x - 1]));
        } else {
            assert(keys[x] == rk && ng[x] == gnew);
        }
    }
    assert(forall|x: int|
        0 <= x < k + 1 ==> #[trigger] keys[x].0 == kinds(pv, ng[x]) && keys[x].1 == max_lines(pv, ng[x])
            && keys[x].2 == max_score(pv, ng[x]));
}

/// Review groups: pairs whose two sites lie in one component of the structural
/// (body, block, clone) evidence share a group with that component's pairs; every
/// other pair stands alone. Groups come by evidence kinds, then longest match, then
/// best name score, each descending, then by first pair.
#[verifier::rlimit(40)]
pub fn group(pairs: &[Pair]) -> (r: Vec<Vec<usize>>)
    ensures
        grouping_ok(pairs@, int_groups(r@)),
{
    let ghost pv = pairs@;
    let gs = component_groups(pairs);
    let ghost g0 = int_groups(gs@);
    let mut out: Vec<Vec<usize>> = Vec::new();
    let mut keys: Vec<(usize, u32, u32)> = Vec::new();
    let ghost mut perm: Seq<int> = seq![];
    let mut k: usize = 0;
    while k < gs.len()
        invariant
            pv == pairs@,
            g0 == int_groups(gs@),
            partition_ok(pv, g0),
            k <= gs@.len(),
            out@.len() == k,
            keys@.len() == k,
            perm.len() == k,
            forall|x: int| 0 <= x < k ==> 0 <= #[trigger] perm[x] < k && int_groups(out@)[x] == g0[perm[x]],
            forall|x: int, y: int| 0 <= x < k && 0 <= y < k && x != y ==> #[trigger] perm[x] != #[trigger] perm[y],
            forall|m: int| 0 <= m < k ==> #[trigger] hit(perm, m),
            forall|x: int| 0 <= x < k ==> #[trigger] out@[x]@.len() > 0 && out@[x]@[0] < pv.len(),
            forall|x: int|
                0 <= x < k ==> #[trigger] keys@[x].0 == kinds(pv, int_groups(out@)[x]) && keys@[x].1
                    == max_lines(pv, int_groups(out@)[x]) && keys@[x].2 == max_score(pv, int_groups(out@)[x]),
            forall|x: int, y: int|
                0 <= x < y < k ==> !group_lt(pv, #[trigger] int_groups(out@)[y], #[trigger] int_groups(out@)[x]),
        decreases gs@.len() - k,
    {
        proof {
            assert(g0[k as int] == int_seq(gs@[k as int]@));
            assert(g0[k as int].len() > 0);
            assert forall|x: int| 0 <= x < gs@[k as int]@.len() implies #[trigger] gs@[k as int]@[x] < pv.len() by {
                assert(g0[k as int][x] == gs@[k as int]@[x] as int);
            }
        }
        let g = copy_indices(&gs[k]);
        let rk = group_rank(pairs, &g);
        let first = g[0];
        let ghost gnew = int_seq(g@);
        let mut pos: usize = 0;
        while pos < out.len() && !rank_before(rk, first, keys[pos], out[pos][0])
            invariant
                pv == pairs@,
                gnew == int_seq(g@),
                g@.len() > 0,
                first == g@[0],
                rk.0 == kinds(pv, gnew) && rk.1 == max_lines(pv, gnew) && rk.2 == max_score(pv, gnew),
                pos <= out@.len(),
                keys@.len() == out@.len(),
                forall|x: int| 0 <= x < out@.len() ==> #[trigger] out@[x]@.len() > 0 && out@[x]@[0] < pv.len(),
                forall|x: int|
                    0 <= x < out@.len() ==> #[trigger] keys@[x].0 == kinds(pv, int_groups(out@)[x]) && keys@[x].1
                        == max_lines(pv, int_groups(out@)[x]) && keys@[x].2 == max_score(pv, int_groups(out@)[x]),
                forall|x: int| 0 <= x < pos ==> !group_lt(pv, gnew, #[trigger] int_groups(out@)[x]),
            decreases out@.len() - pos,
        {
            proof {
                assert(int_groups(out@)[pos as int][0] == out@[pos as int]@[0] as int);
                assert(keys@[pos as int].0 == kinds(pv, int_groups(out@)[pos as int]));
            }
            pos += 1;
        }
        proof {
            if pos < out@.len() {
                assert(int_groups(out@)[pos as int][0] == out@[pos as int]@[0] as int);
                assert(keys@[pos as int].0 == kinds(pv, int_groups(out@)[pos as int]));
                assert(group_lt(pv, gnew, int_groups(out@)[pos as int]));
            }
        }
        let ghost old_out = out@;
        let ghost old_keys = keys@;
        let ghost old_perm = perm;
        let ghost og = int_groups(old_out);
        out.insert(pos, g);
        keys.insert(pos, rk);
        proof {
            let ng = int_groups(out@);
            assert(ng =~= og.insert(pos as int, gnew)) by {
                assert forall|x: int| 0 <= x < ng.len() implies #[trigger] ng[x] == og.insert(pos as int, gnew)[x] by {
                    if x < pos {
                        assert(out@[x] == old_out[x]);
                    } else if x > pos {
                        assert(out@[x] == old_out[x - 1]);
                    }
                }
            }
            lemma_insert_group(pv, g0, og, ng, old_perm, pos as int, k as int, gnew);
            perm = old_perm.insert(pos as int, k as int);
            assert(out@[pos as int]@ == g@);
            assert(g0[k as int][0] == gs@[k as int]@[0] as int);
            assert(g@.len() > 0 && g@[0] < pv.len());
            assert forall|x: int| 0 <= x < k + 1 implies #[trigger] out@[x]@.len() > 0 && out@[x]@[0] < pv.len() by {
                if x < pos {
                    assert(out@[x] == old_out[x]);
                    assert(old_out[x]@.len() > 0 && old_out[x]@[0] < pv.len());
                } else if x > pos {
                    assert(out@[x] == old_out[x - 1]);
                    assert(old_out[x - 1]@.len() > 0 && old_out[x - 1]@[0] < pv.len());
                }
            }
            lemma_insert_keys(pv, old_keys, keys@, og, ng, pos as int, k as int, rk, gnew);
            assert(forall|x: int|
                0 <= x < k + 1 ==> #[trigger] keys@[x].0 == kinds(pv, int_groups(out@)[x]) && keys@[x].1
                    == max_lines(pv, int_groups(out@)[x]) && keys@[x].2 == max_score(pv, int_groups(out@)[x]));
        }
        k += 1;
    }
    proof {
        let ng = int_groups(out@);
        lemma_partition_perm(pv, g0, ng, perm);
        assert forall|x: int, y: int| 0 <= x < y < ng.len() implies group_lt(pv, #[trigger] ng[x], #[trigger] ng[y]) by {
            assert(!group_lt(pv, ng[y], ng[x]));
            assert(ng[x].len() > 0 && ng[y].len() > 0);
            if ng[x][0] == ng[y][0] {
                assert(same_group(pv, ng[x][0], ng[y][0]));
            }
            lemma_group_order(pv, ng[x], ng[y], ng[x]);
        }
    }
    out
}


proof fn lemma_chain_without(ps: Seq<Pair>, q: Pair, c: Seq<int>)
    requires
        !structural(q),
    ensures
        is_chain(ps.push(q), c) == is_chain(ps, c),
{
    let ps2 = ps.push(q);
    if is_chain(ps2, c) {
        assert forall|x: int| 0 <= x < c.len() implies 0 <= #[trigger] c[x] < ps.len() && structural(ps[c[x]]) by {
            assert(structural(ps2[c[x]]));
            assert(c[x] != ps.len());
            assert(ps2[c[x]] == ps[c[x]]);
        }
        assert forall|x: int| 0 <= x < c.len() - 1 implies touch(ps, #[trigger] c[x], c[x + 1]) by {
            assert(touch(ps2, c[x], c[x + 1]));
            assert(c[x] < ps.len() && c[x + 1] < ps.len());
            assert(ps2[c[x]] == ps[c[x]] && ps2[c[x + 1]] == ps[c[x + 1]]);
        }
    }
    if is_chain(ps, c) {
        assert forall|x: int| 0 <= x < c.len() implies 0 <= #[trigger] c[x] < ps2.len() && structural(ps2[c[x]]) by {
            assert(ps2[c[x]] == ps[c[x]]);
        }
        assert forall|x: int| 0 <= x < c.len() - 1 implies touch(ps2, #[trigger] c[x], c[x + 1]) by {
            assert(touch(ps, c[x], c[x + 1]));
            assert(ps2[c[x]] == ps[c[x]] && ps2[c[x + 1]] == ps[c[x + 1]]);
        }
    }
}

proof fn lemma_conn_without(ps: Seq<Pair>, q: Pair, j: int, k: int)
    requires
        !structural(q),
    ensures
        pair_conn(ps.push(q), j, k) == pair_conn(ps, j, k),
{
    let ps2 = ps.push(q);
    if pair_conn(ps2, j, k) {
        let c = choose|c: Seq<int>| #[trigger] is_chain(ps2, c) && c[0] == j && c.last() == k;
        lemma_chain_without(ps, q, c);
    }
    if pair_conn(ps, j, k) {
        let c = choose|c: Seq<int>| #[trigger] is_chain(ps, c) && c[0] == j && c.last() == k;
        lemma_chain_without(ps, q, c);
    }
}

proof fn lemma_joined_without(ps: Seq<Pair>, q: Pair, s: SiteView, t: SiteView)
    requires
        !structural(q),
    ensures
        sites_joined(ps.push(q), s, t) == sites_joined(ps, s, t),
{
    let ps2 = ps.push(q);
    if sites_joined(ps2, s, t) {
        let (j, l) = choose|j: int, l: int| at_site(ps2, s, j) && at_site(ps2, t, l) && #[trigger] pair_conn(ps2, j, l);
        lemma_conn_without(ps, q, j, l);
        assert(j != ps.len() && l != ps.len());
        assert(ps2[j] == ps[j] && ps2[l] == ps[l]);
        assert(at_site(ps, s, j) && at_site(ps, t, l));
    }
    if sites_joined(ps, s, t) {
        let (j, l) = choose|j: int, l: int| at_site(ps, s, j) && at_site(ps, t, l) && #[trigger] pair_conn(ps, j, l);
        lemma_conn_without(ps, q, j, l);
        assert(ps2[j] == ps[j] && ps2[l] == ps[l]);
        assert(at_site(ps2, s, j) && at_site(ps2, t, l));
    }
}

/// A pair with name evidence alone never brings two pairs into one review group:
/// adding one leaves every relation between the other pairs as it was.
pub proof fn law_names_cannot_bridge(ps: Seq<Pair>, q: Pair, i: int, k: int)
    requires
        !structural(q),
        0 <= i < ps.len(),
        0 <= k < ps.len(),
    ensures
        same_group(ps.push(q), i, k) == same_group(ps, i, k),
{
    let ps2 = ps.push(q);
    assert(ps2[i] == ps[i] && ps2[k] == ps[k]);
    lemma_joined_without(ps, q, ps[i].a@, ps[i].b@);
    lemma_joined_without(ps, q, ps[k].a@, ps[k].b@);
    lemma_joined_without(ps, q, ps[i].a@, ps[k].a@);
}

/// Groups with structural evidence come before groups with names alone.
pub proof fn law_structural_groups_first(ps: Seq<Pair>, gs: Seq<Seq<int>>, k: int, l: int)
    requires
        grouping_ok(ps, gs),
        0 <= k < l < gs.len(),
        kinds(ps, gs[l]) > 0,
    ensures
        kinds(ps, gs[k]) > 0,
{
    assert(group_lt(ps, gs[k], gs[l]));
}

/// A pair whose two sites no structural evidence joins forms a group of its own.
pub proof fn law_lone_name_pair(ps: Seq<Pair>, gs: Seq<Seq<int>>, k: int, x: int)
    requires
        grouping_ok(ps, gs),
        0 <= k < gs.len(),
        0 <= x < gs[k].len(),
        !joined(ps, gs[k][x]),
    ensures
        gs[k].len() == 1,
{
    if gs[k].len() > 1 {
        let y = if x == 0 { 1int } else { 0int };
        assert(same_group(ps, gs[k][x], gs[k][y]));
        assert(gs[k][x] != gs[k][y]);
    }
}



/// Whether every function's lines are in order, as `enclosing` needs.
pub fn lines_in_order(ex: &Extraction) -> (r: bool)
    ensures
        r == lines_ordered(ex.fns@),
{
    let mut i: usize = 0;
    while i < ex.fns.len()
        invariant
            i <= ex.fns@.len(),
            forall|j: int| 0 <= j < i ==> #[trigger] ex.fns@[j].start <= ex.fns@[j].end,
        decreases ex.fns@.len() - i,
    {
        if ex.fns[i].start > ex.fns[i].end {
            return false;
        }
        i += 1;
    }
    true
}


// -------------------------------------------------------------- group summaries

pub open spec fn site_views(v: Seq<Site>) -> Seq<SiteView> {
    v.map_values(|s: Site| s@)
}

pub open spec fn sites_sorted(v: Seq<SiteView>) -> bool {
    forall|x: int, y: int| 0 <= x < y < v.len() ==> site_lt(#[trigger] v[x], #[trigger] v[y])
}

/// The sites of the pairs `g` lists, both sides of each.
pub open spec fn group_site_set(ps: Seq<Pair>, g: Seq<int>) -> Set<SiteView> {
    Set::new(|s: SiteView| exists|x: int| 0 <= x < g.len() && (#[trigger] ps[g[x]].a@ == s || ps[g[x]].b@ == s))
}

/// Adds `s` to the sorted list of distinct sites.
fn insert_site(v: &mut Vec<Site>, s: &Site)
    requires
        sites_sorted(site_views(old(v)@)),
    ensures
        sites_sorted(site_views(final(v)@)),
        site_views(final(v)@).to_set() == site_views(old(v)@).to_set().insert(s@),
{
    let ghost old_s = site_views(v@);
    let mut pos: usize = 0;
    while pos < v.len() && site_lt_exec(&v[pos], s)
        invariant
            old_s == site_views(v@),
            v@ == old(v)@,
            pos <= v@.len(),
            forall|x: int| 0 <= x < pos ==> site_lt(#[trigger] old_s[x], s@),
        decreases v@.len() - pos,
    {
        pos += 1;
    }
    if pos < v.len() && site_eq(&v[pos], s) {
        proof {
            assert(old_s[pos as int] == s@);
            assert(old_s.to_set().insert(s@) =~= old_s.to_set());
        }
        return ;
    }
    proof {
        if pos < old_s.len() {
            lemma_site_order(old_s[pos as int], s@, s@);
        }
    }
    v.insert(pos, s.copy());
    proof {
        let ns = site_views(v@);
        assert(ns =~= old_s.insert(pos as int, s@));
        assert forall|x: int, y: int| 0 <= x < y < ns.len() implies site_lt(#[trigger] ns[x], #[trigger] ns[y]) by {
            if y < pos {
            } else if x > pos {
                assert(ns[x] == old_s[x - 1] && ns[y] == old_s[y - 1]);
            } else if x == pos {
                assert(ns[y] == old_s[y - 1]);
                if y - 1 > pos {
                    assert(site_lt(old_s[pos as int], old_s[y - 1]));
                    lemma_site_order(s@, old_s[pos as int], old_s[y - 1]);
                }
            } else if y == pos {
            } else {
                assert(ns[y] == old_s[y - 1]);
                lemma_site_order(old_s[x], s@, old_s[pos as int]);
                if y - 1 > pos {
                    lemma_site_order(old_s[x], old_s[pos as int], old_s[y - 1]);
                }
            }
        }
        assert(ns.to_set() =~= old_s.to_set().insert(s@)) by {
            assert forall|t: SiteView| ns.to_set().contains(t) implies old_s.to_set().insert(s@).contains(t) by {
                let x = choose|x: int| 0 <= x < ns.len() && ns[x] == t;
                if x < pos {
                    assert(old_s[x] == t);
                } else if x > pos {
                    assert(old_s[x - 1] == t);
                }
            }
            assert forall|t: SiteView| old_s.to_set().insert(s@).contains(t) implies ns.to_set().contains(t) by {
                if t == s@ {
                    assert(ns[pos as int] == t);
                } else {
                    let x = choose|x: int| 0 <= x < old_s.len() && old_s[x] == t;
                    if x < pos {
                        assert(ns[x] == t);
                    } else {
                        assert(ns[x + 1] == t);
                    }
                }
            }
        }
    }
}

/// The sites of the pairs a group lists, sorted, each once.
pub fn group_sites(pairs: &[Pair], g: &Vec<usize>) -> (r: Vec<Site>)
    requires
        forall|x: int| 0 <= x < g@.len() ==> #[trigger] g@[x] < pairs@.len(),
    ensures
        sites_sorted(site_views(r@)),
        site_views(r@).to_set() == group_site_set(pairs@, int_seq(g@)),
{
    let ghost ps = pairs@;
    let ghost gi = int_seq(g@);
    let mut v: Vec<Site> = Vec::new();
    let mut k: usize = 0;
    assert(site_views(v@).to_set() =~= Set::<SiteView>::empty());
    while k < g.len()
        invariant
            ps == pairs@,
            gi == int_seq(g@),
            k <= g@.len(),
            forall|x: int| 0 <= x < g@.len() ==> #[trigger] g@[x] < pairs@.len(),
            sites_sorted(site_views(v@)),
            site_views(v@).to_set() == group_site_set(ps, gi.take(k as int)),
        decreases g@.len() - k,
    {
        let p = &pairs[g[k]];
        let ghost before = site_views(v@).to_set();
        insert_site(&mut v, &p.a);
        insert_site(&mut v, &p.b);
        proof {
            let t0 = gi.take(k as int);
            let t1 = gi.take(k + 1);
            assert(t1[k as int] == g@[k as int] as int);
            assert(site_views(v@).to_set() =~= group_site_set(ps, t1)) by {
                assert forall|s: SiteView| group_site_set(ps, t1).contains(s) implies site_views(v@).to_set().contains(s) by {
                    let x = choose|x: int| 0 <= x < t1.len() && (#[trigger] ps[t1[x]].a@ == s || ps[t1[x]].b@ == s);
                    if x < k {
                        assert(t0[x] == t1[x]);
                        assert(group_site_set(ps, t0).contains(s));
                    }
                }
                assert forall|s: SiteView| site_views(v@).to_set().contains(s) implies group_site_set(ps, t1).contains(s) by {
                    if before.contains(s) {
                        let x = choose|x: int| 0 <= x < t0.len() && (#[trigger] ps[t0[x]].a@ == s || ps[t0[x]].b@ == s);
                        assert(t1[x] == t0[x]);
                    } else {
                        assert(ps[t1[k as int]].a@ == s || ps[t1[k as int]].b@ == s);
                    }
                }
            }
        }
        k += 1;
    }
    assert(gi.take(g@.len() as int) =~= gi);
    v
}

pub open spec fn any_name(ps: Seq<Pair>, g: Seq<int>) -> bool {
    exists|x: int| 0 <= x < g.len() && #[trigger] ps[g[x]].evidence.name
}

/// Every kind of evidence among the pairs a group lists.
pub fn group_evidence(pairs: &[Pair], g: &Vec<usize>) -> (r: Evidence)
    requires
        forall|x: int| 0 <= x < g@.len() ==> #[trigger] g@[x] < pairs@.len(),
    ensures
        r.name == any_name(pairs@, int_seq(g@)),
        r.body == any_body(pairs@, int_seq(g@)),
        r.block == any_block(pairs@, int_seq(g@)),
        r.clone == any_clone(pairs@, int_seq(g@)),
{
    let ghost ps = pairs@;
    let ghost gi = int_seq(g@);
    let mut e = Evidence { name: false, body: false, block: false, clone: false };
    let mut k: usize = 0;
    while k < g.len()
        invariant
            ps == pairs@,
            gi == int_seq(g@),
            k <= g@.len(),
            forall|x: int| 0 <= x < g@.len() ==> #[trigger] g@[x] < pairs@.len(),
            e.name == exists|x: int| 0 <= x < k && #[trigger] ps[gi[x]].evidence.name,
            e.body == exists|x: int| 0 <= x < k && #[trigger] ps[gi[x]].evidence.body,
            e.block == exists|x: int| 0 <= x < k && #[trigger] ps[gi[x]].evidence.block,
            e.clone == exists|x: int| 0 <= x < k && #[trigger] ps[gi[x]].evidence.clone,
        decreases g@.len() - k,
    {
        let p = &pairs[g[k]];
        assert(gi[k as int] == g@[k as int] as int);
        e.name = e.name || p.evidence.name;
        e.body = e.body || p.evidence.body;
        e.block = e.block || p.evidence.block;
        e.clone = e.clone || p.evidence.clone;
        k += 1;
    }
    e
}

} // verus!
