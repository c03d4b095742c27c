//! Evidence from the detectors gathered into pairs of enclosing functions.
use crate::audit::{
    EvidenceKind, Evidence, Fragment, Pair, Site, SiteView, enclosing, enclosing_spec, lines_ordered,
    lemma_site_order, site_eq, site_lt, site_lt_exec,
};
use crate::extract::{Extraction, FnRecord};
use vstd::prelude::*;

verus! {

// -------------------------------------------------------------- collecting evidence

/// Evidence between two line ranges as a detector reports it.
pub struct Finding {
    pub a: Site,
    pub b: Site,
    pub kind: EvidenceKind,
    /// Name similarity in thousandths; 0 where the evidence is not a name.
    pub name_score: u32,
}

/// Line numbers are ordered and a range's length fits in `u32`.
pub open spec fn finding_fits(f: Finding) -> bool {
    &&& f.a.start <= f.a.end
    &&& f.b.start <= f.b.end
    &&& f.a.end - f.a.start < u32::MAX
    &&& f.b.end - f.b.start < u32::MAX
}

pub type PairKey = (SiteView, SiteView);

pub open spec fn key_lt(x: PairKey, y: PairKey) -> bool {
    site_lt(x.0, y.0) || (x.0 == y.0 && site_lt(x.1, y.1))
}

proof fn lemma_key_order(x: PairKey, y: PairKey, z: PairKey)
    ensures
        !key_lt(x, x),
        x == y || key_lt(x, y) || key_lt(y, x),
        !(key_lt(x, y) && key_lt(y, x)),
        key_lt(x, y) && key_lt(y, z) ==> key_lt(x, z),
{
    lemma_site_order(x.0, y.0, z.0);
    lemma_site_order(x.1, y.1, z.1);
    lemma_site_order(y.0, x.0, z.0);
    lemma_site_order(x.0, z.0, y.0);
}

/// Both sites widened to their enclosing functions, the smaller first.
#[verifier::opaque]
pub open spec fn finding_key(fns: Seq<FnRecord>, f: Finding) -> PairKey {
    let a = enclosing_spec(fns, f.a@);
    let b = enclosing_spec(fns, f.b@);
    if site_lt(b, a) {
        (b, a)
    } else {
        (a, b)
    }
}

/// Lines matched by a finding: the shorter of its two ranges.
pub open spec fn raw_lines(f: Finding) -> int {
    let la = f.a.end - f.a.start + 1;
    let lb = f.b.end - f.b.start + 1;
    if la < lb {
        la
    } else {
        lb
    }
}

pub type FragmentView = (SiteView, SiteView, EvidenceKind);

pub open spec fn fragment_view(f: Fragment) -> FragmentView {
    (f.a@, f.b@, f.kind)
}

pub open spec fn finding_fragment(f: Finding) -> FragmentView {
    (f.a@, f.b@, f.kind)
}

/// The fragments of pair `p`, as values.
pub open spec fn frag_views(p: Pair) -> Seq<FragmentView> {
    p.fragments@.map_values(|f: Fragment| fragment_view(f))
}

pub open spec fn pair_key(p: Pair) -> PairKey {
    (p.a@, p.b@)
}

/// The fragments among the first `t` findings whose key is `k`, in order.
pub open spec fn frags_for(fns: Seq<FnRecord>, fs: Seq<Finding>, k: PairKey, t: int) -> Seq<FragmentView>
    decreases t,
{
    if t <= 0 {
        seq![]
    } else {
        frags_for(fns, fs, k, t - 1) + if finding_key(fns, fs[t - 1]) == k {
            seq![finding_fragment(fs[t - 1])]
        } else {
            seq![]
        }
    }
}

/// Longest structural match among the first `t` findings with key `k`; 0 if none.
pub open spec fn lines_for(fns: Seq<FnRecord>, fs: Seq<Finding>, k: PairKey, t: int) -> int
    decreases t,
{
    if t <= 0 {
        0
    } else {
        let m = lines_for(fns, fs, k, t - 1);
        let f = fs[t - 1];
        if finding_key(fns, f) == k && f.kind != EvidenceKind::Name && raw_lines(f) > m {
            raw_lines(f)
        } else {
            m
        }
    }
}

/// Best name score among the first `t` findings with key `k`; 0 if none.
pub open spec fn score_for(fns: Seq<FnRecord>, fs: Seq<Finding>, k: PairKey, t: int) -> int
    decreases t,
{
    if t <= 0 {
        0
    } else {
        let m = score_for(fns, fs, k, t - 1);
        let f = fs[t - 1];
        if finding_key(fns, f) == k && f.name_score > m {
            f.name_score as int
        } else {
            m
        }
    }
}

/// Some finding among the first `t` with key `k` has evidence `kind`.
pub open spec fn kind_for(fns: Seq<FnRecord>, fs: Seq<Finding>, k: PairKey, kind: EvidenceKind, t: int) -> bool {
    exists|u: int| 0 <= u < t && finding_key(fns, #[trigger] fs[u]) == k && fs[u].kind == kind
}

/// Pair `p` gathers exactly the first `t` findings with its key.
#[verifier::opaque]
pub open spec fn pair_ok(fns: Seq<FnRecord>, fs: Seq<Finding>, t: int, p: Pair) -> bool {
    let k = pair_key(p);
    &&& p.fragments@.map_values(|f: Fragment| fragment_view(f)) == frags_for(fns, fs, k, t)
    &&& p.evidence.name == kind_for(fns, fs, k, EvidenceKind::Name, t)
    &&& p.evidence.body == kind_for(fns, fs, k, EvidenceKind::Body, t)
    &&& p.evidence.block == kind_for(fns, fs, k, EvidenceKind::Block, t)
    &&& p.evidence.clone == kind_for(fns, fs, k, EvidenceKind::Clone, t)
    &&& p.lines == lines_for(fns, fs, k, t)
    &&& p.name_score == score_for(fns, fs, k, t)
}

/// The pairs come in strictly increasing key order.
pub open spec fn keys_sorted(ps: Seq<Pair>) -> bool {
    forall|x: int, y: int| 0 <= x < y < ps.len() ==> key_lt(pair_key(#[trigger] ps[x]), pair_key(#[trigger] ps[y]))
}

/// Every pair gathers exactly the first `t` findings with its key.
pub open spec fn all_pairs_ok(fns: Seq<FnRecord>, fs: Seq<Finding>, t: int, ps: Seq<Pair>) -> bool {
    forall|x: int| 0 <= x < ps.len() ==> #[trigger] pair_ok(fns, fs, t, ps[x])
}

/// Every pair's key is the key of one of the first `t` findings.
pub open spec fn keys_found(fns: Seq<FnRecord>, fs: Seq<Finding>, t: int, ps: Seq<Pair>) -> bool {
    forall|x: int| 0 <= x < ps.len() ==> exists|u: int| 0 <= u < t && #[trigger] finding_key(fns, fs[u]) == pair_key(#[trigger] ps[x])
}

/// Every one of the first `t` findings has a pair with its key.
pub open spec fn findings_kept(fns: Seq<FnRecord>, fs: Seq<Finding>, t: int, ps: Seq<Pair>) -> bool {
    forall|u: int| 0 <= u < t ==> exists|x: int| 0 <= x < ps.len() && #[trigger] pair_key(ps[x]) == #[trigger] finding_key(fns, fs[u])
}

/// `ps` holds one pair per distinct key among the first `t` findings, in key order,
/// each gathering the findings with its key.
pub open spec fn collected_ok(fns: Seq<FnRecord>, fs: Seq<Finding>, t: int, ps: Seq<Pair>) -> bool {
    &&& keys_sorted(ps)
    &&& all_pairs_ok(fns, fs, t, ps)
    &&& keys_found(fns, fs, t, ps)
    &&& findings_kept(fns, fs, t, ps)
}

proof fn lemma_absent(fns: Seq<FnRecord>, fs: Seq<Finding>, k: PairKey, t: int)
    requires
        forall|u: int| 0 <= u < t ==> finding_key(fns, #[trigger] fs[u]) != k,
    ensures
        frags_for(fns, fs, k, t) == Seq::<FragmentView>::empty(),
        lines_for(fns, fs, k, t) == 0,
        score_for(fns, fs, k, t) == 0,
        !kind_for(fns, fs, k, EvidenceKind::Name, t),
        !kind_for(fns, fs, k, EvidenceKind::Body, t),
        !kind_for(fns, fs, k, EvidenceKind::Block, t),
        !kind_for(fns, fs, k, EvidenceKind::Clone, t),
    decreases t,
{
    if t > 0 {
        lemma_absent(fns, fs, k, t - 1);
        assert(finding_key(fns, fs[t - 1]) != k);
        assert(frags_for(fns, fs, k, t) =~= frags_for(fns, fs, k, t - 1));
    }
}

proof fn lemma_kind_step(fns: Seq<FnRecord>, fs: Seq<Finding>, k: PairKey, kind: EvidenceKind, t: int)
    requires
        0 <= t < fs.len(),
    ensures
        kind_for(fns, fs, k, kind, t + 1) == (kind_for(fns, fs, k, kind, t) || (finding_key(fns, fs[t]) == k
            && fs[t].kind == kind)),
{
    if kind_for(fns, fs, k, kind, t + 1) && !(finding_key(fns, fs[t]) == k && fs[t].kind == kind) {
        let u = choose|u: int| 0 <= u < t + 1 && finding_key(fns, #[trigger] fs[u]) == k && fs[u].kind == kind;
        assert(u < t);
    }
    if finding_key(fns, fs[t]) == k && fs[t].kind == kind {
        assert(0 <= t < t + 1 && finding_key(fns, fs[t]) == k && fs[t].kind == kind);
    }
}

/// The key of pair `p` comes before `(a, b)`.
fn key_before(p: &Pair, a: &Site, b: &Site) -> (r: bool)
    ensures
        r == key_lt(pair_key(*p), (a@, b@)),
{
    site_lt_exec(&p.a, a) || (site_eq(&p.a, a) && site_lt_exec(&p.b, b))
}

proof fn lemma_other_key(fns: Seq<FnRecord>, fs: Seq<Finding>, k2: PairKey, t: int)
    requires
        0 <= t < fs.len(),
        finding_key(fns, fs[t]) != k2,
    ensures
        frags_for(fns, fs, k2, t + 1) == frags_for(fns, fs, k2, t),
        lines_for(fns, fs, k2, t + 1) == lines_for(fns, fs, k2, t),
        score_for(fns, fs, k2, t + 1) == score_for(fns, fs, k2, t),
        kind_for(fns, fs, k2, EvidenceKind::Name, t + 1) == kind_for(fns, fs, k2, EvidenceKind::Name, t),
        kind_for(fns, fs, k2, EvidenceKind::Body, t + 1) == kind_for(fns, fs, k2, EvidenceKind::Body, t),
        kind_for(fns, fs, k2, EvidenceKind::Block, t + 1) == kind_for(fns, fs, k2, EvidenceKind::Block, t),
        kind_for(fns, fs, k2, EvidenceKind::Clone, t + 1) == kind_for(fns, fs, k2, EvidenceKind::Clone, t),
{
    assert(frags_for(fns, fs, k2, t + 1) =~= frags_for(fns, fs, k2, t));
    lemma_kind_step(fns, fs, k2, EvidenceKind::Name, t);
    lemma_kind_step(fns, fs, k2, EvidenceKind::Body, t);
    lemma_kind_step(fns, fs, k2, EvidenceKind::Block, t);
    lemma_kind_step(fns, fs, k2, EvidenceKind::Clone, t);
}

/// A pair whose key is not the new finding's keeps what it gathered.
proof fn lemma_pair_ok_other(fns: Seq<FnRecord>, fs: Seq<Finding>, t: int, p: Pair)
    requires
        0 <= t < fs.len(),
        pair_ok(fns, fs, t, p),
        pair_key(p) != finding_key(fns, fs[t]),
    ensures
        pair_ok(fns, fs, t + 1, p),
{
    reveal(pair_ok);
    lemma_other_key(fns, fs, pair_key(p), t);
}

/// In key order, only the pair at `pos` has the key of the pair at `pos`.
proof fn lemma_sorted_distinct(ps: Seq<Pair>, pos: int)
    requires
        keys_sorted(ps),
        0 <= pos < ps.len(),
    ensures
        forall|x: int| 0 <= x < ps.len() && x != pos ==> pair_key(#[trigger] ps[x]) != pair_key(ps[pos]),
{
    assert forall|x: int| 0 <= x < ps.len() && x != pos implies pair_key(#[trigger] ps[x]) != pair_key(ps[pos]) by {
        lemma_key_order(pair_key(ps[x]), pair_key(ps[pos]), pair_key(ps[pos]));
        if x < pos {
            assert(key_lt(pair_key(ps[x]), pair_key(ps[pos])));
        } else {
            assert(key_lt(pair_key(ps[pos]), pair_key(ps[x])));
        }
    }
}

/// Replacing the pair with the new finding's key keeps the collection right.
proof fn lemma_collect_update(
    fns: Seq<FnRecord>,
    fs: Seq<Finding>,
    t: int,
    old_out: Seq<Pair>,
    out: Seq<Pair>,
    pos: int,
)
    requires
        0 <= t < fs.len(),
        collected_ok(fns, fs, t, old_out),
        0 <= pos < old_out.len(),
        pair_key(old_out[pos]) == finding_key(fns, fs[t]),
        out.len() == old_out.len(),
        forall|x: int| 0 <= x < out.len() && x != pos ==> out[x] == old_out[x],
        pair_key(out[pos]) == finding_key(fns, fs[t]),
        pair_ok(fns, fs, t + 1, out[pos]),
    ensures
        collected_ok(fns, fs, t + 1, out),
{
    assert forall|x: int| 0 <= x < out.len() implies #[trigger] pair_key(out[x]) == pair_key(old_out[x]) by {}
    lemma_update_sorted(old_out, out);
    lemma_update_pairs(fns, fs, t, old_out, out, pos);
    lemma_update_found(fns, fs, t, old_out, out, pos);
    lemma_update_kept(fns, fs, t, old_out, out, pos);
}

proof fn lemma_update_sorted(old_out: Seq<Pair>, out: Seq<Pair>)
    requires
        keys_sorted(old_out),
        out.len() == old_out.len(),
        forall|x: int| 0 <= x < out.len() ==> #[trigger] pair_key(out[x]) == pair_key(old_out[x]),
    ensures
        keys_sorted(out),
{
    assert forall|x: int, y: int| 0 <= x < y < out.len() implies key_lt(
        pair_key(#[trigger] out[x]),
        pair_key(#[trigger] out[y]),
    ) by {
        assert(pair_key(out[x]) == pair_key(old_out[x]));
        assert(pair_key(out[y]) == pair_key(old_out[y]));
    }
}

proof fn lemma_update_pairs(fns: Seq<FnRecord>, fs: Seq<Finding>, t: int, old_out: Seq<Pair>, out: Seq<Pair>, pos: int)
    requires
        0 <= t < fs.len(),
        keys_sorted(old_out),
        all_pairs_ok(fns, fs, t, old_out),
        0 <= pos < old_out.len(),
        pair_key(old_out[pos]) == finding_key(fns, fs[t]),
        out.len() == old_out.len(),
        forall|x: int| 0 <= x < out.len() && x != pos ==> out[x] == old_out[x],
        pair_ok(fns, fs, t + 1, out[pos]),
    ensures
        all_pairs_ok(fns, fs, t + 1, out),
{
    lemma_sorted_distinct(old_out, pos);
    assert forall|x: int| 0 <= x < out.len() implies #[trigger] pair_ok(fns, fs, t + 1, out[x]) by {
        if x != pos {
            assert(pair_ok(fns, fs, t, old_out[x]));
            assert(pair_key(old_out[x]) != pair_key(old_out[pos]));
            lemma_pair_ok_other(fns, fs, t, old_out[x]);
        }
    }
}

proof fn lemma_update_found(fns: Seq<FnRecord>, fs: Seq<Finding>, t: int, old_out: Seq<Pair>, out: Seq<Pair>, pos: int)
    requires
        0 <= t < fs.len(),
        keys_found(fns, fs, t, old_out),
        out.len() == old_out.len(),
        0 <= pos < out.len(),
        forall|x: int| 0 <= x < out.len() && x != pos ==> out[x] == old_out[x],
        pair_key(out[pos]) == finding_key(fns, fs[t]),
    ensures
        keys_found(fns, fs, t + 1, out),
{
    assert forall|x: int| 0 <= x < out.len() implies exists|u: int|
        0 <= u < t + 1 && #[trigger] finding_key(fns, fs[u]) == pair_key(#[trigger] out[x]) by {
        if x == pos {
            assert(finding_key(fns, fs[t]) == pair_key(out[x]));
        } else {
            assert(out[x] == old_out[x]);
            let u = choose|u: int| 0 <= u < t && #[trigger] finding_key(fns, fs[u]) == pair_key(old_out[x]);
            assert(finding_key(fns, fs[u]) == pair_key(out[x]));
        }
    }
}

proof fn lemma_update_kept(fns: Seq<FnRecord>, fs: Seq<Finding>, t: int, old_out: Seq<Pair>, out: Seq<Pair>, pos: int)
    requires
        findings_kept(fns, fs, t, old_out),
        out.len() == old_out.len(),
        0 <= pos < out.len(),
        forall|x: int| 0 <= x < out.len() ==> #[trigger] pair_key(out[x]) == pair_key(old_out[x]),
        pair_key(out[pos]) == finding_key(fns, fs[t]),
    ensures
        findings_kept(fns, fs, t + 1, out),
{
    assert forall|u: int| 0 <= u < t + 1 implies exists|x: int|
        0 <= x < out.len() && #[trigger] pair_key(out[x]) == #[trigger] finding_key(fns, fs[u]) by {
        if u < t {
            let x = choose|x: int|
                0 <= x < old_out.len() && #[trigger] pair_key(old_out[x]) == #[trigger] finding_key(fns, fs[u]);
            assert(pair_key(out[x]) == pair_key(old_out[x]));
        } else {
            assert(pair_key(out[pos]) == finding_key(fns, fs[u]));
        }
    }
}

/// A key below every later one and above every earlier one is absent from a
/// collection in key order.
proof fn lemma_key_absent(ps: Seq<Pair>, k: PairKey, pos: int)
    requires
        keys_sorted(ps),
        0 <= pos <= ps.len(),
        forall|x: int| 0 <= x < pos ==> key_lt(pair_key(#[trigger] ps[x]), k),
        pos < ps.len() ==> key_lt(k, pair_key(ps[pos])),
    ensures
        forall|x: int| 0 <= x < ps.len() ==> pair_key(#[trigger] ps[x]) != k,
        forall|x: int| pos <= x < ps.len() ==> key_lt(k, pair_key(#[trigger] ps[x])),
{
    assert forall|x: int| pos <= x < ps.len() implies key_lt(k, pair_key(#[trigger] ps[x])) by {
        if x > pos {
            assert(key_lt(pair_key(ps[pos]), pair_key(ps[x])));
            lemma_key_order(k, pair_key(ps[pos]), pair_key(ps[x]));
        }
    }
    assert forall|x: int| 0 <= x < ps.len() implies pair_key(#[trigger] ps[x]) != k by {
        lemma_key_order(k, k, k);
    }
}

/// Inserting a fresh pair for a new key keeps the collection right.
proof fn lemma_collect_insert(
    fns: Seq<FnRecord>,
    fs: Seq<Finding>,
    t: int,
    old_out: Seq<Pair>,
    out: Seq<Pair>,
    pos: int,
)
    requires
        0 <= t < fs.len(),
        collected_ok(fns, fs, t, old_out),
        0 <= pos <= old_out.len(),
        forall|x: int| 0 <= x < old_out.len() ==> pair_key(#[trigger] old_out[x]) != finding_key(fns, fs[t]),
        forall|x: int| 0 <= x < pos ==> key_lt(pair_key(#[trigger] old_out[x]), finding_key(fns, fs[t])),
        forall|x: int| pos <= x < old_out.len() ==> key_lt(finding_key(fns, fs[t]), pair_key(#[trigger] old_out[x])),
        out == old_out.insert(pos, out[pos]),
        pair_key(out[pos]) == finding_key(fns, fs[t]),
        pair_ok(fns, fs, t + 1, out[pos]),
    ensures
        collected_ok(fns, fs, t + 1, out),
{
    lemma_insert_sorted(fns, fs, t, old_out, out, pos);
    lemma_insert_pairs(fns, fs, t, old_out, out, pos);
    lemma_insert_found(fns, fs, t, old_out, out, pos);
    lemma_insert_kept(fns, fs, t, old_out, out, pos);
}

proof fn lemma_insert_sorted(fns: Seq<FnRecord>, fs: Seq<Finding>, t: int, old_out: Seq<Pair>, out: Seq<Pair>, pos: int)
    requires
        0 <= t < fs.len(),
        keys_sorted(old_out),
        0 <= pos <= old_out.len(),
        forall|x: int| 0 <= x < pos ==> key_lt(pair_key(#[trigger] old_out[x]), finding_key(fns, fs[t])),
        forall|x: int| pos <= x < old_out.len() ==> key_lt(finding_key(fns, fs[t]), pair_key(#[trigger] old_out[x])),
        out == old_out.insert(pos, out[pos]),
        pair_key(out[pos]) == finding_key(fns, fs[t]),
    ensures
        keys_sorted(out),
{
    let k = finding_key(fns, fs[t]);
    assert forall|x: int, y: int| 0 <= x < y < out.len() implies key_lt(
        pair_key(#[trigger] out[x]),
        pair_key(#[trigger] out[y]),
    ) by {
        if y < pos {
            assert(out[x] == old_out[x] && out[y] == old_out[y]);
        } else if x > pos {
            assert(out[x] == old_out[x - 1] && out[y] == old_out[y - 1]);
        } else if x < pos && y > pos {
            assert(out[x] == old_out[x] && out[y] == old_out[y - 1]);
            lemma_key_order(pair_key(old_out[x]), k, pair_key(old_out[y - 1]));
        } else if x == pos {
            assert(out[y] == old_out[y - 1]);
        } else {
            assert(out[x] == old_out[x]);
        }
    }
}

proof fn lemma_insert_pairs(fns: Seq<FnRecord>, fs: Seq<Finding>, t: int, old_out: Seq<Pair>, out: Seq<Pair>, pos: int)
    requires
        0 <= t < fs.len(),
        all_pairs_ok(fns, fs, t, old_out),
        0 <= pos <= old_out.len(),
        forall|x: int| 0 <= x < old_out.len() ==> pair_key(#[trigger] old_out[x]) != finding_key(fns, fs[t]),
        out == old_out.insert(pos, out[pos]),
        pair_ok(fns, fs, t + 1, out[pos]),
    ensures
        all_pairs_ok(fns, fs, t + 1, out),
{
    assert forall|x: int| 0 <= x < out.len() implies #[trigger] pair_ok(fns, fs, t + 1, out[x]) by {
        if x != pos {
            let x0 = if x < pos {
                x
            } else {
                x - 1
            };
            assert(out[x] == old_out[x0]);
            assert(pair_ok(fns, fs, t, old_out[x0]));
            lemma_pair_ok_other(fns, fs, t, old_out[x0]);
        }
    }
}

proof fn lemma_insert_found(fns: Seq<FnRecord>, fs: Seq<Finding>, t: int, old_out: Seq<Pair>, out: Seq<Pair>, pos: int)
    requires
        0 <= t < fs.len(),
        keys_found(fns, fs, t, old_out),
        0 <= pos <= old_out.len(),
        out == old_out.insert(pos, out[pos]),
        pair_key(out[pos]) == finding_key(fns, fs[t]),
    ensures
        keys_found(fns, fs, t + 1, out),
{
    assert forall|x: int| 0 <= x < out.len() implies exists|u: int|
        0 <= u < t + 1 && #[trigger] finding_key(fns, fs[u]) == pair_key(#[trigger] out[x]) by {
        if x == pos {
            assert(finding_key(fns, fs[t]) == pair_key(out[x]));
        } else {
            let x0 = if x < pos {
                x
            } else {
                x - 1
            };
            assert(out[x] == old_out[x0]);
            let u = choose|u: int| 0 <= u < t && #[trigger] finding_key(fns, fs[u]) == pair_key(old_out[x0]);
            assert(finding_key(fns, fs[u]) == pair_key(out[x]));
        }
    }
}

proof fn lemma_insert_kept(fns: Seq<FnRecord>, fs: Seq<Finding>, t: int, old_out: Seq<Pair>, out: Seq<Pair>, pos: int)
    requires
        0 <= t < fs.len(),
        findings_kept(fns, fs, t, old_out),
        0 <= pos <= old_out.len(),
        out == old_out.insert(pos, out[pos]),
        pair_key(out[pos]) == finding_key(fns, fs[t]),
    ensures
        findings_kept(fns, fs, t + 1, out),
{
    assert forall|u: int| 0 <= u < t + 1 implies exists|x: int|
        0 <= x < out.len() && #[trigger] pair_key(out[x]) == #[trigger] finding_key(fns, fs[u]) by {
        if u < t {
            let x = choose|x: int|
                0 <= x < old_out.len() && #[trigger] pair_key(old_out[x]) == #[trigger] finding_key(fns, fs[u]);
            if x < pos {
                assert(out[x] == old_out[x]);
            } else {
                assert(out[x + 1] == old_out[x]);
            }
        } else {
            assert(pair_key(out[pos]) == finding_key(fns, fs[u]));
        }
    }
}

fn kind_is(kind: EvidenceKind, other: EvidenceKind) -> (r: bool)
    ensures
        r == (kind == other),
{
    match (kind, other) {
        (EvidenceKind::Name, EvidenceKind::Name) => true,
        (EvidenceKind::Body, EvidenceKind::Body) => true,
        (EvidenceKind::Block, EvidenceKind::Block) => true,
        (EvidenceKind::Clone, EvidenceKind::Clone) => true,
        _ => false,
    }
}

#[verifier::opaque]
spec fn collected_hidden(fns: Seq<FnRecord>, fs: Seq<Finding>, t: int, ps: Seq<Pair>) -> bool {
    collected_ok(fns, fs, t, ps)
}

proof fn lemma_hidden_pair(fns: Seq<FnRecord>, fs: Seq<Finding>, t: int, ps: Seq<Pair>, x: int)
    requires
        collected_hidden(fns, fs, t, ps),
        0 <= x < ps.len(),
    ensures
        pair_ok(fns, fs, t, ps[x]),
{
    reveal(collected_hidden);
}

/// Adding a finding to the pair that already has its key.
proof fn lemma_updated_pair(fns: Seq<FnRecord>, fs: Seq<Finding>, t: int, old_p: Pair, p: Pair)
    requires
        0 <= t < fs.len(),
        pair_ok(fns, fs, t, old_p),
        pair_key(old_p) == finding_key(fns, fs[t]),
        pair_key(p) == pair_key(old_p),
        p.fragments@.map_values(|f: Fragment| fragment_view(f)) == old_p.fragments@.map_values(
            |f: Fragment| fragment_view(f),
        ).push(finding_fragment(fs[t])),
        p.evidence.name == (old_p.evidence.name || fs[t].kind == EvidenceKind::Name),
        p.evidence.body == (old_p.evidence.body || fs[t].kind == EvidenceKind::Body),
        p.evidence.block == (old_p.evidence.block || fs[t].kind == EvidenceKind::Block),
        p.evidence.clone == (old_p.evidence.clone || fs[t].kind == EvidenceKind::Clone),
        p.lines == (if fs[t].kind != EvidenceKind::Name && raw_lines(fs[t]) > old_p.lines {
            raw_lines(fs[t])
        } else {
            old_p.lines as int
        }),
        p.name_score == (if fs[t].name_score > old_p.name_score {
            fs[t].name_score
        } else {
            old_p.name_score
        }),
    ensures
        pair_ok(fns, fs, t + 1, p),
{
    reveal(pair_ok);
    let k = pair_key(p);
    lemma_kind_step(fns, fs, k, EvidenceKind::Name, t);
    lemma_kind_step(fns, fs, k, EvidenceKind::Body, t);
    lemma_kind_step(fns, fs, k, EvidenceKind::Block, t);
    lemma_kind_step(fns, fs, k, EvidenceKind::Clone, t);
    assert(frags_for(fns, fs, k, t + 1) == frags_for(fns, fs, k, t).push(finding_fragment(fs[t])));
}

proof fn lemma_hidden_update(fns: Seq<FnRecord>, fs: Seq<Finding>, t: int, old_out: Seq<Pair>, out: Seq<Pair>, pos: int)
    requires
        0 <= t < fs.len(),
        collected_hidden(fns, fs, t, old_out),
        0 <= pos < old_out.len(),
        pair_key(old_out[pos]) == finding_key(fns, fs[t]),
        out.len() == old_out.len(),
        forall|x: int| 0 <= x < out.len() && x != pos ==> out[x] == old_out[x],
        pair_key(out[pos]) == finding_key(fns, fs[t]),
        pair_ok(fns, fs, t + 1, out[pos]),
    ensures
        collected_hidden(fns, fs, t + 1, out),
{
    reveal(collected_hidden);
    lemma_collect_update(fns, fs, t, old_out, out, pos);
}

proof fn lemma_hidden_insert(fns: Seq<FnRecord>, fs: Seq<Finding>, t: int, old_out: Seq<Pair>, out: Seq<Pair>, pos: int)
    requires
        0 <= t < fs.len(),
        collected_hidden(fns, fs, t, old_out),
        0 <= pos <= old_out.len(),
        forall|x: int| 0 <= x < pos ==> key_lt(pair_key(#[trigger] old_out[x]), finding_key(fns, fs[t])),
        pos < old_out.len() ==> !key_lt(pair_key(old_out[pos]), finding_key(fns, fs[t])) && pair_key(old_out[pos])
            != finding_key(fns, fs[t]),
        out == old_out.insert(pos, out[pos]),
        pair_key(out[pos]) == finding_key(fns, fs[t]),
        out[pos].fragments@.map_values(|f: Fragment| fragment_view(f)) == seq![finding_fragment(fs[t])],
        out[pos].evidence.name == (fs[t].kind == EvidenceKind::Name),
        out[pos].evidence.body == (fs[t].kind == EvidenceKind::Body),
        out[pos].evidence.block == (fs[t].kind == EvidenceKind::Block),
        out[pos].evidence.clone == (fs[t].kind == EvidenceKind::Clone),
        out[pos].lines == (if fs[t].kind == EvidenceKind::Name {
            0
        } else {
            raw_lines(fs[t])
        }),
        out[pos].name_score == fs[t].name_score,
    ensures
        collected_hidden(fns, fs, t + 1, out),
{
    reveal(collected_hidden);
    let k = finding_key(fns, fs[t]);
    if pos < old_out.len() {
        lemma_key_order(pair_key(old_out[pos]), k, k);
    }
    lemma_key_absent(old_out, k, pos);
    assert forall|u: int| 0 <= u < t implies finding_key(fns, #[trigger] fs[u]) != k by {
        let x = choose|x: int| 0 <= x < old_out.len() && #[trigger] pair_key(old_out[x]) == #[trigger] finding_key(fns, fs[u]);
    }
    lemma_absent(fns, fs, k, t);
    lemma_kind_step(fns, fs, k, EvidenceKind::Name, t);
    lemma_kind_step(fns, fs, k, EvidenceKind::Body, t);
    lemma_kind_step(fns, fs, k, EvidenceKind::Block, t);
    lemma_kind_step(fns, fs, k, EvidenceKind::Clone, t);
    assert(frags_for(fns, fs, k, t + 1) =~= seq![finding_fragment(fs[t])]);
    assert(pair_ok(fns, fs, t + 1, out[pos])) by {
        reveal(pair_ok);
    }
    lemma_collect_insert(fns, fs, t, old_out, out, pos);
}

/// Both sites of `f` widened to their enclosing functions, the smaller first.
fn key_of(f: &Finding, ex: &Extraction) -> (r: (Site, Site))
    requires
        lines_ordered(ex.fns@),
    ensures
        (r.0@, r.1@) == finding_key(ex.fns@, *f),
{
    let ea = enclosing(f.a.copy(), ex);
    let eb = enclosing(f.b.copy(), ex);
    proof {
        reveal(finding_key);
    }
    if site_lt_exec(&eb, &ea) {
        (eb, ea)
    } else {
        (ea, eb)
    }
}

/// Lines matched by `f`.
fn lines_of(f: &Finding) -> (r: u32)
    requires
        finding_fits(*f),
    ensures
        r == raw_lines(*f),
{
    let la: u32 = f.a.end - f.a.start + 1;
    let lb: u32 = f.b.end - f.b.start + 1;
    if la < lb {
        la
    } else {
        lb
    }
}

/// Position of the first pair whose key is not below `(a, b)`.
fn key_position(out: &Vec<Pair>, a: &Site, b: &Site) -> (pos: usize)
    ensures
        pos <= out@.len(),
        forall|x: int| 0 <= x < pos ==> key_lt(pair_key(#[trigger] out@[x]), (a@, b@)),
        pos < out@.len() ==> !key_lt(pair_key(out@[pos as int]), (a@, b@)),
{
    let mut pos: usize = 0;
    while pos < out.len() && key_before(&out[pos], a, b)
        invariant
            pos <= out@.len(),
            forall|x: int| 0 <= x < pos ==> key_lt(pair_key(#[trigger] out@[x]), (a@, b@)),
        decreases out@.len() - pos,
    {
        pos += 1;
    }
    pos
}

/// Adds finding `t` to the pairs gathered from the findings before it.
#[verifier::spinoff_prover]
fn add_finding(
    out: &mut Vec<Pair>,
    f: &Finding,
    ka: Site,
    kb: Site,
    Ghost(fns): Ghost<Seq<FnRecord>>,
    Ghost(fs): Ghost<Seq<Finding>>,
    Ghost(t): Ghost<int>,
)
    requires
        0 <= t < fs.len(),
        fs[t] == *f,
        finding_fits(*f),
        (ka@, kb@) == finding_key(fns, fs[t]),
        collected_hidden(fns, fs, t, old(out)@),
    ensures
        collected_hidden(fns, fs, t + 1, final(out)@),
{
    let raw = lines_of(f);
    let pos = key_position(out, &ka, &kb);
    let frag = Fragment { a: f.a.copy(), b: f.b.copy(), kind: f.kind };
    let ghost old_out = out@;
    let is_name = kind_is(f.kind, EvidenceKind::Name);
    if pos < out.len() && site_eq(&out[pos].a, &ka) && site_eq(&out[pos].b, &kb) {
        let mut p = out.remove(pos);
        let ghost old_p = p;
        proof {
            lemma_hidden_pair(fns, fs, t, old_out, pos as int);
        }
        p.fragments.push(frag);
        p.evidence.name = p.evidence.name || is_name;
        p.evidence.body = p.evidence.body || kind_is(f.kind, EvidenceKind::Body);
        p.evidence.block = p.evidence.block || kind_is(f.kind, EvidenceKind::Block);
        p.evidence.clone = p.evidence.clone || kind_is(f.kind, EvidenceKind::Clone);
        if !is_name && raw > p.lines {
            p.lines = raw;
        }
        if f.name_score > p.name_score {
            p.name_score = f.name_score;
        }
        proof {
            assert(p.fragments@.map_values(|f: Fragment| fragment_view(f)) =~= old_p.fragments@.map_values(
                |f: Fragment| fragment_view(f),
            ).push(finding_fragment(fs[t])));
            lemma_updated_pair(fns, fs, t, old_p, p);
        }
        out.insert(pos, p);
        proof {
            lemma_hidden_update(fns, fs, t, old_out, out@, pos as int);
        }
    } else {
        let evidence = Evidence {
            name: is_name,
            body: kind_is(f.kind, EvidenceKind::Body),
            block: kind_is(f.kind, EvidenceKind::Block),
            clone: kind_is(f.kind, EvidenceKind::Clone),
        };
        let mut fragments: Vec<Fragment> = Vec::new();
        fragments.push(frag);
        let p = Pair {
            a: ka,
            b: kb,
            evidence,
            lines: if is_name {
                0
            } else {
                raw
            },
            name_score: f.name_score,
            fragments,
        };
        proof {
            assert(p.fragments@.map_values(|f: Fragment| fragment_view(f)) =~= seq![finding_fragment(fs[t])]);
        }
        out.insert(pos, p);
        proof {
            lemma_hidden_insert(fns, fs, t, old_out, out@, pos as int);
        }
    }
}

/// Gathers findings into pairs of enclosing functions, as the audit reports them:
/// one pair per distinct `(enclosing a, enclosing b)` key, smaller site first, keys
/// ascending; each pair keeps every finding's raw sites and kind as a fragment, the
/// kinds seen, the longest structural match in lines and the best name score.
pub fn collect(findings: &Vec<Finding>, ex: &Extraction) -> (r: Vec<Pair>)
    requires
        lines_ordered(ex.fns@),
        forall|u: int| 0 <= u < findings@.len() ==> #[trigger] finding_fits(findings@[u]),
    ensures
        collected_ok(ex.fns@, findings@, findings@.len() as int, r@),
{
    let ghost fns = ex.fns@;
    let ghost fs = findings@;
    let mut out: Vec<Pair> = Vec::new();
    proof {
        reveal(collected_hidden);
    }
    let mut t: usize = 0;
    while t < findings.len()
        invariant
            fns == ex.fns@,
            fs == findings@,
            lines_ordered(fns),
            forall|u: int| 0 <= u < fs.len() ==> #[trigger] finding_fits(fs[u]),
            t <= fs.len(),
            collected_hidden(fns, fs, t as int, out@),
        decreases fs.len() - t,
    {
        let f = &findings[t];
        proof {
            assert(finding_fits(fs[t as int]));
        }
        let (ka, kb) = key_of(f, ex);
        add_finding(&mut out, f, ka, kb, Ghost(fns), Ghost(fs), Ghost(t as int));
        t += 1;
    }
    proof {
        reveal(collected_hidden);
    }
    out
}


/// Whether `f`'s line ranges are ordered and their lengths fit in `u32`.
pub fn fits(f: &Finding) -> (r: bool)
    ensures
        r == finding_fits(*f),
{
    f.a.start <= f.a.end && f.b.start <= f.b.end && f.a.end - f.a.start < u32::MAX && f.b.end - f.b.start
        < u32::MAX
}


proof fn lemma_frags_contain(fns: Seq<FnRecord>, fs: Seq<Finding>, k: PairKey, t: int, u: int)
    requires
        0 <= u < t <= fs.len(),
        finding_key(fns, fs[u]) == k,
    ensures
        frags_for(fns, fs, k, t).contains(finding_fragment(fs[u])),
    decreases t,
{
    let prev = frags_for(fns, fs, k, t - 1);
    if u == t - 1 {
        assert(frags_for(fns, fs, k, t) == prev.push(finding_fragment(fs[u])));
        assert(frags_for(fns, fs, k, t)[prev.len() as int] == finding_fragment(fs[u]));
    } else {
        lemma_frags_contain(fns, fs, k, t - 1, u);
        let x = choose|x: int| 0 <= x < prev.len() && prev[x] == finding_fragment(fs[u]);
        assert(frags_for(fns, fs, k, t)[x] == finding_fragment(fs[u]));
    }
}

/// Every finding lands in exactly one pair, the pair of its two enclosing
/// functions, and is kept there as a fragment; no two pairs share a key.
pub proof fn law_each_finding_in_one_pair(fns: Seq<FnRecord>, fs: Seq<Finding>, ps: Seq<Pair>, u: int)
    requires
        collected_ok(fns, fs, fs.len() as int, ps),
        0 <= u < fs.len(),
    ensures
        exists|x: int|
            0 <= x < ps.len() && pair_key(ps[x]) == finding_key(fns, fs[u]) && #[trigger] frag_views(
                ps[x],
            ).contains(finding_fragment(fs[u])),
        forall|x: int, z: int| 0 <= x < z < ps.len() ==> pair_key(#[trigger] ps[x]) != pair_key(#[trigger] ps[z]),
{
    let t = fs.len() as int;
    let x = choose|x: int| 0 <= x < ps.len() && #[trigger] pair_key(ps[x]) == #[trigger] finding_key(fns, fs[u]);
    assert(pair_ok(fns, fs, t, ps[x]));
    reveal(pair_ok);
    lemma_frags_contain(fns, fs, finding_key(fns, fs[u]), t, u);
    assert(frag_views(ps[x]).contains(finding_fragment(fs[u])));
    assert forall|x: int, z: int| 0 <= x < z < ps.len() implies pair_key(#[trigger] ps[x]) != pair_key(#[trigger] ps[z]) by {
        assert(key_lt(pair_key(ps[x]), pair_key(ps[z])));
        lemma_key_order(pair_key(ps[x]), pair_key(ps[z]), pair_key(ps[z]));
    }
}

// -------------------------------------------------------------- assembling the findings

/// Bodies pair from this many normalized leaves up.
pub const BODY_MIN_TOKENS: usize = 30;

/// Statement windows pair from this many normalized leaves up.
pub const BLOCK_MIN_TOKENS: usize = 20;

/// `s` is the line range `start..=end` of `file`.
pub open spec fn site_is(s: Site, file: Seq<char>, start: u32, end: u32) -> bool {
    s.file@ == file && s.start == start && s.end == end
}

/// A finding of `kind` between two line ranges, with no name score.
pub open spec fn finding_is(
    f: Finding,
    kind: EvidenceKind,
    a: (Seq<char>, u32, u32),
    b: (Seq<char>, u32, u32),
) -> bool {
    &&& f.kind == kind
    &&& f.name_score == 0
    &&& site_is(f.a, a.0, a.1, a.2)
    &&& site_is(f.b, b.0, b.1, b.2)
}

/// Indices of the first `n` clones whose two files may contribute findings.
pub open spec fn kept_clones(
    clones: Seq<crate::clones::TokenClone>,
    e: Seq<Seq<char>>,
    include_tests: bool,
    n: int,
) -> Seq<int>
    decreases n,
{
    if n <= 0 || n > clones.len() {
        seq![]
    } else {
        kept_clones(clones, e, include_tests, n - 1) + if file_allowed(e, include_tests, clones[n - 1].file_a@)
            && file_allowed(e, include_tests, clones[n - 1].file_b@) {
            seq![n - 1]
        } else {
            seq![]
        }
    }
}

pub open spec fn file_allowed(e: Seq<Seq<char>>, include_tests: bool, file: Seq<char>) -> bool {
    !crate::exclude::globs_match(e, file) && (include_tests || !crate::extract::is_test_path(file))
}

fn make_site(file: &String, start: u32, end: u32) -> (r: Site)
    ensures
        site_is(r, file@, start, end),
{
    Site { file: file.clone(), start, end }
}

/// The structural and token evidence of an audit, in this order: each pair of equal
/// bodies (at least `BODY_MIN_TOKENS` leaves) as `bodies::pairs` lists them, each
/// pair of equal statement windows (at least `BLOCK_MIN_TOKENS` leaves, no limit) as
/// `blocks::pairs` lists them, then each token clone whose two files may contribute
/// findings (`exclude::allowed_file`), in report order.
pub fn assemble_findings(
    ex: &Extraction,
    blocks: &[crate::blocks::Block],
    clones: &[crate::clones::TokenClone],
    e: &crate::exclude::Excludes,
    include_tests: bool,
) -> (r: Vec<Finding>)
    requires
        blocks@.len() * blocks@.len() <= usize::MAX,
    ensures
        exists|gs: Seq<Seq<int>>, res: Seq<(int, int)>, perm: Seq<int>, fams: Seq<Seq<int>>, sel: Seq<(int, int)>|
            {
                &&& crate::bodies::sorted_candidates(ex.fns@, BODY_MIN_TOKENS, include_tests, gs, res, perm)
                &&& crate::blocks::families_ok(blocks@, BLOCK_MIN_TOKENS, include_tests, fams)
                &&& crate::blocks::selected_ok(
                    blocks@,
                    crate::blocks::all_pairs(blocks@, fams, fams.len() as int),
                    usize::MAX,
                    sel,
                )
                &&& r@.len() == res.len() + sel.len() + kept_clones(clones@, e@, include_tests, clones@.len() as int).len()
                &&& forall|x: int|
                    0 <= x < res.len() ==> finding_is(
                        #[trigger] r@[x],
                        EvidenceKind::Body,
                        (ex.fns@[res[x].0].file@, ex.fns@[res[x].0].start, ex.fns@[res[x].0].end),
                        (ex.fns@[res[x].1].file@, ex.fns@[res[x].1].start, ex.fns@[res[x].1].end),
                    )
                &&& forall|x: int|
                    0 <= x < sel.len() ==> finding_is(
                        #[trigger] r@[res.len() + x],
                        EvidenceKind::Block,
                        (blocks@[sel[x].0].file@, blocks@[sel[x].0].start, blocks@[sel[x].0].end),
                        (blocks@[sel[x].1].file@, blocks@[sel[x].1].start, blocks@[sel[x].1].end),
                    )
                &&& forall|x: int|
                    0 <= x < kept_clones(clones@, e@, include_tests, clones@.len() as int).len() ==> finding_is(
                        #[trigger] r@[res.len() + sel.len() + x],
                        EvidenceKind::Clone,
                        (
                            clones@[kept_clones(clones@, e@, include_tests, clones@.len() as int)[x]].file_a@,
                            clones@[kept_clones(clones@, e@, include_tests, clones@.len() as int)[x]].a.0,
                            clones@[kept_clones(clones@, e@, include_tests, clones@.len() as int)[x]].a.1,
                        ),
                        (
                            clones@[kept_clones(clones@, e@, include_tests, clones@.len() as int)[x]].file_b@,
                            clones@[kept_clones(clones@, e@, include_tests, clones@.len() as int)[x]].b.0,
                            clones@[kept_clones(clones@, e@, include_tests, clones@.len() as int)[x]].b.1,
                        ),
                    )
            },
{
    let mut out: Vec<Finding> = Vec::new();
    let bp = crate::bodies::pairs(ex, BODY_MIN_TOKENS, include_tests);
    let ghost (gs, res, perm) = choose|gs: Seq<Seq<int>>, res: Seq<(int, int)>, perm: Seq<int>|
        {
            &&& #[trigger] crate::bodies::sorted_candidates(ex.fns@, BODY_MIN_TOKENS, include_tests, gs, res, perm)
            &&& bp@.len() == res.len()
            &&& forall|x: int|
                0 <= x < res.len() ==> *(#[trigger] bp@[x]).a == ex.fns@[res[x].0] && *bp@[x].b == ex.fns@[res[x].1]
                    && bp@[x].tokens == ex.fns@[res[x].0].shape->0.leaves
        };
    let mut i: usize = 0;
    while i < bp.len()
        invariant
            i <= bp@.len(),
            bp@.len() == res.len(),
            forall|x: int|
                0 <= x < res.len() ==> *(#[trigger] bp@[x]).a == ex.fns@[res[x].0] && *bp@[x].b == ex.fns@[res[x].1],
            out@.len() == i,
            forall|x: int|
                0 <= x < i ==> finding_is(
                    #[trigger] out@[x],
                    EvidenceKind::Body,
                    (ex.fns@[res[x].0].file@, ex.fns@[res[x].0].start, ex.fns@[res[x].0].end),
                    (ex.fns@[res[x].1].file@, ex.fns@[res[x].1].start, ex.fns@[res[x].1].end),
                ),
        decreases bp@.len() - i,
    {
        let p = &bp[i];
        assert(*bp@[i as int].a == ex.fns@[res[i as int].0]);
        let a = make_site(&p.a.file, p.a.start, p.a.end);
        let b = make_site(&p.b.file, p.b.start, p.b.end);
        out.push(Finding { a, b, kind: EvidenceKind::Body, name_score: 0 });
        i += 1;
    }
    let nb = out.len();
    let (_total, kp) = crate::blocks::pairs(blocks, BLOCK_MIN_TOKENS, include_tests, usize::MAX);
    let ghost fams = choose|fams: Seq<Seq<int>>|
        {
            &&& #[trigger] crate::blocks::families_ok(blocks@, BLOCK_MIN_TOKENS, include_tests, fams)
            &&& exists|sel: Seq<(int, int)>|
                {
                    &&& crate::blocks::selected_ok(
                        blocks@,
                        crate::blocks::all_pairs(blocks@, fams, fams.len() as int),
                        usize::MAX,
                        sel,
                    )
                    &&& kp@.len() == sel.len()
                    &&& forall|x: int|
                        0 <= x < sel.len() ==> *(#[trigger] kp@[x]).a == blocks@[sel[x].0] && *kp@[x].b
                            == blocks@[sel[x].1]
                }
        };
    let ghost sel = choose|sel: Seq<(int, int)>|
        {
            &&& crate::blocks::selected_ok(
                blocks@,
                crate::blocks::all_pairs(blocks@, fams, fams.len() as int),
                usize::MAX,
                sel,
            )
            &&& kp@.len() == sel.len()
            &&& forall|x: int|
                0 <= x < sel.len() ==> *(#[trigger] kp@[x]).a == blocks@[sel[x].0] && *kp@[x].b == blocks@[sel[x].1]
        };
    let mut j: usize = 0;
    while j < kp.len()
        invariant
            j <= kp@.len(),
            kp@.len() == sel.len(),
            forall|x: int|
                0 <= x < sel.len() ==> *(#[trigger] kp@[x]).a == blocks@[sel[x].0] && *kp@[x].b == blocks@[sel[x].1],
            nb == res.len(),
            out@.len() == nb + j,
            forall|x: int|
                0 <= x < res.len() ==> finding_is(
                    #[trigger] out@[x],
                    EvidenceKind::Body,
                    (ex.fns@[res[x].0].file@, ex.fns@[res[x].0].start, ex.fns@[res[x].0].end),
                    (ex.fns@[res[x].1].file@, ex.fns@[res[x].1].start, ex.fns@[res[x].1].end),
                ),
            forall|x: int|
                0 <= x < j ==> finding_is(
                    #[trigger] out@[nb + x],
                    EvidenceKind::Block,
                    (blocks@[sel[x].0].file@, blocks@[sel[x].0].start, blocks@[sel[x].0].end),
                    (blocks@[sel[x].1].file@, blocks@[sel[x].1].start, blocks@[sel[x].1].end),
                ),
        decreases kp@.len() - j,
    {
        let p = &kp[j];
        assert(*kp@[j as int].a == blocks@[sel[j as int].0]);
        let a = make_site(&p.a.file, p.a.start, p.a.end);
        let b = make_site(&p.b.file, p.b.start, p.b.end);
        let ghost before = out@;
        out.push(Finding { a, b, kind: EvidenceKind::Block, name_score: 0 });
        assert forall|x: int| 0 <= x < res.len() implies #[trigger] out@[x] == before[x] by {}
        assert forall|x: int| 0 <= x < j implies #[trigger] out@[nb + x] == before[nb + x] by {}
        j += 1;
    }
    let nk = out.len();
    let ghost kc = kept_clones(clones@, e@, include_tests, clones@.len() as int);
    let mut k: usize = 0;
    while k < clones.len()
        invariant
            k <= clones@.len(),
            nb == res.len(),
            nk == res.len() + sel.len(),
            out@.len() == nk + kept_clones(clones@, e@, include_tests, k as int).len(),
            forall|x: int|
                0 <= x < res.len() ==> finding_is(
                    #[trigger] out@[x],
                    EvidenceKind::Body,
                    (ex.fns@[res[x].0].file@, ex.fns@[res[x].0].start, ex.fns@[res[x].0].end),
                    (ex.fns@[res[x].1].file@, ex.fns@[res[x].1].start, ex.fns@[res[x].1].end),
                ),
            forall|x: int|
                0 <= x < sel.len() ==> finding_is(
                    #[trigger] out@[nb + x],
                    EvidenceKind::Block,
                    (blocks@[sel[x].0].file@, blocks@[sel[x].0].start, blocks@[sel[x].0].end),
                    (blocks@[sel[x].1].file@, blocks@[sel[x].1].start, blocks@[sel[x].1].end),
                ),
            forall|x: int|
                0 <= x < kept_clones(clones@, e@, include_tests, k as int).len() ==> finding_is(
                    #[trigger] out@[nk + x],
                    EvidenceKind::Clone,
                    (
                        clones@[kept_clones(clones@, e@, include_tests, k as int)[x]].file_a@,
                        clones@[kept_clones(clones@, e@, include_tests, k as int)[x]].a.0,
                        clones@[kept_clones(clones@, e@, include_tests, k as int)[x]].a.1,
                    ),
                    (
                        clones@[kept_clones(clones@, e@, include_tests, k as int)[x]].file_b@,
                        clones@[kept_clones(clones@, e@, include_tests, k as int)[x]].b.0,
                        clones@[kept_clones(clones@, e@, include_tests, k as int)[x]].b.1,
                    ),
                ),
        decreases clones@.len() - k,
    {
        let c = &clones[k];
        let ghost prev = kept_clones(clones@, e@, include_tests, k as int);
        let ghost before = out@;
        if crate::exclude::allowed_file(e, include_tests, c.file_a.as_str())
            && crate::exclude::allowed_file(e, include_tests, c.file_b.as_str()) {
            let a = make_site(&c.file_a, c.a.0, c.a.1);
            let b = make_site(&c.file_b, c.b.0, c.b.1);
            out.push(Finding { a, b, kind: EvidenceKind::Clone, name_score: 0 });
            assert(kept_clones(clones@, e@, include_tests, k + 1) =~= prev.push(k as int));
            assert forall|x: int| 0 <= x < res.len() implies #[trigger] out@[x] == before[x] by {}
            assert forall|x: int| 0 <= x < sel.len() implies #[trigger] out@[nb + x] == before[nb + x] by {}
            assert forall|x: int| 0 <= x < prev.len() implies #[trigger] out@[nk + x] == before[nk + x] by {}
        } else {
            assert(kept_clones(clones@, e@, include_tests, k + 1) =~= prev);
        }
        k += 1;
    }
    out
}

} // verus!
