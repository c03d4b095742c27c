//! Group equal normalized bodies; scores remain evidence, never equivalence claims.
use crate::extract::{Extraction, FnRecord};
use crate::grouping::{
    group_by_tokens, groups_ok, int_groups, int_seq, lemma_members, members, tokens_seq,
    tokens_view,
};
use crate::order::{key5_lt, lemma_key5_order, Key5};
use crate::text::{str_eq, str_lt};
use vstd::prelude::*;

verus! {

pub struct BodyPair<'a> {
    pub a: &'a FnRecord,
    pub b: &'a FnRecord,
    pub tokens: usize,
}

/// A function with a normalized body of at least `min_tokens` leaves, and not test
/// code unless `include_tests`.
pub open spec fn body_eligible(r: FnRecord, min_tokens: usize, include_tests: bool) -> bool {
    &&& include_tests || !r.spec_testish()
    &&& r.shape is Some
    &&& r.shape->0.leaves >= min_tokens
}

pub open spec fn body_tokens(rs: Seq<FnRecord>) -> Seq<Seq<Seq<char>>> {
    Seq::new(
        rs.len(),
        |i: int|
            match rs[i].shape {
                Some(s) => s@.tokens,
                None => seq![],
            },
    )
}

pub open spec fn body_eligibility(rs: Seq<FnRecord>, min_tokens: usize, include_tests: bool) -> Seq<
    bool,
> {
    Seq::new(rs.len(), |i: int| body_eligible(rs[i], min_tokens, include_tests))
}

/// Same file and intersecting line ranges.
pub open spec fn lines_overlap(a: FnRecord, b: FnRecord) -> bool {
    a.file@ == b.file@ && a.start <= b.end && b.start <= a.end
}

pub open spec fn row_pairs(rs: Seq<FnRecord>, m: Seq<int>, p: int, q: int) -> Seq<(int, int)>
    decreases q - p,
{
    if q <= p + 1 {
        seq![]
    } else {
        row_pairs(rs, m, p, q - 1) + if !lines_overlap(rs[m[p]], rs[m[q - 1]]) {
            seq![(m[p], m[q - 1])]
        } else {
            seq![]
        }
    }
}

pub open spec fn group_pairs(rs: Seq<FnRecord>, m: Seq<int>, p: int) -> Seq<(int, int)>
    decreases p,
{
    if p <= 0 {
        seq![]
    } else {
        group_pairs(rs, m, p - 1) + row_pairs(rs, m, p - 1, m.len() as int)
    }
}

/// Pairs `(i, j)` of one group, `i` before `j`, whose functions do not overlap.
pub open spec fn all_pairs(rs: Seq<FnRecord>, gs: Seq<Seq<int>>, k: int) -> Seq<(int, int)>
    decreases k,
{
    if k <= 0 {
        seq![]
    } else {
        all_pairs(rs, gs, k - 1) + group_pairs(rs, gs[k - 1], gs[k - 1].len() as int)
    }
}

/// Larger bodies first, then by the files and start lines of both sides.
pub open spec fn pair_key(rs: Seq<FnRecord>, c: (int, int)) -> Key5 {
    (
        -(rs[c.0].shape->0.leaves as int),
        rs[c.0].file@,
        rs[c.0].start as int,
        rs[c.1].file@,
        rs[c.1].start as int,
    )
}

pub open spec fn is_perm(perm: Seq<int>, n: int) -> bool {
    &&& perm.len() == n
    &&& forall|x: int| 0 <= x < n ==> 0 <= #[trigger] perm[x] < n
    &&& forall|x: int, y: int| 0 <= x < n && 0 <= y < n && x != y ==> #[trigger] perm[x] != #[trigger] perm[y]
    &&& forall|m: int| 0 <= m < n ==> #[trigger] hit(perm, m)
}

pub open spec fn hit(perm: Seq<int>, m: int) -> bool {
    exists|x: int| 0 <= x < perm.len() && perm[x] == m
}

fn pair_lt(rs: &Vec<FnRecord>, x: (usize, usize), y: (usize, usize)) -> (r: bool)
    requires
        x.0 < rs@.len(),
        x.1 < rs@.len(),
        y.0 < rs@.len(),
        y.1 < rs@.len(),
        rs@[x.0 as int].shape is Some,
        rs@[y.0 as int].shape is Some,
    ensures
        r == key5_lt(pair_key(rs@, (x.0 as int, x.1 as int)), pair_key(rs@, (y.0 as int, y.1 as int))),
{
    let a1 = &rs[x.0];
    let b1 = &rs[x.1];
    let a2 = &rs[y.0];
    let b2 = &rs[y.1];
    proof {
        crate::text::lemma_seq_lt_irreflexive(a1.file@);
        crate::text::lemma_seq_lt_irreflexive(b1.file@);
    }
    let l1 = match &a1.shape {
        Some(s) => s.leaves,
        None => 0,
    };
    let l2 = match &a2.shape {
        Some(s) => s.leaves,
        None => 0,
    };
    if l1 != l2 {
        return l1 > l2;
    }
    if !str_eq(a1.file.as_str(), a2.file.as_str()) {
        return str_lt(a1.file.as_str(), a2.file.as_str());
    }
    if a1.start != a2.start {
        return a1.start < a2.start;
    }
    if !str_eq(b1.file.as_str(), b2.file.as_str()) {
        return str_lt(b1.file.as_str(), b2.file.as_str());
    }
    b1.start < b2.start
}

fn copy_indices(v: &Vec<usize>) -> (r: Vec<usize>)
    ensures
        r@ == v@,
{
    let mut r: Vec<usize> = Vec::new();
    let mut i: usize = 0;
    while i < v.len()
        invariant
            i <= v@.len(),
            r@ == v@.take(i as int),
        decreases v@.len() - i,
    {
        r.push(v[i]);
        assert(v@.take(i + 1) =~= v@.take(i as int).push(v@[i as int]));
        i += 1;
    }
    assert(v@.take(v@.len() as int) =~= v@);
    r
}

pub open spec fn usize_pairs(s: Seq<(usize, usize)>) -> Seq<(int, int)> {
    Seq::new(s.len(), |i: int| (s[i].0 as int, s[i].1 as int))
}

/// Candidate index pairs, grouped, before sorting.
fn candidates(rs: &Vec<FnRecord>, min_tokens: usize, include_tests: bool) -> (r: (
    Vec<(usize, usize)>,
    Ghost<Seq<Seq<int>>>,
))
    ensures
        groups_ok(body_tokens(rs@), body_eligibility(rs@, min_tokens, include_tests), r.1@),
        usize_pairs(r.0@) == all_pairs(rs@, r.1@, r.1@.len() as int),
        forall|x: int| 0 <= x < r.0@.len() ==> #[trigger] r.0@[x].0 < rs@.len() && r.0@[x].1 < rs@.len()
            && rs@[r.0@[x].0 as int].shape is Some,
{
    let ghost tv = body_tokens(rs@);
    let ghost ev = body_eligibility(rs@, min_tokens, include_tests);
    let empty: Vec<String> = Vec::new();
    let mut ts: Vec<&Vec<String>> = Vec::new();
    let mut el: Vec<bool> = Vec::new();
    let mut i: usize = 0;
    while i < rs.len()
        invariant
            tv == body_tokens(rs@),
            ev == body_eligibility(rs@, min_tokens, include_tests),
            empty@.len() == 0,
            i <= rs@.len(),
            ts@.len() == i,
            el@.len() == i,
            forall|j: int| 0 <= j < i ==> #[trigger] tokens_view(*ts@[j]) == tv[j],
            forall|j: int| 0 <= j < i ==> #[trigger] el@[j] == ev[j],
        decreases rs@.len() - i,
    {
        let r = &rs[i];
        let testish = if include_tests {
            false
        } else {
            r.is_testish()
        };
        match &r.shape {
            Some(s) => {
                ts.push(&s.tokens);
                el.push(!testish && s.leaves >= min_tokens);
            },
            None => {
                ts.push(&empty);
                assert(tokens_view(empty) =~= Seq::<Seq<char>>::empty());
                el.push(false);
            },
        }
        i += 1;
    }
    assert(tokens_seq(ts@) =~= tv);
    assert(el@ =~= ev);
    let gs = group_by_tokens(&ts, &el);
    let ghost g0 = int_groups(gs@);
    let mut out: Vec<(usize, usize)> = Vec::new();
    let mut k: usize = 0;
    while k < gs.len()
        invariant
            tv == body_tokens(rs@),
            ev == body_eligibility(rs@, min_tokens, include_tests),
            g0 == int_groups(gs@),
            groups_ok(tv, ev, g0),
            k <= gs@.len(),
            usize_pairs(out@) == all_pairs(rs@, g0, k as int),
            forall|x: int| 0 <= x < out@.len() ==> #[trigger] out@[x].0 < rs@.len() && out@[x].1 < rs@.len()
                && rs@[out@[x].0 as int].shape is Some,
        decreases gs@.len() - k,
    {
        let m = copy_indices(&gs[k]);
        let ghost fm = g0[k as int];
        proof {
            assert(fm == int_seq(m@));
            assert(fm.len() > 0);
            lemma_members(tv, ev, tv.len() as int, tv[fm[0]]);
        }
        let len = m.len();
        let ghost base = all_pairs(rs@, g0, k as int);
        let mut p: usize = 0;
        while p < len
            invariant
                tv == body_tokens(rs@),
                ev == body_eligibility(rs@, min_tokens, include_tests),
                fm == int_seq(m@),
                len == m@.len(),
                forall|x: int| 0 <= x < fm.len() ==> 0 <= #[trigger] fm[x] < rs@.len() && ev[fm[x]],
                p <= len,
                usize_pairs(out@) == base + group_pairs(rs@, fm, p as int),
                forall|x: int| 0 <= x < out@.len() ==> #[trigger] out@[x].0 < rs@.len() && out@[x].1 < rs@.len()
                    && rs@[out@[x].0 as int].shape is Some,
            decreases len - p,
        {
            let ghost rowbase = base + group_pairs(rs@, fm, p as int);
            let mut q = p + 1;
            assert(row_pairs(rs@, fm, p as int, q as int) =~= Seq::<(int, int)>::empty());
            assert(rowbase + row_pairs(rs@, fm, p as int, q as int) =~= rowbase);
            while q < len
                invariant
                    fm == int_seq(m@),
                    len == m@.len(),
                    forall|x: int| 0 <= x < fm.len() ==> 0 <= #[trigger] fm[x] < rs@.len() && ev[fm[x]],
                    ev == body_eligibility(rs@, min_tokens, include_tests),
                    p < len,
                    p + 1 <= q <= len,
                    usize_pairs(out@) == rowbase + row_pairs(rs@, fm, p as int, q as int),
                    forall|x: int| 0 <= x < out@.len() ==> #[trigger] out@[x].0 < rs@.len() && out@[x].1 < rs@.len()
                        && rs@[out@[x].0 as int].shape is Some,
                decreases len - q,
            {
                assert(fm[p as int] == m@[p as int] as int);
                assert(fm[q as int] == m@[q as int] as int);
                let a = m[p];
                let b = m[q];
                let ra = &rs[a];
                let rb = &rs[b];
                let ghost prev = usize_pairs(out@);
                if !(ra.file == rb.file && ra.start <= rb.end && rb.start <= ra.end) {
                    assert(ev[a as int]);
                    out.push((a, b));
                    assert(usize_pairs(out@) =~= prev.push((a as int, b as int)));
                    assert(row_pairs(rs@, fm, p as int, q + 1) =~= row_pairs(rs@, fm, p as int, q as int).push((a as int, b as int)));
                } else {
                    assert(row_pairs(rs@, fm, p as int, q + 1) =~= row_pairs(rs@, fm, p as int, q as int));
                }
                q += 1;
            }
            assert(group_pairs(rs@, fm, p + 1) =~= group_pairs(rs@, fm, p as int) + row_pairs(rs@, fm, p as int, len as int));
            p += 1;
        }
        assert(all_pairs(rs@, g0, k + 1) =~= base + group_pairs(rs@, fm, len as int));
        k += 1;
    }
    (out, Ghost(g0))
}

/// `res` is the candidate list of grouping `gs`, reordered by `perm` into key order.
pub open spec fn sorted_candidates(
    rs: Seq<FnRecord>,
    min_tokens: usize,
    include_tests: bool,
    gs: Seq<Seq<int>>,
    res: Seq<(int, int)>,
    perm: Seq<int>,
) -> bool {
    &&& groups_ok(body_tokens(rs), body_eligibility(rs, min_tokens, include_tests), gs)
    &&& is_perm(perm, all_pairs(rs, gs, gs.len() as int).len() as int)
    &&& res.len() == perm.len()
    &&& forall|x: int| 0 <= x < res.len() ==> #[trigger] res[x] == all_pairs(rs, gs, gs.len() as int)[perm[x]]
    &&& forall|x: int, y: int|
        0 <= x < y < res.len() ==> !key5_lt(pair_key(rs, #[trigger] res[y]), pair_key(rs, #[trigger] res[x]))
}

/// Pairs of non-overlapping functions with equal normalized bodies (at least
/// `min_tokens` leaves; test code only with `include_tests`), larger bodies first,
/// then by file and start line of each side.
pub fn pairs<'a>(ex: &'a Extraction, min_tokens: usize, include_tests: bool) -> (r: Vec<BodyPair<'a>>)
    ensures
        exists|gs: Seq<Seq<int>>, res: Seq<(int, int)>, perm: Seq<int>|
            {
                &&& #[trigger] sorted_candidates(ex.fns@, min_tokens, include_tests, gs, res, perm)
                &&& r@.len() == res.len()
                &&& forall|x: int| 0 <= x < res.len() ==> *(#[trigger] r@[x]).a == ex.fns@[res[x].0] && *r@[x].b == ex.fns@[res[x].1] && r@[x].tokens == ex.fns@[res[x].0].shape->0.leaves
            },
{
    let rs = &ex.fns;
    let (cands, Ghost(gs)) = candidates(rs, min_tokens, include_tests);
    let ghost cv = usize_pairs(cands@);
    let mut sorted: Vec<(usize, usize)> = Vec::new();
    let ghost mut perm: Seq<int> = seq![];
    let mut i: usize = 0;
    while i < cands.len()
        invariant
            cv == usize_pairs(cands@),
            forall|x: int| 0 <= x < cands@.len() ==> #[trigger] cands@[x].0 < rs@.len() && cands@[x].1 < rs@.len()
                && rs@[cands@[x].0 as int].shape is Some,
            i <= cands@.len(),
            is_perm(perm, i as int),
            sorted@.len() == i,
            forall|x: int| 0 <= x < i ==> #[trigger] usize_pairs(sorted@)[x] == cv[perm[x]],
            forall|x: int| 0 <= x < i ==> #[trigger] sorted@[x].0 < rs@.len() && sorted@[x].1 < rs@.len()
                && rs@[sorted@[x].0 as int].shape is Some,
            forall|x: int, y: int| 0 <= x < y < i ==> !key5_lt(pair_key(rs@, #[trigger] usize_pairs(sorted@)[y]), pair_key(rs@, #[trigger] usize_pairs(sorted@)[x])),
        decreases cands@.len() - i,
    {
        let c = cands[i];
        let mut pos: usize = 0;
        while pos < sorted.len() && !pair_lt(rs, c, sorted[pos])
            invariant
                c.0 < rs@.len() && c.1 < rs@.len() && rs@[c.0 as int].shape is Some,
                pos <= sorted@.len(),
                forall|x: int| 0 <= x < sorted@.len() ==> #[trigger] sorted@[x].0 < rs@.len() && sorted@[x].1 < rs@.len()
                    && rs@[sorted@[x].0 as int].shape is Some,
                forall|x: int| 0 <= x < pos ==> !key5_lt(pair_key(rs@, (c.0 as int, c.1 as int)), pair_key(rs@, #[trigger] usize_pairs(sorted@)[x])),
            decreases sorted@.len() - pos,
        {
            pos += 1;
        }
        let ghost old_s = usize_pairs(sorted@);
        let ghost old_raw = sorted@;
        let ghost old_perm = perm;
        let ghost kc = pair_key(rs@, (c.0 as int, c.1 as int));
        sorted.insert(pos, c);
        proof {
            let s1 = usize_pairs(sorted@);
            perm = old_perm.insert(pos as int, i as int);
            assert forall|x: int| 0 <= x < i + 1 implies #[trigger] s1[x] == (if x < pos {
                old_s[x]
            } else if x == pos {
                (c.0 as int, c.1 as int)
            } else {
                old_s[x - 1]
            }) by {}
            assert forall|x: int| 0 <= x < i + 1 implies #[trigger] usize_pairs(sorted@)[x] == cv[perm[x]] by {
                if x < pos {
                    assert(old_s[x] == cv[old_perm[x]]);
                } else if x > pos {
                    assert(old_s[x - 1] == cv[old_perm[x - 1]]);
                }
            }
            assert forall|x: int| 0 <= x < i + 1 implies #[trigger] sorted@[x].0 < rs@.len() && sorted@[x].1 < rs@.len()
                && rs@[sorted@[x].0 as int].shape is Some by {
                if x < pos {
                    assert(sorted@[x] == old_raw[x]);
                } else if x > pos {
                    assert(sorted@[x] == old_raw[x - 1]);
                }
            }
            assert forall|x: int| 0 <= x < i + 1 implies 0 <= #[trigger] perm[x] < i + 1 by {
                if x < pos {
                    assert(perm[x] == old_perm[x]);
                } else if x > pos {
                    assert(perm[x] == old_perm[x - 1]);
                }
            }
            assert forall|x: int, y: int| 0 <= x < i + 1 && 0 <= y < i + 1 && x != y implies #[trigger] perm[x] != #[trigger] perm[y] by {
                if x != pos && y != pos {
                    let x0 = if x < pos { x } else { x - 1 };
                    let y0 = if y < pos { y } else { y - 1 };
                    assert(perm[x] == old_perm[x0] && perm[y] == old_perm[y0]);
                } else if x == pos {
                    let y0 = if y < pos { y } else { y - 1 };
                    assert(perm[y] == old_perm[y0]);
                } else {
                    let x0 = if x < pos { x } else { x - 1 };
                    assert(perm[x] == old_perm[x0]);
                }
            }
            assert forall|m: int| 0 <= m < i + 1 implies #[trigger] hit(perm, m) by {
                if m == i {
                    assert(perm[pos as int] == m);
                } else {
                    assert(hit(old_perm, m));
                    let x0 = choose|x: int| 0 <= x < old_perm.len() && #[trigger] old_perm[x] == m;
                    if x0 < pos {
                        assert(perm[x0] == m);
                    } else {
                        assert(perm[x0 + 1] == m);
                    }
                }
            }
            assert forall|x: int, y: int| 0 <= x < y < i + 1 implies !key5_lt(
                pair_key(rs@, #[trigger] usize_pairs(sorted@)[y]),
                pair_key(rs@, #[trigger] usize_pairs(sorted@)[x]),
            ) by {
                let kx = pair_key(rs@, s1[x]);
                let ky = pair_key(rs@, s1[y]);
                if x < pos && y < pos {
                } else if x > pos && y > pos {
                } else if x < pos && y > pos {
                } else if x == pos {
                    let kp = pair_key(rs@, old_s[pos as int]);
                    assert(key5_lt(kc, kp));
                    if y - 1 > pos {
                        assert(!key5_lt(ky, kp));
                    }
                    lemma_key5_order(ky, kc, kp);
                    lemma_key5_order(kc, kp, ky);
                    lemma_key5_order(ky, kp, kc);
                } else {
                }
            }
        }
        i += 1;
    }
    let mut out: Vec<BodyPair<'a>> = Vec::new();
    let mut x: usize = 0;
    while x < sorted.len()
        invariant
            x <= sorted@.len(),
            out@.len() == x,
            forall|y: int| 0 <= y < sorted@.len() ==> #[trigger] sorted@[y].0 < rs@.len() && sorted@[y].1 < rs@.len()
                && rs@[sorted@[y].0 as int].shape is Some,
            forall|y: int|
                0 <= y < x ==> *(#[trigger] out@[y]).a == rs@[sorted@[y].0 as int] && *out@[y].b
                    == rs@[sorted@[y].1 as int] && out@[y].tokens == rs@[sorted@[y].0 as int].shape->0.leaves,
        decreases sorted@.len() - x,
    {
        let (a, b) = sorted[x];
        let tokens = match &rs[a].shape {
            Some(s) => s.leaves,
            None => 0,
        };
        out.push(BodyPair { a: &rs[a], b: &rs[b], tokens });
        x += 1;
    }
    proof {
        let res = usize_pairs(sorted@);
        assert(cv == all_pairs(ex.fns@, gs, gs.len() as int));
        assert(sorted_candidates(ex.fns@, min_tokens, include_tests, gs, res, perm));
        assert forall|y: int| 0 <= y < res.len() implies *(#[trigger] out@[y]).a == ex.fns@[res[y].0]
            && *out@[y].b == ex.fns@[res[y].1] && out@[y].tokens == ex.fns@[res[y].0].shape->0.leaves by {}
    }
    out
}


/// Number of the first `k` functions that `body_eligible` admits.
pub open spec fn eligible_count_spec(rs: Seq<FnRecord>, min_tokens: usize, include_tests: bool, k: int) -> int
    decreases k,
{
    if k <= 0 || k > rs.len() {
        0
    } else {
        eligible_count_spec(rs, min_tokens, include_tests, k - 1) + if body_eligible(rs[k - 1], min_tokens, include_tests) {
            1int
        } else {
            0
        }
    }
}

/// How many functions have a normalized body of at least `min_tokens` leaves (test
/// code only with `include_tests`).
pub fn eligible_count(ex: &Extraction, min_tokens: usize, include_tests: bool) -> (r: usize)
    ensures
        r == eligible_count_spec(ex.fns@, min_tokens, include_tests, ex.fns@.len() as int),
{
    let mut n: usize = 0;
    let mut i: usize = 0;
    while i < ex.fns.len()
        invariant
            i <= ex.fns@.len(),
            n == eligible_count_spec(ex.fns@, min_tokens, include_tests, i as int),
            n <= i,
        decreases ex.fns@.len() - i,
    {
        let r = &ex.fns[i];
        let ok = match &r.shape {
            Some(s) => s.leaves >= min_tokens && (include_tests || !r.is_testish()),
            None => false,
        };
        if ok {
            n += 1;
        }
        i += 1;
    }
    n
}


proof fn lemma_row_pairs(rs: Seq<FnRecord>, m: Seq<int>, p: int, q: int, y: int)
    requires
        0 <= y < row_pairs(rs, m, p, q).len(),
    ensures
        exists|r: int|
            p < r < q && row_pairs(rs, m, p, q)[y] == (m[p], m[r]) && !lines_overlap(rs[m[p]], #[trigger] rs[m[r]]),
    decreases q - p,
{
    let prev = row_pairs(rs, m, p, q - 1);
    if y < prev.len() {
        lemma_row_pairs(rs, m, p, q - 1, y);
        let r = choose|r: int| p < r < q - 1 && prev[y] == (m[p], m[r]) && !lines_overlap(rs[m[p]], #[trigger] rs[m[r]]);
        assert(row_pairs(rs, m, p, q)[y] == prev[y]);
    } else {
        assert(row_pairs(rs, m, p, q)[y] == (m[p], m[q - 1]));
    }
}

proof fn lemma_group_pairs(rs: Seq<FnRecord>, m: Seq<int>, p: int, y: int)
    requires
        0 <= y < group_pairs(rs, m, p).len(),
        p <= m.len(),
    ensures
        exists|a: int, b: int|
            0 <= a < b < m.len() && group_pairs(rs, m, p)[y] == (m[a], m[b]) && !lines_overlap(
                #[trigger] rs[m[a]],
                #[trigger] rs[m[b]],
            ),
    decreases p,
{
    let prev = group_pairs(rs, m, p - 1);
    let row = row_pairs(rs, m, p - 1, m.len() as int);
    assert(group_pairs(rs, m, p) == prev + row);
    if y < prev.len() {
        lemma_group_pairs(rs, m, p - 1, y);
        let (a, b) = choose|a: int, b: int|
            0 <= a < b < m.len() && prev[y] == (m[a], m[b]) && !lines_overlap(#[trigger] rs[m[a]], #[trigger] rs[m[b]]);
        assert(group_pairs(rs, m, p)[y] == prev[y]);
    } else {
        lemma_row_pairs(rs, m, p - 1, m.len() as int, y - prev.len());
        let r = choose|r: int|
            p - 1 < r < m.len() && row[y - prev.len()] == (m[p - 1], m[r]) && !lines_overlap(rs[m[p - 1]], #[trigger] rs[m[r]]);
        assert(group_pairs(rs, m, p)[y] == row[y - prev.len()]);
        assert(!lines_overlap(rs[m[p - 1]], rs[m[r]]));
    }
}

proof fn lemma_all_pairs(rs: Seq<FnRecord>, gs: Seq<Seq<int>>, k: int, y: int)
    requires
        0 <= y < all_pairs(rs, gs, k).len(),
        k <= gs.len(),
    ensures
        exists|g: int, a: int, b: int|
            0 <= g < k && 0 <= a < b < gs[g].len() && all_pairs(rs, gs, k)[y] == (gs[g][a], gs[g][b])
                && !lines_overlap(#[trigger] rs[gs[g][a]], #[trigger] rs[gs[g][b]]),
    decreases k,
{
    let prev = all_pairs(rs, gs, k - 1);
    let grp = group_pairs(rs, gs[k - 1], gs[k - 1].len() as int);
    assert(all_pairs(rs, gs, k) == prev + grp);
    if y < prev.len() {
        lemma_all_pairs(rs, gs, k - 1, y);
        let (g, a, b) = choose|g: int, a: int, b: int|
            0 <= g < k - 1 && 0 <= a < b < gs[g].len() && prev[y] == (gs[g][a], gs[g][b]) && !lines_overlap(
                #[trigger] rs[gs[g][a]],
                #[trigger] rs[gs[g][b]],
            );
        assert(all_pairs(rs, gs, k)[y] == prev[y]);
    } else {
        lemma_group_pairs(rs, gs[k - 1], gs[k - 1].len() as int, y - prev.len());
        let (a, b) = choose|a: int, b: int|
            0 <= a < b < gs[k - 1].len() && grp[y - prev.len()] == (gs[k - 1][a], gs[k - 1][b]) && !lines_overlap(
                #[trigger] rs[gs[k - 1][a]],
                #[trigger] rs[gs[k - 1][b]],
            );
        assert(all_pairs(rs, gs, k)[y] == grp[y - prev.len()]);
    }
}

/// Every reported pair joins two different eligible functions with equal normalized
/// bodies whose line ranges do not overlap, the earlier one first.
pub proof fn law_paired_bodies_match(
    rs: Seq<FnRecord>,
    min_tokens: usize,
    include_tests: bool,
    gs: Seq<Seq<int>>,
    res: Seq<(int, int)>,
    perm: Seq<int>,
    x: int,
)
    requires
        sorted_candidates(rs, min_tokens, include_tests, gs, res, perm),
        0 <= x < res.len(),
    ensures
        0 <= res[x].0 < res[x].1 < rs.len(),
        body_eligible(rs[res[x].0], min_tokens, include_tests),
        body_eligible(rs[res[x].1], min_tokens, include_tests),
        body_tokens(rs)[res[x].0] == body_tokens(rs)[res[x].1],
        !lines_overlap(rs[res[x].0], rs[res[x].1]),
{
    let tv = body_tokens(rs);
    let ev = body_eligibility(rs, min_tokens, include_tests);
    let all = all_pairs(rs, gs, gs.len() as int);
    assert(0 <= perm[x] < all.len());
    assert(res[x] == all[perm[x]]);
    lemma_all_pairs(rs, gs, gs.len() as int, perm[x]);
    let (g, a, b) = choose|g: int, a: int, b: int|
        0 <= g < gs.len() && 0 <= a < b < gs[g].len() && all[perm[x]] == (gs[g][a], gs[g][b]) && !lines_overlap(
            #[trigger] rs[gs[g][a]],
            #[trigger] rs[gs[g][b]],
        );
    assert(gs[g].len() > 0);
    let t = tv[gs[g][0]];
    assert(gs[g] == members(tv, ev, tv.len() as int, t));
    lemma_members(tv, ev, tv.len() as int, t);
    assert(ev[gs[g][a]] && ev[gs[g][b]]);
}

} // verus!
