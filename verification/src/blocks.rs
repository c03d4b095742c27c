//! Fixed statement windows keep indexing linear in the number of statements.
use crate::extract::{is_test_file, is_test_path};
use crate::grouping::{
    group_by_tokens, groups_ok, int_groups, int_seq, lemma_members, members, tokens_seq,
    tokens_view,
};
use crate::normalized::{Shape, deref_nodes, statements, statements_spec};
use crate::syntax::SyntaxNode;
use crate::walk::{line_no, line_no_exec};
use crate::order::{key2_lt, key5_lt, lemma_key2_order, lemma_key5_order, Key2, Key5};
use crate::text::{str_eq, str_lt};
use vstd::prelude::*;

verus! {


pub struct Block {
    pub file: String,
    pub start: u32,
    pub bytes: std::ops::Range<usize>,
    pub end: u32,
    pub shape: Shape,
}

pub struct BlockPair<'a> {
    pub a: &'a Block,
    pub b: &'a Block,
}

pub open spec fn block_eligible(b: Block, min_tokens: usize, include_tests: bool) -> bool {
    b.shape.leaves >= min_tokens && (include_tests || !is_test_path(b.file@))
}

pub open spec fn block_tokens(bs: Seq<Block>) -> Seq<Seq<Seq<char>>> {
    Seq::new(bs.len(), |i: int| bs[i].shape@.tokens)
}

pub open spec fn block_eligibility(bs: Seq<Block>, min_tokens: usize, include_tests: bool) -> Seq<
    bool,
> {
    Seq::new(bs.len(), |i: int| block_eligible(bs[i], min_tokens, include_tests))
}

/// Families are ordered by the file and start byte of their first block.
pub open spec fn first_key(b: Block) -> Key2 {
    (b.file@, b.bytes.start as int)
}

/// Eligible blocks grouped by equal tokens, each family in input order, families
/// ordered by their first block (ties in no particular order).
pub open spec fn families_ok(
    bs: Seq<Block>,
    min_tokens: usize,
    include_tests: bool,
    fams: Seq<Seq<int>>,
) -> bool {
    &&& groups_ok(block_tokens(bs), block_eligibility(bs, min_tokens, include_tests), fams)
    &&& forall|k: int, l: int|
        0 <= k < l < fams.len() ==> !key2_lt(
            first_key(bs[#[trigger] fams[l][0]]),
            first_key(bs[#[trigger] fams[k][0]]),
        )
}

pub open spec fn spec_overlaps(a: Block, b: Block) -> bool {
    a.file@ == b.file@ && a.bytes.start < b.bytes.end && b.bytes.start < a.bytes.end
}

pub fn overlaps(a: &Block, b: &Block) -> (r: bool)
    ensures
        r == spec_overlaps(*a, *b),
{
    a.file == b.file && a.bytes.start < b.bytes.end && b.bytes.start < a.bytes.end
}

/// Number of eligible items among the first `n` whose tokens are in `t`.
pub open spec fn count_in(
    ts: Seq<Seq<Seq<char>>>,
    el: Seq<bool>,
    n: int,
    t: Set<Seq<Seq<char>>>,
) -> nat
    decreases n,
{
    if n <= 0 {
        0
    } else {
        count_in(ts, el, n - 1, t) + if el[n - 1] && t.contains(ts[n - 1]) {
            1nat
        } else {
            0nat
        }
    }
}

proof fn lemma_count_in(
    ts: Seq<Seq<Seq<char>>>,
    el: Seq<bool>,
    n: int,
    t: Set<Seq<Seq<char>>>,
    x: Seq<Seq<char>>,
)
    requires
        !t.contains(x),
        n >= 0,
    ensures
        count_in(ts, el, n, t.insert(x)) == count_in(ts, el, n, t) + members(ts, el, n, x).len(),
    decreases n,
{
    if n > 0 {
        lemma_count_in(ts, el, n - 1, t, x);
    }
}

/// Total size of the first `k` families.
pub open spec fn size_sum(fams: Seq<Seq<int>>, k: int) -> nat
    decreases k,
{
    if k <= 0 {
        0
    } else {
        size_sum(fams, k - 1) + fams[k - 1].len()
    }
}

pub open spec fn first_tokens(ts: Seq<Seq<Seq<char>>>, fams: Seq<Seq<int>>, k: int) -> Set<
    Seq<Seq<char>>,
>
    decreases k,
{
    if k <= 0 {
        Set::empty()
    } else {
        first_tokens(ts, fams, k - 1).insert(ts[fams[k - 1][0]])
    }
}

proof fn lemma_size_sum(ts: Seq<Seq<Seq<char>>>, el: Seq<bool>, fams: Seq<Seq<int>>, k: int)
    requires
        groups_ok(ts, el, fams),
        el.len() == ts.len(),
        0 <= k <= fams.len(),
    ensures
        size_sum(fams, k) == count_in(ts, el, ts.len() as int, first_tokens(ts, fams, k)),
        size_sum(fams, k) <= ts.len(),
        forall|l: int| k <= l < fams.len() ==> !first_tokens(ts, fams, k).contains(ts[#[trigger] fams[l][0]]),
    decreases k,
{
    if k > 0 {
        lemma_size_sum(ts, el, fams, k - 1);
        let t = first_tokens(ts, fams, k - 1);
        let x = ts[fams[k - 1][0]];
        assert(fams[k - 1].len() > 0);
        lemma_count_in(ts, el, ts.len() as int, t, x);
        lemma_count_bound(ts, el, ts.len() as int, t.insert(x));
        assert(fams[k - 1] == members(ts, el, ts.len() as int, x));
        assert forall|l: int| k <= l < fams.len() implies !first_tokens(ts, fams, k).contains(ts[#[trigger] fams[l][0]]) by {
            assert(ts[fams[l][0]] != ts[fams[k - 1][0]]);
        }
    } else {
        assert(count_in(ts, el, ts.len() as int, Set::empty()) == 0) by {
            lemma_count_empty(ts, el, ts.len() as int);
        }
    }
}

proof fn lemma_count_bound(ts: Seq<Seq<Seq<char>>>, el: Seq<bool>, n: int, t: Set<Seq<Seq<char>>>)
    requires
        n >= 0,
    ensures
        count_in(ts, el, n, t) <= n,
    decreases n,
{
    if n > 0 {
        lemma_count_bound(ts, el, n - 1, t);
    }
}

proof fn lemma_count_empty(ts: Seq<Seq<Seq<char>>>, el: Seq<bool>, n: int)
    ensures
        count_in(ts, el, n, Set::empty()) == 0,
    decreases n,
{
    if n > 0 {
        lemma_count_empty(ts, el, n - 1);
    }
}

pub open spec fn hit(perm: Seq<int>, m: int) -> bool {
    exists|x: int| 0 <= x < perm.len() && perm[x] == m
}

pub(crate) fn copy_indices(v: &Vec<usize>) -> (r: Vec<usize>)
    ensures
        r@ == v@,
{
    let mut r: Vec<usize> = Vec::new();
    let mut i: usize = 0;
    while i < v.len()
        invariant
            i <= v@.len(),
            r@ == v@.take(i as int),
        decreases v@.len() - i,
    {
        r.push(v[i]);
        assert(v@.take(i + 1) =~= v@.take(i as int).push(v@[i as int]));
        i += 1;
    }
    assert(v@.take(v@.len() as int) =~= v@);
    r
}

/// `first_key(blocks[i]) < first_key(blocks[j])`.
fn first_key_lt(blocks: &[Block], i: usize, j: usize) -> (r: bool)
    requires
        i < blocks@.len(),
        j < blocks@.len(),
    ensures
        r == key2_lt(first_key(blocks@[i as int]), first_key(blocks@[j as int])),
{
    let a = &blocks[i];
    let b = &blocks[j];
    str_lt(a.file.as_str(), b.file.as_str()) || (str_eq(a.file.as_str(), b.file.as_str())
        && a.bytes.start < b.bytes.start)
}

/// The first position in `out` whose family starts after block `first`, or the end.
fn insert_position(blocks: &[Block], out: &Vec<Vec<usize>>, first: usize) -> (pos: usize)
    requires
        first < blocks@.len(),
        forall|x: int| 0 <= x < out@.len() ==> #[trigger] out@[x]@.len() > 0 && out@[x]@[0] < blocks@.len(),
    ensures
        pos <= out@.len(),
        forall|x: int|
            0 <= x < pos ==> !key2_lt(
                first_key(blocks@[first as int]),
                first_key(blocks@[#[trigger] out@[x]@[0] as int]),
            ),
        pos < out@.len() ==> key2_lt(
            first_key(blocks@[first as int]),
            first_key(blocks@[out@[pos as int]@[0] as int]),
        ),
{
    let mut pos: usize = 0;
    while pos < out.len()
        invariant_except_break
            pos <= out@.len(),
        invariant
            first < blocks@.len(),
            forall|x: int| 0 <= x < out@.len() ==> #[trigger] out@[x]@.len() > 0 && out@[x]@[0] < blocks@.len(),
            forall|x: int|
                0 <= x < pos ==> !key2_lt(
                    first_key(blocks@[first as int]),
                    first_key(blocks@[#[trigger] out@[x]@[0] as int]),
                ),
        ensures
            pos <= out@.len(),
            pos < out@.len() ==> key2_lt(
                first_key(blocks@[first as int]),
                first_key(blocks@[out@[pos as int]@[0] as int]),
            ),
        decreases out@.len() - pos,
    {
        assert(out@[pos as int]@.len() > 0 && out@[pos as int]@[0] < blocks@.len());
        let head = out[pos][0];
        if first_key_lt(blocks, first, head) {
            break;
        }
        pos += 1;
    }
    pos
}

/// Indices of the eligible blocks grouped by equal tokens, families ordered by first block.
fn family_indices(blocks: &[Block], min_tokens: usize, include_tests: bool) -> (r: Vec<Vec<usize>>)
    ensures
        families_ok(blocks@, min_tokens, include_tests, int_groups(r@)),
{
    let ghost bs = blocks@;
    let ghost tv = block_tokens(bs);
    let ghost ev = block_eligibility(bs, min_tokens, include_tests);
    let mut ts: Vec<&Vec<String>> = Vec::new();
    let mut el: Vec<bool> = Vec::new();
    let mut i: usize = 0;
    while i < blocks.len()
        invariant
            bs == blocks@,
            tv == block_tokens(bs),
            ev == block_eligibility(bs, min_tokens, include_tests),
            i <= blocks@.len(),
            ts@.len() == i,
            el@.len() == i,
            forall|j: int| 0 <= j < i ==> #[trigger] tokens_view(*ts@[j]) == tv[j],
            forall|j: int| 0 <= j < i ==> #[trigger] el@[j] == ev[j],
        decreases blocks@.len() - i,
    {
        let b = &blocks[i];
        ts.push(&b.shape.tokens);
        el.push(b.shape.leaves >= min_tokens && (include_tests || !is_test_file(b.file.as_str())));
        i += 1;
    }
    assert(tokens_seq(ts@) =~= tv);
    assert(el@ =~= ev);
    let gs = group_by_tokens(&ts, &el);
    let ghost g0 = int_groups(gs@);
    assert(groups_ok(tv, ev, g0));
    let mut out: Vec<Vec<usize>> = Vec::new();
    let ghost mut perm: Seq<int> = seq![];
    let mut k: usize = 0;
    while k < gs.len()
        invariant
            bs == blocks@,
            g0 == int_groups(gs@),
            groups_ok(tv, ev, g0),
            tv == block_tokens(bs),
            ev == block_eligibility(bs, min_tokens, include_tests),
            k <= gs@.len(),
            out@.len() == k,
            perm.len() == k,
            forall|x: int| 0 <= x < k ==> 0 <= #[trigger] perm[x] < k && int_groups(out@)[x] == g0[perm[x]],
            forall|x: int, y: int| 0 <= x < k && 0 <= y < k && x != y ==> #[trigger] perm[x] != #[trigger] perm[y],
            forall|m: int| 0 <= m < k ==> #[trigger] hit(perm, m),
            forall|x: int| 0 <= x < k ==> #[trigger] out@[x]@.len() > 0 && out@[x]@[0] < bs.len(),
            forall|x: int, y: int|
                0 <= x < y < k ==> !key2_lt(
                    first_key(bs[#[trigger] out@[y]@[0] as int]),
                    first_key(bs[#[trigger] out@[x]@[0] as int]),
                ),
        decreases gs@.len() - k,
    {
        proof {
            assert(g0[k as int] == int_seq(gs@[k as int]@));
            assert(g0[k as int].len() > 0);
            lemma_members(tv, ev, tv.len() as int, tv[g0[k as int][0]]);
            assert(g0[k as int][0] == gs@[k as int]@[0] as int);
            assert(members(tv, ev, tv.len() as int, tv[g0[k as int][0]])[0] < bs.len());
        }
        let g = copy_indices(&gs[k]);
        let first = g[0];
        let pos = insert_position(blocks, &out, first);
        let ghost old_out = out@;
        let ghost old_perm = perm;
        out.insert(pos, g);
        proof {
            perm = old_perm.insert(pos as int, k as int);
            assert forall|x: int| 0 <= x < k + 1 implies 0 <= #[trigger] perm[x] < k + 1 && int_groups(out@)[x] == g0[perm[x]] by {
                if x < pos {
                    assert(out@[x] == old_out[x]);
                    assert(int_groups(old_out)[x] == g0[old_perm[x]]);
                } else if x == pos {
                    assert(out@[x]@ == gs@[k as int]@);
                } else {
                    assert(out@[x] == old_out[x - 1]);
                    assert(int_groups(old_out)[x - 1] == g0[old_perm[x - 1]]);
                }
            }
            assert forall|x: int, y: int| 0 <= x < k + 1 && 0 <= y < k + 1 && x != y implies #[trigger] perm[x] != #[trigger] perm[y] by {
                if x != pos && y != pos {
                    let x0 = if x < pos { x } else { x - 1 };
                    let y0 = if y < pos { y } else { y - 1 };
                    assert(perm[x] == old_perm[x0] && perm[y] == old_perm[y0]);
                } else if x == pos {
                    let y0 = if y < pos { y } else { y - 1 };
                    assert(perm[y] == old_perm[y0]);
                } else {
                    let x0 = if x < pos { x } else { x - 1 };
                    assert(perm[x] == old_perm[x0]);
                }
            }
            assert forall|m: int| 0 <= m < k + 1 implies #[trigger] hit(perm, m) by {
                if m == k {
                    assert(perm[pos as int] == m);
                } else {
                    assert(hit(old_perm, m));
                    let x0 = choose|x: int| 0 <= x < old_perm.len() && #[trigger] old_perm[x] == m;
                    if x0 < pos {
                        assert(perm[x0] == m);
                    } else {
                        assert(perm[x0 + 1] == m);
                    }
                }
            }
            assert forall|x: int| 0 <= x < k + 1 implies #[trigger] out@[x]@.len() > 0 && out@[x]@[0] < bs.len() by {
                if x < pos {
                    assert(out@[x] == old_out[x]);
                } else if x > pos {
                    assert(out@[x] == old_out[x - 1]);
                }
            }
            assert forall|x: int, y: int| 0 <= x < y < k + 1 implies !key2_lt(
                first_key(bs[#[trigger] out@[y]@[0] as int]),
                first_key(bs[#[trigger] out@[x]@[0] as int]),
            ) by {
                let kx = first_key(bs[out@[x]@[0] as int]);
                let ky = first_key(bs[out@[y]@[0] as int]);
                let kg = first_key(bs[first as int]);
                if x < pos && y < pos {
                    assert(out@[x] == old_out[x] && out@[y] == old_out[y]);
                } else if x > pos && y > pos {
                    assert(out@[x] == old_out[x - 1] && out@[y] == old_out[y - 1]);
                } else if x < pos && y > pos {
                    assert(out@[x] == old_out[x] && out@[y] == old_out[y - 1]);
                } else if x == pos {
                    // g sits before every later element
                    assert(out@[y] == old_out[y - 1]);
                    let kp = first_key(bs[old_out[pos as int]@[0] as int]);
                    assert(key2_lt(kg, kp));
                    if y - 1 > pos {
                        assert(!key2_lt(ky, kp));
                    }
                    lemma_key2_order(ky, kg, kp);
                    lemma_key2_order(kg, kp, ky);
                    lemma_key2_order(ky, kp, kg);
                } else {
                    assert(out@[x] == old_out[x]);
                }
            }
        }
        k += 1;
    }
    proof {
        let fams = int_groups(out@);
        assert forall|x: int| 0 <= x < fams.len() implies #[trigger] fams[x].len() > 0 && fams[x] == members(tv, ev, tv.len() as int, tv[fams[x][0]]) by {
            assert(fams[x] == g0[perm[x]]);
        }
        assert forall|x: int, y: int| 0 <= x < fams.len() && 0 <= y < fams.len() && x != y implies tv[#[trigger] fams[x][0]] != tv[#[trigger] fams[y][0]] by {
            assert(fams[x] == g0[perm[x]]);
            assert(fams[y] == g0[perm[y]]);
        }
        assert forall|j: int| 0 <= j < tv.len() && ev[j] implies exists|x: int| 0 <= x < fams.len() && #[trigger] tv[fams[x][0]] == tv[j] by {
            let m = choose|m: int| 0 <= m < g0.len() && #[trigger] tv[g0[m][0]] == tv[j];
            assert(hit(perm, m));
            let x = choose|x: int| 0 <= x < perm.len() && #[trigger] perm[x] == m;
            assert(fams[x] == g0[m]);
        }
        assert forall|x: int, y: int| 0 <= x < y < fams.len() implies !key2_lt(
            first_key(bs[#[trigger] fams[y][0]]),
            first_key(bs[#[trigger] fams[x][0]]),
        ) by {
            assert(fams[y][0] == out@[y]@[0] as int);
            assert(fams[x][0] == out@[x]@[0] as int);
        }
    }
    out
}

/// Eligible blocks (at least `min_tokens` leaves, and not in a test file unless
/// `include_tests`) grouped by equal normalized tokens.
pub fn families<'a>(blocks: &'a [Block], min_tokens: usize, include_tests: bool) -> (r: Vec<
    Vec<&'a Block>,
>)
    ensures
        exists|fams: Seq<Seq<int>>|
            {
                &&& families_ok(blocks@, min_tokens, include_tests, fams)
                &&& r@.len() == fams.len()
                &&& forall|k: int|
                    0 <= k < fams.len() ==> #[trigger] r@[k]@.len() == fams[k].len() && forall|
                        m: int,
                    | 0 <= m < fams[k].len() ==> *r@[k]@[m] == blocks@[#[trigger] fams[k][m]]
            },
{
    let idx = family_indices(blocks, min_tokens, include_tests);
    let ghost fams = int_groups(idx@);
    let mut out: Vec<Vec<&'a Block>> = Vec::new();
    let mut k: usize = 0;
    while k < idx.len()
        invariant
            fams == int_groups(idx@),
            families_ok(blocks@, min_tokens, include_tests, fams),
            k <= idx@.len(),
            out@.len() == k,
            forall|kk: int|
                0 <= kk < k ==> #[trigger] out@[kk]@.len() == fams[kk].len() && forall|m: int|
                    0 <= m < fams[kk].len() ==> *out@[kk]@[m] == blocks@[#[trigger] fams[kk][m]],
        decreases idx@.len() - k,
    {
        proof {
            lemma_members(block_tokens(blocks@), block_eligibility(blocks@, min_tokens, include_tests), blocks@.len() as int, block_tokens(blocks@)[fams[k as int][0]]);
            assert(fams[k as int] == int_seq(idx@[k as int]@));
        }
        let mut fam: Vec<&'a Block> = Vec::new();
        let mut m: usize = 0;
        while m < idx[k].len()
            invariant
                fams == int_groups(idx@),
                families_ok(blocks@, min_tokens, include_tests, fams),
                k < idx@.len(),
                fams[k as int] == int_seq(idx@[k as int]@),
                forall|x: int| 0 <= x < fams[k as int].len() ==> 0 <= #[trigger] fams[k as int][x] < blocks@.len(),
                m <= idx@[k as int]@.len(),
                fam@.len() == m,
                forall|x: int| 0 <= x < m ==> *fam@[x] == blocks@[#[trigger] fams[k as int][x]],
            decreases idx@[k as int]@.len() - m,
        {
            assert(fams[k as int][m as int] == idx@[k as int]@[m as int] as int);
            fam.push(&blocks[idx[k][m]]);
            m += 1;
        }
        out.push(fam);
        k += 1;
    }
    out
}

// ---------------------------------------------------------------- pairs

/// Pairs `(m[p], m[r])` for `p < r < q` whose blocks do not overlap.
pub open spec fn row_pairs(bs: Seq<Block>, m: Seq<int>, p: int, q: int) -> Seq<(int, int)>
    decreases q - p,
{
    if q <= p + 1 {
        seq![]
    } else {
        row_pairs(bs, m, p, q - 1) + if !spec_overlaps(bs[m[p]], bs[m[q - 1]]) {
            seq![(m[p], m[q - 1])]
        } else {
            seq![]
        }
    }
}

/// The non-overlapping pairs of family `m` from its first `p` rows, in loop order.
pub open spec fn group_pairs(bs: Seq<Block>, m: Seq<int>, p: int) -> Seq<(int, int)>
    decreases p,
{
    if p <= 0 {
        seq![]
    } else {
        group_pairs(bs, m, p - 1) + row_pairs(bs, m, p - 1, m.len() as int)
    }
}

/// Candidate pairs of the first `k` families, in the order they are visited.
pub open spec fn all_pairs(bs: Seq<Block>, fams: Seq<Seq<int>>, k: int) -> Seq<(int, int)>
    decreases k,
{
    if k <= 0 {
        seq![]
    } else {
        all_pairs(bs, fams, k - 1) + group_pairs(bs, fams[k - 1], fams[k - 1].len() as int)
    }
}

/// Larger windows first, then by the two blocks' files and start bytes.
pub open spec fn pair_key(bs: Seq<Block>, c: (int, int)) -> Key5 {
    (
        -(bs[c.0].shape.leaves as int),
        bs[c.0].file@,
        bs[c.0].bytes.start as int,
        bs[c.1].file@,
        bs[c.1].bytes.start as int,
    )
}

/// `sel` holds, in increasing key order, one candidate for each of the smallest
/// `min(limit, number of distinct keys)` candidate keys.
pub open spec fn selected_ok(
    bs: Seq<Block>,
    cands: Seq<(int, int)>,
    limit: usize,
    sel: Seq<(int, int)>,
) -> bool {
    &&& sel.len() <= limit
    &&& forall|x: int, y: int|
        0 <= x < y < sel.len() ==> key5_lt(pair_key(bs, #[trigger] sel[x]), pair_key(bs, #[trigger] sel[y]))
    &&& forall|x: int| 0 <= x < sel.len() ==> cands.contains(#[trigger] sel[x])
    &&& forall|c: (int, int)|
        #[trigger] cands.contains(c) ==> (exists|x: int|
            0 <= x < sel.len() && #[trigger] pair_key(bs, sel[x]) == pair_key(bs, c)) || (sel.len()
            == limit && forall|x: int|
            0 <= x < sel.len() ==> key5_lt(#[trigger] pair_key(bs, sel[x]), pair_key(bs, c)))
}

pub open spec fn usize_pairs(s: Seq<(usize, usize)>) -> Seq<(int, int)> {
    Seq::new(s.len(), |i: int| (s[i].0 as int, s[i].1 as int))
}

fn pair_lt(blocks: &[Block], x: (usize, usize), y: (usize, usize)) -> (r: bool)
    requires
        x.0 < blocks@.len(),
        x.1 < blocks@.len(),
        y.0 < blocks@.len(),
        y.1 < blocks@.len(),
    ensures
        r == key5_lt(
            pair_key(blocks@, (x.0 as int, x.1 as int)),
            pair_key(blocks@, (y.0 as int, y.1 as int)),
        ),
{
    let a1 = &blocks[x.0];
    let b1 = &blocks[x.1];
    let a2 = &blocks[y.0];
    let b2 = &blocks[y.1];
    proof {
        crate::text::lemma_seq_lt_irreflexive(a1.file@);
        crate::text::lemma_seq_lt_irreflexive(b1.file@);
    }
    if a1.shape.leaves != a2.shape.leaves {
        return a1.shape.leaves > a2.shape.leaves;
    }
    if !str_eq(a1.file.as_str(), a2.file.as_str()) {
        return str_lt(a1.file.as_str(), a2.file.as_str());
    }
    if a1.bytes.start != a2.bytes.start {
        return a1.bytes.start < a2.bytes.start;
    }
    if !str_eq(b1.file.as_str(), b2.file.as_str()) {
        return str_lt(b1.file.as_str(), b2.file.as_str());
    }
    b1.bytes.start < b2.bytes.start
}

fn pair_same_key(blocks: &[Block], x: (usize, usize), y: (usize, usize)) -> (r: bool)
    requires
        x.0 < blocks@.len(),
        x.1 < blocks@.len(),
        y.0 < blocks@.len(),
        y.1 < blocks@.len(),
    ensures
        r == (pair_key(blocks@, (x.0 as int, x.1 as int)) == pair_key(
            blocks@,
            (y.0 as int, y.1 as int),
        )),
{
    let a1 = &blocks[x.0];
    let b1 = &blocks[x.1];
    let a2 = &blocks[y.0];
    let b2 = &blocks[y.1];
    a1.shape.leaves == a2.shape.leaves && str_eq(a1.file.as_str(), a2.file.as_str())
        && a1.bytes.start == a2.bytes.start && str_eq(b1.file.as_str(), b2.file.as_str())
        && b1.bytes.start == b2.bytes.start
}

#[verifier::spinoff_prover]
#[verifier::rlimit(80)]
/// Offers candidate `c` to the bounded selection (the `BTreeMap` insert/`pop_last` step).
fn offer(
    blocks: &[Block],
    sel: &mut Vec<(usize, usize)>,
    c: (usize, usize),
    limit: usize,
    Ghost(cands): Ghost<Seq<(int, int)>>,
)
    requires
        c.0 < blocks@.len(),
        c.1 < blocks@.len(),
        forall|x: int| 0 <= x < old(sel)@.len() ==> #[trigger] old(sel)@[x].0 < blocks@.len() && old(sel)@[x].1 < blocks@.len(),
        selected_ok(blocks@, cands, limit, usize_pairs(old(sel)@)),
    ensures
        forall|x: int| 0 <= x < final(sel)@.len() ==> #[trigger] final(sel)@[x].0 < blocks@.len() && final(sel)@[x].1 < blocks@.len(),
        selected_ok(blocks@, cands.push((c.0 as int, c.1 as int)), limit, usize_pairs(final(sel)@)),
{
    let ghost bs = blocks@;
    let ghost ci = (c.0 as int, c.1 as int);
    let ghost kc = pair_key(bs, ci);
    let ghost cands2 = cands.push(ci);
    let ghost s0 = usize_pairs(sel@);
    assert forall|d: (int, int)| cands.contains(d) implies cands2.contains(d) by {
        let i = choose|i: int| 0 <= i < cands.len() && cands[i] == d;
        assert(cands2[i] == d);
    }
    assert(cands2[cands.len() as int] == ci);
    let n = sel.len();
    let take = limit > 0 && (n < limit || pair_lt(blocks, c, sel[n - 1]));
    assert(take ==> n < limit || key5_lt(kc, pair_key(bs, s0[n - 1])));
    if !take {
        proof {
            if limit > 0 {
                let kl = pair_key(bs, s0[n - 1]);
                lemma_key5_order(kc, kl, kc);
                if kl != kc {
                    assert forall|x: int| 0 <= x < s0.len() implies key5_lt(#[trigger] pair_key(bs, s0[x]), kc) by {
                        if x < n - 1 {
                            lemma_key5_order(pair_key(bs, s0[x]), kl, kc);
                        }
                    }
                }
            }
            assert forall|d: (int, int)| #[trigger] cands2.contains(d) implies (exists|x: int|
                0 <= x < s0.len() && #[trigger] pair_key(bs, s0[x]) == pair_key(bs, d)) || (s0.len()
                == limit && forall|x: int|
                0 <= x < s0.len() ==> key5_lt(#[trigger] pair_key(bs, s0[x]), pair_key(bs, d))) by {
                if d != ci {
                    let i = choose|i: int| 0 <= i < cands2.len() && cands2[i] == d;
                    assert(cands[i] == d);
                    assert(cands.contains(d));
                } else if limit > 0 && pair_key(bs, s0[n - 1]) == kc {
                    assert(pair_key(bs, s0[n - 1]) == pair_key(bs, d));
                }
            }
        }
        return;
    }
    let mut pos: usize = 0;
    while pos < sel.len() && pair_lt(blocks, sel[pos], c)
        invariant
            n == sel@.len(),
            s0 == usize_pairs(sel@),
            pos <= n,
            forall|x: int| 0 <= x < sel@.len() ==> #[trigger] sel@[x].0 < blocks@.len() && sel@[x].1 < blocks@.len(),
            c.0 < blocks@.len(),
            c.1 < blocks@.len(),
            forall|x: int| 0 <= x < pos ==> key5_lt(#[trigger] pair_key(bs, s0[x]), kc),
            bs == blocks@,
            kc == pair_key(bs, ci),
            ci == (c.0 as int, c.1 as int),
        decreases n - pos,
    {
        pos += 1;
    }
    if pos < n && pair_same_key(blocks, sel[pos], c) {
        sel.set(pos, c);
        proof {
            let s1 = usize_pairs(sel@);
            assert forall|x: int| 0 <= x < s1.len() implies pair_key(bs, #[trigger] s1[x]) == pair_key(bs, s0[x]) by {
                if x != pos {
                    assert(s1[x] == s0[x]);
                }
            }
            assert forall|x: int, y: int| 0 <= x < y < s1.len() implies key5_lt(pair_key(bs, #[trigger] s1[x]), pair_key(bs, #[trigger] s1[y])) by {
                assert(pair_key(bs, s1[x]) == pair_key(bs, s0[x]));
                assert(pair_key(bs, s1[y]) == pair_key(bs, s0[y]));
            }
            assert forall|x: int| 0 <= x < s1.len() implies cands2.contains(#[trigger] s1[x]) by {
                if x != pos {
                    assert(s1[x] == s0[x]);
                    assert(cands.contains(s0[x]));
                }
            }
            assert forall|d: (int, int)| #[trigger] cands2.contains(d) implies (exists|x: int|
                0 <= x < s1.len() && #[trigger] pair_key(bs, s1[x]) == pair_key(bs, d)) || (s1.len()
                == limit && forall|x: int|
                0 <= x < s1.len() ==> key5_lt(#[trigger] pair_key(bs, s1[x]), pair_key(bs, d))) by {
                if d == ci {
                    assert(pair_key(bs, s1[pos as int]) == pair_key(bs, d));
                } else {
                    let i = choose|i: int| 0 <= i < cands2.len() && cands2[i] == d;
                    assert(cands[i] == d);
                    assert(cands.contains(d));
                    if exists|x: int| 0 <= x < s0.len() && #[trigger] pair_key(bs, s0[x]) == pair_key(bs, d) {
                        let x = choose|x: int| 0 <= x < s0.len() && #[trigger] pair_key(bs, s0[x]) == pair_key(bs, d);
                        assert(pair_key(bs, s1[x]) == pair_key(bs, s0[x]));
                    } else {
                        assert forall|x: int| 0 <= x < s1.len() implies key5_lt(#[trigger] pair_key(bs, s1[x]), pair_key(bs, d)) by {
                            assert(pair_key(bs, s1[x]) == pair_key(bs, s0[x]));
                        }
                    }
                }
            }
        }
    } else {
        sel.insert(pos, c);
        let ghost s1 = usize_pairs(sel@);
        proof {
            // every element at or after `pos` is above `c`
            assert forall|x: int| pos <= x < n implies key5_lt(kc, #[trigger] pair_key(bs, s0[x])) by {
                let kp = pair_key(bs, s0[pos as int]);
                lemma_key5_order(kp, kc, kp);
                assert(!key5_lt(kp, kc));
                assert(kp != kc);
                if x > pos {
                    lemma_key5_order(kc, kp, pair_key(bs, s0[x]));
                }
            }
            assert forall|x: int| 0 <= x < s1.len() implies #[trigger] s1[x] == (if x < pos { s0[x] } else if x == pos { ci } else { s0[x - 1] }) by {}
        }
        proof {
            if pos == n && n >= limit {
                lemma_key5_order(kc, pair_key(bs, s0[n - 1]), kc);
                assert(key5_lt(pair_key(bs, s0[n - 1]), kc));
            }
            assert(pos < n || n < limit);
        }
        if sel.len() > limit {
            sel.pop();
        }
        proof {
            let s2 = usize_pairs(sel@);
            assert(pos < s2.len());
            assert forall|x: int| 0 <= x < s2.len() implies #[trigger] s2[x] == s1[x] by {}
            assert forall|x: int, y: int| 0 <= x < y < s2.len() implies key5_lt(pair_key(bs, #[trigger] s2[x]), pair_key(bs, #[trigger] s2[y])) by {
                assert(s2[x] == s1[x] && s2[y] == s1[y]);
                if y < pos {
                } else if x < pos && y == pos {
                } else if x < pos && y > pos {
                    lemma_key5_order(pair_key(bs, s0[x]), kc, pair_key(bs, s0[y - 1]));
                } else if x == pos {
                } else {
                }
            }
            assert forall|x: int| 0 <= x < s2.len() implies cands2.contains(#[trigger] s2[x]) by {
                assert(s2[x] == s1[x]);
                if x < pos {
                    assert(cands.contains(s0[x]));
                } else if x > pos {
                    assert(cands.contains(s0[x - 1]));
                }
            }
            assert forall|d: (int, int)| #[trigger] cands2.contains(d) implies (exists|x: int|
                0 <= x < s2.len() && #[trigger] pair_key(bs, s2[x]) == pair_key(bs, d)) || (s2.len()
                == limit && forall|x: int|
                0 <= x < s2.len() ==> key5_lt(#[trigger] pair_key(bs, s2[x]), pair_key(bs, d))) by {
                if d == ci {
                    assert(s2[pos as int] == ci);
                    assert(pair_key(bs, s2[pos as int]) == pair_key(bs, d));
                } else {
                    let i = choose|i: int| 0 <= i < cands2.len() && cands2[i] == d;
                    assert(cands[i] == d);
                    assert(cands.contains(d));
                    let kd = pair_key(bs, d);
                    if exists|x: int| 0 <= x < s0.len() && #[trigger] pair_key(bs, s0[x]) == kd {
                        let x = choose|x: int| 0 <= x < s0.len() && #[trigger] pair_key(bs, s0[x]) == kd;
                        let x1 = if x < pos { x } else { x + 1 };
                        assert(s1[x1] == s0[x]);
                        if x1 < s2.len() {
                            assert(s2[x1] == s1[x1]);
                            assert(pair_key(bs, s2[x1]) == kd);
                        } else {
                            // the popped element carried kd: everything kept is below it
                            assert(s2.len() == limit);
                            assert forall|y: int| 0 <= y < s2.len() implies key5_lt(#[trigger] pair_key(bs, s2[y]), kd) by {
                                assert(s2[y] == s1[y]);
                                if y < pos {
                                    if y != x {
                                        lemma_key5_order(pair_key(bs, s0[y]), pair_key(bs, s0[x]), kd);
                                    }
                                } else if y == pos {
                                    lemma_key5_order(kc, pair_key(bs, s0[x]), kd);
                                } else {
                                    lemma_key5_order(pair_key(bs, s0[y - 1]), pair_key(bs, s0[x]), kd);
                                }
                            }
                        }
                    } else {
                        assert(s0.len() == limit);
                        assert forall|y: int| 0 <= y < s2.len() implies key5_lt(#[trigger] pair_key(bs, s2[y]), kd) by {
                            assert(s2[y] == s1[y]);
                            if y == pos {
                                lemma_key5_order(kc, pair_key(bs, s0[n - 1]), kd);
                            }
                        }
                    }
                }
            }
        }
    }
}

/// Non-overlapping pairs of same-family blocks: their number, and the `limit` pairs
/// with the smallest keys (larger windows first, then files and start bytes), sorted;
/// of several pairs with one key, one is kept.
pub fn pairs<'a>(
    blocks: &'a [Block],
    min_tokens: usize,
    include_tests: bool,
    limit: usize,
) -> (r: (usize, Vec<BlockPair<'a>>))
    requires
        blocks@.len() * blocks@.len() <= usize::MAX,
    ensures
        exists|fams: Seq<Seq<int>>|
            {
                &&& families_ok(blocks@, min_tokens, include_tests, fams)
                &&& r.0 == all_pairs(blocks@, fams, fams.len() as int).len()
                &&& exists|sel: Seq<(int, int)>|
                    {
                        &&& selected_ok(
                            blocks@,
                            all_pairs(blocks@, fams, fams.len() as int),
                            limit,
                            sel,
                        )
                        &&& r.1@.len() == sel.len()
                        &&& forall|x: int|
                            0 <= x < sel.len() ==> *(#[trigger] r.1@[x]).a == blocks@[sel[x].0]
                                && *r.1@[x].b == blocks@[sel[x].1]
                    }
            },
{
    let ghost bs = blocks@;
    let gs = family_indices(blocks, min_tokens, include_tests);
    let ghost fams = int_groups(gs@);
    let ghost tv = block_tokens(bs);
    let ghost ev = block_eligibility(bs, min_tokens, include_tests);
    let n = blocks.len();
    let mut sel: Vec<(usize, usize)> = Vec::new();
    let mut total: usize = 0;
    let mut k: usize = 0;
    proof {
        lemma_size_sum(tv, ev, fams, 0);
    }
    while k < gs.len()
        invariant
            bs == blocks@,
            n == bs.len(),
            n * n <= usize::MAX,
            fams == int_groups(gs@),
            tv == block_tokens(bs),
            ev == block_eligibility(bs, min_tokens, include_tests),
            families_ok(bs, min_tokens, include_tests, fams),
            k <= gs@.len(),
            total == all_pairs(bs, fams, k as int).len(),
            total <= n * size_sum(fams, k as int),
            forall|x: int| 0 <= x < sel@.len() ==> #[trigger] sel@[x].0 < n && sel@[x].1 < n,
            selected_ok(bs, all_pairs(bs, fams, k as int), limit, usize_pairs(sel@)),
        decreases gs@.len() - k,
    {
        let m = &gs[k];
        let len = m.len();
        let ghost fm = fams[k as int];
        let ghost base = all_pairs(bs, fams, k as int);
        proof {
            lemma_size_sum(tv, ev, fams, k + 1);
            assert(fm == int_seq(m@));
            lemma_members(tv, ev, tv.len() as int, tv[fm[0]]);
            assert(fm == members(tv, ev, tv.len() as int, tv[fm[0]]));
        }
        let ghost s_k = size_sum(fams, k as int);
        assert(s_k + len <= n);
        let mut p: usize = 0;
        while p < len
            invariant
                bs == blocks@,
                n == bs.len(),
                n * n <= usize::MAX,
                s_k + len <= n,
                len == m@.len(),
                fm == int_seq(m@),
                forall|x: int| 0 <= x < fm.len() ==> 0 <= #[trigger] fm[x] < n,
                p <= len,
                total == base.len() + group_pairs(bs, fm, p as int).len(),
                total <= n * s_k + n * p,
                forall|x: int| 0 <= x < sel@.len() ==> #[trigger] sel@[x].0 < n && sel@[x].1 < n,
                selected_ok(bs, base + group_pairs(bs, fm, p as int), limit, usize_pairs(sel@)),
            decreases len - p,
        {
            let ghost rowbase = base + group_pairs(bs, fm, p as int);
            let mut q: usize = p + 1;
            assert(row_pairs(bs, fm, p as int, q as int) =~= Seq::<(int, int)>::empty());
            assert(rowbase + row_pairs(bs, fm, p as int, q as int) =~= rowbase);
            while q < len
                invariant
                    bs == blocks@,
                    n == bs.len(),
                    n * n <= usize::MAX,
                    s_k + len <= n,
                    len == m@.len(),
                    fm == int_seq(m@),
                    forall|x: int| 0 <= x < fm.len() ==> 0 <= #[trigger] fm[x] < n,
                    p < len,
                    p + 1 <= q <= len,
                    total == rowbase.len() + row_pairs(bs, fm, p as int, q as int).len(),
                    rowbase.len() <= n * s_k + n * p,
                    row_pairs(bs, fm, p as int, q as int).len() <= q - p - 1,
                    forall|x: int| 0 <= x < sel@.len() ==> #[trigger] sel@[x].0 < n && sel@[x].1 < n,
                    selected_ok(bs, rowbase + row_pairs(bs, fm, p as int, q as int), limit, usize_pairs(sel@)),
                decreases len - q,
            {
                assert(fm[p as int] == m@[p as int] as int);
                assert(fm[q as int] == m@[q as int] as int);
                let a = m[p];
                let b = m[q];
                let ghost prev = rowbase + row_pairs(bs, fm, p as int, q as int);
                if !overlaps(&blocks[a], &blocks[b]) {
                    proof {
                        assert(q - p - 1 < len);
                        assert(n * s_k + n * p + len <= n * n) by (nonlinear_arith)
                            requires
                                s_k + len <= n,
                                p < len,
                        {
                            assert(n * s_k + n * p + len <= n * s_k + n * p + n);
                            assert(n * s_k + n * p + n == n * (s_k + p + 1));
                            assert(s_k + p + 1 <= n);
                        }
                    }
                    total += 1;
                    offer(blocks, &mut sel, (a, b), limit, Ghost(prev));
                    proof {
                        assert(row_pairs(bs, fm, p as int, q + 1) =~= row_pairs(bs, fm, p as int, q as int).push((a as int, b as int)));
                        assert(rowbase + row_pairs(bs, fm, p as int, q + 1) =~= prev.push((a as int, b as int)));
                    }
                } else {
                    assert(row_pairs(bs, fm, p as int, q + 1) =~= row_pairs(bs, fm, p as int, q as int));
                }
                q += 1;
            }
            proof {
                assert(group_pairs(bs, fm, p + 1) =~= group_pairs(bs, fm, p as int) + row_pairs(bs, fm, p as int, len as int));
                assert(base + group_pairs(bs, fm, p + 1) =~= rowbase + row_pairs(bs, fm, p as int, len as int));
                assert(total <= n * s_k + n * (p + 1)) by (nonlinear_arith)
                    requires
                        total <= n * s_k + n * p + len,
                        len <= n,
                {
                }
            }
            p += 1;
        }
        proof {
            assert(all_pairs(bs, fams, k + 1) =~= base + group_pairs(bs, fm, len as int));
            assert(size_sum(fams, k + 1) == s_k + len);
            assert(n * s_k + n * len == n * (s_k + len)) by (nonlinear_arith);
        }
        k += 1;
    }
    let mut out: Vec<BlockPair<'a>> = Vec::new();
    let mut x: usize = 0;
    while x < sel.len()
        invariant
            bs == blocks@,
            x <= sel@.len(),
            out@.len() == x,
            forall|y: int| 0 <= y < sel@.len() ==> #[trigger] sel@[y].0 < bs.len() && sel@[y].1 < bs.len(),
            forall|y: int|
                0 <= y < x ==> *(#[trigger] out@[y]).a == bs[sel@[y].0 as int] && *out@[y].b
                    == bs[sel@[y].1 as int],
        decreases sel@.len() - x,
    {
        let (a, b) = sel[x];
        out.push(BlockPair { a: &blocks[a], b: &blocks[b] });
        x += 1;
    }
    proof {
        let sv = usize_pairs(sel@);
        assert forall|y: int| 0 <= y < sv.len() implies *(#[trigger] out@[y]).a == bs[sv[y].0]
            && *out@[y].b == bs[sv[y].1] by {}
    }
    (total, out)
}

proof fn lemma_row_pairs(bs: Seq<Block>, m: Seq<int>, p: int, q: int, y: int)
    requires
        0 <= y < row_pairs(bs, m, p, q).len(),
    ensures
        exists|r: int|
            p < r < q && row_pairs(bs, m, p, q)[y] == (m[p], m[r]) && !spec_overlaps(bs[m[p]], #[trigger] bs[m[r]]),
    decreases q - p,
{
    let prev = row_pairs(bs, m, p, q - 1);
    if y < prev.len() {
        lemma_row_pairs(bs, m, p, q - 1, y);
        let r = choose|r: int| p < r < q - 1 && prev[y] == (m[p], m[r]) && !spec_overlaps(bs[m[p]], #[trigger] bs[m[r]]);
        assert(row_pairs(bs, m, p, q)[y] == prev[y]);
    } else {
        assert(row_pairs(bs, m, p, q)[y] == (m[p], m[q - 1]));
    }
}

proof fn lemma_group_pairs(bs: Seq<Block>, m: Seq<int>, p: int, y: int)
    requires
        0 <= y < group_pairs(bs, m, p).len(),
        p <= m.len(),
    ensures
        exists|a: int, b: int|
            0 <= a < b < m.len() && group_pairs(bs, m, p)[y] == (m[a], m[b]) && !spec_overlaps(
                #[trigger] bs[m[a]],
                #[trigger] bs[m[b]],
            ),
    decreases p,
{
    let prev = group_pairs(bs, m, p - 1);
    let row = row_pairs(bs, m, p - 1, m.len() as int);
    assert(group_pairs(bs, m, p) == prev + row);
    if y < prev.len() {
        lemma_group_pairs(bs, m, p - 1, y);
        let (a, b) = choose|a: int, b: int|
            0 <= a < b < m.len() && prev[y] == (m[a], m[b]) && !spec_overlaps(#[trigger] bs[m[a]], #[trigger] bs[m[b]]);
        assert(group_pairs(bs, m, p)[y] == prev[y]);
    } else {
        lemma_row_pairs(bs, m, p - 1, m.len() as int, y - prev.len());
        let r = choose|r: int|
            p - 1 < r < m.len() && row[y - prev.len()] == (m[p - 1], m[r]) && !spec_overlaps(bs[m[p - 1]], #[trigger] bs[m[r]]);
        assert(group_pairs(bs, m, p)[y] == row[y - prev.len()]);
        assert(!spec_overlaps(bs[m[p - 1]], bs[m[r]]));
    }
}

proof fn lemma_all_pairs(bs: Seq<Block>, gs: Seq<Seq<int>>, k: int, y: int)
    requires
        0 <= y < all_pairs(bs, gs, k).len(),
        k <= gs.len(),
    ensures
        exists|g: int, a: int, b: int|
            0 <= g < k && 0 <= a < b < gs[g].len() && all_pairs(bs, gs, k)[y] == (gs[g][a], gs[g][b])
                && !spec_overlaps(#[trigger] bs[gs[g][a]], #[trigger] bs[gs[g][b]]),
    decreases k,
{
    let prev = all_pairs(bs, gs, k - 1);
    let grp = group_pairs(bs, gs[k - 1], gs[k - 1].len() as int);
    assert(all_pairs(bs, gs, k) == prev + grp);
    if y < prev.len() {
        lemma_all_pairs(bs, gs, k - 1, y);
        let (g, a, b) = choose|g: int, a: int, b: int|
            0 <= g < k - 1 && 0 <= a < b < gs[g].len() && prev[y] == (gs[g][a], gs[g][b]) && !spec_overlaps(
                #[trigger] bs[gs[g][a]],
                #[trigger] bs[gs[g][b]],
            );
        assert(all_pairs(bs, gs, k)[y] == prev[y]);
    } else {
        lemma_group_pairs(bs, gs[k - 1], gs[k - 1].len() as int, y - prev.len());
        let (a, b) = choose|a: int, b: int|
            0 <= a < b < gs[k - 1].len() && grp[y - prev.len()] == (gs[k - 1][a], gs[k - 1][b]) && !spec_overlaps(
                #[trigger] bs[gs[k - 1][a]],
                #[trigger] bs[gs[k - 1][b]],
            );
        assert(all_pairs(bs, gs, k)[y] == grp[y - prev.len()]);
    }
}

/// Every candidate pair joins two different eligible blocks of one family (equal
/// normalized tokens) that do not overlap, the earlier one first.
pub proof fn law_paired_blocks_match(
    bs: Seq<Block>,
    min_tokens: usize,
    include_tests: bool,
    fams: Seq<Seq<int>>,
    c: (int, int),
)
    requires
        families_ok(bs, min_tokens, include_tests, fams),
        all_pairs(bs, fams, fams.len() as int).contains(c),
    ensures
        0 <= c.0 < c.1 < bs.len(),
        block_eligible(bs[c.0], min_tokens, include_tests),
        block_eligible(bs[c.1], min_tokens, include_tests),
        bs[c.0].shape@.tokens == bs[c.1].shape@.tokens,
        !spec_overlaps(bs[c.0], bs[c.1]),
{
    let tv = block_tokens(bs);
    let ev = block_eligibility(bs, min_tokens, include_tests);
    let all = all_pairs(bs, fams, fams.len() as int);
    let y = choose|y: int| 0 <= y < all.len() && all[y] == c;
    lemma_all_pairs(bs, fams, fams.len() as int, y);
    let (g, a, b) = choose|g: int, a: int, b: int|
        0 <= g < fams.len() && 0 <= a < b < fams[g].len() && all[y] == (fams[g][a], fams[g][b]) && !spec_overlaps(
            #[trigger] bs[fams[g][a]],
            #[trigger] bs[fams[g][b]],
        );
    assert(fams[g].len() > 0);
    let t = tv[fams[g][0]];
    assert(fams[g] == members(tv, ev, tv.len() as int, t));
    lemma_members(tv, ev, tv.len() as int, t);
    assert(ev[fams[g][a]] && ev[fams[g][b]]);
}


/// No two blocks start at the same byte of the same file.
pub open spec fn distinct_positions(bs: Seq<Block>) -> bool {
    forall|i: int, j: int|
        0 <= i < bs.len() && 0 <= j < bs.len() && i != j ==> #[trigger] bs[i].file@ != #[trigger] bs[j].file@
            || bs[i].bytes.start != bs[j].bytes.start
}

proof fn lemma_same_key_same_pair(
    bs: Seq<Block>,
    min_tokens: usize,
    include_tests: bool,
    fams: Seq<Seq<int>>,
    c: (int, int),
    d: (int, int),
)
    requires
        distinct_positions(bs),
        families_ok(bs, min_tokens, include_tests, fams),
        all_pairs(bs, fams, fams.len() as int).contains(c),
        all_pairs(bs, fams, fams.len() as int).contains(d),
        pair_key(bs, c) == pair_key(bs, d),
    ensures
        c == d,
{
    law_paired_blocks_match(bs, min_tokens, include_tests, fams, c);
    law_paired_blocks_match(bs, min_tokens, include_tests, fams, d);
    if c.0 != d.0 {
        assert(bs[c.0].file@ != bs[d.0].file@ || bs[c.0].bytes.start != bs[d.0].bytes.start);
    }
    if c.1 != d.1 {
        assert(bs[c.1].file@ != bs[d.1].file@ || bs[c.1].bytes.start != bs[d.1].bytes.start);
    }
}

/// Candidates with equal keys are equal.
pub open spec fn keys_identify(bs: Seq<Block>, cands: Seq<(int, int)>) -> bool {
    forall|c: (int, int), d: (int, int)|
        #[trigger] cands.contains(c) && #[trigger] cands.contains(d) && pair_key(bs, c) == pair_key(bs, d) ==> c == d
}

/// Two selections from one candidate list agree on their common first `x` places.
proof fn lemma_selections_agree(
    bs: Seq<Block>,
    cands: Seq<(int, int)>,
    k: usize,
    l: usize,
    sk: Seq<(int, int)>,
    sl: Seq<(int, int)>,
    x: int,
)
    requires
        keys_identify(bs, cands),
        selected_ok(bs, cands, k, sk),
        selected_ok(bs, cands, l, sl),
        0 <= x <= sk.len(),
        x <= sl.len(),
    ensures
        forall|y: int| 0 <= y < x ==> sk[y] == sl[y],
    decreases x,
{
    if x > 0 {
        lemma_selections_agree(bs, cands, k, l, sk, sl, x - 1);
        let y = x - 1;
        let a = sk[y];
        let b = sl[y];
        let ka = pair_key(bs, a);
        let kb = pair_key(bs, b);
        lemma_key5_order(ka, kb, kb);
        assert(cands.contains(a));
        assert(cands.contains(b));
        if key5_lt(ka, kb) {
            if exists|z: int| 0 <= z < sl.len() && #[trigger] pair_key(bs, sl[z]) == pair_key(bs, a) {
                let z = choose|z: int| 0 <= z < sl.len() && #[trigger] pair_key(bs, sl[z]) == pair_key(bs, a);
                if z > y {
                    assert(key5_lt(pair_key(bs, sl[y]), pair_key(bs, sl[z])));
                    lemma_key5_order(kb, ka, kb);
                } else if z == y {
                    lemma_key5_order(ka, ka, ka);
                } else {
                    assert(sk[z] == sl[z]);
                    assert(key5_lt(pair_key(bs, sk[z]), pair_key(bs, sk[y])));
                    lemma_key5_order(ka, ka, ka);
                }
            } else {
                assert(key5_lt(pair_key(bs, sl[y]), pair_key(bs, a)));
                lemma_key5_order(ka, kb, ka);
            }
        } else if key5_lt(kb, ka) {
            if exists|z: int| 0 <= z < sk.len() && #[trigger] pair_key(bs, sk[z]) == pair_key(bs, b) {
                let z = choose|z: int| 0 <= z < sk.len() && #[trigger] pair_key(bs, sk[z]) == pair_key(bs, b);
                if z > y {
                    assert(key5_lt(pair_key(bs, sk[y]), pair_key(bs, sk[z])));
                    lemma_key5_order(ka, kb, ka);
                } else if z == y {
                    lemma_key5_order(kb, kb, kb);
                } else {
                    assert(sk[z] == sl[z]);
                    assert(key5_lt(pair_key(bs, sl[z]), pair_key(bs, sl[y])));
                    lemma_key5_order(kb, kb, kb);
                }
            } else {
                assert(key5_lt(pair_key(bs, sk[y]), pair_key(bs, b)));
                lemma_key5_order(kb, ka, kb);
            }
        }
    }
}

/// Selections under limits `k <= l` from candidates that their keys identify: the
/// first is a prefix of the second.
proof fn lemma_selection_prefix(
    bs: Seq<Block>,
    cands: Seq<(int, int)>,
    k: usize,
    l: usize,
    sk: Seq<(int, int)>,
    sl: Seq<(int, int)>,
)
    requires
        keys_identify(bs, cands),
        k <= l,
        selected_ok(bs, cands, k, sk),
        selected_ok(bs, cands, l, sl),
    ensures
        sk == sl.take(if k < sl.len() { k as int } else { sl.len() as int }),
{
    let n: int = if k < sl.len() { k as int } else { sl.len() as int };
    if sk.len() < n {
        let x = sk.len() as int;
        lemma_selections_agree(bs, cands, k, l, sk, sl, x);
        let b = sl[x];
        assert(cands.contains(b));
        let z = choose|z: int| 0 <= z < sk.len() && #[trigger] pair_key(bs, sk[z]) == pair_key(bs, b);
        assert(sk[z] == sl[z]);
        assert(key5_lt(pair_key(bs, sl[z]), pair_key(bs, sl[x])));
        lemma_key5_order(pair_key(bs, b), pair_key(bs, b), pair_key(bs, b));
    } else if sk.len() > n {
        let x = sl.len() as int;
        lemma_selections_agree(bs, cands, k, l, sk, sl, x);
        let a = sk[x];
        assert(cands.contains(a));
        let z = choose|z: int| 0 <= z < sl.len() && #[trigger] pair_key(bs, sl[z]) == pair_key(bs, a);
        assert(sk[z] == sl[z]);
        assert(key5_lt(pair_key(bs, sk[z]), pair_key(bs, sk[x])));
        lemma_key5_order(pair_key(bs, a), pair_key(bs, a), pair_key(bs, a));
    }
    lemma_selections_agree(bs, cands, k, l, sk, sl, n);
    assert(sk =~= sl.take(n));
}

/// A smaller limit lists a prefix of what a larger one lists: with no two blocks at
/// one position, the pairs selected under limit `k` are the first `min(k, n)` of the
/// `n` pairs selected under any limit `l >= k` (under `usize::MAX`, all of them),
/// whichever valid family grouping each selection was made from.
pub proof fn law_limit_keeps_a_prefix(
    bs: Seq<Block>,
    min_tokens: usize,
    include_tests: bool,
    fams_k: Seq<Seq<int>>,
    fams_l: Seq<Seq<int>>,
    k: usize,
    l: usize,
    sk: Seq<(int, int)>,
    sl: Seq<(int, int)>,
)
    requires
        distinct_positions(bs),
        families_ok(bs, min_tokens, include_tests, fams_k),
        families_ok(bs, min_tokens, include_tests, fams_l),
        k <= l,
        selected_ok(bs, all_pairs(bs, fams_k, fams_k.len() as int), k, sk),
        selected_ok(bs, all_pairs(bs, fams_l, fams_l.len() as int), l, sl),
    ensures
        sk == sl.take(if k < sl.len() { k as int } else { sl.len() as int }),
{
    let all = all_pairs(bs, fams_k, fams_k.len() as int);
    let other = all_pairs(bs, fams_l, fams_l.len() as int);
    assert forall|c: (int, int), d: (int, int)|
        #[trigger] all.contains(c) && #[trigger] all.contains(d) && pair_key(bs, c) == pair_key(bs, d) implies c == d by {
        lemma_same_key_same_pair(bs, min_tokens, include_tests, fams_k, c, d);
    }
    assert forall|c: (int, int)| #[trigger] all.contains(c) == other.contains(c) by {
        if all.contains(c) {
            lemma_same_candidates(bs, min_tokens, include_tests, fams_k, fams_l, c);
        }
        if other.contains(c) {
            lemma_same_candidates(bs, min_tokens, include_tests, fams_l, fams_k, c);
        }
    }
    assert(selected_ok(bs, all, l, sl));
    lemma_selection_prefix(bs, all, k, l, sk, sl);
}

/// Two calls of `pairs` on the same blocks, one limited to `k` and one unlimited:
/// with no two blocks at one position, the limited call lists the first
/// `min(k, n)` of the `n` pairs the unlimited call lists, and both count the same
/// candidates. (`fams_k`, `sel_k` and `fams_all`, `sel_all` are what each call's
/// contract says it grouped and selected.)
pub proof fn law_limited_call_is_prefix(
    bs: Seq<Block>,
    min_tokens: usize,
    include_tests: bool,
    k: usize,
    fams_k: Seq<Seq<int>>,
    sel_k: Seq<(int, int)>,
    fams_all: Seq<Seq<int>>,
    sel_all: Seq<(int, int)>,
)
    requires
        distinct_positions(bs),
        families_ok(bs, min_tokens, include_tests, fams_k),
        selected_ok(bs, all_pairs(bs, fams_k, fams_k.len() as int), k, sel_k),
        families_ok(bs, min_tokens, include_tests, fams_all),
        selected_ok(bs, all_pairs(bs, fams_all, fams_all.len() as int), usize::MAX, sel_all),
    ensures
        sel_k == sel_all.take(if k < sel_all.len() { k as int } else { sel_all.len() as int }),
        all_pairs(bs, fams_k, fams_k.len() as int).len() == all_pairs(bs, fams_all, fams_all.len() as int).len(),
{
    law_limit_keeps_a_prefix(bs, min_tokens, include_tests, fams_k, fams_all, k, usize::MAX, sel_k, sel_all);
    law_one_grouping(bs, min_tokens, include_tests, fams_k, fams_all);
}

proof fn lemma_row_pairs_has(bs: Seq<Block>, m: Seq<int>, p: int, q: int, b: int)
    requires
        0 <= p < b < q <= m.len(),
        !spec_overlaps(bs[m[p]], bs[m[b]]),
    ensures
        row_pairs(bs, m, p, q).contains((m[p], m[b])),
    decreases q - p,
{
    let prev = row_pairs(bs, m, p, q - 1);
    if b < q - 1 {
        lemma_row_pairs_has(bs, m, p, q - 1, b);
        let y = choose|y: int| 0 <= y < prev.len() && prev[y] == (m[p], m[b]);
        assert(row_pairs(bs, m, p, q)[y] == prev[y]);
    } else {
        assert(row_pairs(bs, m, p, q) == prev.push((m[p], m[b])));
        assert(row_pairs(bs, m, p, q)[prev.len() as int] == (m[p], m[b]));
    }
}

proof fn lemma_group_pairs_has(bs: Seq<Block>, m: Seq<int>, p: int, a: int, b: int)
    requires
        0 <= a < p <= m.len(),
        a < b < m.len(),
        !spec_overlaps(bs[m[a]], bs[m[b]]),
    ensures
        group_pairs(bs, m, p).contains((m[a], m[b])),
    decreases p,
{
    let prev = group_pairs(bs, m, p - 1);
    let row = row_pairs(bs, m, p - 1, m.len() as int);
    if a < p - 1 {
        lemma_group_pairs_has(bs, m, p - 1, a, b);
        let y = choose|y: int| 0 <= y < prev.len() && prev[y] == (m[a], m[b]);
        assert((prev + row)[y] == prev[y]);
    } else {
        lemma_row_pairs_has(bs, m, a, m.len() as int, b);
        let y = choose|y: int| 0 <= y < row.len() && row[y] == (m[a], m[b]);
        assert((prev + row)[prev.len() + y] == row[y]);
    }
}

proof fn lemma_all_pairs_has(bs: Seq<Block>, gs: Seq<Seq<int>>, k: int, g: int, c: (int, int))
    requires
        0 <= g < k <= gs.len(),
        group_pairs(bs, gs[g], gs[g].len() as int).contains(c),
    ensures
        all_pairs(bs, gs, k).contains(c),
    decreases k,
{
    let prev = all_pairs(bs, gs, k - 1);
    let grp = group_pairs(bs, gs[k - 1], gs[k - 1].len() as int);
    if g < k - 1 {
        lemma_all_pairs_has(bs, gs, k - 1, g, c);
        let y = choose|y: int| 0 <= y < prev.len() && prev[y] == c;
        assert((prev + grp)[y] == prev[y]);
    } else {
        let y = choose|y: int| 0 <= y < grp.len() && grp[y] == c;
        assert((prev + grp)[prev.len() + y] == grp[y]);
    }
}

/// Every pair of different eligible blocks with equal normalized tokens that do not
/// overlap, the earlier one first, is a candidate.
pub proof fn law_every_match_is_a_candidate(
    bs: Seq<Block>,
    min_tokens: usize,
    include_tests: bool,
    fams: Seq<Seq<int>>,
    i: int,
    j: int,
)
    requires
        families_ok(bs, min_tokens, include_tests, fams),
        0 <= i < j < bs.len(),
        block_eligible(bs[i], min_tokens, include_tests),
        block_eligible(bs[j], min_tokens, include_tests),
        bs[i].shape@.tokens == bs[j].shape@.tokens,
        !spec_overlaps(bs[i], bs[j]),
    ensures
        all_pairs(bs, fams, fams.len() as int).contains((i, j)),
{
    let tv = block_tokens(bs);
    let ev = block_eligibility(bs, min_tokens, include_tests);
    assert(ev[i] && tv[i] == tv[j]);
    let g = choose|g: int| 0 <= g < fams.len() && #[trigger] tv[fams[g][0]] == tv[i];
    let m = fams[g];
    assert(m.len() > 0 && m == members(tv, ev, tv.len() as int, tv[m[0]]));
    lemma_members(tv, ev, tv.len() as int, tv[i]);
    assert(m.contains(i));
    assert(m.contains(j));
    let a = choose|a: int| 0 <= a < m.len() && m[a] == i;
    let b = choose|b: int| 0 <= b < m.len() && m[b] == j;
    if b <= a {
        if b < a {
            assert(m[b] < m[a]);
        }
    }
    assert(a < b);
    lemma_group_pairs_has(bs, m, m.len() as int, a, b);
    lemma_all_pairs_has(bs, fams, fams.len() as int, g, (i, j));
}

/// Two family groupings give the same candidates.
proof fn lemma_same_candidates(
    bs: Seq<Block>,
    min_tokens: usize,
    include_tests: bool,
    f1: Seq<Seq<int>>,
    f2: Seq<Seq<int>>,
    c: (int, int),
)
    requires
        families_ok(bs, min_tokens, include_tests, f1),
        families_ok(bs, min_tokens, include_tests, f2),
        all_pairs(bs, f1, f1.len() as int).contains(c),
    ensures
        all_pairs(bs, f2, f2.len() as int).contains(c),
{
    law_paired_blocks_match(bs, min_tokens, include_tests, f1, c);
    law_every_match_is_a_candidate(bs, min_tokens, include_tests, f2, c.0, c.1);
}

pub open spec fn family_key(bs: Seq<Block>, m: Seq<int>) -> Key2 {
    first_key(bs[m[0]])
}

/// With no two blocks at one position, families come in strictly increasing order of
/// their first blocks.
proof fn lemma_families_strict(bs: Seq<Block>, min_tokens: usize, include_tests: bool, f: Seq<Seq<int>>, k: int, l: int)
    requires
        distinct_positions(bs),
        families_ok(bs, min_tokens, include_tests, f),
        0 <= k < l < f.len(),
    ensures
        key2_lt(family_key(bs, f[k]), family_key(bs, f[l])),
{
    let tv = block_tokens(bs);
    let ev = block_eligibility(bs, min_tokens, include_tests);
    assert(f[k].len() > 0 && f[l].len() > 0);
    lemma_members(tv, ev, tv.len() as int, tv[f[k][0]]);
    lemma_members(tv, ev, tv.len() as int, tv[f[l][0]]);
    assert(f[k] == members(tv, ev, tv.len() as int, tv[f[k][0]]));
    assert(f[l] == members(tv, ev, tv.len() as int, tv[f[l][0]]));
    assert(0 <= f[k][0] < bs.len() && 0 <= f[l][0] < bs.len());
    assert(tv[f[k][0]] != tv[f[l][0]]);
    assert(f[k][0] != f[l][0]);
    assert(bs[f[k][0]].file@ != bs[f[l][0]].file@ || bs[f[k][0]].bytes.start != bs[f[l][0]].bytes.start);
    lemma_key2_order(family_key(bs, f[k]), family_key(bs, f[l]), family_key(bs, f[l]));
}

/// Each family of one valid grouping is a family of another.
proof fn lemma_family_in(bs: Seq<Block>, min_tokens: usize, include_tests: bool, f1: Seq<Seq<int>>, f2: Seq<Seq<int>>, k: int)
    requires
        families_ok(bs, min_tokens, include_tests, f1),
        families_ok(bs, min_tokens, include_tests, f2),
        0 <= k < f1.len(),
    ensures
        f2.contains(f1[k]),
{
    let tv = block_tokens(bs);
    let ev = block_eligibility(bs, min_tokens, include_tests);
    let i = f1[k][0];
    assert(f1[k].len() > 0 && f1[k] == members(tv, ev, tv.len() as int, tv[i]));
    lemma_members(tv, ev, tv.len() as int, tv[i]);
    assert(0 <= i < tv.len() && ev[i]);
    let g = choose|g: int| 0 <= g < f2.len() && #[trigger] tv[f2[g][0]] == tv[i];
    assert(f2[g] == members(tv, ev, tv.len() as int, tv[f2[g][0]]));
    assert(f2[g] == f1[k]);
}

proof fn lemma_families_agree(
    bs: Seq<Block>,
    min_tokens: usize,
    include_tests: bool,
    f1: Seq<Seq<int>>,
    f2: Seq<Seq<int>>,
    x: int,
)
    requires
        distinct_positions(bs),
        families_ok(bs, min_tokens, include_tests, f1),
        families_ok(bs, min_tokens, include_tests, f2),
        0 <= x <= f1.len(),
        x <= f2.len(),
    ensures
        forall|y: int| 0 <= y < x ==> f1[y] == f2[y],
    decreases x,
{
    if x > 0 {
        lemma_families_agree(bs, min_tokens, include_tests, f1, f2, x - 1);
        let y = x - 1;
        lemma_family_in(bs, min_tokens, include_tests, f1, f2, y);
        let z = choose|z: int| 0 <= z < f2.len() && f2[z] == f1[y];
        if z < y {
            assert(f1[z] == f2[z]);
            lemma_families_strict(bs, min_tokens, include_tests, f1, z, y);
            lemma_key2_order(family_key(bs, f1[y]), family_key(bs, f1[y]), family_key(bs, f1[y]));
        } else if z > y {
            lemma_families_strict(bs, min_tokens, include_tests, f2, y, z);
            lemma_family_in(bs, min_tokens, include_tests, f2, f1, y);
            let w = choose|w: int| 0 <= w < f1.len() && f1[w] == f2[y];
            if w < y {
                assert(f1[w] == f2[w]);
                lemma_families_strict(bs, min_tokens, include_tests, f2, w, y);
                lemma_key2_order(family_key(bs, f2[y]), family_key(bs, f2[y]), family_key(bs, f2[y]));
            } else if w == y {
            } else {
                lemma_families_strict(bs, min_tokens, include_tests, f1, y, w);
                lemma_key2_order(family_key(bs, f1[y]), family_key(bs, f2[y]), family_key(bs, f1[y]));
            }
        }
    }
}

/// With no two blocks at one position there is one valid family grouping, so every
/// call of `pairs` counts the same candidates.
pub proof fn law_one_grouping(
    bs: Seq<Block>,
    min_tokens: usize,
    include_tests: bool,
    f1: Seq<Seq<int>>,
    f2: Seq<Seq<int>>,
)
    requires
        distinct_positions(bs),
        families_ok(bs, min_tokens, include_tests, f1),
        families_ok(bs, min_tokens, include_tests, f2),
    ensures
        f1 == f2,
{
    if f1.len() < f2.len() {
        lemma_families_agree(bs, min_tokens, include_tests, f1, f2, f1.len() as int);
        let y = f1.len() as int;
        lemma_family_in(bs, min_tokens, include_tests, f2, f1, y);
        let w = choose|w: int| 0 <= w < f1.len() && f1[w] == f2[y];
        assert(f2[w] == f1[w]);
        lemma_families_strict(bs, min_tokens, include_tests, f2, w, y);
        lemma_key2_order(family_key(bs, f2[y]), family_key(bs, f2[y]), family_key(bs, f2[y]));
    } else if f2.len() < f1.len() {
        lemma_families_agree(bs, min_tokens, include_tests, f1, f2, f2.len() as int);
        let y = f2.len() as int;
        lemma_family_in(bs, min_tokens, include_tests, f1, f2, y);
        let w = choose|w: int| 0 <= w < f2.len() && f2[w] == f1[y];
        assert(f2[w] == f1[w]);
        lemma_families_strict(bs, min_tokens, include_tests, f1, w, y);
        lemma_key2_order(family_key(bs, f1[y]), family_key(bs, f1[y]), family_key(bs, f1[y]));
    }
    lemma_families_agree(bs, min_tokens, include_tests, f1, f2, f1.len() as int);
    assert(f1 =~= f2);
}

// ---------------------------------------------------------------- windows

/// The named children of `n` that are not comments, among its first `k`.
pub open spec fn statement_list(n: SyntaxNode, k: int) -> Seq<SyntaxNode>
    decreases k,
{
    if k <= 0 || k > n.children@.len() {
        seq![]
    } else {
        statement_list(n, k - 1) + if n.children@[k - 1].named && n.children@[k - 1].kind@ != "comment"@ {
            seq![n.children@[k - 1]]
        } else {
            seq![]
        }
    }
}

pub open spec fn statements_of(n: SyntaxNode) -> Seq<SyntaxNode> {
    statement_list(n, n.children@.len() as int)
}

/// The window of three statements starting at `i`.
pub open spec fn window(st: Seq<SyntaxNode>, i: int) -> Seq<SyntaxNode> {
    st.subrange(i, i + 3)
}

/// Start indices `< k` of the windows of `n` that have a shape.
pub open spec fn shaped_windows(n: SyntaxNode, k: int) -> Seq<int>
    decreases k,
{
    if k <= 0 {
        seq![]
    } else {
        shaped_windows(n, k - 1) + if statements_spec(n, window(statements_of(n), k - 1)) is Some {
            seq![k - 1]
        } else {
            seq![]
        }
    }
}

/// Block `b` is the window of `n`'s statements starting at `i`, in `file`.
pub open spec fn block_of(n: SyntaxNode, i: int, file: Seq<char>, b: Block) -> bool {
    let st = statements_of(n);
    let w = window(st, i);
    &&& statements_spec(n, w) matches Some(r) && b.shape@.tokens == r.0 && b.shape.leaves == r.1
    &&& b.file@ == file
    &&& b.bytes.start == st[i].start_byte
    &&& b.bytes.end == st[i + 2].end_byte
    &&& b.start == line_no(st[i].start_row)
    &&& b.end == line_no(st[i + 2].end_row)
}

/// A block's lines agree with its bytes: it starts on the line where the statement
/// that starts at its first byte starts, and ends on the line where the statement
/// that ends at its last byte ends, so its line range reaches the end of its last
/// statement.
pub proof fn law_block_lines_match_bytes(n: SyntaxNode, i: int, file: Seq<char>, b: Block)
    requires
        block_of(n, i, file, b),
        0 <= i,
        i + 3 <= statements_of(n).len(),
    ensures
        exists|s: SyntaxNode|
            #[trigger] statements_of(n).contains(s) && s.start_byte == b.bytes.start && b.start == line_no(
                s.start_row,
            ),
        exists|s: SyntaxNode|
            #[trigger] statements_of(n).contains(s) && s.end_byte == b.bytes.end && b.end == line_no(s.end_row),
{
    let st = statements_of(n);
    assert(st.contains(st[i]));
    assert(st.contains(st[i + 2]));
}

pub open spec fn window_count(n: SyntaxNode) -> int {
    if statements_of(n).len() >= 3 {
        statements_of(n).len() - 2
    } else {
        0
    }
}

/// Appends a block for each window of three consecutive statements of `node` (its
/// named children, comments left out) that has a shape, in order.
pub fn extract(node: &SyntaxNode, file: &str, out: &mut Vec<Block>)
    ensures
        final(out)@.len() == old(out)@.len() + shaped_windows(*node, window_count(*node)).len(),
        forall|x: int| 0 <= x < old(out)@.len() ==> #[trigger] final(out)@[x] == old(out)@[x],
        forall|x: int|
            0 <= x < shaped_windows(*node, window_count(*node)).len() ==> block_of(
                *node,
                shaped_windows(*node, window_count(*node))[x],
                file@,
                #[trigger] final(out)@[old(out)@.len() + x],
            ),
{
    let ghost n = *node;
    let mut stmts: Vec<&SyntaxNode> = Vec::new();
    let mut i: usize = 0;
    while i < node.children.len()
        invariant
            n == *node,
            i <= node.children@.len(),
            deref_nodes(stmts@) == statement_list(n, i as int),
        decreases node.children@.len() - i,
    {
        let c = &node.children[i];
        if c.named && !str_eq(c.kind.as_str(), "comment") {
            stmts.push(c);
            assert(deref_nodes(stmts@) =~= statement_list(n, i + 1));
        } else {
            assert(deref_nodes(stmts@) =~= statement_list(n, i + 1));
        }
        i += 1;
    }
    let ghost st = statements_of(n);
    let ghost o0 = out@;
    let count: usize = if stmts.len() >= 3 {
        stmts.len() - 2
    } else {
        0
    };
    let mut k: usize = 0;
    while k < count
        invariant
            n == *node,
            st == statements_of(n),
            deref_nodes(stmts@) == st,
            count == window_count(n),
            k <= count,
            o0 == old(out)@,
            out@.len() == o0.len() + shaped_windows(n, k as int).len(),
            forall|x: int| 0 <= x < o0.len() ==> #[trigger] out@[x] == o0[x],
            forall|x: int|
                0 <= x < shaped_windows(n, k as int).len() ==> block_of(
                    n,
                    shaped_windows(n, k as int)[x],
                    file@,
                    #[trigger] out@[o0.len() + x],
                ),
        decreases count - k,
    {
        let mut w: Vec<&SyntaxNode> = Vec::new();
        w.push(stmts[k]);
        w.push(stmts[k + 1]);
        w.push(stmts[k + 2]);
        assert(deref_nodes(w@) =~= window(st, k as int));
        let ghost prev = shaped_windows(n, k as int);
        match statements(node, &w) {
            Some(shape) => {
                let b = Block {
                    file: file.to_owned(),
                    start: line_no_exec(stmts[k].start_row),
                    bytes: stmts[k].start_byte..stmts[k + 2].end_byte,
                    end: line_no_exec(stmts[k + 2].end_row),
                    shape,
                };
                proof {
                    assert(block_of(n, k as int, file@, b));
                }
                let ghost before = out@;
                out.push(b);
                proof {
                    assert(shaped_windows(n, k + 1) == prev.push(k as int));
                    assert forall|x: int| 0 <= x < shaped_windows(n, k + 1).len() implies block_of(
                        n,
                        shaped_windows(n, k + 1)[x],
                        file@,
                        #[trigger] out@[o0.len() + x],
                    ) by {
                        if x < prev.len() {
                            assert(out@[o0.len() + x] == before[o0.len() + x]);
                        }
                    }
                }
            },
            None => {
                assert(shaped_windows(n, k + 1) =~= prev);
            },
        }
        k += 1;
    }
}


/// The blocks of every statement block below `n` (`n` included), in tree order:
/// how many windows each contributes, outer blocks first.
pub open spec fn tree_blocks(n: SyntaxNode) -> nat
    decreases n, n.children@.len() + 1,
{
    own_blocks(n) + tree_blocks_list(n, n.children@.len() as int)
}

/// How many windows `extract` takes from `n` itself: none unless it is a statement block.
pub open spec fn own_blocks(n: SyntaxNode) -> nat {
    if n.kind@ == "statement_block"@ {
        shaped_windows(n, window_count(n)).len()
    } else {
        0
    }
}

pub open spec fn tree_blocks_list(n: SyntaxNode, k: int) -> nat
    decreases n, k,
{
    if k <= 0 || k > n.children@.len() {
        0
    } else {
        tree_blocks_list(n, k - 1) + tree_blocks(n.children@[k - 1])
    }
}

/// `bs` are the blocks of `n` in `file`: the windows of `n` itself when it is a
/// statement block (see `extract`), then the blocks of each child, in child order.
pub open spec fn tree_blocks_ok(n: SyntaxNode, file: Seq<char>, bs: Seq<Block>) -> bool
    decreases n, n.children@.len() + 1,
{
    &&& bs.len() == tree_blocks(n)
    &&& forall|x: int|
        0 <= x < own_blocks(n) ==> block_of(n, shaped_windows(n, window_count(n))[x], file, #[trigger] bs[x])
    &&& list_blocks_ok(n, n.children@.len() as int, file, bs.skip(own_blocks(n) as int))
}

/// `bs` are the blocks of the first `k` children of `n`, one child after another.
pub open spec fn list_blocks_ok(n: SyntaxNode, k: int, file: Seq<char>, bs: Seq<Block>) -> bool
    decreases n, k,
{
    if k <= 0 || k > n.children@.len() {
        bs.len() == 0
    } else {
        let pre = tree_blocks_list(n, k - 1);
        &&& bs.len() == pre + tree_blocks(n.children@[k - 1])
        &&& list_blocks_ok(n, k - 1, file, bs.take(pre as int))
        &&& tree_blocks_ok(n.children@[k - 1], file, bs.skip(pre as int))
    }
}

/// Appends the statement windows of every statement block in the tree below `n`
/// (see `extract`), each block's windows before those of blocks inside it, children
/// in order.
pub fn extract_tree(n: &SyntaxNode, file: &str, out: &mut Vec<Block>)
    ensures
        final(out)@.len() == old(out)@.len() + tree_blocks(*n),
        final(out)@.take(old(out)@.len() as int) == old(out)@,
        tree_blocks_ok(*n, file@, final(out)@.skip(old(out)@.len() as int)),
    decreases n, n.children@.len() + 1,
{
    let ghost o0 = out@;
    let ghost sw = shaped_windows(*n, window_count(*n));
    if str_eq(n.kind.as_str(), "statement_block") {
        extract(n, file, out);
    }
    let ghost o1 = out@;
    proof {
        assert(o1.len() == o0.len() + own_blocks(*n));
        assert(o1.take(o0.len() as int) =~= o0);
        assert(list_blocks_ok(*n, 0, file@, o1.skip(o1.len() as int)));
    }
    let mut i: usize = 0;
    while i < n.children.len()
        invariant
            o0 == old(out)@,
            sw == shaped_windows(*n, window_count(*n)),
            o1.len() == o0.len() + own_blocks(*n),
            o1.take(o0.len() as int) == o0,
            forall|x: int| 0 <= x < own_blocks(*n) ==> block_of(*n, sw[x], file@, #[trigger] o1[o0.len() + x]),
            out@.take(o1.len() as int) == o1,
            out@.len() == o1.len() + tree_blocks_list(*n, i as int),
            list_blocks_ok(*n, i as int, file@, out@.skip(o1.len() as int)),
            i <= n.children@.len(),
        decreases n.children@.len() - i,
    {
        let ghost before = out@;
        extract_tree(&n.children[i], file, out);
        proof {
            let pre = tree_blocks_list(*n, i as int);
            let seg = out@.skip(o1.len() as int);
            assert(out@.take(before.len() as int) == before);
            assert(seg.take(pre as int) =~= before.skip(o1.len() as int));
            assert(seg.skip(pre as int) =~= out@.skip(before.len() as int));
            assert(out@.take(o1.len() as int) =~= o1) by {
                assert(out@.take(o1.len() as int) =~= before.take(o1.len() as int));
            }
            assert(list_blocks_ok(*n, i + 1, file@, seg));
        }
        i += 1;
    }
    proof {
        let all = out@.skip(o0.len() as int);
        assert(out@.take(o0.len() as int) =~= o0) by {
            assert(out@.take(o0.len() as int) =~= o1.take(o0.len() as int));
        }
        assert forall|x: int| 0 <= x < own_blocks(*n) implies block_of(*n, sw[x], file@, #[trigger] all[x]) by {
            assert(all[x] == out@[o0.len() + x]);
            assert(out@[o0.len() + x] == out@.take(o1.len() as int)[o0.len() + x]);
        }
        assert(all.skip(own_blocks(*n) as int) =~= out@.skip(o1.len() as int));
    }
}

} // verus!
