//! Grouping of items by equal normalized token streams.
use vstd::prelude::*;

verus! {

pub open spec fn tokens_view(t: Vec<String>) -> Seq<Seq<char>> {
    t@.map_values(|s: String| s@)
}

pub open spec fn tokens_seq(ts: Seq<&Vec<String>>) -> Seq<Seq<Seq<char>>> {
    Seq::new(ts.len(), |i: int| tokens_view(*ts[i]))
}

pub open spec fn int_seq(v: Seq<usize>) -> Seq<int> {
    Seq::new(v.len(), |x: int| v[x] as int)
}

pub open spec fn int_groups(gs: Seq<Vec<usize>>) -> Seq<Seq<int>> {
    Seq::new(gs.len(), |k: int| int_seq(gs[k]@))
}

/// Indices `< n` of the eligible items whose tokens are `t`, ascending.
pub open spec fn members(ts: Seq<Seq<Seq<char>>>, el: Seq<bool>, n: int, t: Seq<Seq<char>>) -> Seq<
    int,
>
    decreases n,
{
    if n <= 0 {
        seq![]
    } else {
        members(ts, el, n - 1, t) + if el[n - 1] && ts[n - 1] == t {
            seq![n - 1]
        } else {
            seq![]
        }
    }
}

/// `gs` holds each group of eligible items with equal tokens exactly once, each group
/// listing its items in input order.
pub open spec fn groups_ok(ts: Seq<Seq<Seq<char>>>, el: Seq<bool>, gs: Seq<Seq<int>>) -> bool {
    &&& forall|k: int|
        0 <= k < gs.len() ==> #[trigger] gs[k].len() > 0 && gs[k] == members(
            ts,
            el,
            ts.len() as int,
            ts[gs[k][0]],
        )
    &&& forall|k: int, l: int|
        0 <= k < gs.len() && 0 <= l < gs.len() && k != l ==> ts[#[trigger] gs[k][0]]
            != ts[#[trigger] gs[l][0]]
    &&& forall|j: int|
        0 <= j < ts.len() && el[j] ==> exists|k: int|
            0 <= k < gs.len() && #[trigger] ts[gs[k][0]] == ts[j]
}

pub proof fn lemma_members(ts: Seq<Seq<Seq<char>>>, el: Seq<bool>, n: int, t: Seq<Seq<char>>)
    requires
        0 <= n <= ts.len(),
        el.len() == ts.len(),
    ensures
        forall|x: int, y: int|
            0 <= x < y < members(ts, el, n, t).len() ==> members(ts, el, n, t)[x] < members(
                ts,
                el,
                n,
                t,
            )[y],
        forall|x: int|
            0 <= x < members(ts, el, n, t).len() ==> 0 <= #[trigger] members(ts, el, n, t)[x]
                < n && el[members(ts, el, n, t)[x]] && ts[members(ts, el, n, t)[x]] == t,
        forall|i: int|
            0 <= i < n && el[i] && ts[i] == t ==> #[trigger] members(ts, el, n, t).contains(i),
    decreases n,
{
    if n > 0 {
        lemma_members(ts, el, n - 1, t);
        let m = members(ts, el, n - 1, t);
        let m2 = members(ts, el, n, t);
        if el[n - 1] && ts[n - 1] == t {
            assert(m2 == m.push(n - 1));
            assert(m2[m2.len() - 1] == n - 1);
            assert forall|i: int| 0 <= i < n && el[i] && ts[i] == t implies #[trigger] m2.contains(i) by {
                if i < n - 1 {
                    assert(m.contains(i));
                    let x = choose|x: int| 0 <= x < m.len() && m[x] == i;
                    assert(m2[x] == i);
                } else {
                    assert(m2[m2.len() - 1] == i);
                }
            }
        } else {
            assert(m2 =~= m);
        }
    }
}

fn tokens_eq(a: &Vec<String>, b: &Vec<String>) -> (r: bool)
    ensures
        r == (tokens_view(*a) == tokens_view(*b)),
{
    if a.len() != b.len() {
        assert(tokens_view(*a).len() != tokens_view(*b).len());
        return false;
    }
    let mut i: usize = 0;
    while i < a.len()
        invariant
            a@.len() == b@.len(),
            i <= a@.len(),
            forall|j: int| 0 <= j < i ==> a@[j]@ == b@[j]@,
        decreases a@.len() - i,
    {
        if a[i] != b[i] {
            assert(tokens_view(*a)[i as int] != tokens_view(*b)[i as int]);
            return false;
        }
        i += 1;
    }
    assert(tokens_view(*a) =~= tokens_view(*b));
    true
}

fn find_group(gs: &Vec<Vec<usize>>, ts: &Vec<&Vec<String>>, j: usize) -> (r: Option<usize>)
    requires
        j < ts@.len(),
        forall|k: int| 0 <= k < gs@.len() ==> #[trigger] gs@[k]@.len() > 0 && gs@[k]@[0] < ts@.len(),
    ensures
        r matches Some(k) ==> k < gs@.len() && tokens_seq(ts@)[gs@[k as int]@[0] as int] == tokens_seq(ts@)[j as int],
        r is None ==> forall|k: int| 0 <= k < gs@.len() ==> tokens_seq(ts@)[#[trigger] gs@[k]@[0] as int] != tokens_seq(ts@)[j as int],
{
    let mut k: usize = 0;
    while k < gs.len()
        invariant
            j < ts@.len(),
            forall|k: int| 0 <= k < gs@.len() ==> #[trigger] gs@[k]@.len() > 0 && gs@[k]@[0] < ts@.len(),
            k <= gs@.len(),
            forall|m: int| 0 <= m < k ==> tokens_seq(ts@)[#[trigger] gs@[m]@[0] as int] != tokens_seq(ts@)[j as int],
        decreases gs@.len() - k,
    {
        assert(gs@[k as int]@.len() > 0);
        let first = gs[k][0];
        if tokens_eq(ts[first], ts[j]) {
            return Some(k);
        }
        k += 1;
    }
    None
}

/// Items grouped by equal tokens; groups in order of their first item.
pub fn group_by_tokens(ts: &Vec<&Vec<String>>, el: &Vec<bool>) -> (gs: Vec<Vec<usize>>)
    requires
        ts@.len() == el@.len(),
    ensures
        groups_ok(tokens_seq(ts@), el@, int_groups(gs@)),
{
    let ghost tv = tokens_seq(ts@);
    let mut gs: Vec<Vec<usize>> = Vec::new();
    let mut j: usize = 0;
    let ghost mut gi: Seq<Seq<int>> = seq![];
    while j < ts.len()
        invariant
            tv == tokens_seq(ts@),
            ts@.len() == el@.len(),
            j <= ts@.len(),
            gi == int_groups(gs@),
            forall|k: int|
                0 <= k < gi.len() ==> #[trigger] gi[k].len() > 0 && gi[k] == members(
                    tv,
                    el@,
                    j as int,
                    tv[gi[k][0]],
                ) && 0 <= gi[k][0] < j,
            forall|k: int, l: int|
                0 <= k < gi.len() && 0 <= l < gi.len() && k != l ==> tv[#[trigger] gi[k][0]]
                    != tv[#[trigger] gi[l][0]],
            forall|i: int|
                0 <= i < j && el@[i] ==> exists|k: int|
                    0 <= k < gi.len() && #[trigger] tv[gi[k][0]] == tv[i],
        decreases ts@.len() - j,
    {
        proof {
            assert forall|k: int| 0 <= k < gi.len() implies #[trigger] gi[k] == members(tv, el@, j + 1, tv[gi[k][0]]) || (el@[j as int] && tv[j as int] == tv[gi[k][0]]) by {
                if !(el@[j as int] && tv[j as int] == tv[gi[k][0]]) {
                    assert(members(tv, el@, j + 1, tv[gi[k][0]]) =~= members(tv, el@, j as int, tv[gi[k][0]]));
                }
            }
        }
        if el[j] {
            proof {
                assert forall|kk: int| 0 <= kk < gs@.len() implies #[trigger] gs@[kk]@.len() > 0 && gs@[kk]@[0] < ts@.len() by {
                    assert(int_groups(gs@)[kk] == int_seq(gs@[kk]@));
                    assert(gi[kk][0] == gs@[kk]@[0] as int);
                }
            }
            let fk = find_group(&gs, ts, j);
            let found = fk.is_some();
            let k: usize = match fk {
                Some(k) => k,
                None => 0,
            };
            proof {
                if found {
                    assert(gi[k as int][0] == gs@[k as int]@[0] as int);
                } else {
                    assert forall|m: int| 0 <= m < gi.len() implies tv[#[trigger] gi[m][0]] != tv[j as int] by {
                        assert(gi[m][0] == gs@[m]@[0] as int);
                    }
                }
            }
            let ghost old_gi = gi;
            if found {
                let mut g = Vec::new();
                std::mem::swap(&mut g, &mut gs[k]);
                g.push(j);
                let ghost gv = g@;
                std::mem::swap(&mut g, &mut gs[k]);
                proof {
                    gi = old_gi.update(k as int, old_gi[k as int].push(j as int));
                    assert(int_groups(gs@) =~= gi) by {
                        assert forall|m: int| 0 <= m < gi.len() implies #[trigger] int_groups(gs@)[m] =~= gi[m] by {
                            if m == k {
                                assert(int_seq(gs@[m]@) =~= gi[m]);
                            }
                        }
                    }
                    assert(gi[k as int][0] == old_gi[k as int][0]);
                    assert(members(tv, el@, j + 1, tv[j as int]) =~= members(tv, el@, j as int, tv[j as int]).push(j as int));
                }
            } else {
                let mut g = Vec::new();
                g.push(j);
                gs.push(g);
                proof {
                    gi = old_gi.push(seq![j as int]);
                    assert(int_groups(gs@) =~= gi) by {
                        assert forall|m: int| 0 <= m < gi.len() implies #[trigger] int_groups(gs@)[m] =~= gi[m] by {
                            if m == gi.len() - 1 {
                                assert(int_seq(gs@[m]@) =~= gi[m]);
                            }
                        }
                    }
                    lemma_members(tv, el@, j as int, tv[j as int]);
                    assert(members(tv, el@, j as int, tv[j as int]) =~= Seq::<int>::empty()) by {
                        if members(tv, el@, j as int, tv[j as int]).len() > 0 {
                            let i0 = members(tv, el@, j as int, tv[j as int])[0];
                            assert(0 <= i0 < j && el@[i0] && tv[i0] == tv[j as int]);
                            let kk = choose|kk: int| 0 <= kk < old_gi.len() && #[trigger] tv[old_gi[kk][0]] == tv[i0];
                            assert(tv[old_gi[kk][0]] != tv[j as int]);
                        }
                    }
                    assert(members(tv, el@, j + 1, tv[j as int]) =~= seq![j as int]);
                }
            }
            proof {
                assert forall|m: int| 0 <= m < gi.len() implies #[trigger] gi[m].len() > 0 && gi[m] == members(tv, el@, j + 1, tv[gi[m][0]]) && 0 <= gi[m][0] < j + 1 by {
                    if m < old_gi.len() {
                        assert(gi[m][0] == old_gi[m][0]);
                        if tv[old_gi[m][0]] != tv[j as int] {
                            assert(members(tv, el@, j + 1, tv[gi[m][0]]) =~= members(tv, el@, j as int, tv[gi[m][0]]));
                        }
                    }
                }
                assert forall|a: int, b: int| 0 <= a < gi.len() && 0 <= b < gi.len() && a != b implies tv[#[trigger] gi[a][0]] != tv[#[trigger] gi[b][0]] by {
                    if a < old_gi.len() {
                        assert(gi[a][0] == old_gi[a][0]);
                    }
                    if b < old_gi.len() {
                        assert(gi[b][0] == old_gi[b][0]);
                    }
                }
                assert forall|i: int| 0 <= i < j + 1 && el@[i] implies exists|kk: int| 0 <= kk < gi.len() && #[trigger] tv[gi[kk][0]] == tv[i] by {
                    if i < j {
                        let kk = choose|kk: int| 0 <= kk < old_gi.len() && #[trigger] tv[old_gi[kk][0]] == tv[i];
                        assert(gi[kk][0] == old_gi[kk][0]);
                    } else if found {
                        assert(gi[k as int][0] == old_gi[k as int][0]);
                    } else {
                        assert(gi[gi.len() - 1][0] == j);
                    }
                }
            }
        } else {
            proof {
                assert forall|m: int| 0 <= m < gi.len() implies #[trigger] gi[m].len() > 0 && gi[m] == members(tv, el@, j + 1, tv[gi[m][0]]) && 0 <= gi[m][0] < j + 1 by {
                    assert(members(tv, el@, j + 1, tv[gi[m][0]]) =~= members(tv, el@, j as int, tv[gi[m][0]]));
                }
            }
        }
        j += 1;
    }
    gs
}

} // verus!
