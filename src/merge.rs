//! The cleanup pass: clusters whose centroids lie close in OkLab are merged.
use vstd::prelude::*;
use itertools::Itertools;
use crate::cluster::{Cluster, ClusterStore, ClusterView, PaletteError, Pixel, models, pixels_of, share_of, sum_of};
use crate::color::ColorSpace;
use crate::online::{lemma_opaque_count_bounds, opaque_count, scan_model, scan_online};
use crate::color::{OkLab, oklab_dist2, oklab_of};

verus! {

/// Every pair of positions `(i, j)` with `start <= i < j < n`, by `i` and then by `j`.
pub open spec fn index_pairs_from(start: int, n: int) -> Seq<(usize, usize)>
    decreases n - start,
{
    if start >= n {
        Seq::empty()
    } else {
        Seq::new((n - start - 1) as nat, |k: int| (start as usize, (start + 1 + k) as usize))
            + index_pairs_from(start + 1, n)
    }
}

/// Every pair of positions below `n`, in lexicographic order.
pub open spec fn index_pairs(n: int) -> Seq<(usize, usize)> {
    index_pairs_from(0, n)
}

/// Relies on itertools' `Itertools::combinations`: the two-element combinations of `0..n`
/// come in lexicographic order of positions.
#[verifier::external_body]
fn index_pairs_of(n: usize) -> (r: Vec<(usize, usize)>)
    ensures
        r@ == index_pairs(n as int),
{
    (0..n).combinations(2).map(|c| (c[0], c[1])).collect()
}

pub proof fn lemma_index_pairs_valid(start: int, n: int)
    requires
        0 <= start,
        n <= usize::MAX,
    ensures
        forall|t: int|
            0 <= t < index_pairs_from(start, n).len() ==> {
                let pr = #[trigger] index_pairs_from(start, n)[t];
                start <= pr.0 < pr.1 < n
            },
    decreases n - start,
{
    if start < n {
        lemma_index_pairs_valid(start + 1, n);
        let row = Seq::new((n - start - 1) as nat, |k: int| (start as usize, (start + 1 + k) as usize));
        let rest = index_pairs_from(start + 1, n);
        assert forall|t: int| 0 <= t < index_pairs_from(start, n).len() implies {
            let pr = #[trigger] index_pairs_from(start, n)[t];
            start <= pr.0 < pr.1 < n
        } by {
            if t >= row.len() {
                assert(index_pairs_from(start, n)[t] == rest[t - row.len()]);
            }
        }
    }
}

pub proof fn lemma_index_pairs_complete(start: int, n: int, i: int, j: int)
    requires
        0 <= start <= i < j < n,
        n <= usize::MAX,
    ensures
        exists|t: int| 0 <= t < index_pairs_from(start, n).len() && #[trigger] index_pairs_from(start, n)[t] == (i as usize, j as usize),
    decreases n - start,
{
    let row = Seq::new((n - start - 1) as nat, |k: int| (start as usize, (start + 1 + k) as usize));
    let rest = index_pairs_from(start + 1, n);
    if i == start {
        let t = j - start - 1;
        assert(index_pairs_from(start, n)[t] == (i as usize, j as usize));
    } else {
        lemma_index_pairs_complete(start + 1, n, i, j);
        let t = choose|t: int| 0 <= t < rest.len() && #[trigger] rest[t] == (i as usize, j as usize);
        assert(index_pairs_from(start, n)[t + row.len()] == (i as usize, j as usize));
    }
}

/// Cluster `a` after it takes in cluster `b`: counts add up, saturating, and `b`'s sub-members
/// follow `a`'s. The centroid stays `a`'s.
pub open spec fn merged_view(a: ClusterView, b: ClusterView) -> ClusterView {
    ClusterView {
        id: a.id,
        centroid: a.centroid,
        member_count: a.member_count.saturating_add(b.member_count),
        position: a.position,
        sub_members: a.sub_members + b.sub_members,
        pixel_count: a.pixel_count.saturating_add(b.pixel_count),
        share: a.share.saturating_add(b.share),
    }
}

/// Two clusters lie within the cleanup threshold of each other.
pub open spec fn close(a: ClusterView, b: ClusterView, v: u64) -> bool {
    oklab_dist2(a.centroid, b.centroid) <= v * v
}

/// One pair of the pass: unless either cluster is already removed, a close second cluster is
/// merged into the first and marked removed.
pub open spec fn merge_step(st: (Seq<ClusterView>, Seq<bool>), pr: (usize, usize), v: u64) -> (Seq<ClusterView>, Seq<bool>) {
    let cs = st.0;
    let rm = st.1;
    let i = pr.0 as int;
    let j = pr.1 as int;
    if rm[i] || rm[j] {
        st
    } else if close(cs[i], cs[j], v) {
        (cs.update(i, merged_view(cs[i], cs[j])), rm.update(j, true))
    } else {
        st
    }
}

pub open spec fn merge_fold(st: (Seq<ClusterView>, Seq<bool>), prs: Seq<(usize, usize)>, v: u64) -> (Seq<ClusterView>, Seq<bool>)
    decreases prs.len(),
{
    if prs.len() == 0 {
        st
    } else {
        merge_step(merge_fold(st, prs.drop_last(), v), prs.last(), v)
    }
}

/// The clusters not marked removed, in order.
pub open spec fn survivors(cs: Seq<ClusterView>, rm: Seq<bool>) -> Seq<ClusterView>
    decreases cs.len(),
{
    if cs.len() == 0 {
        Seq::empty()
    } else if rm[cs.len() - 1] {
        survivors(cs.drop_last(), rm.subrange(0, cs.len() - 1))
    } else {
        survivors(cs.drop_last(), rm.subrange(0, cs.len() - 1)).push(cs.last())
    }
}

/// The clusters after the cleanup pass with threshold `v` (in millionths of OkLab distance):
/// every pair in lexicographic order of positions, then removal of the merged ones.
pub open spec fn clean_up_model(cs: Seq<ClusterView>, v: u64) -> Seq<ClusterView> {
    let st = merge_fold((cs, Seq::new(cs.len(), |k: int| false)), index_pairs(cs.len() as int), v);
    survivors(st.0, st.1)
}

/// No two clusters lie within the threshold of each other.
pub open spec fn separated(cs: Seq<ClusterView>, v: u64) -> bool {
    forall|i: int, j: int| 0 <= i < j < cs.len() ==> !close(#[trigger] cs[i], #[trigger] cs[j], v)
}

pub open spec fn pairs_valid(prs: Seq<(usize, usize)>, n: int) -> bool {
    forall|t: int| 0 <= t < prs.len() ==> (#[trigger] prs[t]).0 < prs[t].1 < n
}

/// The pass never moves a centroid, never takes back a removal, and leaves each pair it has
/// seen either with a removed cluster or apart.
pub proof fn lemma_merge_fold_props(cs: Seq<ClusterView>, rm: Seq<bool>, prs: Seq<(usize, usize)>, v: u64)
    requires
        rm.len() == cs.len(),
        pairs_valid(prs, cs.len() as int),
    ensures
        ({
            let st = merge_fold((cs, rm), prs, v);
            &&& st.0.len() == cs.len()
            &&& st.1.len() == cs.len()
            &&& forall|k: int| 0 <= k < cs.len() ==> (#[trigger] st.0[k]).centroid == cs[k].centroid && st.0[k].id == cs[k].id
            &&& forall|k: int| 0 <= k < cs.len() && rm[k] ==> #[trigger] st.1[k]
            &&& forall|t: int|
                0 <= t < prs.len() ==> st.1[(#[trigger] prs[t]).0 as int] || st.1[prs[t].1 as int] || !close(
                    cs[prs[t].0 as int],
                    cs[prs[t].1 as int],
                    v,
                )
        }),
    decreases prs.len(),
{
    if prs.len() > 0 {
        let prev = prs.drop_last();
        assert(pairs_valid(prev, cs.len() as int)) by {
            assert forall|t: int| 0 <= t < prev.len() implies (#[trigger] prev[t]).0 < prev[t].1 < cs.len() by {
                assert(prev[t] == prs[t]);
            }
        }
        lemma_merge_fold_props(cs, rm, prev, v);
        let st0 = merge_fold((cs, rm), prev, v);
        let st = merge_fold((cs, rm), prs, v);
        let pr = prs.last();
        assert(pr == prs[prs.len() - 1]);
        assert forall|k: int| 0 <= k < cs.len() && st0.1[k] implies #[trigger] st.1[k] by {}
        assert forall|t: int|
            0 <= t < prs.len() implies st.1[(#[trigger] prs[t]).0 as int] || st.1[prs[t].1 as int] || !close(
                cs[prs[t].0 as int],
                cs[prs[t].1 as int],
                v,
            ) by {
            if t < prs.len() - 1 {
                assert(prev[t] == prs[t]);
            } else {
                assert(st0.0[pr.0 as int].centroid == cs[pr.0 as int].centroid);
                assert(st0.0[pr.1 as int].centroid == cs[pr.1 as int].centroid);
            }
        }
    }
}

/// On clusters that lie pairwise apart the pass changes nothing.
pub proof fn lemma_merge_fold_apart(cs: Seq<ClusterView>, rm: Seq<bool>, prs: Seq<(usize, usize)>, v: u64)
    requires
        rm.len() == cs.len(),
        pairs_valid(prs, cs.len() as int),
        separated(cs, v),
    ensures
        merge_fold((cs, rm), prs, v) == (cs, rm),
    decreases prs.len(),
{
    if prs.len() > 0 {
        let prev = prs.drop_last();
        assert(pairs_valid(prev, cs.len() as int)) by {
            assert forall|t: int| 0 <= t < prev.len() implies (#[trigger] prev[t]).0 < prev[t].1 < cs.len() by {
                assert(prev[t] == prs[t]);
            }
        }
        lemma_merge_fold_apart(cs, rm, prev, v);
        let pr = prs.last();
        assert(pr == prs[prs.len() - 1]);
        assert(!close(cs[pr.0 as int], cs[pr.1 as int], v));
    }
}

/// Each survivor is an unremoved cluster at some position.
pub proof fn lemma_survivors_from(cs: Seq<ClusterView>, rm: Seq<bool>)
    requires
        rm.len() == cs.len(),
    ensures
        forall|p: int|
            0 <= p < survivors(cs, rm).len() ==> exists|k: int|
                0 <= k < cs.len() && !rm[k] && #[trigger] survivors(cs, rm)[p] == cs[k],
    decreases cs.len(),
{
    if cs.len() > 0 {
        let n = cs.len() - 1;
        let pc = cs.drop_last();
        let pr = rm.subrange(0, n);
        lemma_survivors_from(pc, pr);
        let s0 = survivors(pc, pr);
        assert forall|p: int| 0 <= p < survivors(cs, rm).len() implies exists|k: int|
            0 <= k < cs.len() && !rm[k] && #[trigger] survivors(cs, rm)[p] == cs[k] by {
            if p < s0.len() {
                let k = choose|k: int| 0 <= k < pc.len() && !pr[k] && #[trigger] s0[p] == pc[k];
                assert(survivors(cs, rm)[p] == cs[k]);
            } else {
                assert(survivors(cs, rm)[p] == cs[n]);
            }
        }
    }
}

/// With nothing removed, every cluster survives.
pub proof fn lemma_survivors_all(cs: Seq<ClusterView>, rm: Seq<bool>)
    requires
        rm.len() == cs.len(),
        forall|k: int| 0 <= k < rm.len() ==> !rm[k],
    ensures
        survivors(cs, rm) == cs,
    decreases cs.len(),
{
    if cs.len() > 0 {
        lemma_survivors_all(cs.drop_last(), rm.subrange(0, cs.len() - 1));
        assert(cs.drop_last().push(cs.last()) =~= cs);
    }
}

/// Survivors that were pairwise apart stay so.
pub proof fn lemma_survivors_separated(cs: Seq<ClusterView>, rm: Seq<bool>, v: u64)
    requires
        rm.len() == cs.len(),
        forall|i: int, j: int|
            0 <= i < j < cs.len() && !rm[i] && !rm[j] ==> !close(#[trigger] cs[i], #[trigger] cs[j], v),
    ensures
        separated(survivors(cs, rm), v),
    decreases cs.len(),
{
    if cs.len() > 0 {
        let n = cs.len() - 1;
        let pc = cs.drop_last();
        let pr = rm.subrange(0, n);
        assert forall|i: int, j: int|
            0 <= i < j < pc.len() && !pr[i] && !pr[j] implies !close(#[trigger] pc[i], #[trigger] pc[j], v) by {
            assert(pc[i] == cs[i] && pc[j] == cs[j]);
        }
        lemma_survivors_separated(pc, pr, v);
        lemma_survivors_from(pc, pr);
        let s0 = survivors(pc, pr);
        let s = survivors(cs, rm);
        if !rm[n] {
            assert forall|i: int, j: int| 0 <= i < j < s.len() implies !close(#[trigger] s[i], #[trigger] s[j], v) by {
                if j < s0.len() {
                    assert(s[i] == s0[i] && s[j] == s0[j]);
                } else {
                    let k = choose|k: int| 0 <= k < pc.len() && !pr[k] && #[trigger] s0[i] == pc[k];
                    assert(s[i] == cs[k]);
                    assert(s[j] == cs[n]);
                }
            }
        }
    }
}

/// No two clusters share an id.
pub open spec fn ids_distinct(cs: Seq<ClusterView>) -> bool {
    forall|i: int, j: int| 0 <= i < j < cs.len() ==> (#[trigger] cs[i]).id != (#[trigger] cs[j]).id
}

/// Survivors of clusters with distinct ids have distinct ids.
pub proof fn lemma_survivors_ids(cs: Seq<ClusterView>, rm: Seq<bool>)
    requires
        rm.len() == cs.len(),
        ids_distinct(cs),
    ensures
        ids_distinct(survivors(cs, rm)),
    decreases cs.len(),
{
    if cs.len() > 0 {
        let n = cs.len() - 1;
        let pc = cs.drop_last();
        let pr = rm.subrange(0, n);
        assert(ids_distinct(pc)) by {
            assert forall|i: int, j: int| 0 <= i < j < pc.len() implies (#[trigger] pc[i]).id != (#[trigger] pc[j]).id by {
                assert(pc[i] == cs[i] && pc[j] == cs[j]);
            }
        }
        lemma_survivors_ids(pc, pr);
        lemma_survivors_from(pc, pr);
        let s0 = survivors(pc, pr);
        let s = survivors(cs, rm);
        if !rm[n] {
            assert forall|i: int, j: int| 0 <= i < j < s.len() implies (#[trigger] s[i]).id != (#[trigger] s[j]).id by {
                if j < s0.len() {
                    assert(s[i] == s0[i] && s[j] == s0[j]);
                } else {
                    let k = choose|k: int| 0 <= k < pc.len() && !pr[k] && #[trigger] s0[i] == pc[k];
                    assert(s[i] == cs[k]);
                    assert(s[j] == cs[n]);
                }
            }
        }
    }
}

/// Cleanup keeps ids distinct.
pub proof fn lemma_clean_up_ids(cs: Seq<ClusterView>, v: u64)
    requires
        cs.len() <= usize::MAX,
        ids_distinct(cs),
    ensures
        ids_distinct(clean_up_model(cs, v)),
{
    let n = cs.len() as int;
    let rm0 = Seq::new(cs.len(), |k: int| false);
    lemma_index_pairs_valid(0, n);
    lemma_merge_fold_props(cs, rm0, index_pairs(n), v);
    let st = merge_fold((cs, rm0), index_pairs(n), v);
    assert(ids_distinct(st.0)) by {
        assert forall|i: int, j: int| 0 <= i < j < st.0.len() implies (#[trigger] st.0[i]).id != (#[trigger] st.0[j]).id by {
            assert(st.0[i].id == cs[i].id && st.0[j].id == cs[j].id);
        }
    }
    lemma_survivors_ids(st.0, st.1);
}

/// After cleanup no two clusters lie within the threshold.
pub proof fn lemma_clean_up_separated(cs: Seq<ClusterView>, v: u64)
    requires
        cs.len() <= usize::MAX,
    ensures
        separated(clean_up_model(cs, v), v),
{
    let n = cs.len() as int;
    let rm0 = Seq::new(cs.len(), |k: int| false);
    let prs = index_pairs(n);
    lemma_index_pairs_valid(0, n);
    assert(pairs_valid(prs, n));
    lemma_merge_fold_props(cs, rm0, prs, v);
    let st = merge_fold((cs, rm0), prs, v);
    assert forall|i: int, j: int|
        0 <= i < j < st.0.len() && !st.1[i] && !st.1[j] implies !close(#[trigger] st.0[i], #[trigger] st.0[j], v) by {
        lemma_index_pairs_complete(0, n, i, j);
        let t = choose|t: int| 0 <= t < prs.len() && #[trigger] prs[t] == (i as usize, j as usize);
        assert(st.1[prs[t].0 as int] || st.1[prs[t].1 as int] || !close(cs[prs[t].0 as int], cs[prs[t].1 as int], v));
        assert(st.0[i].centroid == cs[i].centroid && st.0[j].centroid == cs[j].centroid);
    }
    lemma_survivors_separated(st.0, st.1, v);
}

/// Cleanup leaves clusters that lie pairwise apart as they are.
pub proof fn lemma_clean_up_apart(cs: Seq<ClusterView>, v: u64)
    requires
        cs.len() <= usize::MAX,
        separated(cs, v),
    ensures
        clean_up_model(cs, v) == cs,
{
    let n = cs.len() as int;
    let rm0 = Seq::new(cs.len(), |k: int| false);
    lemma_index_pairs_valid(0, n);
    lemma_merge_fold_apart(cs, rm0, index_pairs(n), v);
    lemma_survivors_all(cs, rm0);
}

/// A second cleanup with the same threshold changes nothing.
pub proof fn lemma_clean_up_idempotent(cs: Seq<ClusterView>, v: u64)
    requires
        cs.len() <= usize::MAX,
    ensures
        clean_up_model(clean_up_model(cs, v), v) == clean_up_model(cs, v),
{
    lemma_clean_up_separated(cs, v);
    lemma_clean_up_len(cs, v);
    lemma_clean_up_apart(clean_up_model(cs, v), v);
}

pub proof fn lemma_survivors_len(cs: Seq<ClusterView>, rm: Seq<bool>)
    ensures
        survivors(cs, rm).len() <= cs.len(),
    decreases cs.len(),
{
    if cs.len() > 0 {
        lemma_survivors_len(cs.drop_last(), rm.subrange(0, cs.len() - 1));
    }
}

pub proof fn lemma_clean_up_len(cs: Seq<ClusterView>, v: u64)
    requires
        cs.len() <= usize::MAX,
    ensures
        clean_up_model(cs, v).len() <= cs.len(),
{
    let n = cs.len() as int;
    let rm0 = Seq::new(cs.len(), |k: int| false);
    lemma_index_pairs_valid(0, n);
    lemma_merge_fold_props(cs, rm0, index_pairs(n), v);
    let st = merge_fold((cs, rm0), index_pairs(n), v);
    lemma_survivors_len(st.0, st.1);
}

/// The sum of `f` over the clusters not marked removed.
pub open spec fn live_sum(cs: Seq<ClusterView>, rm: Seq<bool>, f: spec_fn(ClusterView) -> int) -> int
    decreases cs.len(),
{
    if cs.len() == 0 {
        0
    } else {
        live_sum(cs.drop_last(), rm.subrange(0, cs.len() - 1), f) + if rm[cs.len() - 1] {
            0
        } else {
            f(cs.last())
        }
    }
}

/// `f` adds up over a merge as long as the sum stays within `cap`, and is never negative.
pub open spec fn adds_up(f: spec_fn(ClusterView) -> int, cap: int) -> bool {
    &&& forall|c: ClusterView| #[trigger] f(c) >= 0
    &&& forall|a: ClusterView, b: ClusterView| f(a) + f(b) <= cap ==> #[trigger] f(merged_view(a, b)) == f(a) + f(b)
}

proof fn lemma_live_sum_update(cs: Seq<ClusterView>, rm: Seq<bool>, i: int, x: ClusterView, f: spec_fn(ClusterView) -> int)
    requires
        rm.len() == cs.len(),
        0 <= i < cs.len(),
    ensures
        live_sum(cs.update(i, x), rm, f) == live_sum(cs, rm, f) + if rm[i] {
            0
        } else {
            f(x) - f(cs[i])
        },
    decreases cs.len(),
{
    let n = cs.len() - 1;
    if i < n {
        lemma_live_sum_update(cs.drop_last(), rm.subrange(0, n), i, x, f);
        assert(cs.update(i, x).drop_last() =~= cs.drop_last().update(i, x));
    } else {
        assert(cs.update(i, x).drop_last() =~= cs.drop_last());
    }
}

proof fn lemma_live_sum_mark(cs: Seq<ClusterView>, rm: Seq<bool>, j: int, f: spec_fn(ClusterView) -> int)
    requires
        rm.len() == cs.len(),
        0 <= j < cs.len(),
    ensures
        live_sum(cs, rm.update(j, true), f) == live_sum(cs, rm, f) - if rm[j] {
            0
        } else {
            f(cs[j])
        },
    decreases cs.len(),
{
    let n = cs.len() - 1;
    if j < n {
        lemma_live_sum_mark(cs.drop_last(), rm.subrange(0, n), j, f);
        assert(rm.update(j, true).subrange(0, n) =~= rm.subrange(0, n).update(j, true));
    } else {
        assert(rm.update(j, true).subrange(0, n) =~= rm.subrange(0, n));
    }
}

proof fn lemma_live_sum_nonneg(cs: Seq<ClusterView>, rm: Seq<bool>, f: spec_fn(ClusterView) -> int)
    requires
        rm.len() == cs.len(),
        forall|c: ClusterView| #[trigger] f(c) >= 0,
    ensures
        live_sum(cs, rm, f) >= 0,
    decreases cs.len(),
{
    if cs.len() > 0 {
        lemma_live_sum_nonneg(cs.drop_last(), rm.subrange(0, cs.len() - 1), f);
    }
}

/// Two live clusters together count no more than all live ones.
proof fn lemma_live_sum_two(cs: Seq<ClusterView>, rm: Seq<bool>, i: int, j: int, f: spec_fn(ClusterView) -> int)
    requires
        rm.len() == cs.len(),
        0 <= i < cs.len(),
        0 <= j < cs.len(),
        i != j,
        !rm[i],
        !rm[j],
        forall|c: ClusterView| #[trigger] f(c) >= 0,
    ensures
        f(cs[i]) + f(cs[j]) <= live_sum(cs, rm, f),
    decreases cs.len(),
{
    let n = cs.len() - 1;
    let pc = cs.drop_last();
    let pr = rm.subrange(0, n);
    if i < n && j < n {
        lemma_live_sum_two(pc, pr, i, j, f);
    } else if i == n {
        lemma_live_sum_one(pc, pr, j, f);
    } else {
        lemma_live_sum_one(pc, pr, i, f);
    }
}

proof fn lemma_live_sum_one(cs: Seq<ClusterView>, rm: Seq<bool>, i: int, f: spec_fn(ClusterView) -> int)
    requires
        rm.len() == cs.len(),
        0 <= i < cs.len(),
        !rm[i],
        forall|c: ClusterView| #[trigger] f(c) >= 0,
    ensures
        f(cs[i]) <= live_sum(cs, rm, f),
    decreases cs.len(),
{
    let n = cs.len() - 1;
    lemma_live_sum_nonneg(cs.drop_last(), rm.subrange(0, n), f);
    if i < n {
        lemma_live_sum_one(cs.drop_last(), rm.subrange(0, n), i, f);
    }
}

proof fn lemma_live_sum_survivors(cs: Seq<ClusterView>, rm: Seq<bool>, f: spec_fn(ClusterView) -> int)
    requires
        rm.len() == cs.len(),
    ensures
        sum_of(survivors(cs, rm), f) == live_sum(cs, rm, f),
    decreases cs.len(),
{
    if cs.len() > 0 {
        let n = cs.len() - 1;
        lemma_live_sum_survivors(cs.drop_last(), rm.subrange(0, n), f);
        if !rm[n] {
            crate::cluster::lemma_sum_push(survivors(cs.drop_last(), rm.subrange(0, n)), cs.last(), f);
        }
    }
}

proof fn lemma_live_sum_all(cs: Seq<ClusterView>, f: spec_fn(ClusterView) -> int)
    ensures
        live_sum(cs, Seq::new(cs.len(), |k: int| false), f) == sum_of(cs, f),
    decreases cs.len(),
{
    if cs.len() > 0 {
        let n = cs.len() - 1;
        lemma_live_sum_all(cs.drop_last(), f);
        assert(Seq::new(cs.len(), |k: int| false).subrange(0, n) =~= Seq::new(cs.drop_last().len(), |k: int| false));
    }
}

/// Each merge of the pass moves the count of the second cluster onto the first.
proof fn lemma_merge_fold_sum(cs: Seq<ClusterView>, rm: Seq<bool>, prs: Seq<(usize, usize)>, v: u64, f: spec_fn(ClusterView) -> int, cap: int)
    requires
        rm.len() == cs.len(),
        pairs_valid(prs, cs.len() as int),
        adds_up(f, cap),
        live_sum(cs, rm, f) <= cap,
    ensures
        live_sum(merge_fold((cs, rm), prs, v).0, merge_fold((cs, rm), prs, v).1, f) == live_sum(cs, rm, f),
    decreases prs.len(),
{
    if prs.len() > 0 {
        let prev = prs.drop_last();
        assert(pairs_valid(prev, cs.len() as int)) by {
            assert forall|t: int| 0 <= t < prev.len() implies (#[trigger] prev[t]).0 < prev[t].1 < cs.len() by {
                assert(prev[t] == prs[t]);
            }
        }
        lemma_merge_fold_sum(cs, rm, prev, v, f, cap);
        lemma_merge_fold_props(cs, rm, prev, v);
        let st = merge_fold((cs, rm), prev, v);
        let pr = prs.last();
        assert(pr == prs[prs.len() - 1]);
        let i = pr.0 as int;
        let j = pr.1 as int;
        if !st.1[i] && !st.1[j] && close(st.0[i], st.0[j], v) {
            let x = merged_view(st.0[i], st.0[j]);
            lemma_live_sum_two(st.0, st.1, i, j, f);
            assert(f(x) == f(st.0[i]) + f(st.0[j]));
            lemma_live_sum_update(st.0, st.1, i, x, f);
            lemma_live_sum_mark(st.0.update(i, x), st.1, j, f);
        }
    }
}

/// Cleanup keeps the sum of a count that adds up over merges.
pub proof fn lemma_clean_up_conserves(cs: Seq<ClusterView>, v: u64, f: spec_fn(ClusterView) -> int, cap: int)
    requires
        cs.len() <= usize::MAX,
        adds_up(f, cap),
        sum_of(cs, f) <= cap,
    ensures
        sum_of(clean_up_model(cs, v), f) == sum_of(cs, f),
{
    let n = cs.len() as int;
    let rm0 = Seq::new(cs.len(), |k: int| false);
    lemma_index_pairs_valid(0, n);
    lemma_live_sum_all(cs, f);
    lemma_merge_fold_sum(cs, rm0, index_pairs(n), v, f, cap);
    lemma_merge_fold_props(cs, rm0, index_pairs(n), v);
    let st = merge_fold((cs, rm0), index_pairs(n), v);
    lemma_live_sum_survivors(st.0, st.1, f);
}

impl ClusterStore {
    /// Merges the cluster at `j` into the one at `i`, which keeps its centroid.
    fn merge_pair(&mut self, i: usize, j: usize)
        requires
            i < old(self).clusters@.len(),
            j < old(self).clusters@.len(),
            i != j,
        ensures
            final(self).share_total == old(self).share_total,
            final(self).clusters@.len() == old(self).clusters@.len(),
            final(self).model() == old(self).model().update(
                i as int,
                merged_view(old(self).model()[i as int], old(self).model()[j as int]),
            ),
    {
        let ghost cs = self.model();
        let mut cj = self.clusters[j].duplicate();
        let mut ci = self.clusters.remove(i);
        ci.member_count = ci.member_count.saturating_add(cj.member_count);
        ci.pixel_count = ci.pixel_count.saturating_add(cj.pixel_count);
        ci.share = ci.share.saturating_add(cj.share);
        ci.sub_members.append(&mut cj.sub_members);
        let ghost newc = ci;
        self.clusters.insert(i, ci);
        assert(self.model() =~= cs.update(i as int, newc.model()));
    }

    /// The OkLab point of each centroid.
    fn oklab_points(&self) -> (r: Vec<OkLab>)
        ensures
            r@.len() == self.clusters@.len(),
            forall|q: int|
                0 <= q < r@.len() ==> (#[trigger] r@[q]).view3() == oklab_of(self.model()[q].centroid) && r@[q].wf(),
    {
        let n = self.clusters.len();
        let mut labs: Vec<OkLab> = Vec::new();
        let mut k: usize = 0;
        while k < n
            invariant
                n == self.clusters@.len(),
                k <= n,
                labs@.len() == k,
                forall|q: int|
                    0 <= q < k ==> (#[trigger] labs@[q]).view3() == oklab_of(self.model()[q].centroid) && labs@[q].wf(),
            decreases n - k,
        {
            labs.push(OkLab::from_rgb(&self.clusters[k].centroid));
            k = k + 1;
        }
        labs
    }

    /// One pair of the pass.
    fn merge_pair_step(&mut self, removed: &mut Vec<bool>, labs: &Vec<OkLab>, i: usize, j: usize, vv: u128, v: u64)
        requires
            i < j < old(self).clusters@.len(),
            old(removed)@.len() == old(self).clusters@.len(),
            labs@.len() == old(self).clusters@.len(),
            forall|q: int|
                0 <= q < labs@.len() ==> (#[trigger] labs@[q]).view3() == oklab_of(old(self).model()[q].centroid)
                    && labs@[q].wf(),
            vv == v * v,
        ensures
            final(self).share_total == old(self).share_total,
            final(self).clusters@.len() == old(self).clusters@.len(),
            (final(self).model(), final(removed)@) == merge_step((old(self).model(), old(removed)@), (i, j), v),
    {
        if !removed[i] && !removed[j] {
            let d = labs[i].distance_to_lab_squared(&labs[j]);
            if (d as u128) <= vv {
                self.merge_pair(i, j);
                removed.set(j, true);
            }
        }
    }

    /// The clusters not marked removed, in order.
    fn survivors_of(&self, removed: &Vec<bool>) -> (r: Vec<Cluster>)
        requires
            removed@.len() == self.clusters@.len(),
        ensures
            models(r@) == survivors(self.model(), removed@),
    {
        let ghost cs1 = self.model();
        let n = self.clusters.len();
        let mut kept: Vec<Cluster> = Vec::new();
        let mut k: usize = 0;
        assert(models(kept@) =~= survivors(cs1.subrange(0, 0), removed@.subrange(0, 0)));
        while k < n
            invariant
                n == self.clusters@.len(),
                removed@.len() == n,
                cs1 == self.model(),
                k <= n,
                models(kept@) == survivors(cs1.subrange(0, k as int), removed@.subrange(0, k as int)),
            decreases n - k,
        {
            let ghost before = kept@;
            if !removed[k] {
                let c = self.clusters[k].duplicate();
                kept.push(c);
                assert(models(kept@) =~= models(before).push(cs1[k as int]));
            }
            k = k + 1;
            assert(cs1.subrange(0, k as int).drop_last() =~= cs1.subrange(0, k - 1));
            assert(removed@.subrange(0, k as int).subrange(0, k - 1) =~= removed@.subrange(0, k - 1));
        }
        assert(cs1.subrange(0, n as int) =~= cs1);
        assert(removed@.subrange(0, n as int) =~= removed@);
        kept
    }

    /// Merges every cluster whose centroid lies within `clean_up_value` (in millionths of OkLab
    /// distance) of an earlier surviving cluster into the first such cluster, then drops the
    /// merged ones. Percentages keep their denominator.
    pub fn clean_up(&mut self, clean_up_value: u64)
        ensures
            final(self).model() == clean_up_model(old(self).model(), clean_up_value),
            final(self).share_total == old(self).share_total,
            separated(final(self).model(), clean_up_value),
            separated(old(self).model(), clean_up_value) ==> final(self).model() == old(self).model(),
            old(self).wf() ==> final(self).wf(),
    {
        let ghost cs0 = self.model();
        let n = self.clusters.len();
        let pairs = index_pairs_of(n);
        proof {
            if self.wf() {
                assert(ids_distinct(cs0)) by {
                    assert forall|i: int, j: int| 0 <= i < j < cs0.len() implies (#[trigger] cs0[i]).id != (#[trigger] cs0[j]).id by {
                        assert(self.clusters@[i].id != self.clusters@[j].id);
                    }
                }
                lemma_clean_up_ids(cs0, clean_up_value);
            }
            lemma_index_pairs_valid(0, n as int);
            lemma_clean_up_separated(cs0, clean_up_value);
            if separated(cs0, clean_up_value) {
                lemma_clean_up_apart(cs0, clean_up_value);
            }
        }
        let ghost rm0 = Seq::new(n as nat, |k: int| false);
        let mut removed: Vec<bool> = Vec::new();
        let mut k: usize = 0;
        while k < n
            invariant
                k <= n,
                removed@ =~= Seq::new(k as nat, |q: int| false),
            decreases n - k,
        {
            removed.push(false);
            k = k + 1;
        }
        let labs = self.oklab_points();
        let v = clean_up_value as u128;
        assert(v * v <= 0xffff_ffff_ffff_ffffu128 * 0xffff_ffff_ffff_ffffu128) by (nonlinear_arith)
            requires
                v <= 0xffff_ffff_ffff_ffffu128,
        ;
        let vv = v * v;
        let m = pairs.len();
        let mut t: usize = 0;
        assert(pairs@.subrange(0, 0) =~= Seq::<(usize, usize)>::empty());
        while t < m
            invariant
                m == pairs@.len(),
                pairs_valid(pairs@, n as int),
                t <= m,
                n == self.clusters@.len(),
                self.share_total == old(self).share_total,
                labs@.len() == n,
                forall|q: int| 0 <= q < n ==> (#[trigger] labs@[q]).view3() == oklab_of(cs0[q].centroid) && labs@[q].wf(),
                cs0.len() == n,
                rm0.len() == n,
                removed@.len() == n,
                vv == clean_up_value * clean_up_value,
                (self.model(), removed@) == merge_fold((cs0, rm0), pairs@.subrange(0, t as int), clean_up_value),
            decreases m - t,
        {
            let ghost prefix = pairs@.subrange(0, t as int);
            proof {
                assert(pairs_valid(prefix, n as int)) by {
                    assert forall|q: int| 0 <= q < prefix.len() implies (#[trigger] prefix[q]).0 < prefix[q].1 < n by {
                        assert(prefix[q] == pairs@[q]);
                    }
                }
                lemma_merge_fold_props(cs0, rm0, prefix, clean_up_value);
                assert(pairs@[t as int].0 < pairs@[t as int].1 < n);
            }
            let (i, j) = pairs[t];
            self.merge_pair_step(&mut removed, &labs, i, j, vv, clean_up_value);
            t = t + 1;
            assert(pairs@.subrange(0, t as int).drop_last() =~= prefix);
        }
        assert(pairs@.subrange(0, m as int) =~= pairs@);
        self.clusters = self.survivors_of(&removed);
        proof {
            if old(self).wf() {
                let cs1 = self.model();
                assert forall|i: int, j: int| 0 <= i < j < self.clusters@.len() implies (#[trigger] self.clusters@[i]).id != (#[trigger] self.clusters@[j]).id by {
                    assert(cs1[i].id != cs1[j].id);
                }
            }
        }
    }
}

/// The online scan followed by the cleanup pass: `gradation` in millionths of the space's
/// unit, `clean_up_value` in millionths of OkLab distance.
pub fn scan_image_delta_e(pixels: &Vec<Pixel>, space: ColorSpace, gradation: u64, clean_up_value: u64) -> (r: Result<ClusterStore, PaletteError>)
    requires
        opaque_count(pixels@) < u32::MAX,
    ensures
        pixels@.len() == 0 ==> r == Err::<ClusterStore, PaletteError>(PaletteError::EmptyImage),
        pixels@.len() > 0 && opaque_count(pixels@) == 0 ==> r == Err::<ClusterStore, PaletteError>(
            PaletteError::NoColors,
        ),
        opaque_count(pixels@) > 0 ==> r is Ok,
        r matches Ok(store) ==> {
            &&& store.wf()
            &&& store.model() == clean_up_model(scan_model(pixels@, space, gradation), clean_up_value)
            &&& store.share_total == opaque_count(pixels@)
            &&& separated(store.model(), clean_up_value)
            &&& sum_of(store.model(), |c: ClusterView| pixels_of(c)) == store.share_total
            &&& sum_of(store.model(), |c: ClusterView| share_of(c)) == store.share_total
        },
{
    let mut store = scan_online(pixels, space, gradation)?;
    let ghost cs = store.model();
    let count = store.clusters.len();
    proof {
        assert(cs.len() == count);
        lemma_opaque_count_bounds(pixels@);
        let fp = |c: ClusterView| pixels_of(c);
        let fs = |c: ClusterView| share_of(c);
        assert(adds_up(fp, u32::MAX as int));
        assert(adds_up(fs, u64::MAX as int));
        lemma_clean_up_conserves(cs, clean_up_value, fp, u32::MAX as int);
        lemma_clean_up_conserves(cs, clean_up_value, fs, u64::MAX as int);
    }
    store.clean_up(clean_up_value);
    Ok(store)
}

/// The clusters whose id is not among `ids`, in order.
pub open spec fn without_ids(cs: Seq<ClusterView>, ids: Seq<u32>) -> Seq<ClusterView>
    decreases cs.len(),
{
    if cs.len() == 0 {
        Seq::empty()
    } else if ids.contains(cs.last().id) {
        without_ids(cs.drop_last(), ids)
    } else {
        without_ids(cs.drop_last(), ids).push(cs.last())
    }
}

/// Some cluster carries the id.
pub open spec fn carries(cs: Seq<ClusterView>, id: u32) -> bool {
    exists|i: int| #[trigger] has_id(cs, id, i)
}

/// The position of the cluster with the given id, if any.
pub open spec fn has_id(cs: Seq<ClusterView>, id: u32, i: int) -> bool {
    0 <= i < cs.len() && cs[i].id == id
}

impl ClusterStore {
    /// Sets the denominator of the percentages to the sum of the shares, saturating.
    pub fn recalculate_color_precentage(&mut self)
        ensures
            final(self).model() == old(self).model(),
            final(self).share_total == if sum_of(old(self).model(), |c: ClusterView| share_of(c)) > u64::MAX {
                u64::MAX as int
            } else {
                sum_of(old(self).model(), |c: ClusterView| share_of(c))
            },
    {
        let ghost cs = self.model();
        let n = self.clusters.len();
        let mut total: u128 = 0;
        let mut i: usize = 0;
        assert(cs.subrange(0, 0) =~= Seq::<ClusterView>::empty());
        while i < n
            invariant
                n == self.clusters@.len(),
                cs == self.model(),
                i <= n,
                total == sum_of(cs.subrange(0, i as int), |c: ClusterView| share_of(c)),
                total <= 0xffff_ffff_ffff_ffff * i,
            decreases n - i,
        {
            let ghost prev = cs.subrange(0, i as int);
            assert(cs[i as int].share == self.clusters@[i as int].share);
            total = total + self.clusters[i].share as u128;
            i = i + 1;
            assert(cs.subrange(0, i as int).drop_last() =~= prev);
        }
        assert(cs.subrange(0, n as int) =~= cs);
        self.share_total = if total > 0xffff_ffff_ffff_ffff {
            0xffff_ffff_ffff_ffff
        } else {
            total as u64
        };
    }

    /// Removes the clusters whose id is listed, then renormalizes the percentages over the rest:
    /// the denominator becomes the sum of the remaining shares. After an online scan a share is
    /// the cluster's pixel count, so the percentages become pixel count over remaining pixels;
    /// after median cut or mean shift, shares count colors or end-points, not pixels.
    pub fn remove_selected_color(&mut self, ids: &Vec<u32>)
        ensures
            final(self).model() == without_ids(old(self).model(), ids@),
            final(self).share_total == if sum_of(final(self).model(), |c: ClusterView| share_of(c)) > u64::MAX {
                u64::MAX as int
            } else {
                sum_of(final(self).model(), |c: ClusterView| share_of(c))
            },
    {
        let ghost cs = self.model();
        let n = self.clusters.len();
        let mut kept: Vec<Cluster> = Vec::new();
        let mut i: usize = 0;
        assert(models(kept@) =~= without_ids(cs.subrange(0, 0), ids@));
        while i < n
            invariant
                n == self.clusters@.len(),
                cs == self.model(),
                i <= n,
                models(kept@) == without_ids(cs.subrange(0, i as int), ids@),
            decreases n - i,
        {
            let ghost prev = cs.subrange(0, i as int);
            let ghost before = kept@;
            let id = self.clusters[i].id;
            let mut listed = false;
            let mut k: usize = 0;
            while k < ids.len()
                invariant
                    k <= ids@.len(),
                    listed == exists|q: int| 0 <= q < k && ids@[q] == id,
                decreases ids@.len() - k,
            {
                if ids[k] == id {
                    listed = true;
                }
                k = k + 1;
            }
            assert(listed == ids@.contains(id));
            if !listed {
                let c = self.clusters[i].duplicate();
                let ghost cm = c.model();
                kept.push(c);
                assert(models(kept@) =~= models(before).push(cm));
            }
            i = i + 1;
            assert(cs.subrange(0, i as int).drop_last() =~= prev);
        }
        assert(cs.subrange(0, n as int) =~= cs);
        self.clusters = kept;
        self.recalculate_color_precentage();
    }

    /// The position of the cluster with the given id.
    fn position_of(&self, id: u32) -> (r: Option<usize>)
        ensures
            r matches Some(i) ==> has_id(self.model(), id, i as int) && forall|q: int| 0 <= q < i ==> !has_id(self.model(), id, q),
            r is None ==> forall|i: int| 0 <= i < self.clusters@.len() ==> !has_id(self.model(), id, i),
    {
        let n = self.clusters.len();
        let mut i: usize = 0;
        while i < n
            invariant
                n == self.clusters@.len(),
                i <= n,
                forall|q: int| 0 <= q < i ==> !has_id(self.model(), id, q),
            decreases n - i,
        {
            if self.clusters[i].id == id {
                return Some(i);
            }
            i = i + 1;
        }
        None
    }

    /// Merges the cluster `second` into the cluster `first`, which keeps its centroid, and
    /// removes `second`: the counts add up, saturating, and `second`'s sub-members follow
    /// `first`'s. This succeeds exactly when both ids are carried. An id that no cluster carries
    /// is an error (`first` is checked before `second`) and changes nothing; merging a cluster
    /// with itself changes nothing.
    pub fn merge_clusters(&mut self, first: u32, second: u32) -> (r: Result<(), PaletteError>)
        ensures
            r is Ok <==> carries(old(self).model(), first) && carries(old(self).model(), second),
            r == Err::<(), PaletteError>(PaletteError::UnknownCluster(first)) <==> !carries(old(self).model(), first),
            r == Err::<(), PaletteError>(PaletteError::UnknownCluster(second)) && first != second <==> carries(
                old(self).model(),
                first,
            )
                && !carries(old(self).model(), second),
            r is Err ==> final(self).model() == old(self).model(),
            r is Ok ==> first == second ==> final(self).model() == old(self).model(),
            r is Ok && first != second ==> exists|i: int, j: int|
                has_id(old(self).model(), first, i) && has_id(old(self).model(), second, j)
                    && final(self).model() == old(self).model().update(
                    i,
                    merged_view(old(self).model()[i], old(self).model()[j]),
                ).remove(j),
            final(self).share_total == old(self).share_total,
    {
        let i = match self.position_of(first) {
            Some(i) => i,
            None => {
                return Err(PaletteError::UnknownCluster(first));
            },
        };
        let j = match self.position_of(second) {
            Some(j) => j,
            None => {
                return Err(PaletteError::UnknownCluster(second));
            },
        };
        if i == j {
            return Ok(());
        }
        let ghost cs = self.model();
        self.merge_pair(i, j);
        let ghost merged = self.model();
        let _gone = self.clusters.remove(j);
        assert(self.model() =~= merged.remove(j as int));
        Ok(())
    }
}

} // verus!
