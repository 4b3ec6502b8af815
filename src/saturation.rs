//! Replacing a cluster's representative color by its most saturated member.
use vstd::prelude::*;
use crate::cluster::{Cluster, ClusterStore, ClusterView, Sample, models};
use crate::color::{HSL, SCALE, abs, hsl_of};

verus! {

/// How far the lightness of a color lies from one half, in millionths.
pub open spec fn mid_gap(x: Sample) -> int {
    abs(SCALE / 2 - hsl_of(x.rgb).2)
}

/// `a` ranks above `b`: more saturated, or as saturated and lightness nearer to one half.
pub open spec fn ranks_above(a: Sample, b: Sample) -> bool {
    hsl_of(a.rgb).1 > hsl_of(b.rgb).1 || (hsl_of(a.rgb).1 == hsl_of(b.rgb).1 && mid_gap(a) < mid_gap(b))
}

/// `i` is the last of the highest-ranked samples.
pub open spec fn is_last_top(cs: Seq<Sample>, i: int) -> bool {
    &&& 0 <= i < cs.len()
    &&& forall|k: int| 0 <= k < cs.len() ==> !ranks_above(#[trigger] cs[k], cs[i])
    &&& forall|k: int| i < k < cs.len() ==> ranks_above(cs[i], #[trigger] cs[k])
}

/// The sub-members followed by the cluster's own color.
pub open spec fn candidates(c: ClusterView) -> Seq<Sample> {
    c.sub_members.push(Sample { rgb: c.centroid, position: c.position })
}

/// The cluster after switching to the candidate at `i`: its color and position become the
/// representative, and the other candidates, in order, the sub-members.
pub open spec fn switched_view(c: ClusterView, i: int) -> ClusterView {
    ClusterView {
        centroid: candidates(c)[i].rgb,
        position: candidates(c)[i].position,
        sub_members: candidates(c).remove(i),
        member_count: c.sub_members.len() as u32,
        ..c
    }
}

/// `d` is cluster `c` switched to its last highest-ranked candidate.
pub open spec fn is_switched(c: ClusterView, d: ClusterView) -> bool {
    exists|i: int| is_last_top(candidates(c), i) && d == switched_view(c, i)
}

impl Cluster {
    /// Makes the last highest-ranked color among the sub-members and the cluster's own color
    /// the cluster's color; the others become the sub-members, and their number the member count.
    pub fn switch_to_most_saturated_color(&mut self)
        requires
            old(self).sub_members@.len() < u32::MAX,
        ensures
            is_switched(old(self).model(), final(self).model()),
    {
        let ghost c0 = self.model();
        let own = Sample { rgb: self.centroid, position: self.position };
        let mut cands: Vec<Sample> = Vec::new();
        let n = self.sub_members.len();
        let mut k: usize = 0;
        while k < n
            invariant
                n == self.sub_members@.len(),
                c0 == self.model(),
                k <= n,
                cands@ == self.sub_members@.subrange(0, k as int),
            decreases n - k,
        {
            cands.push(self.sub_members[k]);
            k = k + 1;
            assert(cands@ =~= self.sub_members@.subrange(0, k as int));
        }
        cands.push(own);
        assert(cands@ =~= candidates(c0));
        let m = cands.len();
        let first = HSL::from_rgb(&cands[0].rgb);
        let mut best: usize = 0;
        let mut best_s: i64 = first.s;
        let mut best_g: i64 = if SCALE / 2 >= first.l { SCALE / 2 - first.l } else { first.l - SCALE / 2 };
        let mut i: usize = 1;
        while i < m
            invariant
                m == cands@.len(),
                1 <= i <= m,
                best < i,
                best_s == hsl_of(cands@[best as int].rgb).1,
                best_g == mid_gap(cands@[best as int]),
                forall|q: int| 0 <= q < i ==> !ranks_above(#[trigger] cands@[q], cands@[best as int]),
                forall|q: int| best < q < i ==> ranks_above(cands@[best as int], #[trigger] cands@[q]),
            decreases m - i,
        {
            let h = HSL::from_rgb(&cands[i].rgb);
            let g = if SCALE / 2 >= h.l { SCALE / 2 - h.l } else { h.l - SCALE / 2 };
            if !(best_s > h.s || (best_s == h.s && best_g < g)) {
                best = i;
                best_s = h.s;
                best_g = g;
            }
            i = i + 1;
        }
        assert(is_last_top(candidates(c0), best as int));
        let chosen = cands.remove(best);
        self.centroid = chosen.rgb;
        self.position = chosen.position;
        self.sub_members = cands;
        self.member_count = n as u32;
        assert(self.model() == switched_view(c0, best as int));
    }
}

impl ClusterStore {
    /// Switches every cluster to its most saturated color.
    pub fn switch_colors_to_saturarion(&mut self)
        requires
            forall|k: int| 0 <= k < old(self).clusters@.len() ==> (#[trigger] old(self).clusters@[k]).sub_members@.len() < u32::MAX,
        ensures
            final(self).share_total == old(self).share_total,
            final(self).clusters@.len() == old(self).clusters@.len(),
            forall|k: int|
                0 <= k < old(self).clusters@.len() ==> is_switched(old(self).model()[k], #[trigger] final(self).model()[k]),
    {
        let ghost cs = self.model();
        let n = self.clusters.len();
        let mut out: Vec<Cluster> = Vec::new();
        let mut k: usize = 0;
        while k < n
            invariant
                n == self.clusters@.len(),
                cs == self.model(),
                forall|q: int| 0 <= q < n ==> (#[trigger] self.clusters@[q]).sub_members@.len() < u32::MAX,
                k <= n,
                out@.len() == k,
                forall|q: int| 0 <= q < k ==> is_switched(cs[q], #[trigger] models(out@)[q]),
            decreases n - k,
        {
            let mut c = self.clusters[k].duplicate();
            c.switch_to_most_saturated_color();
            let ghost before = out@;
            out.push(c);
            assert forall|q: int| 0 <= q < k + 1 implies is_switched(cs[q], #[trigger] models(out@)[q]) by {
                if q < k {
                    assert(models(out@)[q] == models(before)[q]);
                } else {
                    assert(cs[q] == self.clusters@[q].model());
                }
            }
            k = k + 1;
        }
        self.clusters = out;
    }
}

} // verus!
