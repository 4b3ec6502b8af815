//! Saturation and lightness of a palette, each cluster weighing the same.
use vstd::prelude::*;
use crate::cluster::{ClusterStore, ClusterView, lemma_sum_push, sum_of};
use crate::color::{HSL, hsl_of};

verus! {

/// Average, largest and smallest saturation and lightness of a palette, in millionths.
#[derive(Clone, Copy, Debug)]
pub struct PaletteStats {
    pub avarage_saturation: i64,
    /// Largest, then smallest.
    pub saturation_range: [i64; 2],
    pub avarage_lightness: i64,
    /// Largest, then smallest.
    pub lightness_range: [i64; 2],
}

pub open spec fn saturation_of(c: ClusterView) -> int {
    hsl_of(c.centroid).1
}

pub open spec fn lightness_of(c: ClusterView) -> int {
    hsl_of(c.centroid).2
}

/// The largest value of `f` over a nonempty sequence.
pub open spec fn max_of(cs: Seq<ClusterView>, f: spec_fn(ClusterView) -> int) -> int
    decreases cs.len(),
{
    if cs.len() <= 1 {
        f(cs[0])
    } else if f(cs.last()) > max_of(cs.drop_last(), f) {
        f(cs.last())
    } else {
        max_of(cs.drop_last(), f)
    }
}

/// The smallest value of `f` over a nonempty sequence.
pub open spec fn min_of(cs: Seq<ClusterView>, f: spec_fn(ClusterView) -> int) -> int
    decreases cs.len(),
{
    if cs.len() <= 1 {
        f(cs[0])
    } else if f(cs.last()) < min_of(cs.drop_last(), f) {
        f(cs.last())
    } else {
        min_of(cs.drop_last(), f)
    }
}

/// What a palette's statistics are: the truncated means and the extremes of the clusters'
/// saturation and lightness.
pub open spec fn stats_of(cs: Seq<ClusterView>) -> PaletteStats {
    let n = cs.len() as int;
    PaletteStats {
        avarage_saturation: (sum_of(cs, |c: ClusterView| saturation_of(c)) / n) as i64,
        saturation_range: [
            max_of(cs, |c: ClusterView| saturation_of(c)) as i64,
            min_of(cs, |c: ClusterView| saturation_of(c)) as i64,
        ],
        avarage_lightness: (sum_of(cs, |c: ClusterView| lightness_of(c)) / n) as i64,
        lightness_range: [
            max_of(cs, |c: ClusterView| lightness_of(c)) as i64,
            min_of(cs, |c: ClusterView| lightness_of(c)) as i64,
        ],
    }
}

impl ClusterStore {
    /// The palette's statistics; none for an empty palette.
    pub fn get_img_data(&self) -> (r: Option<PaletteStats>)
        ensures
            self.clusters@.len() == 0 ==> r is None,
            self.clusters@.len() > 0 ==> r == Some(stats_of(self.model())),
    {
        let n = self.clusters.len();
        if n == 0 {
            return None;
        }
        let ghost cs = self.model();
        let first = HSL::from_rgb(&self.clusters[0].centroid);
        let mut sum_s: i128 = first.s as i128;
        let mut sum_l: i128 = first.l as i128;
        let mut max_s: i64 = first.s;
        let mut min_s: i64 = first.s;
        let mut max_l: i64 = first.l;
        let mut min_l: i64 = first.l;
        let mut i: usize = 1;
        assert(cs.subrange(0, 1).drop_last() =~= Seq::<ClusterView>::empty());
        assert(cs.subrange(0, 1).last() == cs[0]);
        assert(cs[0].centroid == self.clusters@[0].centroid);
        assert(saturation_of(cs[0]) == first.s);
        assert(lightness_of(cs[0]) == first.l);
        assert(cs.subrange(0, 1) =~= Seq::<ClusterView>::empty().push(cs[0]));
        assert(sum_of(Seq::<ClusterView>::empty(), |c: ClusterView| saturation_of(c)) == 0);
        assert(sum_of(Seq::<ClusterView>::empty(), |c: ClusterView| lightness_of(c)) == 0);
        proof {
            lemma_sum_push(Seq::<ClusterView>::empty(), cs[0], |c: ClusterView| saturation_of(c));
            lemma_sum_push(Seq::<ClusterView>::empty(), cs[0], |c: ClusterView| lightness_of(c));
        }
        assert(sum_of(cs.subrange(0, 1), |c: ClusterView| saturation_of(c)) == saturation_of(cs[0]));
        assert(sum_of(cs.subrange(0, 1), |c: ClusterView| lightness_of(c)) == lightness_of(cs[0]));
        while i < n
            invariant
                n == self.clusters@.len(),
                cs == self.model(),
                1 <= i <= n,
                sum_s == sum_of(cs.subrange(0, i as int), |c: ClusterView| saturation_of(c)),
                sum_l == sum_of(cs.subrange(0, i as int), |c: ClusterView| lightness_of(c)),
                0 <= sum_s <= 1000000 * i,
                0 <= sum_l <= 1000000 * i,
                max_s == max_of(cs.subrange(0, i as int), |c: ClusterView| saturation_of(c)),
                min_s == min_of(cs.subrange(0, i as int), |c: ClusterView| saturation_of(c)),
                max_l == max_of(cs.subrange(0, i as int), |c: ClusterView| lightness_of(c)),
                min_l == min_of(cs.subrange(0, i as int), |c: ClusterView| lightness_of(c)),
            decreases n - i,
        {
            let ghost prev = cs.subrange(0, i as int);
            let h = HSL::from_rgb(&self.clusters[i].centroid);
            assert(cs[i as int].centroid == self.clusters@[i as int].centroid);
            assert(saturation_of(cs[i as int]) == h.s);
            assert(lightness_of(cs[i as int]) == h.l);
            sum_s = sum_s + h.s as i128;
            sum_l = sum_l + h.l as i128;
            if h.s > max_s {
                max_s = h.s;
            }
            if h.s < min_s {
                min_s = h.s;
            }
            if h.l > max_l {
                max_l = h.l;
            }
            if h.l < min_l {
                min_l = h.l;
            }
            i = i + 1;
            assert(cs.subrange(0, i as int).drop_last() =~= prev);
            assert(cs.subrange(0, i as int).last() == cs[i - 1]);
        }
        assert(cs.subrange(0, n as int) =~= cs);
        proof {
            crate::color::lemma_div_between(sum_s as int, n as int, 0, 1000000);
            crate::color::lemma_div_between(sum_l as int, n as int, 0, 1000000);
        }
        Some(
            PaletteStats {
                avarage_saturation: (sum_s / n as i128) as i64,
                saturation_range: [max_s, min_s],
                avarage_lightness: (sum_l / n as i128) as i64,
                lightness_range: [max_l, min_l],
            },
        )
    }
}

} // verus!
