//! The single-pass online clusterer: each opaque pixel joins the nearest cluster within the
//! gradation, or starts a cluster of its own.
use vstd::prelude::*;
use crate::arith::{sqrt_nat, square_root};
use crate::cluster::{
    Cluster, ClusterStore, ClusterView, PaletteError, Pixel, Sample, lemma_sum_bounds_term,
    lemma_sum_push, lemma_sum_update, members_of, models, pixels_of, share_of,
    single_view, sum_of,
};
use crate::color::{
    ColorSpace, Point, Rgb, oklab_dist2, oklab_distance_squared, point_bounded, point_distance_squared,
    point_of, point_view, rgb_dist2, rgb_distance_squared, space_dist2, space_point,
};

verus! {

/// OkLab distance (0.1, in millionths) beyond which an absorbed color is kept as a sub-member.
pub const SUB_MEMBER_DISTANCE: u64 = 100000;

/// Gradation (0.1, in millionths) above which absorbed colors are kept as sub-members.
pub const HIGH_GRADATION: u64 = 100000;

/// One channel of a centroid after it absorbs `raw`: the running quadratic mean
/// `sqrt((old^2 * n + raw^2) / (n + 1))`, truncated, and at most 254.
pub open spec fn absorbed_channel(old: u8, raw: u8, n: u32) -> u8 {
    let v = sqrt_nat((old * old * n + raw * raw) / (n + 1));
    if v < 254 {
        v as u8
    } else {
        254
    }
}

pub open spec fn absorbed_centroid(c: Rgb, raw: Rgb, n: u32) -> Rgb {
    Rgb {
        r: absorbed_channel(c.r, raw.r, n),
        g: absorbed_channel(c.g, raw.g, n),
        b: absorbed_channel(c.b, raw.b, n),
    }
}

/// Some sub-member lies within RGB distance 1 of `c`.
pub open spec fn has_near_sub_member(subs: Seq<Sample>, c: Rgb) -> bool {
    exists|k: int| 0 <= k < subs.len() && rgb_dist2(#[trigger] subs[k].rgb, c) <= 1
}

/// An absorbed sample is kept as a sub-member when the gradation is high, it lies farther than
/// `SUB_MEMBER_DISTANCE` in OkLab from the updated centroid, and no sub-member is as close as
/// RGB distance 1 to it.
pub open spec fn keeps_as_sub_member(cl: ClusterView, s: Sample, gradation: u64) -> bool {
    &&& gradation > HIGH_GRADATION
    &&& oklab_dist2(s.rgb, absorbed_centroid(cl.centroid, s.rgb, cl.member_count)) > SUB_MEMBER_DISTANCE
        * SUB_MEMBER_DISTANCE
    &&& !has_near_sub_member(cl.sub_members, s.rgb)
}

/// A cluster after it absorbs one sample.
pub open spec fn absorbed_view(cl: ClusterView, s: Sample, gradation: u64) -> ClusterView {
    ClusterView {
        id: cl.id,
        centroid: absorbed_centroid(cl.centroid, s.rgb, cl.member_count),
        member_count: (cl.member_count + 1) as u32,
        position: cl.position,
        sub_members: if keeps_as_sub_member(cl, s, gradation) {
            cl.sub_members.push(s)
        } else {
            cl.sub_members
        },
        pixel_count: (cl.pixel_count + 1) as u32,
        share: (cl.share + 1) as u64,
    }
}

/// `i` is the first cluster whose centroid lies nearest to `c` in `space`.
pub open spec fn is_first_nearest(cs: Seq<ClusterView>, space: ColorSpace, c: Rgb, i: int) -> bool {
    &&& 0 <= i < cs.len()
    &&& forall|k: int|
        0 <= k < cs.len() ==> space_dist2(space, cs[i].centroid, c) <= #[trigger] space_dist2(
            space,
            cs[k].centroid,
            c,
        )
    &&& forall|k: int|
        0 <= k < i ==> space_dist2(space, cs[i].centroid, c) < #[trigger] space_dist2(
            space,
            cs[k].centroid,
            c,
        )
}

pub open spec fn nearest_cluster(cs: Seq<ClusterView>, space: ColorSpace, c: Rgb) -> int {
    choose|i: int| is_first_nearest(cs, space, c, i)
}

pub proof fn lemma_nearest_cluster(cs: Seq<ClusterView>, space: ColorSpace, c: Rgb, i: int)
    requires
        is_first_nearest(cs, space, c, i),
    ensures
        nearest_cluster(cs, space, c) == i,
{
    let j = nearest_cluster(cs, space, c);
    assert(is_first_nearest(cs, space, c, j));
    if j < i {
        assert(space_dist2(space, cs[i].centroid, c) < space_dist2(space, cs[j].centroid, c));
    } else if i < j {
        assert(space_dist2(space, cs[j].centroid, c) < space_dist2(space, cs[i].centroid, c));
    }
}

pub open spec fn sample_of(p: Pixel) -> Sample {
    Sample { rgb: p.rgb, position: p.position }
}

/// The clusters after one more pixel: a transparent pixel changes nothing; an opaque one joins
/// the first nearest cluster if that lies within the gradation, or else starts a new cluster
/// whose id is the number of clusters before it.
pub open spec fn scan_step(cs: Seq<ClusterView>, space: ColorSpace, gradation: u64, p: Pixel) -> Seq<ClusterView> {
    let i = nearest_cluster(cs, space, p.rgb);
    if p.alpha == 0 {
        cs
    } else if cs.len() > 0 && space_dist2(space, cs[i].centroid, p.rgb) <= gradation * gradation {
        cs.update(i, absorbed_view(cs[i], sample_of(p), gradation))
    } else {
        cs.push(single_view(cs.len() as u32, sample_of(p)))
    }
}

/// The clusters after a scan of the given pixels, in order.
pub open spec fn scan_model(px: Seq<Pixel>, space: ColorSpace, gradation: u64) -> Seq<ClusterView>
    decreases px.len(),
{
    if px.len() == 0 {
        Seq::empty()
    } else {
        scan_step(scan_model(px.drop_last(), space, gradation), space, gradation, px.last())
    }
}

/// How many of the pixels are not fully transparent.
pub open spec fn opaque_count(px: Seq<Pixel>) -> int
    decreases px.len(),
{
    if px.len() == 0 {
        0
    } else {
        opaque_count(px.drop_last()) + if px.last().alpha > 0 {
            1int
        } else {
            0
        }
    }
}

/// A prefix holds no more opaque pixels than the whole.
pub proof fn lemma_opaque_prefix(px: Seq<Pixel>, t: int)
    requires
        0 <= t <= px.len(),
    ensures
        opaque_count(px.subrange(0, t)) <= opaque_count(px),
    decreases px.len(),
{
    if t == px.len() {
        assert(px.subrange(0, t) =~= px);
    } else {
        lemma_opaque_prefix(px.drop_last(), t);
        assert(px.drop_last().subrange(0, t) =~= px.subrange(0, t));
    }
}

pub proof fn lemma_opaque_count_bounds(px: Seq<Pixel>)
    ensures
        0 <= opaque_count(px) <= px.len(),
    decreases px.len(),
{
    if px.len() > 0 {
        lemma_opaque_count_bounds(px.drop_last());
    }
}

/// One channel of the running quadratic mean.
fn absorb_channel(old: u8, raw: u8, n: u32) -> (r: u8)
    ensures
        r == absorbed_channel(old, raw, n),
{
    let o = old as u64;
    let w = raw as u64;
    assert(o * o <= 65025 && w * w <= 65025) by (nonlinear_arith) requires o <= 255 && w <= 255;
    assert(o * o * n <= 65025 * 4294967295) by (nonlinear_arith) requires o * o <= 65025 && n <= 4294967295;
    let v = square_root((o * o * (n as u64) + w * w) / (n as u64 + 1));
    if v < 254 {
        v as u8
    } else {
        254
    }
}

/// Whether some sample of `subs` lies within RGB distance 1 of `c`.
fn near_sub_member(subs: &Vec<Sample>, c: Rgb) -> (r: bool)
    ensures
        r == has_near_sub_member(subs@, c),
{
    let n = subs.len();
    let mut k: usize = 0;
    while k < n
        invariant
            n == subs@.len(),
            k <= n,
            forall|j: int| 0 <= j < k ==> rgb_dist2(#[trigger] subs@[j].rgb, c) > 1,
        decreases n - k,
    {
        if rgb_distance_squared(subs[k].rgb, c) <= 1 {
            return true;
        }
        k = k + 1;
    }
    false
}

impl Cluster {
    /// Folds one sample into the cluster: the centroid takes the running quadratic mean, the
    /// counts grow by one, and a distant sample is kept as a sub-member.
    pub fn avarage_with_rgb(&mut self, s: Sample, gradation: u64)
        requires
            old(self).member_count < u32::MAX,
            old(self).pixel_count < u32::MAX,
            old(self).share < u64::MAX,
        ensures
            final(self).model() == absorbed_view(old(self).model(), s, gradation),
    {
        let n = self.member_count;
        let c = Rgb {
            r: absorb_channel(self.centroid.r, s.rgb.r, n),
            g: absorb_channel(self.centroid.g, s.rgb.g, n),
            b: absorb_channel(self.centroid.b, s.rgb.b, n),
        };
        let keep = gradation > HIGH_GRADATION && oklab_distance_squared(&s.rgb, &c) > SUB_MEMBER_DISTANCE
            * SUB_MEMBER_DISTANCE && !near_sub_member(&self.sub_members, s.rgb);
        self.centroid = c;
        self.member_count = n + 1;
        self.pixel_count = self.pixel_count + 1;
        self.share = self.share + 1;
        if keep {
            self.sub_members.push(s);
        }
    }
}

/// The state of a scan in progress: the clusters so far, with each centroid's coordinates in
/// the scan's color space.
struct OnlineScan {
    clusters: Vec<Cluster>,
    points: Vec<Point>,
    space: ColorSpace,
    gradation: u64,
}

impl OnlineScan {
    spec fn model(&self) -> Seq<ClusterView> {
        models(self.clusters@)
    }

    spec fn wf(&self) -> bool {
        &&& self.points@.len() == self.clusters@.len()
        &&& forall|k: int|
            0 <= k < self.points@.len() ==> point_view(#[trigger] self.points@[k]) == point_of(
                self.space,
                self.clusters@[k].centroid,
            ) && point_bounded(self.points@[k])
        &&& forall|k: int| 0 <= k < self.clusters@.len() ==> (#[trigger] self.clusters@[k]).id == k
    }

    /// The first cluster nearest to the pixel's color, and its squared distance.
    fn nearest(&self, pt: Point, p: &Pixel) -> (r: (usize, u64))
        requires
            self.wf(),
            self.clusters@.len() > 0,
            point_view(pt) == point_of(self.space, p.rgb),
            point_bounded(pt),
        ensures
            is_first_nearest(self.model(), self.space, p.rgb, r.0 as int),
            r.1 == space_dist2(self.space, self.model()[r.0 as int].centroid, p.rgb),
    {
        let ghost cs = self.model();
        let n = self.clusters.len();
        let mut best: usize = 0;
        let mut best_d: u64 = point_distance_squared(self.points[0], pt);
        let mut k: usize = 1;
        while k < n
            invariant
                self.wf(),
                cs == self.model(),
                n == self.clusters@.len(),
                1 <= k <= n,
                best < k,
                point_view(pt) == point_of(self.space, p.rgb),
                point_bounded(pt),
                best_d == space_dist2(self.space, cs[best as int].centroid, p.rgb),
                forall|j: int| 0 <= j < k ==> best_d <= #[trigger] space_dist2(self.space, cs[j].centroid, p.rgb),
                forall|j: int| 0 <= j < best ==> best_d < #[trigger] space_dist2(self.space, cs[j].centroid, p.rgb),
            decreases n - k,
        {
            let d = point_distance_squared(self.points[k], pt);
            if d < best_d {
                best = k;
                best_d = d;
            }
            k = k + 1;
        }
        (best, best_d)
    }

    /// Folds a sample into the cluster at `i`.
    fn absorb_at(&mut self, i: usize, s: Sample)
        requires
            old(self).wf(),
            i < old(self).clusters@.len(),
            old(self).clusters@[i as int].member_count < u32::MAX,
            old(self).clusters@[i as int].pixel_count < u32::MAX,
            old(self).clusters@[i as int].share < u32::MAX,
        ensures
            final(self).wf(),
            final(self).space == old(self).space,
            final(self).gradation == old(self).gradation,
            final(self).model() == old(self).model().update(
                i as int,
                absorbed_view(old(self).model()[i as int], s, old(self).gradation),
            ),
    {
        let ghost cs = self.model();
        let mut cl = self.clusters.remove(i);
        cl.avarage_with_rgb(s, self.gradation);
        let q = space_point(self.space, &cl.centroid);
        let ghost newc = cl;
        self.clusters.insert(i, cl);
        self.points.set(i, q);
        assert(self.model() =~= cs.update(i as int, newc.model()));
    }

    /// Starts a cluster of one sample, whose coordinates are `pt`.
    fn start_cluster(&mut self, s: Sample, pt: Point)
        requires
            old(self).wf(),
            old(self).clusters@.len() < u32::MAX,
            point_view(pt) == point_of(old(self).space, s.rgb),
            point_bounded(pt),
        ensures
            final(self).wf(),
            final(self).space == old(self).space,
            final(self).gradation == old(self).gradation,
            final(self).model() == old(self).model().push(
                single_view(old(self).clusters@.len() as u32, s),
            ),
    {
        let ghost cs = self.model();
        let id = self.clusters.len() as u32;
        let cl = Cluster::from_rgb(id, s.rgb, s.position);
        let ghost newc = cl;
        self.clusters.push(cl);
        self.points.push(pt);
        assert(self.model() =~= cs.push(newc.model()));
    }

    /// Takes one pixel.
    fn step(&mut self, p: &Pixel)
        requires
            old(self).wf(),
            forall|k: int|
                0 <= k < old(self).clusters@.len() ==> (#[trigger] old(self).clusters@[k]).member_count
                    < u32::MAX && old(self).clusters@[k].pixel_count < u32::MAX
                    && old(self).clusters@[k].share < u32::MAX,
            old(self).clusters@.len() < u32::MAX,
        ensures
            final(self).wf(),
            final(self).space == old(self).space,
            final(self).gradation == old(self).gradation,
            final(self).model() == scan_step(old(self).model(), old(self).space, old(self).gradation, *p),
    {
        if p.alpha == 0 {
            return;
        }
        let pt = space_point(self.space, &p.rgb);
        if self.clusters.len() > 0 {
            let (best, best_d) = self.nearest(pt, p);
            proof {
                lemma_nearest_cluster(self.model(), self.space, p.rgb, best as int);
            }
            let g = self.gradation as u128;
            assert(g * g <= 0xffff_ffff_ffff_ffffu128 * 0xffff_ffff_ffff_ffffu128) by (nonlinear_arith)
                requires
                    g <= 0xffff_ffff_ffff_ffffu128,
            ;
            if (best_d as u128) <= g * g {
                self.absorb_at(best, sample_of_pixel(p));
                return;
            }
        }
        self.start_cluster(sample_of_pixel(p), pt);
    }
}

fn sample_of_pixel(p: &Pixel) -> (s: Sample)
    ensures
        s == sample_of(*p),
{
    Sample { rgb: p.rgb, position: p.position }
}

/// A nonempty sequence of clusters has a first nearest one to any color.
pub proof fn lemma_first_nearest_exists(cs: Seq<ClusterView>, space: ColorSpace, c: Rgb)
    requires
        cs.len() > 0,
    ensures
        is_first_nearest(cs, space, c, nearest_cluster(cs, space, c)),
    decreases cs.len(),
{
    let n = cs.len() - 1;
    if n == 0 {
        assert(is_first_nearest(cs, space, c, 0));
    } else {
        let prev = cs.drop_last();
        lemma_first_nearest_exists(prev, space, c);
        let i0 = nearest_cluster(prev, space, c);
        assert(forall|k: int| 0 <= k < n ==> prev[k] == cs[k]);
        let di = space_dist2(space, cs[i0].centroid, c);
        let dn = space_dist2(space, cs[n].centroid, c);
        assert(prev[i0] == cs[i0]);
        assert forall|k: int| 0 <= k < n implies di <= #[trigger] space_dist2(space, cs[k].centroid, c) by {
            assert(prev[k] == cs[k]);
            assert(space_dist2(space, prev[i0].centroid, c) <= space_dist2(space, prev[k].centroid, c));
        }
        assert forall|k: int| 0 <= k < i0 implies di < #[trigger] space_dist2(space, cs[k].centroid, c) by {
            assert(prev[k] == cs[k]);
            assert(space_dist2(space, prev[i0].centroid, c) < space_dist2(space, prev[k].centroid, c));
        }
        if dn < di {
            assert(is_first_nearest(cs, space, c, n));
        } else {
            assert(is_first_nearest(cs, space, c, i0));
        }
    }
}

pub proof fn lemma_scan_len(px: Seq<Pixel>, space: ColorSpace, gradation: u64)
    ensures
        scan_model(px, space, gradation).len() <= opaque_count(px),
    decreases px.len(),
{
    if px.len() > 0 {
        lemma_scan_len(px.drop_last(), space, gradation);
        let cs = scan_model(px.drop_last(), space, gradation);
        let p = px.last();
        let i = nearest_cluster(cs, space, p.rgb);
        if p.alpha != 0 && cs.len() > 0 && space_dist2(space, cs[i].centroid, p.rgb) <= gradation * gradation {
            lemma_first_nearest_exists(cs, space, p.rgb);
            assert(cs.update(i, absorbed_view(cs[i], sample_of(p), gradation)).len() == cs.len());
        }
    }
}

/// Every opaque pixel of a scan is counted by exactly one cluster: the pixel counts, the member
/// counts and the shares of the clusters each add up to the number of opaque pixels.
pub proof fn lemma_scan_conserves_pixels(px: Seq<Pixel>, space: ColorSpace, gradation: u64)
    requires
        opaque_count(px) < u32::MAX,
    ensures
        sum_of(scan_model(px, space, gradation), |c: ClusterView| pixels_of(c)) == opaque_count(px),
        sum_of(scan_model(px, space, gradation), |c: ClusterView| members_of(c)) == opaque_count(px),
        sum_of(scan_model(px, space, gradation), |c: ClusterView| share_of(c)) == opaque_count(px),
    decreases px.len(),
{
    if px.len() > 0 {
        let prev = px.drop_last();
        let cs = scan_model(prev, space, gradation);
        let p = px.last();
        let fp = |c: ClusterView| pixels_of(c);
        let fm = |c: ClusterView| members_of(c);
        let fs = |c: ClusterView| share_of(c);
        lemma_scan_conserves_pixels(prev, space, gradation);
        lemma_opaque_count_bounds(prev);
        let i = nearest_cluster(cs, space, p.rgb);
        if p.alpha == 0 {
        } else if cs.len() > 0 && space_dist2(space, cs[i].centroid, p.rgb) <= gradation * gradation {
            lemma_first_nearest_exists(cs, space, p.rgb);
            lemma_sum_bounds_term(cs, i, fp);
            lemma_sum_bounds_term(cs, i, fm);
            lemma_sum_bounds_term(cs, i, fs);
            let x = absorbed_view(cs[i], sample_of(p), gradation);
            lemma_sum_update(cs, i, x, fp);
            lemma_sum_update(cs, i, x, fm);
            lemma_sum_update(cs, i, x, fs);
        } else {
            let x = single_view(cs.len() as u32, sample_of(p));
            lemma_sum_push(cs, x, fp);
            lemma_sum_push(cs, x, fm);
            lemma_sum_push(cs, x, fs);
        }
    }
}

/// Clusters the opaque pixels in one pass, in the given space with the given gradation (the
/// largest distance, in millionths of the space's unit, at which a pixel joins a cluster).
/// No cleanup follows. Each cluster's share is its pixel count, out of all opaque pixels.
pub fn scan_online(pixels: &Vec<Pixel>, space: ColorSpace, gradation: u64) -> (r: Result<ClusterStore, PaletteError>)
    requires
        opaque_count(pixels@) < u32::MAX,
    ensures
        pixels@.len() == 0 ==> r == Err::<ClusterStore, PaletteError>(PaletteError::EmptyImage),
        pixels@.len() > 0 && opaque_count(pixels@) == 0 ==> r == Err::<ClusterStore, PaletteError>(
            PaletteError::NoColors,
        ),
        opaque_count(pixels@) > 0 ==> r is Ok,
        r matches Ok(store) ==> {
            &&& store.wf()
            &&& store.model() == scan_model(pixels@, space, gradation)
            &&& store.share_total == opaque_count(pixels@)
            &&& sum_of(store.model(), |c: ClusterView| share_of(c)) == store.share_total
            &&& sum_of(store.model(), |c: ClusterView| pixels_of(c)) == store.share_total
        },
{
    if pixels.len() == 0 {
        return Err(PaletteError::EmptyImage);
    }
    let mut st = OnlineScan { clusters: Vec::new(), points: Vec::new(), space, gradation };
    let mut opaque: u64 = 0;
    let n = pixels.len();
    let mut t: usize = 0;
    assert(st.model() =~= scan_model(pixels@.subrange(0, 0), space, gradation));
    while t < n
        invariant
            n == pixels@.len(),
            opaque_count(pixels@) < u32::MAX,
            t <= n,
            st.wf(),
            st.space == space,
            st.gradation == gradation,
            st.model() == scan_model(pixels@.subrange(0, t as int), space, gradation),
            opaque == opaque_count(pixels@.subrange(0, t as int)),
        decreases n - t,
    {
        let ghost prefix = pixels@.subrange(0, t as int);
        let ghost fp = |c: ClusterView| pixels_of(c);
        let ghost fm = |c: ClusterView| members_of(c);
        let ghost fs = |c: ClusterView| share_of(c);
        proof {
            lemma_opaque_prefix(pixels@, t as int);
            lemma_scan_conserves_pixels(prefix, space, gradation);
            lemma_scan_len(prefix, space, gradation);
            lemma_opaque_count_bounds(prefix);
            assert forall|k: int| 0 <= k < st.clusters@.len() implies (#[trigger] st.clusters@[k]).member_count
                < u32::MAX && st.clusters@[k].pixel_count < u32::MAX && st.clusters@[k].share < u32::MAX by {
                let cs = st.model();
                assert(cs[k] == st.clusters@[k].model());
                lemma_sum_bounds_term(cs, k, fp);
                lemma_sum_bounds_term(cs, k, fm);
                lemma_sum_bounds_term(cs, k, fs);
            }
        }
        let p = &pixels[t];
        st.step(p);
        if p.alpha > 0 {
            opaque = opaque + 1;
        }
        t = t + 1;
        assert(pixels@.subrange(0, t as int).drop_last() =~= prefix);
    }
    assert(pixels@.subrange(0, n as int) =~= pixels@);
    if opaque == 0 {
        return Err(PaletteError::NoColors);
    }
    proof {
        lemma_scan_conserves_pixels(pixels@, space, gradation);
    }
    Ok(ClusterStore { clusters: st.clusters, share_total: opaque })
}

} // verus!
