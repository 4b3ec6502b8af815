//! Clusters of colors and the store that holds the result of one scan.
use vstd::prelude::*;
use crate::color::Rgb;

verus! {

/// Where a pixel stands in its image.
#[derive(Clone, Copy, Debug, PartialEq, Eq, Structural)]
pub struct Position {
    pub x: u32,
    pub y: u32,
}

/// One pixel of a decoded image.
#[derive(Clone, Copy, Debug, PartialEq, Eq, Structural)]
pub struct Pixel {
    pub rgb: Rgb,
    pub alpha: u8,
    pub position: Position,
}

/// A color together with the place it was read from.
#[derive(Clone, Copy, Debug, PartialEq, Eq, Structural)]
pub struct Sample {
    pub rgb: Rgb,
    pub position: Position,
}

/// Why a scan produced no palette.
#[derive(Clone, Copy, Debug, PartialEq, Eq, Structural)]
pub enum PaletteError {
    /// The image holds no pixel at all.
    EmptyImage,
    /// Every pixel of the image is fully transparent.
    NoColors,
    /// No live cluster carries the given id.
    UnknownCluster(u32),
}

/// A group of similar colors.
///
/// `share` is this cluster's part of the palette: its percentage is `share / share_total` of
/// the store that holds it.
#[derive(Debug)]
pub struct Cluster {
    /// Identity within its store, assigned once when the cluster is made.
    pub id: u32,
    /// The representative color.
    pub centroid: Rgb,
    /// How many samples the cluster took in.
    pub member_count: u32,
    /// Where the cluster's first sample was read.
    pub position: Position,
    /// Colors kept apart from the centroid, in the order they were kept.
    pub sub_members: Vec<Sample>,
    /// Opaque pixels counted by the online scan and the median scan; zero for median cut and
    /// mean shift, which work on distinct colors.
    pub pixel_count: u32,
    /// Numerator of the cluster's percentage.
    pub share: u64,
}

/// A cluster: a color averaged over its members.
pub type AvarageRgb = Cluster;

/// What a cluster holds, as mathematical values.
pub struct ClusterView {
    pub id: u32,
    pub centroid: Rgb,
    pub member_count: u32,
    pub position: Position,
    pub sub_members: Seq<Sample>,
    pub pixel_count: u32,
    pub share: u64,
}

impl Cluster {
    pub open spec fn model(&self) -> ClusterView {
        ClusterView {
            id: self.id,
            centroid: self.centroid,
            member_count: self.member_count,
            position: self.position,
            sub_members: self.sub_members@,
            pixel_count: self.pixel_count,
            share: self.share,
        }
    }

    /// A cluster of one color, read at `position`.
    pub fn from_rgb(id: u32, rgb: Rgb, position: Position) -> (r: Cluster)
        ensures
            r.model() == single_view(id, Sample { rgb, position }),
    {
        Cluster {
            id,
            centroid: rgb,
            member_count: 1,
            position,
            sub_members: Vec::new(),
            pixel_count: 1,
            share: 1,
        }
    }

    /// A cluster with the same contents.
    pub fn duplicate(&self) -> (r: Cluster)
        ensures
            r.model() == self.model(),
    {
        let mut subs: Vec<Sample> = Vec::new();
        let n = self.sub_members.len();
        let mut k: usize = 0;
        while k < n
            invariant
                n == self.sub_members@.len(),
                k <= n,
                subs@ == self.sub_members@.subrange(0, k as int),
            decreases n - k,
        {
            subs.push(self.sub_members[k]);
            k = k + 1;
            assert(subs@ =~= self.sub_members@.subrange(0, k as int));
        }
        assert(subs@ =~= self.sub_members@);
        Cluster {
            id: self.id,
            centroid: self.centroid,
            member_count: self.member_count,
            position: self.position,
            sub_members: subs,
            pixel_count: self.pixel_count,
            share: self.share,
        }
    }
}

/// The cluster that a single sample starts.
pub open spec fn single_view(id: u32, s: Sample) -> ClusterView {
    ClusterView {
        id,
        centroid: s.rgb,
        member_count: 1,
        position: s.position,
        sub_members: Seq::empty(),
        pixel_count: 1,
        share: 1,
    }
}

pub open spec fn models(cs: Seq<Cluster>) -> Seq<ClusterView> {
    cs.map_values(|c: Cluster| c.model())
}

/// The sum of `f` over a sequence of clusters.
pub open spec fn sum_of(cs: Seq<ClusterView>, f: spec_fn(ClusterView) -> int) -> int
    decreases cs.len(),
{
    if cs.len() == 0 {
        0
    } else {
        sum_of(cs.drop_last(), f) + f(cs.last())
    }
}

pub open spec fn pixels_of(c: ClusterView) -> int {
    c.pixel_count as int
}

pub open spec fn share_of(c: ClusterView) -> int {
    c.share as int
}

pub open spec fn members_of(c: ClusterView) -> int {
    c.member_count as int
}

pub proof fn lemma_sum_push(cs: Seq<ClusterView>, x: ClusterView, f: spec_fn(ClusterView) -> int)
    ensures
        sum_of(cs.push(x), f) == sum_of(cs, f) + f(x),
{
    assert(cs.push(x).drop_last() =~= cs);
}

pub proof fn lemma_sum_update(cs: Seq<ClusterView>, i: int, x: ClusterView, f: spec_fn(ClusterView) -> int)
    requires
        0 <= i < cs.len(),
    ensures
        sum_of(cs.update(i, x), f) == sum_of(cs, f) - f(cs[i]) + f(x),
    decreases cs.len(),
{
    if i == cs.len() - 1 {
        assert(cs.update(i, x).drop_last() =~= cs.drop_last());
    } else {
        lemma_sum_update(cs.drop_last(), i, x, f);
        assert(cs.update(i, x).drop_last() =~= cs.drop_last().update(i, x));
    }
}

/// With no negative term, every term is at most the sum.
pub proof fn lemma_sum_bounds_term(cs: Seq<ClusterView>, i: int, f: spec_fn(ClusterView) -> int)
    requires
        0 <= i < cs.len(),
        forall|k: int| 0 <= k < cs.len() ==> f(#[trigger] cs[k]) >= 0,
    ensures
        f(cs[i]) <= sum_of(cs, f),
    decreases cs.len(),
{
    lemma_sum_nonneg(cs.drop_last(), f);
    if i < cs.len() - 1 {
        lemma_sum_bounds_term(cs.drop_last(), i, f);
    }
}

pub proof fn lemma_sum_nonneg(cs: Seq<ClusterView>, f: spec_fn(ClusterView) -> int)
    requires
        forall|k: int| 0 <= k < cs.len() ==> f(#[trigger] cs[k]) >= 0,
    ensures
        sum_of(cs, f) >= 0,
    decreases cs.len(),
{
    if cs.len() > 0 {
        lemma_sum_nonneg(cs.drop_last(), f);
    }
}

/// The clusters of one scan. The percentage of a cluster is its `share` over `share_total`.
#[derive(Debug)]
pub struct ClusterStore {
    pub clusters: Vec<Cluster>,
    pub share_total: u64,
}

impl ClusterStore {
    pub open spec fn model(&self) -> Seq<ClusterView> {
        models(self.clusters@)
    }

    /// Ids are distinct.
    pub open spec fn wf(&self) -> bool {
        forall|i: int, j: int|
            0 <= i < j < self.clusters@.len() ==> (#[trigger] self.clusters@[i]).id != (#[trigger] self.clusters@[j]).id
    }

    /// The number of clusters.
    pub fn len(&self) -> (r: usize)
        ensures
            r == self.clusters@.len(),
    {
        self.clusters.len()
    }
}

} // verus!
