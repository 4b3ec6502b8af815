//! The mean-shift clusterer: a cursor starts at each distinct color and moves, in OkLab, to the
//! mean of the colors it has gathered within its radius, until it gathers no more.
use vstd::prelude::*;
use crate::cluster::{Cluster, ClusterStore, ClusterView, PaletteError, Pixel, Position, Sample, models};
use crate::color::{OKLAB_BOUND, OkLab, Rgb, dist2, oklab_of, rgb_of_oklab};
use crate::color::lemma_div_between;
use crate::distinct::{distinct_colors, distinct_samples};
use crate::arith::floor_div;

verus! {

/// OkLab distance (0.2, in millionths) within which two converged cursors count as one.
pub const LEEWAY: u64 = 200000;

/// The colors gathered by one pass over the first `k` colors of `d`: each color within
/// radius `r` of `pos` that is not gathered yet is appended.
pub open spec fn absorb_pass(d: Seq<Rgb>, pos: (int, int, int), r: u64, absorbed: Seq<Rgb>, k: int) -> Seq<Rgb>
    decreases k,
{
    if k <= 0 {
        absorbed
    } else {
        let a = absorb_pass(d, pos, r, absorbed, k - 1);
        let c = d[k - 1];
        if dist2(pos, oklab_of(c)) <= r * r && !a.contains(c) {
            a.push(c)
        } else {
            a
        }
    }
}

/// The sum of the OkLab points of some colors.
pub open spec fn lab_sum(a: Seq<Rgb>) -> (int, int, int)
    decreases a.len(),
{
    if a.len() == 0 {
        (0, 0, 0)
    } else {
        let s = lab_sum(a.drop_last());
        let p = oklab_of(a.last());
        (s.0 + p.0, s.1 + p.1, s.2 + p.2)
    }
}

/// The mean of a position and the OkLab points of the gathered colors, each coordinate
/// rounded down.
pub open spec fn shifted(pos: (int, int, int), a: Seq<Rgb>) -> (int, int, int) {
    let s = lab_sum(a);
    let n = a.len() as int + 1;
    ((pos.0 + s.0) / n, (pos.1 + s.1) / n, (pos.2 + s.2) / n)
}

/// A cursor run to convergence, with at most `fuel` moves: a pass that gathers a new color
/// moves the cursor to the mean; a pass that gathers none ends the run.
#[verifier::opaque]
pub open spec fn converge(d: Seq<Rgb>, pos: (int, int, int), r: u64, absorbed: Seq<Rgb>, fuel: nat) -> ((int, int, int), Seq<Rgb>)
    decreases fuel,
{
    let a = absorb_pass(d, pos, r, absorbed, d.len() as int);
    if fuel == 0 || a.len() == absorbed.len() {
        (pos, absorbed)
    } else {
        converge(d, shifted(pos, a), r, a, (fuel - 1) as nat)
    }
}

/// Where the cursor that starts at color `c` comes to rest, and what it gathered.
pub open spec fn end_point(d: Seq<Rgb>, c: Rgb, r: u64) -> ((int, int, int), Seq<Rgb>) {
    converge(d, oklab_of(c), r, Seq::empty(), (d.len() + 1) as nat)
}

/// An end-point is recorded unless one recorded before lies within `LEEWAY` of it.
pub open spec fn record(eps: Seq<((int, int, int), Seq<Rgb>)>, e: ((int, int, int), Seq<Rgb>)) -> Seq<((int, int, int), Seq<Rgb>)> {
    if exists|i: int| 0 <= i < eps.len() && dist2((#[trigger] eps[i]).0, e.0) <= LEEWAY * LEEWAY {
        eps
    } else {
        eps.push(e)
    }
}

/// The end-points of the cursors of the first `k` colors of `d`.
pub open spec fn end_points(d: Seq<Rgb>, r: u64, k: int) -> Seq<((int, int, int), Seq<Rgb>)>
    decreases k,
{
    if k <= 0 {
        Seq::empty()
    } else {
        record(end_points(d, r, k - 1), end_point(d, d[k - 1], r))
    }
}

pub open spec fn sample_at_origin(c: Rgb) -> Sample {
    Sample { rgb: c, position: Position { x: 0, y: 0 } }
}

/// The cluster of an end-point: the cursor's color, its gathered colors as sub-members and
/// member count, and a percentage of one.
pub open spec fn end_point_view(id: int, e: ((int, int, int), Seq<Rgb>)) -> ClusterView {
    ClusterView {
        id: id as u32,
        centroid: rgb_of_oklab(e.0),
        member_count: e.1.len() as u32,
        position: Position { x: 0, y: 0 },
        sub_members: e.1.map_values(|c: Rgb| sample_at_origin(c)),
        pixel_count: 0,
        share: 1,
    }
}

pub open spec fn mean_shift_model(d: Seq<Rgb>, r: u64) -> Seq<ClusterView> {
    let eps = end_points(d, r, d.len() as int);
    Seq::new(eps.len(), |k: int| end_point_view(k, eps[k]))
}

pub open spec fn lab_bounded(p: (int, int, int)) -> bool {
    &&& -OKLAB_BOUND <= p.0 <= OKLAB_BOUND
    &&& -OKLAB_BOUND <= p.1 <= OKLAB_BOUND
    &&& -OKLAB_BOUND <= p.2 <= OKLAB_BOUND
}

/// What a pass gathers extends what was gathered, stays within `d`, and repeats no color.
pub proof fn lemma_absorb_pass(d: Seq<Rgb>, pos: (int, int, int), r: u64, absorbed: Seq<Rgb>, k: int)
    requires
        0 <= k <= d.len(),
        absorbed.no_duplicates(),
        forall|i: int| 0 <= i < absorbed.len() ==> d.contains(#[trigger] absorbed[i]),
    ensures
        ({
            let a = absorb_pass(d, pos, r, absorbed, k);
            &&& a.no_duplicates()
            &&& a.len() >= absorbed.len()
            &&& a.subrange(0, absorbed.len() as int) == absorbed
            &&& forall|i: int| 0 <= i < a.len() ==> d.contains(#[trigger] a[i])
        }),
    decreases k,
{
    if k > 0 {
        lemma_absorb_pass(d, pos, r, absorbed, k - 1);
        let a = absorb_pass(d, pos, r, absorbed, k - 1);
        let c = d[k - 1];
        if dist2(pos, oklab_of(c)) <= r * r && !a.contains(c) {
            let b = a.push(c);
            assert(b.subrange(0, absorbed.len() as int) =~= a.subrange(0, absorbed.len() as int));
            assert forall|i: int| 0 <= i < b.len() implies d.contains(#[trigger] b[i]) by {
                if i == a.len() {
                    assert(d[k - 1] == c);
                } else {
                    assert(b[i] == a[i]);
                }
            }
            assert forall|i: int, j: int| 0 <= i < b.len() && 0 <= j < b.len() && i != j implies b[i] != b[j] by {
                if i == a.len() {
                    assert(!a.contains(c));
                    assert(b[j] == a[j]);
                } else if j == a.len() {
                    assert(!a.contains(c));
                    assert(b[i] == a[i]);
                } else {
                    assert(b[i] == a[i] && b[j] == a[j]);
                }
            }
        }
    }
}

/// A list of distinct colors of `d` is no longer than `d`.
pub proof fn lemma_gathered_len(d: Seq<Rgb>, a: Seq<Rgb>)
    requires
        a.no_duplicates(),
        forall|i: int| 0 <= i < a.len() ==> d.contains(#[trigger] a[i]),
    ensures
        a.len() <= d.len(),
{
    broadcast use vstd::seq_lib::seq_to_set_is_finite;
    a.unique_seq_to_set();
    assert(a.to_set().subset_of(d.to_set())) by {
        assert forall|c: Rgb| a.to_set().contains(c) implies d.to_set().contains(c) by {
            let i = choose|i: int| 0 <= i < a.len() && a[i] == c;
            assert(d.contains(a[i]));
        }
    }
    vstd::set_lib::lemma_len_subset(a.to_set(), d.to_set());
    d.lemma_cardinality_of_set();
}

/// Squared distance zero means the same point.
pub proof fn lemma_dist2_zero(p: (int, int, int), q: (int, int, int))
    requires
        dist2(p, q) <= 0,
    ensures
        p == q,
{
    assert(crate::color::sq(p.0 - q.0) >= 0 && crate::color::sq(p.1 - q.1) >= 0 && crate::color::sq(p.2 - q.2) >= 0) by (nonlinear_arith);
    assert(p.0 - q.0 == 0) by (nonlinear_arith) requires crate::color::sq(p.0 - q.0) <= 0;
    assert(p.1 - q.1 == 0) by (nonlinear_arith) requires crate::color::sq(p.1 - q.1) <= 0;
    assert(p.2 - q.2 == 0) by (nonlinear_arith) requires crate::color::sq(p.2 - q.2) <= 0;
}

/// The colors lie pairwise farther apart in OkLab than the leeway.
pub open spec fn spread_apart(d: Seq<Rgb>) -> bool {
    forall|i: int, j: int| 0 <= i < d.len() && 0 <= j < d.len() && i != j ==> dist2(oklab_of(#[trigger] d[i]), oklab_of(#[trigger] d[j])) > LEEWAY * LEEWAY
}

proof fn lemma_zero_pass(d: Seq<Rgb>, k0: int, start: Seq<Rgb>, j: int)
    requires
        spread_apart(d),
        0 <= k0 < d.len(),
        0 <= j <= d.len(),
        start == Seq::<Rgb>::empty() || start == seq![d[k0]],
    ensures
        absorb_pass(d, oklab_of(d[k0]), 0, start, j) == if j > k0 {
            seq![d[k0]]
        } else {
            start
        },
    decreases j,
{
    if j > 0 {
        lemma_zero_pass(d, k0, start, j - 1);
        let c = d[j - 1];
        if j - 1 != k0 {
            if dist2(oklab_of(d[k0]), oklab_of(c)) <= 0 {
                assert(dist2(oklab_of(d[k0]), oklab_of(d[j - 1])) > LEEWAY * LEEWAY);
            }
        } else {
            assert(dist2(oklab_of(c), oklab_of(c)) == 0) by {
                crate::color::lemma_distance_symmetric(crate::color::ColorSpace::OkLab, c, c);
                reveal(crate::color::oklab_of);
            }
            assert(seq![d[k0]].contains(c)) by {
                assert(seq![d[k0]][0] == c);
            }
            if start == Seq::<Rgb>::empty() {
                assert(Seq::<Rgb>::empty().push(c) =~= seq![d[k0]]);
            }
        }
    }
}

/// With radius zero a cursor gathers only its own color and stays where it starts.
pub proof fn lemma_zero_radius_end_point(d: Seq<Rgb>, k0: int)
    requires
        spread_apart(d),
        0 <= k0 < d.len(),
    ensures
        end_point(d, d[k0], 0) == (oklab_of(d[k0]), seq![d[k0]]),
{
    let p = oklab_of(d[k0]);
    let one = seq![d[k0]];
    lemma_zero_pass(d, k0, Seq::<Rgb>::empty(), d.len() as int);
    lemma_zero_pass(d, k0, one, d.len() as int);
    assert(one.drop_last() =~= Seq::<Rgb>::empty());
    assert(lab_sum(one.drop_last()) == (0int, 0int, 0int));
    assert(one.last() == d[k0]);
    assert(lab_sum(one) == p);
    assert(shifted(p, one) == p);
    lemma_converge_unfold(d, p, 0, Seq::<Rgb>::empty(), (d.len() + 1) as nat);
    lemma_converge_unfold(d, p, 0, one, d.len() as nat);
}

/// Mean shift with radius zero, over colors pairwise farther apart than the leeway, ends with
/// one end-point per color, at that color, having gathered that color alone.
pub proof fn lemma_zero_radius(d: Seq<Rgb>, k: int)
    requires
        spread_apart(d),
        0 <= k <= d.len(),
    ensures
        end_points(d, 0, k) == Seq::new(k as nat, |i: int| (oklab_of(d[i]), seq![d[i]])),
    decreases k,
{
    if k > 0 {
        lemma_zero_radius(d, k - 1);
        lemma_zero_radius_end_point(d, k - 1);
        let prev = end_points(d, 0, k - 1);
        let e = end_point(d, d[k - 1], 0);
        assert forall|i: int| 0 <= i < prev.len() implies !(dist2((#[trigger] prev[i]).0, e.0) <= LEEWAY * LEEWAY) by {
            assert(prev[i].0 == oklab_of(d[i]));
        }
        assert(record(prev, e) == prev.push(e));
        assert(prev.push(e) =~= Seq::new(k as nat, |i: int| (oklab_of(d[i]), seq![d[i]])));
    }
}

/// With radius zero and colors pairwise farther apart than the leeway, mean shift yields one
/// cluster per color, each having gathered its own color and nothing else.
pub proof fn lemma_zero_radius_clusters(d: Seq<Rgb>)
    requires
        spread_apart(d),
        d.len() < u32::MAX,
    ensures
        mean_shift_model(d, 0).len() == d.len(),
        forall|k: int|
            0 <= k < d.len() ==> (#[trigger] mean_shift_model(d, 0)[k]).sub_members == seq![sample_at_origin(d[k])]
                && mean_shift_model(d, 0)[k].member_count == 1,
{
    lemma_zero_radius(d, d.len() as int);
    assert forall|k: int| 0 <= k < d.len() implies (#[trigger] mean_shift_model(d, 0)[k]).sub_members == seq![
        sample_at_origin(d[k]),
    ] && mean_shift_model(d, 0)[k].member_count == 1 by {
        assert(seq![d[k]].map_values(|c: Rgb| sample_at_origin(c)) =~= seq![sample_at_origin(d[k])]);
    }
}

/// A cursor of mean shift: where it stands in OkLab, its color, and what it has gathered.
#[derive(Debug)]
pub struct MeanShiftCursor {
    pub leeway: u64,
    pub lab_pos: OkLab,
    pub rgb_color: Rgb,
    pub colors: Vec<Rgb>,
    pub radius: u64,
}

impl MeanShiftCursor {
    pub open spec fn end_view(&self) -> ((int, int, int), Seq<Rgb>) {
        (self.lab_pos.view3(), self.colors@)
    }

    /// A cursor at color `color` that gathers within `radius` (in millionths of OkLab distance).
    pub fn new(color: Rgb, radius: u64) -> (r: Self)
        ensures
            r.lab_pos.view3() == oklab_of(color),
            r.lab_pos.wf(),
            r.rgb_color == color,
            r.colors@ == Seq::<Rgb>::empty(),
            r.radius == radius,
            r.leeway == LEEWAY,
    {
        MeanShiftCursor { leeway: LEEWAY, lab_pos: OkLab::from_rgb(&color), rgb_color: color, colors: Vec::new(), radius }
    }

    /// Sets the color to that of the cursor's position.
    pub fn update_rgb_color(&mut self)
        requires
            old(self).lab_pos.wf(),
        ensures
            final(self).rgb_color == rgb_of_oklab(old(self).lab_pos.view3()),
            final(self).lab_pos == old(self).lab_pos,
            final(self).colors@ == old(self).colors@,
            final(self).radius == old(self).radius,
            final(self).leeway == old(self).leeway,
    {
        self.rgb_color = self.lab_pos.to_rgb_color();
    }

    /// Moves to the mean of the position and the gathered colors, and takes the color there.
    pub fn move_to_color_avarage(&mut self)
        requires
            old(self).lab_pos.wf(),
        ensures
            final(self).lab_pos.view3() == shifted(old(self).lab_pos.view3(), old(self).colors@),
            final(self).lab_pos.wf(),
            final(self).rgb_color == rgb_of_oklab(final(self).lab_pos.view3()),
            final(self).colors@ == old(self).colors@,
            final(self).radius == old(self).radius,
            final(self).leeway == old(self).leeway,
    {
        let n = self.colors.len();
        let mut sl: i128 = 0;
        let mut sa: i128 = 0;
        let mut sb: i128 = 0;
        let mut i: usize = 0;
        let ghost a = self.colors@;
        while i < n
            invariant
                n == a.len(),
                a == self.colors@,
                i <= n,
                (sl as int, sa as int, sb as int) == lab_sum(a.subrange(0, i as int)),
                -4000000 * i <= sl <= 4000000 * i,
                -4000000 * i <= sa <= 4000000 * i,
                -4000000 * i <= sb <= 4000000 * i,
            decreases n - i,
        {
            let ghost prev = a.subrange(0, i as int);
            let p = OkLab::from_rgb(&self.colors[i]);
            sl = sl + p.l as i128;
            sa = sa + p.a as i128;
            sb = sb + p.b as i128;
            i = i + 1;
            assert(a.subrange(0, i as int).drop_last() =~= prev);
        }
        assert(a.subrange(0, n as int) =~= a);
        let m = n as i128 + 1;
        let pl = self.lab_pos.l as i128 + sl;
        let pa = self.lab_pos.a as i128 + sa;
        let pb = self.lab_pos.b as i128 + sb;
        proof {
            lemma_div_between(pl as int, m as int, -OKLAB_BOUND as int, OKLAB_BOUND as int);
            lemma_div_between(pa as int, m as int, -OKLAB_BOUND as int, OKLAB_BOUND as int);
            lemma_div_between(pb as int, m as int, -OKLAB_BOUND as int, OKLAB_BOUND as int);
        }
        let l = floor_div(pl, m);
        let aa = floor_div(pa, m);
        let bb = floor_div(pb, m);
        self.lab_pos = OkLab { l: l as i64, a: aa as i64, b: bb as i64 };
        self.update_rgb_color();
    }

    /// Gathers `color` unless it is gathered already; says whether it was new.
    pub fn add_color(&mut self, color: Rgb) -> (r: bool)
        ensures
            r == !old(self).colors@.contains(color),
            final(self).colors@ == (if r {
                old(self).colors@.push(color)
            } else {
                old(self).colors@
            }),
            final(self).lab_pos == old(self).lab_pos,
            final(self).rgb_color == old(self).rgb_color,
            final(self).radius == old(self).radius,
            final(self).leeway == old(self).leeway,
    {
        let n = self.colors.len();
        let mut i: usize = 0;
        while i < n
            invariant
                n == self.colors@.len(),
                i <= n,
                forall|j: int| 0 <= j < i ==> self.colors@[j] != color,
            decreases n - i,
        {
            if self.colors[i] == color {
                return false;
            }
            i = i + 1;
        }
        self.colors.push(color);
        true
    }

    /// Whether a point lies within the radius.
    fn inside_radius_lab(&self, lab: &OkLab) -> (r: bool)
        requires
            self.lab_pos.wf(),
            lab.wf(),
        ensures
            r == (dist2(self.lab_pos.view3(), lab.view3()) <= self.radius * self.radius),
    {
        let d = self.lab_pos.distance_to_lab_squared(lab) as u128;
        let rr = self.radius as u128;
        assert(rr * rr <= 0xffff_ffff_ffff_ffffu128 * 0xffff_ffff_ffff_ffffu128) by (nonlinear_arith)
            requires
                rr <= 0xffff_ffff_ffff_ffffu128,
        ;
        d <= rr * rr
    }

    /// Whether `color` lies within the radius.
    pub fn inside_radius(&self, color: Rgb) -> (r: bool)
        requires
            self.lab_pos.wf(),
        ensures
            r == (dist2(self.lab_pos.view3(), oklab_of(color)) <= self.radius * self.radius),
    {
        self.inside_radius_lab(&OkLab::from_rgb(&color))
    }

    /// Whether two cursors lie within the mean of their leeways of each other.
    pub fn is_same_as(&self, other: &Self) -> (r: bool)
        requires
            self.lab_pos.wf(),
            other.lab_pos.wf(),
        ensures
            r == (dist2(self.lab_pos.view3(), other.lab_pos.view3()) <= ((self.leeway + other.leeway) / 2) * ((
            self.leeway + other.leeway) / 2)),
    {
        let d = self.lab_pos.distance_to_lab_squared(&other.lab_pos) as u128;
        let w = (self.leeway as u128 + other.leeway as u128) / 2;
        assert(w * w <= 0xffff_ffff_ffff_ffffu128 * 0xffff_ffff_ffff_ffffu128) by (nonlinear_arith)
            requires
                w <= 0xffff_ffff_ffff_ffffu128,
        ;
        d <= w * w
    }
}

pub proof fn lemma_converge_unfold(d: Seq<Rgb>, pos: (int, int, int), r: u64, absorbed: Seq<Rgb>, fuel: nat)
    requires
        fuel > 0,
    ensures
        ({
            let a = absorb_pass(d, pos, r, absorbed, d.len() as int);
            converge(d, pos, r, absorbed, fuel) == if a.len() == absorbed.len() {
                (pos, absorbed)
            } else {
                converge(d, shifted(pos, a), r, a, (fuel - 1) as nat)
            }
        }),
{
    reveal(converge);
}

pub open spec fn labs_of(d: Seq<Rgb>, labs: Seq<OkLab>) -> bool {
    &&& labs.len() == d.len()
    &&& forall|q: int| 0 <= q < labs.len() ==> (#[trigger] labs[q]).view3() == oklab_of(d[q]) && labs[q].wf()
}

/// One pass of a cursor over the distinct colors; says whether it gathered a new one.
fn gather(cur: &mut MeanShiftCursor, d: &Vec<Rgb>, labs: &Vec<OkLab>) -> (added: bool)
    requires
        labs_of(d@, labs@),
        old(cur).lab_pos.wf(),
        old(cur).colors@.no_duplicates(),
        forall|i: int| 0 <= i < old(cur).colors@.len() ==> d@.contains(#[trigger] old(cur).colors@[i]),
    ensures
        final(cur).colors@ == absorb_pass(d@, old(cur).lab_pos.view3(), old(cur).radius, old(cur).colors@, d@.len() as int),
        added == (final(cur).colors@.len() != old(cur).colors@.len()),
        final(cur).lab_pos == old(cur).lab_pos,
        final(cur).radius == old(cur).radius,
        final(cur).leeway == old(cur).leeway,
{
    let ghost start = cur.colors@;
    let ghost pos = cur.lab_pos.view3();
    let n = d.len();
    let mut added = false;
    let mut j: usize = 0;
    proof {
        lemma_absorb_pass(d@, pos, cur.radius, start, 0);
    }
    while j < n
        invariant
            n == d@.len(),
            j <= n,
            labs_of(d@, labs@),
            cur.lab_pos.wf(),
            cur.lab_pos.view3() == pos,
            cur.lab_pos == old(cur).lab_pos,
            cur.radius == old(cur).radius,
            cur.leeway == old(cur).leeway,
            start == old(cur).colors@,
            start.no_duplicates(),
            forall|i: int| 0 <= i < start.len() ==> d@.contains(#[trigger] start[i]),
            cur.colors@ == absorb_pass(d@, pos, cur.radius, start, j as int),
            cur.colors@.len() >= start.len(),
            added == (cur.colors@.len() != start.len()),
        decreases n - j,
    {
        if cur.inside_radius_lab(&labs[j]) {
            if cur.add_color(d[j]) {
                added = true;
            }
        }
        j = j + 1;
        proof {
            lemma_absorb_pass(d@, pos, cur.radius, start, j as int);
        }
    }
    added
}

/// Runs the cursor of color `d[k]` until it gathers no new color.
fn run_cursor(d: &Vec<Rgb>, labs: &Vec<OkLab>, k: usize, radius: u64) -> (cur: MeanShiftCursor)
    requires
        labs_of(d@, labs@),
        k < d@.len(),
        d@.len() < u32::MAX,
    ensures
        cur.end_view() == end_point(d@, d@[k as int], radius),
        cur.lab_pos.wf(),
        cur.leeway == LEEWAY,
        cur.colors@.len() <= d@.len(),
{
    let ghost dd = d@;
    let ghost fuel = (dd.len() + 1) as nat;
    let mut cur = MeanShiftCursor::new(d[k], radius);
    let ghost mut i: nat = 0;
    loop
        invariant
            labs_of(dd, labs@),
            dd == d@,
            dd.len() < u32::MAX,
            cur.lab_pos.wf(),
            cur.leeway == LEEWAY,
            cur.radius == radius,
            cur.colors@.no_duplicates(),
            forall|q: int| 0 <= q < cur.colors@.len() ==> dd.contains(#[trigger] cur.colors@[q]),
            cur.colors@.len() >= i,
            fuel == dd.len() + 1,
            i <= fuel,
            cur.colors@.len() <= dd.len(),
            end_point(dd, dd[k as int], radius) == converge(dd, cur.lab_pos.view3(), radius, cur.colors@, (fuel - i) as nat),
        decreases fuel - i,
    {
        let ghost before = cur.end_view();
        let added = gather(&mut cur, d, labs);
        proof {
            lemma_absorb_pass(dd, before.0, radius, before.1, dd.len() as int);
            lemma_gathered_len(dd, cur.colors@);
        }
        proof {
            lemma_converge_unfold(dd, before.0, radius, before.1, (fuel - i) as nat);
        }
        if !added {
            assert(cur.colors@ =~= before.1) by {
                assert(cur.colors@.subrange(0, before.1.len() as int) == before.1);
            }
            return cur;
        }
        cur.move_to_color_avarage();
        proof {
            i = i + 1;
        }
    }
}

/// Whether a recorded cursor lies within the leeway of `cur`.
fn near_end_point(eps: &Vec<MeanShiftCursor>, cur: &MeanShiftCursor) -> (r: bool)
    requires
        cur.lab_pos.wf(),
        cur.leeway == LEEWAY,
        forall|q: int| 0 <= q < eps@.len() ==> (#[trigger] eps@[q]).lab_pos.wf() && eps@[q].leeway == LEEWAY,
    ensures
        r == exists|i: int| 0 <= i < eps@.len() && dist2((#[trigger] eps@[i]).end_view().0, cur.end_view().0) <= LEEWAY * LEEWAY,
{
    let n = eps.len();
    let mut i: usize = 0;
    while i < n
        invariant
            n == eps@.len(),
            i <= n,
            forall|q: int| 0 <= q < eps@.len() ==> (#[trigger] eps@[q]).lab_pos.wf() && eps@[q].leeway == LEEWAY,
            cur.lab_pos.wf(),
            cur.leeway == LEEWAY,
            forall|q: int| 0 <= q < i ==> dist2((#[trigger] eps@[q]).end_view().0, cur.end_view().0) > LEEWAY * LEEWAY,
        decreases n - i,
    {
        if eps[i].is_same_as(cur) {
            return true;
        }
        i = i + 1;
    }
    false
}

/// The distinct colors of the opaque pixels, in order of first appearance.
pub open spec fn distinct_rgbs(px: Seq<Pixel>) -> Seq<Rgb> {
    distinct_samples(px).map_values(|s: Sample| s.rgb)
}

pub open spec fn end_views(eps: Seq<MeanShiftCursor>) -> Seq<((int, int, int), Seq<Rgb>)> {
    eps.map_values(|c: MeanShiftCursor| c.end_view())
}

fn cluster_of_cursor(id: u32, cur: &MeanShiftCursor) -> (r: Cluster)
    requires
        cur.lab_pos.wf(),
        cur.colors@.len() <= u32::MAX,
    ensures
        r.model() == end_point_view(id as int, cur.end_view()),
{
    let mut subs: Vec<Sample> = Vec::new();
    let n = cur.colors.len();
    let mut i: usize = 0;
    while i < n
        invariant
            n == cur.colors@.len(),
            i <= n,
            subs@ == cur.colors@.subrange(0, i as int).map_values(|c: Rgb| sample_at_origin(c)),
        decreases n - i,
    {
        subs.push(Sample { rgb: cur.colors[i], position: Position { x: 0, y: 0 } });
        i = i + 1;
        assert(subs@ =~= cur.colors@.subrange(0, i as int).map_values(|c: Rgb| sample_at_origin(c)));
    }
    assert(cur.colors@.subrange(0, n as int) =~= cur.colors@);
    Cluster {
        id,
        centroid: cur.lab_pos.to_rgb_color(),
        member_count: n as u32,
        position: Position { x: 0, y: 0 },
        sub_members: subs,
        pixel_count: 0,
        share: 1,
    }
}

/// Mean shift over the distinct colors of the opaque pixels, with a radius in millionths of
/// OkLab distance. Each end-point becomes a cluster; each has a percentage of one.
pub fn scan_image_mean_shift(pixels: &Vec<Pixel>, mean_schift_radius: u64) -> (r: Result<ClusterStore, PaletteError>)
    ensures
        pixels@.len() == 0 ==> r == Err::<ClusterStore, PaletteError>(PaletteError::EmptyImage),
        pixels@.len() > 0 && distinct_samples(pixels@).len() == 0 ==> r == Err::<ClusterStore, PaletteError>(
            PaletteError::NoColors,
        ),
        distinct_samples(pixels@).len() > 0 ==> r is Ok,
        r matches Ok(store) ==> {
            &&& store.model() == mean_shift_model(distinct_rgbs(pixels@), mean_schift_radius)
            &&& store.wf()
            &&& store.share_total == 1
        },
{
    if pixels.len() == 0 {
        return Err(PaletteError::EmptyImage);
    }
    let samples = distinct_colors(pixels);
    if samples.len() == 0 {
        return Err(PaletteError::NoColors);
    }
    let n = samples.len();
    let mut d: Vec<Rgb> = Vec::new();
    let mut labs: Vec<OkLab> = Vec::new();
    let mut i: usize = 0;
    while i < n
        invariant
            n == samples@.len(),
            i <= n,
            d@ == samples@.subrange(0, i as int).map_values(|s: Sample| s.rgb),
            labs_of(d@, labs@),
        decreases n - i,
    {
        let c = samples[i].rgb;
        d.push(c);
        labs.push(OkLab::from_rgb(&c));
        i = i + 1;
        assert(d@ =~= samples@.subrange(0, i as int).map_values(|s: Sample| s.rgb));
    }
    assert(samples@.subrange(0, n as int) =~= samples@);
    let ghost ds = d@;
    let mut eps: Vec<MeanShiftCursor> = Vec::new();
    let mut k: usize = 0;
    assert(end_views(eps@) =~= end_points(ds, mean_schift_radius, 0));
    while k < n
        invariant
            n == d@.len(),
            ds == d@,
            n < u32::MAX,
            k <= n,
            labs_of(d@, labs@),
            eps@.len() <= k,
            forall|q: int|
                0 <= q < eps@.len() ==> (#[trigger] eps@[q]).lab_pos.wf() && eps@[q].leeway == LEEWAY
                    && eps@[q].colors@.len() <= n,
            end_views(eps@) == end_points(ds, mean_schift_radius, k as int),
        decreases n - k,
    {
        let cur = run_cursor(&d, &labs, k, mean_schift_radius);
        let ghost before = eps@;
        let ghost e = cur.end_view();
        let near = near_end_point(&eps, &cur);
        proof {
            let prev = end_views(before);
            assert(forall|q: int| 0 <= q < before.len() ==> (#[trigger] prev[q]) == before[q].end_view());
            if near {
                let w = choose|w: int| 0 <= w < before.len() && dist2((#[trigger] before[w]).end_view().0, e.0) <= LEEWAY * LEEWAY;
                assert(dist2(prev[w].0, e.0) <= LEEWAY * LEEWAY);
                assert(record(prev, e) == prev);
            } else {
                assert forall|w: int| 0 <= w < prev.len() implies !(dist2((#[trigger] prev[w]).0, e.0) <= LEEWAY * LEEWAY) by {
                    assert(prev[w] == before[w].end_view());
                }
                assert(record(prev, e) == prev.push(e));
            }
            assert(end_points(ds, mean_schift_radius, k + 1) == record(prev, e));
        }
        if !near {
            eps.push(cur);
            assert(end_views(eps@) =~= end_views(before).push(e));
        }
        k = k + 1;
    }
    let ghost evs = end_views(eps@);
    let m = eps.len();
    let mut clusters: Vec<Cluster> = Vec::new();
    let mut q: usize = 0;
    while q < m
        invariant
            m == eps@.len(),
            m < u32::MAX,
            evs == end_views(eps@),
            forall|w: int|
                0 <= w < eps@.len() ==> (#[trigger] eps@[w]).lab_pos.wf() && eps@[w].colors@.len() <= n,
            n < u32::MAX,
            q <= m,
            models(clusters@) == Seq::new(q as nat, |w: int| end_point_view(w, evs[w])),
        decreases m - q,
    {
        let c = cluster_of_cursor(q as u32, &eps[q]);
        let ghost before = clusters@;
        let ghost cm = c.model();
        clusters.push(c);
        assert(models(clusters@) =~= models(before).push(cm));
        q = q + 1;
        assert(models(before).push(cm) =~= Seq::new(q as nat, |w: int| end_point_view(w, evs[w])));
    }
    assert forall|a: int, b: int| 0 <= a < b < clusters@.len() implies (#[trigger] clusters@[a]).id != (#[trigger] clusters@[b]).id by {
        assert(models(clusters@)[a].id == a as u32);
        assert(models(clusters@)[b].id == b as u32);
    }
    Ok(ClusterStore { clusters, share_total: 1 })
}

} // verus!
