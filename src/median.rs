//! The median-cut quantizer over the distinct colors of an image.
use vstd::prelude::*;
use vstd::multiset::Multiset;
use crate::cluster::{Cluster, ClusterStore, ClusterView, PaletteError, Pixel, Sample, members_of, models, sum_of};
use crate::color::Rgb;
use crate::distinct::{distinct_colors, distinct_samples};

verus! {

/// Channel `ch` (0 red, 1 green, 2 blue) of a sample.
pub open spec fn chan(x: Sample, ch: int) -> int {
    if ch == 0 {
        x.rgb.r as int
    } else if ch == 1 {
        x.rgb.g as int
    } else {
        x.rgb.b as int
    }
}

fn channel(x: &Sample, ch: usize) -> (r: u8)
    requires
        ch < 3,
    ensures
        r == chan(*x, ch as int),
{
    if ch == 0 {
        x.rgb.r
    } else if ch == 1 {
        x.rgb.g
    } else {
        x.rgb.b
    }
}

/// How many samples have channel `ch` at most `v`.
pub open spec fn count_le(s: Seq<Sample>, ch: int, v: int) -> int
    decreases s.len(),
{
    if s.len() == 0 {
        0
    } else {
        count_le(s.drop_last(), ch, v) + if chan(s.last(), ch) <= v {
            1int
        } else {
            0
        }
    }
}

/// How many samples have channel `ch` equal to `v`.
pub open spec fn count_eq(s: Seq<Sample>, ch: int, v: int) -> int
    decreases s.len(),
{
    if s.len() == 0 {
        0
    } else {
        count_eq(s.drop_last(), ch, v) + if chan(s.last(), ch) == v {
            1int
        } else {
            0
        }
    }
}

pub proof fn lemma_count_step(s: Seq<Sample>, ch: int, v: int)
    ensures
        count_le(s, ch, v) == count_le(s, ch, v - 1) + count_eq(s, ch, v),
        0 <= count_eq(s, ch, v) <= count_le(s, ch, v) <= s.len(),
    decreases s.len(),
{
    if s.len() > 0 {
        lemma_count_step(s.drop_last(), ch, v);
    }
}

pub proof fn lemma_count_le_bounds(s: Seq<Sample>, ch: int, v: int)
    ensures
        0 <= count_le(s, ch, v) <= s.len(),
        v < 0 && 0 <= ch < 3 ==> count_le(s, ch, v) == 0,
        v >= 255 && 0 <= ch < 3 ==> count_le(s, ch, v) == s.len(),
    decreases s.len(),
{
    if s.len() > 0 {
        lemma_count_le_bounds(s.drop_last(), ch, v);
    }
}

/// The least level `u >= v` with more than `k` samples at most `u` in channel `ch`; 255 if none.
pub open spec fn first_above(s: Seq<Sample>, ch: int, k: int, v: int) -> int
    decreases 255 - v,
{
    if v >= 255 {
        255
    } else if count_le(s, ch, v) > k {
        v
    } else {
        first_above(s, ch, k, v + 1)
    }
}

/// The `k`-th smallest value (from zero) of channel `ch`: the value at position `k` once the
/// samples are sorted by that channel.
pub open spec fn order_stat(s: Seq<Sample>, ch: int, k: int) -> int {
    first_above(s, ch, k, 0)
}

/// The median of channel `ch`: the middle value, or the truncated mean of the two middle values
/// when the count is even.
pub open spec fn channel_median(s: Seq<Sample>, ch: int) -> int {
    let n = s.len() as int;
    if n % 2 == 1 {
        order_stat(s, ch, n / 2)
    } else {
        (order_stat(s, ch, n / 2 - 1) + order_stat(s, ch, n / 2)) / 2
    }
}

/// The per-channel median color of a bucket. It need not be a color of the bucket.
pub open spec fn median_color(s: Seq<Sample>) -> Rgb {
    Rgb { r: channel_median(s, 0) as u8, g: channel_median(s, 1) as u8, b: channel_median(s, 2) as u8 }
}

/// How many samples take each level of channel `ch`.
fn histogram(s: &Vec<Sample>, ch: usize) -> (h: Vec<u64>)
    requires
        ch < 3,
    ensures
        h@.len() == 256,
        forall|u: int| 0 <= u < 256 ==> #[trigger] h@[u] == count_eq(s@, ch as int, u),
{
    let mut h: Vec<u64> = Vec::new();
    let mut u: usize = 0;
    while u < 256
        invariant
            u <= 256,
            h@.len() == u,
            forall|q: int| 0 <= q < u ==> #[trigger] h@[q] == 0,
        decreases 256 - u,
    {
        h.push(0);
        u = u + 1;
    }
    let n = s.len();
    let mut i: usize = 0;
    while i < n
        invariant
            n == s@.len(),
            i <= n,
            ch < 3,
            h@.len() == 256,
            forall|q: int| 0 <= q < 256 ==> #[trigger] h@[q] == count_eq(s@.subrange(0, i as int), ch as int, q),
        decreases n - i,
    {
        let ghost prev = s@.subrange(0, i as int);
        let c = channel(&s[i], ch) as usize;
        proof {
            lemma_count_step(prev, ch as int, c as int);
        }
        let cur = h[c];
        h.set(c, cur + 1);
        i = i + 1;
        assert(s@.subrange(0, i as int).drop_last() =~= prev);
    }
    assert(s@.subrange(0, n as int) =~= s@);
    h
}

/// The `k`-th smallest value of channel `ch`, from its histogram, and how many samples lie below it.
fn order_statistic(h: &Vec<u64>, s: Ghost<Seq<Sample>>, ch: usize, k: u64) -> (r: (u8, u64))
    requires
        ch < 3,
        h@.len() == 256,
        forall|u: int| 0 <= u < 256 ==> #[trigger] h@[u] == count_eq(s@, ch as int, u),
        k < s@.len(),
        s@.len() <= u64::MAX,
    ensures
        r.0 == order_stat(s@, ch as int, k as int),
        r.1 == count_le(s@, ch as int, r.0 - 1),
        r.1 <= k < count_le(s@, ch as int, r.0 as int),
{
    let mut v: usize = 0;
    let mut below: u64 = 0;
    proof {
        lemma_count_le_bounds(s@, ch as int, -1);
        lemma_count_step(s@, ch as int, 0);
    }
    while v < 255 && below + h[v] <= k
        invariant
            ch < 3,
            h@.len() == 256,
            forall|u: int| 0 <= u < 256 ==> #[trigger] h@[u] == count_eq(s@, ch as int, u),
            k < s@.len() <= u64::MAX,
            v <= 255,
            below == count_le(s@, ch as int, v - 1),
            below <= k,
            below + h@[v as int] <= s@.len(),
            first_above(s@, ch as int, k as int, 0) == first_above(s@, ch as int, k as int, v as int),
        decreases 255 - v,
    {
        proof {
            lemma_count_step(s@, ch as int, v as int);
        }
        below = below + h[v];
        v = v + 1;
        proof {
            lemma_count_step(s@, ch as int, v as int);
        }
    }
    proof {
        lemma_count_step(s@, ch as int, v as int);
        lemma_count_le_bounds(s@, ch as int, v as int);
    }
    (v as u8, below)
}

/// The median of channel `ch` of a nonempty bucket.
fn median_of_channel(s: &Vec<Sample>, ch: usize) -> (r: u8)
    requires
        ch < 3,
        s@.len() > 0,
    ensures
        r == channel_median(s@, ch as int),
{
    let h = histogram(s, ch);
    let n = s.len() as u64;
    if n % 2 == 1 {
        order_statistic(&h, Ghost(s@), ch, n / 2).0
    } else {
        let lo = order_statistic(&h, Ghost(s@), ch, n / 2 - 1).0;
        let hi = order_statistic(&h, Ghost(s@), ch, n / 2).0;
        ((lo as u16 + hi as u16) / 2) as u8
    }
}

/// The per-channel median color of a bucket; none for an empty bucket.
pub fn get_median_color(colors: &Vec<Sample>) -> (r: Option<Rgb>)
    ensures
        colors@.len() == 0 <==> r is None,
        r matches Some(c) ==> c == median_color(colors@),
{
    if colors.len() == 0 {
        return None;
    }
    Some(median_of_bucket(colors))
}

/// The per-channel median color of a nonempty bucket.
fn median_of_bucket(colors: &Vec<Sample>) -> (r: Rgb)
    requires
        colors@.len() > 0,
    ensures
        r == median_color(colors@),
{
    Rgb { r: median_of_channel(colors, 0), g: median_of_channel(colors, 1), b: median_of_channel(colors, 2) }
}

/// The largest value of channel `ch`; 0 for no samples.
pub open spec fn chan_max(s: Seq<Sample>, ch: int) -> int
    decreases s.len(),
{
    if s.len() == 0 {
        0
    } else if chan(s.last(), ch) > chan_max(s.drop_last(), ch) {
        chan(s.last(), ch)
    } else {
        chan_max(s.drop_last(), ch)
    }
}

/// The smallest value of channel `ch`; 255 for no samples.
pub open spec fn chan_min(s: Seq<Sample>, ch: int) -> int
    decreases s.len(),
{
    if s.len() == 0 {
        255
    } else if chan(s.last(), ch) < chan_min(s.drop_last(), ch) {
        chan(s.last(), ch)
    } else {
        chan_min(s.drop_last(), ch)
    }
}

pub open spec fn chan_range(s: Seq<Sample>, ch: int) -> int {
    chan_max(s, ch) - chan_min(s, ch)
}

/// The channel of strictly largest range; blue where no channel is strictly largest.
pub open spec fn widest_channel(s: Seq<Sample>) -> int {
    let r = chan_range(s, 0);
    let g = chan_range(s, 1);
    let b = chan_range(s, 2);
    if r > g && r > b {
        0
    } else if g > r && g > b {
        1
    } else {
        2
    }
}

/// The range of channel `ch`.
fn range_of(s: &Vec<Sample>, ch: usize) -> (r: i32)
    requires
        ch < 3,
    ensures
        r == chan_range(s@, ch as int),
{
    let mut mx: u8 = 0;
    let mut mn: u8 = 255;
    let n = s.len();
    let mut i: usize = 0;
    while i < n
        invariant
            n == s@.len(),
            i <= n,
            ch < 3,
            mx == chan_max(s@.subrange(0, i as int), ch as int),
            mn == chan_min(s@.subrange(0, i as int), ch as int),
        decreases n - i,
    {
        let ghost prev = s@.subrange(0, i as int);
        let c = channel(&s[i], ch);
        if c > mx {
            mx = c;
        }
        if c < mn {
            mn = c;
        }
        i = i + 1;
        assert(s@.subrange(0, i as int).drop_last() =~= prev);
    }
    assert(s@.subrange(0, n as int) =~= s@);
    mx as i32 - mn as i32
}

/// The samples in order, parted stably: those below level `m` in channel `ch`, and the first `q`
/// at level `m`, go low; the rest go high. The third part counts those taken at level `m`.
pub open spec fn partition_by(s: Seq<Sample>, ch: int, m: int, q: int) -> (Seq<Sample>, Seq<Sample>, int)
    decreases s.len(),
{
    if s.len() == 0 {
        (Seq::empty(), Seq::empty(), 0)
    } else {
        let p = partition_by(s.drop_last(), ch, m, q);
        let x = s.last();
        if chan(x, ch) < m {
            (p.0.push(x), p.1, p.2)
        } else if chan(x, ch) == m && p.2 < q {
            (p.0.push(x), p.1, p.2 + 1)
        } else {
            (p.0, p.1.push(x), p.2)
        }
    }
}

pub open spec fn min(a: int, b: int) -> int {
    if a < b {
        a
    } else {
        b
    }
}

pub proof fn lemma_partition_len(s: Seq<Sample>, ch: int, m: int, q: int)
    requires
        q >= 0,
    ensures
        partition_by(s, ch, m, q).2 == min(q, count_eq(s, ch, m)),
        partition_by(s, ch, m, q).0.len() == count_le(s, ch, m - 1) + min(q, count_eq(s, ch, m)),
        partition_by(s, ch, m, q).0.len() + partition_by(s, ch, m, q).1.len() == s.len(),
    decreases s.len(),
{
    if s.len() > 0 {
        lemma_partition_len(s.drop_last(), ch, m, q);
    }
}

/// The two halves of a bucket: sorted stably by its widest channel and cut at the middle
/// position, the lower half holding `n / 2` samples.
pub open spec fn split_bucket(b: Seq<Sample>) -> (Seq<Sample>, Seq<Sample>) {
    let ch = widest_channel(b);
    let n = b.len() as int;
    let m = order_stat(b, ch, n / 2);
    let p = partition_by(b, ch, m, n / 2 - count_le(b, ch, m - 1));
    (p.0, p.1)
}

/// Splits a bucket in two at the median of its widest channel. A bucket of one sample gives
/// an empty lower half; an empty bucket gives two empty halves.
pub fn median_cut(colors: &Vec<Sample>) -> (r: (Vec<Sample>, Vec<Sample>))
    ensures
        (r.0@, r.1@) == split_bucket(colors@),
        r.0@.len() == colors@.len() / 2,
        r.1@.len() == colors@.len() - colors@.len() / 2,
{
    if colors.len() == 0 {
        let ghost b = colors@;
        let ghost ch = widest_channel(b);
        let ghost m = order_stat(b, ch, 0);
        assert(partition_by(b, ch, m, 0 - count_le(b, ch, m - 1)) == (Seq::<Sample>::empty(), Seq::<Sample>::empty(), 0int));
        return (Vec::new(), Vec::new());
    }
    let rr = range_of(colors, 0);
    let gr = range_of(colors, 1);
    let br = range_of(colors, 2);
    let ch: usize = if rr > gr && rr > br {
        0
    } else if gr > rr && gr > br {
        1
    } else {
        2
    };
    let n = colors.len();
    let h = histogram(colors, ch);
    let (m, below) = order_statistic(&h, Ghost(colors@), ch, (n / 2) as u64);
    let q = (n / 2) as u64 - below;
    proof {
        lemma_count_step(colors@, ch as int, m as int);
        lemma_partition_len(colors@, ch as int, m as int, q as int);
    }
    let mut lo: Vec<Sample> = Vec::new();
    let mut hi: Vec<Sample> = Vec::new();
    let mut taken: u64 = 0;
    let mut i: usize = 0;
    while i < n
        invariant
            n == colors@.len(),
            i <= n,
            ch < 3,
            ({
                let p = partition_by(colors@.subrange(0, i as int), ch as int, m as int, q as int);
                lo@ == p.0 && hi@ == p.1 && taken == p.2
            }),
            taken <= i,
        decreases n - i,
    {
        let ghost prev = colors@.subrange(0, i as int);
        let x = colors[i];
        let c = channel(&x, ch);
        if c < m {
            lo.push(x);
        } else if c == m && taken < q {
            lo.push(x);
            taken = taken + 1;
        } else {
            hi.push(x);
        }
        i = i + 1;
        assert(colors@.subrange(0, i as int).drop_last() =~= prev);
    }
    assert(colors@.subrange(0, n as int) =~= colors@);
    (lo, hi)
}

/// The last of the largest buckets.
pub open spec fn largest_last(bs: Seq<Seq<Sample>>) -> int
    decreases bs.len(),
{
    if bs.len() <= 1 {
        0
    } else if bs.last().len() >= bs[largest_last(bs.drop_last())].len() {
        bs.len() - 1
    } else {
        largest_last(bs.drop_last())
    }
}

/// One cut: the last largest bucket, if it holds two samples or more, is replaced by its two
/// halves, appended lower half first.
pub open spec fn cut_step(bs: Seq<Seq<Sample>>) -> Seq<Seq<Sample>> {
    let i = largest_last(bs);
    if bs.len() == 0 || bs[i].len() < 2 {
        bs
    } else {
        bs.remove(i).push(split_bucket(bs[i]).0).push(split_bucket(bs[i]).1)
    }
}

/// The buckets after `cuts` cuts of one bucket holding `s`.
pub open spec fn cut_buckets(s: Seq<Sample>, cuts: nat) -> Seq<Seq<Sample>>
    decreases cuts,
{
    if cuts == 0 {
        seq![s]
    } else {
        cut_step(cut_buckets(s, (cuts - 1) as nat))
    }
}

pub open spec fn total_size(bs: Seq<Seq<Sample>>) -> int
    decreases bs.len(),
{
    if bs.len() == 0 {
        0
    } else {
        total_size(bs.drop_last()) + bs.last().len()
    }
}

pub proof fn lemma_largest_last(bs: Seq<Seq<Sample>>)
    requires
        bs.len() > 0,
    ensures
        0 <= largest_last(bs) < bs.len(),
        forall|k: int| 0 <= k < bs.len() ==> (#[trigger] bs[k]).len() <= bs[largest_last(bs)].len(),
    decreases bs.len(),
{
    if bs.len() > 1 {
        lemma_largest_last(bs.drop_last());
        assert forall|k: int| 0 <= k < bs.len() implies (#[trigger] bs[k]).len() <= bs[largest_last(bs)].len() by {
            if k < bs.len() - 1 {
                assert(bs.drop_last()[k] == bs[k]);
            }
        }
    }
}

pub proof fn lemma_total_remove(bs: Seq<Seq<Sample>>, i: int)
    requires
        0 <= i < bs.len(),
    ensures
        total_size(bs.remove(i)) == total_size(bs) - bs[i].len(),
    decreases bs.len(),
{
    if i < bs.len() - 1 {
        lemma_total_remove(bs.drop_last(), i);
        assert(bs.remove(i).drop_last() =~= bs.drop_last().remove(i));
    } else {
        assert(bs.remove(i) =~= bs.drop_last());
    }
}

pub proof fn lemma_total_push(bs: Seq<Seq<Sample>>, b: Seq<Sample>)
    ensures
        total_size(bs.push(b)) == total_size(bs) + b.len(),
{
    assert(bs.push(b).drop_last() =~= bs);
}

/// Buckets of at most one sample each hold no more samples than there are buckets.
pub proof fn lemma_total_small(bs: Seq<Seq<Sample>>)
    requires
        forall|k: int| 0 <= k < bs.len() ==> (#[trigger] bs[k]).len() <= 1,
    ensures
        total_size(bs) <= bs.len(),
    decreases bs.len(),
{
    if bs.len() > 0 {
        assert forall|k: int| 0 <= k < bs.len() - 1 implies (#[trigger] bs.drop_last()[k]).len() <= 1 by {
            assert(bs.drop_last()[k] == bs[k]);
        }
        lemma_total_small(bs.drop_last());
    }
}

/// Median cut keeps every sample in exactly one bucket, leaves no bucket empty, and `cuts` cuts
/// of `d >= 1` samples yield `min(cuts + 1, d)` buckets.
pub proof fn lemma_cut_buckets(s: Seq<Sample>, cuts: nat)
    requires
        s.len() >= 1,
    ensures
        total_size(cut_buckets(s, cuts)) == s.len(),
        cut_buckets(s, cuts).len() == min((cuts + 1) as int, s.len() as int),
        forall|k: int| 0 <= k < cut_buckets(s, cuts).len() ==> (#[trigger] cut_buckets(s, cuts)[k]).len() >= 1,
    decreases cuts,
{
    if cuts == 0 {
        let bs = seq![s];
        assert(cut_buckets(s, cuts) == bs);
        assert(bs.drop_last() =~= Seq::<Seq<Sample>>::empty());
        assert(total_size(bs.drop_last()) == 0);
        assert(bs.last() == s);
    } else {
        lemma_cut_buckets(s, (cuts - 1) as nat);
        let bs = cut_buckets(s, (cuts - 1) as nat);
        let i = largest_last(bs);
        lemma_largest_last(bs);
        if bs[i].len() >= 2 {
            let b = bs[i];
            let n = b.len() as int;
            let ch = widest_channel(b);
            let m = order_stat(b, ch, n / 2);
            assert(0 <= ch < 3);
            lemma_order_stat(b, ch, n / 2);
            lemma_count_step(b, ch, m);
            lemma_partition_len(b, ch, m, n / 2 - count_le(b, ch, m - 1));
            let r = bs.remove(i);
            lemma_total_remove(bs, i);
            lemma_total_push(r, split_bucket(b).0);
            lemma_total_push(r.push(split_bucket(b).0), split_bucket(b).1);
            let nb = cut_step(bs);
            assert forall|k: int| 0 <= k < nb.len() implies (#[trigger] nb[k]).len() >= 1 by {
                if k < r.len() {
                    if k < i {
                        assert(nb[k] == bs[k]);
                    } else {
                        assert(nb[k] == bs[k + 1]);
                    }
                }
            }
            if bs.len() >= s.len() {
                lemma_total_small_contra(bs, i);
            }
        } else {
            assert forall|k: int| 0 <= k < bs.len() implies (#[trigger] bs[k]).len() <= 1 by {}
            lemma_total_small(bs);
        }
    }
}

/// All samples of the buckets, counted with repetition.
pub open spec fn bucket_union(bs: Seq<Seq<Sample>>) -> Multiset<Sample>
    decreases bs.len(),
{
    if bs.len() == 0 {
        Multiset::empty()
    } else {
        bucket_union(bs.drop_last()).add(bs.last().to_multiset())
    }
}

/// The two parts of a partition hold the samples of the whole.
pub proof fn lemma_partition_multiset(s: Seq<Sample>, ch: int, m: int, q: int)
    ensures
        partition_by(s, ch, m, q).0.to_multiset().add(partition_by(s, ch, m, q).1.to_multiset()) =~= s.to_multiset(),
    decreases s.len(),
{
    broadcast use vstd::seq_lib::group_to_multiset_ensures;
    if s.len() > 0 {
        lemma_partition_multiset(s.drop_last(), ch, m, q);
        assert(s.drop_last().push(s.last()) =~= s);
    } else {
        assert(s.to_multiset() =~= Multiset::empty());
    }
}

proof fn lemma_union_remove(bs: Seq<Seq<Sample>>, i: int)
    requires
        0 <= i < bs.len(),
    ensures
        bucket_union(bs.remove(i)).add(bs[i].to_multiset()) =~= bucket_union(bs),
    decreases bs.len(),
{
    if i < bs.len() - 1 {
        lemma_union_remove(bs.drop_last(), i);
        assert(bs.remove(i).drop_last() =~= bs.drop_last().remove(i));
        assert(bs.remove(i).last() == bs.last());
    } else {
        assert(bs.remove(i) =~= bs.drop_last());
    }
}

proof fn lemma_union_push(bs: Seq<Seq<Sample>>, b: Seq<Sample>)
    ensures
        bucket_union(bs.push(b)) =~= bucket_union(bs).add(b.to_multiset()),
{
    assert(bs.push(b).drop_last() =~= bs);
}

/// Median cut places every sample in exactly as many buckets as it occurs in the input: the
/// buckets partition the samples.
pub proof fn lemma_cut_buckets_partition(s: Seq<Sample>, cuts: nat)
    ensures
        bucket_union(cut_buckets(s, cuts)) =~= s.to_multiset(),
    decreases cuts,
{
    broadcast use vstd::multiset::group_multiset_axioms;
    if cuts == 0 {
        let bs = seq![s];
        assert(cut_buckets(s, cuts) == bs);
        assert(bs.drop_last() =~= Seq::<Seq<Sample>>::empty());
        assert(bs.last() == s);
        assert(bucket_union(bs.drop_last()) =~= Multiset::empty());
    } else {
        lemma_cut_buckets_partition(s, (cuts - 1) as nat);
        let bs = cut_buckets(s, (cuts - 1) as nat);
        let i = largest_last(bs);
        if bs.len() > 0 {
            lemma_largest_last(bs);
        }
        if bs.len() > 0 && bs[i].len() >= 2 {
            let b = bs[i];
            let ch = widest_channel(b);
            let n = b.len() as int;
            let m = order_stat(b, ch, n / 2);
            lemma_partition_multiset(b, ch, m, n / 2 - count_le(b, ch, m - 1));
            let r = bs.remove(i);
            lemma_union_remove(bs, i);
            lemma_union_push(r, split_bucket(b).0);
            lemma_union_push(r.push(split_bucket(b).0), split_bucket(b).1);
        }
    }
}

/// A bucket of two or more among as many buckets as samples is impossible when none is empty.
proof fn lemma_total_small_contra(bs: Seq<Seq<Sample>>, i: int)
    requires
        0 <= i < bs.len(),
        bs[i].len() >= 2,
        forall|k: int| 0 <= k < bs.len() ==> (#[trigger] bs[k]).len() >= 1,
    ensures
        total_size(bs) > bs.len(),
    decreases bs.len(),
{
    lemma_total_at_least(bs.remove(i));
    lemma_total_remove(bs, i);
}

proof fn lemma_total_at_least(bs: Seq<Seq<Sample>>)
    requires
        forall|k: int| 0 <= k < bs.len() ==> (#[trigger] bs[k]).len() >= 1,
    ensures
        total_size(bs) >= bs.len(),
    decreases bs.len(),
{
    if bs.len() > 0 {
        assert forall|k: int| 0 <= k < bs.len() - 1 implies (#[trigger] bs.drop_last()[k]).len() >= 1 by {
            assert(bs.drop_last()[k] == bs[k]);
        }
        lemma_total_at_least(bs.drop_last());
    }
}

/// The `k`-th smallest value of a channel has at most `k` samples below it and more than `k`
/// at or below it.
pub proof fn lemma_order_stat(s: Seq<Sample>, ch: int, k: int)
    requires
        0 <= ch < 3,
        0 <= k < s.len(),
    ensures
        0 <= order_stat(s, ch, k) <= 255,
        count_le(s, ch, order_stat(s, ch, k) - 1) <= k < count_le(s, ch, order_stat(s, ch, k)),
{
    lemma_count_le_bounds(s, ch, -1);
    lemma_first_above(s, ch, k, 0);
}

proof fn lemma_first_above(s: Seq<Sample>, ch: int, k: int, v: int)
    requires
        0 <= ch < 3,
        0 <= k < s.len(),
        0 <= v <= 255,
        count_le(s, ch, v - 1) <= k,
    ensures
        v <= first_above(s, ch, k, v) <= 255,
        count_le(s, ch, first_above(s, ch, k, v) - 1) <= k < count_le(s, ch, first_above(s, ch, k, v)),
    decreases 255 - v,
{
    lemma_count_le_bounds(s, ch, v);
    if v < 255 && count_le(s, ch, v) <= k {
        lemma_first_above(s, ch, k, v + 1);
    }
}

/// The samples of `s` other than those of color `c`, in order.
pub open spec fn without_color(s: Seq<Sample>, c: Rgb) -> Seq<Sample>
    decreases s.len(),
{
    if s.len() == 0 {
        Seq::empty()
    } else if s.last().rgb == c {
        without_color(s.drop_last(), c)
    } else {
        without_color(s.drop_last(), c).push(s.last())
    }
}

/// The cluster of a bucket: its median color, its size as member count and share, its first
/// sample's position, and its samples other than the median color as sub-members.
/// Median cut works on distinct colors and counts no pixels.
pub open spec fn bucket_view(id: int, b: Seq<Sample>) -> ClusterView {
    ClusterView {
        id: id as u32,
        centroid: median_color(b),
        member_count: b.len() as u32,
        position: b[0].position,
        sub_members: without_color(b, median_color(b)),
        pixel_count: 0,
        share: b.len() as u64,
    }
}

/// The clusters of median cut with `cuts` cuts over the distinct samples `d`.
pub open spec fn median_cut_model(d: Seq<Sample>, cuts: nat) -> Seq<ClusterView> {
    Seq::new(cut_buckets(d, cuts).len(), |k: int| bucket_view(k, cut_buckets(d, cuts)[k]))
}

pub open spec fn bucket_seqs(bs: Seq<Vec<Sample>>) -> Seq<Seq<Sample>> {
    bs.map_values(|b: Vec<Sample>| b@)
}

fn cluster_of_bucket(id: u32, b: &Vec<Sample>) -> (r: Cluster)
    requires
        1 <= b@.len() <= u32::MAX,
    ensures
        r.model() == bucket_view(id as int, b@),
{
    let med = median_of_bucket(b);
    let mut subs: Vec<Sample> = Vec::new();
    let n = b.len();
    let mut i: usize = 0;
    while i < n
        invariant
            n == b@.len(),
            i <= n,
            subs@ == without_color(b@.subrange(0, i as int), med),
        decreases n - i,
    {
        let ghost prev = b@.subrange(0, i as int);
        if b[i].rgb != med {
            subs.push(b[i]);
        }
        i = i + 1;
        assert(b@.subrange(0, i as int).drop_last() =~= prev);
    }
    assert(b@.subrange(0, n as int) =~= b@);
    Cluster {
        id,
        centroid: med,
        member_count: n as u32,
        position: b[0].position,
        sub_members: subs,
        pixel_count: 0,
        share: n as u64,
    }
}

/// The position of the last largest bucket.
fn largest_bucket(bs: &Vec<Vec<Sample>>) -> (r: usize)
    requires
        bs@.len() > 0,
    ensures
        r == largest_last(bucket_seqs(bs@)),
        r < bs@.len(),
{
    let ghost all = bucket_seqs(bs@);
    let n = bs.len();
    let mut best: usize = 0;
    let mut k: usize = 1;
    assert(all.subrange(0, 1).len() == 1);
    while k < n
        invariant
            n == bs@.len(),
            all == bucket_seqs(bs@),
            1 <= k <= n,
            best < k,
            best == largest_last(all.subrange(0, k as int)),
        decreases n - k,
    {
        let ghost prev = all.subrange(0, k as int);
        proof {
            lemma_largest_last(prev);
        }
        if bs[k].len() >= bs[best].len() {
            best = k;
        }
        k = k + 1;
        assert(all.subrange(0, k as int).drop_last() =~= prev);
        assert(all.subrange(0, k as int)[best as int] == all[best as int]);
    }
    assert(all.subrange(0, n as int) =~= all);
    proof {
        lemma_largest_last(all);
    }
    best
}

proof fn lemma_members_total(bs: Seq<Seq<Sample>>)
    requires
        forall|k: int| 0 <= k < bs.len() ==> 1 <= (#[trigger] bs[k]).len() <= u32::MAX,
    ensures
        sum_of(Seq::new(bs.len(), |k: int| bucket_view(k, bs[k])), |c: ClusterView| members_of(c)) == total_size(bs),
    decreases bs.len(),
{
    if bs.len() > 0 {
        let pb = bs.drop_last();
        assert forall|k: int| 0 <= k < pb.len() implies 1 <= (#[trigger] pb[k]).len() <= u32::MAX by {
            assert(pb[k] == bs[k]);
        }
        lemma_members_total(pb);
        let whole = Seq::new(bs.len(), |k: int| bucket_view(k, bs[k]));
        assert(whole.drop_last() =~= Seq::new(pb.len(), |k: int| bucket_view(k, pb[k])));
    }
}

/// Median cut over the distinct colors of the opaque pixels: `median_cut_amount` times the
/// last largest bucket is split in two, while it holds two colors or more. Each bucket becomes
/// a cluster; its percentage is its size over the number of distinct colors.
pub fn scan_image_median_cutting(pixels: &Vec<Pixel>, median_cut_amount: u32) -> (r: Result<ClusterStore, PaletteError>)
    ensures
        pixels@.len() == 0 ==> r == Err::<ClusterStore, PaletteError>(PaletteError::EmptyImage),
        pixels@.len() > 0 && distinct_samples(pixels@).len() == 0 ==> r == Err::<ClusterStore, PaletteError>(
            PaletteError::NoColors,
        ),
        distinct_samples(pixels@).len() > 0 ==> r is Ok,
        r matches Ok(store) ==> {
            let d = distinct_samples(pixels@);
            &&& store.model() == median_cut_model(d, median_cut_amount as nat)
            &&& store.wf()
            &&& store.share_total == d.len()
            &&& store.clusters@.len() == min(median_cut_amount + 1, d.len() as int)
            &&& sum_of(store.model(), |c: ClusterView| members_of(c)) == d.len()
        },
{
    if pixels.len() == 0 {
        return Err(PaletteError::EmptyImage);
    }
    let d = distinct_colors(pixels);
    if d.len() == 0 {
        return Err(PaletteError::NoColors);
    }
    let dn = d.len();
    let ghost ds = d@;
    let mut buckets: Vec<Vec<Sample>> = Vec::new();
    buckets.push(d);
    assert(bucket_seqs(buckets@) =~= cut_buckets(ds, 0));
    let mut t: u32 = 0;
    while t < median_cut_amount
        invariant
            ds.len() == dn,
            1 <= dn < u32::MAX,
            t <= median_cut_amount,
            bucket_seqs(buckets@) == cut_buckets(ds, t as nat),
        decreases median_cut_amount - t,
    {
        proof {
            lemma_cut_buckets(ds, t as nat);
        }
        let i = largest_bucket(&buckets);
        if buckets[i].len() >= 2 {
            let ghost bs = bucket_seqs(buckets@);
            let b = buckets.remove(i);
            let (lo, hi) = median_cut(&b);
            buckets.push(lo);
            buckets.push(hi);
            assert(bucket_seqs(buckets@) =~= cut_step(bs));
        }
        t = t + 1;
    }
    let ghost bs = bucket_seqs(buckets@);
    proof {
        lemma_cut_buckets(ds, median_cut_amount as nat);
        assert forall|k: int| 0 <= k < bs.len() implies 1 <= (#[trigger] bs[k]).len() <= u32::MAX by {
            lemma_total_bounds_term(bs, k);
        }
        lemma_members_total(bs);
    }
    let mut clusters: Vec<Cluster> = Vec::new();
    let n = buckets.len();
    let mut k: usize = 0;
    while k < n
        invariant
            n == buckets@.len(),
            bs == bucket_seqs(buckets@),
            forall|q: int| 0 <= q < bs.len() ==> 1 <= (#[trigger] bs[q]).len() <= u32::MAX,
            n <= dn,
            dn < u32::MAX,
            k <= n,
            models(clusters@) == Seq::new(k as nat, |q: int| bucket_view(q, bs[q])),
        decreases n - k,
    {
        assert(bs[k as int] == buckets@[k as int]@);
        let c = cluster_of_bucket(k as u32, &buckets[k]);
        let ghost before = clusters@;
        let ghost cm = c.model();
        clusters.push(c);
        assert(models(clusters@) =~= models(before).push(cm));
        k = k + 1;
        assert(models(before).push(cm) =~= Seq::new(k as nat, |q: int| bucket_view(q, bs[q])));
    }
    assert forall|a: int, b: int| 0 <= a < b < clusters@.len() implies (#[trigger] clusters@[a]).id != (#[trigger] clusters@[b]).id by {
        assert(models(clusters@)[a].id == a as u32);
        assert(models(clusters@)[b].id == b as u32);
    }
    Ok(ClusterStore { clusters, share_total: dn as u64 })
}

proof fn lemma_total_bounds_term(bs: Seq<Seq<Sample>>, k: int)
    requires
        0 <= k < bs.len(),
    ensures
        bs[k].len() <= total_size(bs),
    decreases bs.len(),
{
    if k < bs.len() - 1 {
        lemma_total_bounds_term(bs.drop_last(), k);
        assert(bs.drop_last()[k] == bs[k]);
    }
    lemma_total_nonneg(bs.drop_last());
}

proof fn lemma_total_nonneg(bs: Seq<Seq<Sample>>)
    ensures
        total_size(bs) >= 0,
    decreases bs.len(),
{
    if bs.len() > 0 {
        lemma_total_nonneg(bs.drop_last());
    }
}

/// The samples of the opaque pixels, in scan order.
pub open spec fn opaque_samples(px: Seq<Pixel>) -> Seq<Sample>
    decreases px.len(),
{
    if px.len() == 0 {
        Seq::empty()
    } else if px.last().alpha > 0 {
        opaque_samples(px.drop_last()).push(Sample { rgb: px.last().rgb, position: px.last().position })
    } else {
        opaque_samples(px.drop_last())
    }
}

/// The one cluster of the median scan: the per-channel median of all opaque pixels, at the
/// first opaque pixel's position, counting every opaque pixel, with a percentage of one.
pub open spec fn median_scan_view(s: Seq<Sample>) -> ClusterView {
    ClusterView {
        id: 0,
        centroid: median_color(s),
        member_count: 1,
        position: s[0].position,
        sub_members: Seq::empty(),
        pixel_count: s.len() as u32,
        share: 1,
    }
}

/// A palette of one color: the per-channel median of all opaque pixels, repeats included.
pub fn scan_image_median_color(pixels: &Vec<Pixel>) -> (r: Result<ClusterStore, PaletteError>)
    requires
        opaque_samples(pixels@).len() < u32::MAX,
    ensures
        pixels@.len() == 0 ==> r == Err::<ClusterStore, PaletteError>(PaletteError::EmptyImage),
        pixels@.len() > 0 && opaque_samples(pixels@).len() == 0 ==> r == Err::<ClusterStore, PaletteError>(
            PaletteError::NoColors,
        ),
        opaque_samples(pixels@).len() > 0 ==> r is Ok,
        r matches Ok(store) ==> {
            &&& store.model() == seq![median_scan_view(opaque_samples(pixels@))]
            &&& store.share_total == 1
        },
{
    if pixels.len() == 0 {
        return Err(PaletteError::EmptyImage);
    }
    let mut samples: Vec<Sample> = Vec::new();
    let n = pixels.len();
    let mut i: usize = 0;
    while i < n
        invariant
            n == pixels@.len(),
            i <= n,
            samples@ == opaque_samples(pixels@.subrange(0, i as int)),
            samples@.len() <= i,
        decreases n - i,
    {
        let ghost prev = pixels@.subrange(0, i as int);
        let p = pixels[i];
        if p.alpha > 0 {
            samples.push(Sample { rgb: p.rgb, position: p.position });
        }
        i = i + 1;
        assert(pixels@.subrange(0, i as int).drop_last() =~= prev);
    }
    assert(pixels@.subrange(0, n as int) =~= pixels@);
    if samples.len() == 0 {
        return Err(PaletteError::NoColors);
    }
    let c = Cluster {
        id: 0,
        centroid: median_of_bucket(&samples),
        member_count: 1,
        position: samples[0].position,
        sub_members: Vec::new(),
        pixel_count: samples.len() as u32,
        share: 1,
    };
    let ghost cm = c.model();
    let mut clusters: Vec<Cluster> = Vec::new();
    clusters.push(c);
    assert(models(clusters@) =~= seq![cm]);
    Ok(ClusterStore { clusters, share_total: 1 })
}

} // verus!
