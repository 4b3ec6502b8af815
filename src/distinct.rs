//! The distinct colors of an image, in order of first appearance.
use vstd::prelude::*;
use crate::cluster::{Pixel, Sample};
use crate::color::Rgb;
use std::collections::HashSet;

verus! {

/// Some sample of `d` has color `c`.
pub open spec fn has_color(d: Seq<Sample>, c: Rgb) -> bool {
    exists|k: int| 0 <= k < d.len() && (#[trigger] d[k]).rgb == c
}

/// The opaque pixels' colors, each once, with the position of its first pixel, in scan order.
pub open spec fn distinct_samples(px: Seq<Pixel>) -> Seq<Sample>
    decreases px.len(),
{
    if px.len() == 0 {
        Seq::empty()
    } else {
        let d = distinct_samples(px.drop_last());
        let p = px.last();
        if p.alpha > 0 && !has_color(d, p.rgb) {
            d.push(Sample { rgb: p.rgb, position: p.position })
        } else {
            d
        }
    }
}

/// No two samples share a color.
pub open spec fn colors_distinct(d: Seq<Sample>) -> bool {
    forall|i: int, j: int| 0 <= i < j < d.len() ==> (#[trigger] d[i]).rgb != (#[trigger] d[j]).rgb
}

pub open spec fn color_key(c: Rgb) -> int {
    c.r * 65536 + c.g * 256 + c.b
}

pub proof fn lemma_color_key(a: Rgb, b: Rgb)
    ensures
        0 <= color_key(a) < 16777216,
        color_key(a) == color_key(b) ==> a == b,
{
}

/// There are at most 2^24 colors, so no more distinct ones.
pub proof fn lemma_distinct_bound(d: Seq<Sample>)
    requires
        colors_distinct(d),
    ensures
        d.len() <= 16777216,
{
    let keys = d.map_values(|x: Sample| color_key(x.rgb));
    assert(keys.no_duplicates()) by {
        assert forall|i: int, j: int| 0 <= i < keys.len() && 0 <= j < keys.len() && i != j implies keys[i] != keys[j] by {
            lemma_color_key(d[i].rgb, d[j].rgb);
            if i < j {
                assert(d[i].rgb != d[j].rgb);
            } else {
                assert(d[j].rgb != d[i].rgb);
            }
        }
    }
    keys.unique_seq_to_set();
    vstd::set_lib::lemma_int_range(0, 16777216);
    assert(keys.to_set().subset_of(vstd::set_lib::set_int_range(0, 16777216))) by {
        assert forall|k: int| keys.to_set().contains(k) implies vstd::set_lib::set_int_range(0, 16777216).contains(k) by {
            let i = choose|i: int| 0 <= i < keys.len() && keys[i] == k;
            lemma_color_key(d[i].rgb, d[i].rgb);
        }
    }
    vstd::set_lib::lemma_len_subset(keys.to_set(), vstd::set_lib::set_int_range(0, 16777216));
}

/// The distinct colors of the opaque pixels, with where each first appears.
pub fn distinct_colors(pixels: &Vec<Pixel>) -> (r: Vec<Sample>)
    ensures
        r@ == distinct_samples(pixels@),
        colors_distinct(r@),
        r@.len() <= pixels@.len(),
        r@.len() <= 16777216,
{
    broadcast use vstd::std_specs::hash::group_hash_axioms;
    let mut seen: HashSet<u32> = HashSet::new();
    let mut d: Vec<Sample> = Vec::new();
    let n = pixels.len();
    let mut i: usize = 0;
    while i < n
        invariant
            n == pixels@.len(),
            i <= n,
            d@ == distinct_samples(pixels@.subrange(0, i as int)),
            colors_distinct(d@),
            d@.len() <= i,
            forall|c: Rgb| #[trigger] seen@.contains(color_key(c) as u32) == has_color(d@, c),
        decreases n - i,
    {
        let ghost prev = pixels@.subrange(0, i as int);
        let p = pixels[i];
        let key = p.rgb.r as u32 * 65536 + p.rgb.g as u32 * 256 + p.rgb.b as u32;
        proof {
            lemma_color_key(p.rgb, p.rgb);
        }
        if p.alpha > 0 && seen.insert(key) {
            let ghost before = d@;
            d.push(Sample { rgb: p.rgb, position: p.position });
            assert forall|c: Rgb| #[trigger] seen@.contains(color_key(c) as u32) == has_color(d@, c) by {
                lemma_color_key(c, p.rgb);
                if c == p.rgb {
                    assert(d@[d@.len() - 1].rgb == c);
                } else if has_color(before, c) {
                    let w = choose|w: int| 0 <= w < before.len() && (#[trigger] before[w]).rgb == c;
                    assert(d@[w].rgb == c);
                } else {
                    assert forall|w: int| 0 <= w < d@.len() implies (#[trigger] d@[w]).rgb != c by {
                        if w < before.len() {
                            assert(d@[w] == before[w]);
                        }
                    }
                }
            }
            assert forall|a: int, b: int| 0 <= a < b < d@.len() implies (#[trigger] d@[a]).rgb != (#[trigger] d@[b]).rgb by {
                if b == d@.len() - 1 {
                    assert(d@[a] == before[a]);
                    if before[a].rgb == p.rgb {
                        assert(has_color(before, p.rgb));
                    }
                } else {
                    assert(d@[a] == before[a] && d@[b] == before[b]);
                }
            }
        }
        i = i + 1;
        assert(pixels@.subrange(0, i as int).drop_last() =~= prev);
    }
    assert(pixels@.subrange(0, n as int) =~= pixels@);
    proof {
        lemma_distinct_bound(d@);
    }
    d
}

} // verus!
