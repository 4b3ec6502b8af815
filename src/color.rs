//! Color values and the perceptual color spaces, in exact fixed-point arithmetic.
//!
//! Every coordinate of a perceptual space is an integer count of millionths of the space's
//! unit: OkLab lightness 1.0 is `1_000_000`, CIELab lightness 100 is `100_000_000`.
use vstd::prelude::*;
use vstd::arithmetic::div_mod::lemma_fundamental_div_mod;
use crate::arith::{cbrt, cube_root, floor_div, is_cube_root, is_square_root, lemma_cube_monotone, square_root};

verus! {

/// One unit of a color-space coordinate, in the fixed-point representation.
pub const SCALE: i64 = 1000000;

/// The square of `SCALE`.
pub const SCALE_SQ: i128 = 1000000000000;

/// Divisor of the ten-decimal matrix coefficients below.
pub const COEF: i128 = 10000000000;

/// Bound on each coordinate of an OkLab point that this library handles.
pub const OKLAB_BOUND: i64 = 4000000;

/// Linear light of each 8-bit sRGB level, in millionths: the sRGB transfer function
/// (`c/12.92` up to `c = 0.04045`, `((c + 0.055)/1.055)^2.4` above) rounded to the nearest unit.
pub const LINEAR: [u32; 256] = [
    0, 304, 607, 911, 1214, 1518, 1821, 2125,
    2428, 2732, 3035, 3347, 3677, 4025, 4391, 4777,
    5182, 5605, 6049, 6512, 6995, 7499, 8023, 8568,
    9134, 9721, 10330, 10960, 11612, 12286, 12983, 13702,
    14444, 15209, 15996, 16807, 17642, 18500, 19382, 20289,
    21219, 22174, 23153, 24158, 25187, 26241, 27321, 28426,
    29557, 30713, 31896, 33105, 34340, 35601, 36889, 38204,
    39546, 40915, 42311, 43735, 45186, 46665, 48172, 49707,
    51269, 52861, 54480, 56128, 57805, 59511, 61246, 63010,
    64803, 66626, 68478, 70360, 72272, 74214, 76185, 78187,
    80220, 82283, 84376, 86500, 88656, 90842, 93059, 95307,
    97587, 99899, 102242, 104616, 107023, 109462, 111932, 114435,
    116971, 119538, 122139, 124772, 127438, 130136, 132868, 135633,
    138432, 141263, 144128, 147027, 149960, 152926, 155926, 158961,
    162029, 165132, 168269, 171441, 174647, 177888, 181164, 184475,
    187821, 191202, 194618, 198069, 201556, 205079, 208637, 212231,
    215861, 219526, 223228, 226966, 230740, 234551, 238398, 242281,
    246201, 250158, 254152, 258183, 262251, 266356, 270498, 274677,
    278894, 283149, 287441, 291771, 296138, 300544, 304987, 309469,
    313989, 318547, 323143, 327778, 332452, 337164, 341914, 346704,
    351533, 356400, 361307, 366253, 371238, 376262, 381326, 386429,
    391572, 396755, 401978, 407240, 412543, 417885, 423268, 428690,
    434154, 439657, 445201, 450786, 456411, 462077, 467784, 473531,
    479320, 485150, 491021, 496933, 502886, 508881, 514918, 520996,
    527115, 533276, 539479, 545724, 552011, 558340, 564712, 571125,
    577580, 584078, 590619, 597202, 603827, 610496, 617207, 623960,
    630757, 637597, 644480, 651406, 658375, 665387, 672443, 679542,
    686685, 693872, 701102, 708376, 715694, 723055, 730461, 737910,
    745404, 752942, 760525, 768151, 775822, 783538, 791298, 799103,
    806952, 814847, 822786, 830770, 838799, 846873, 854993, 863157,
    871367, 879622, 887923, 896269, 904661, 913099, 921582, 930111,
    938686, 947307, 955973, 964686, 973445, 982251, 991102, 1000000,
];

/// An 8-bit sRGB color.
#[derive(Clone, Copy, Debug, PartialEq, Eq, Structural, Hash)]
pub struct Rgb {
    pub r: u8,
    pub g: u8,
    pub b: u8,
}

/// Which space decides whether two colors belong to one cluster.
#[derive(Clone, Copy, Debug, PartialEq, Eq, Structural)]
pub enum ColorSpace {
    Rgb,
    CieLab,
    OkLab,
}

pub open spec fn sq(x: int) -> int {
    x * x
}

/// Squared Euclidean distance of two points.
pub open spec fn dist2(p: (int, int, int), q: (int, int, int)) -> int {
    sq(p.0 - q.0) + sq(p.1 - q.1) + sq(p.2 - q.2)
}

/// Squared Euclidean distance of two colors in RGB space, in channel units.
pub open spec fn rgb_dist2(a: Rgb, b: Rgb) -> int {
    sq(a.r - b.r) + sq(a.g - b.g) + sq(a.b - b.b)
}

/// Linear light of an 8-bit level, in millionths.
pub open spec fn linear(c: u8) -> int {
    LINEAR@[c as int] as int
}

/// The squared Euclidean distance between two colors, in channel units.
pub fn rgb_distance_squared(col_a: Rgb, col_b: Rgb) -> (r: u32)
    ensures
        r == rgb_dist2(col_a, col_b),
        r <= 3 * 255 * 255,
{
    let dr: i32 = col_a.r as i32 - col_b.r as i32;
    let dg: i32 = col_a.g as i32 - col_b.g as i32;
    let db: i32 = col_a.b as i32 - col_b.b as i32;
    assert(dr * dr <= 255 * 255) by (nonlinear_arith) requires -255 <= dr <= 255;
    assert(dg * dg <= 255 * 255) by (nonlinear_arith) requires -255 <= dg <= 255;
    assert(db * db <= 255 * 255) by (nonlinear_arith) requires -255 <= db <= 255;
    assert(dr * dr >= 0 && dg * dg >= 0 && db * db >= 0) by (nonlinear_arith);
    (dr * dr + dg * dg + db * db) as u32
}

/// The integer part of the Euclidean distance between two colors, in channel units.
pub fn rgb_distance(col_a: Rgb, col_b: Rgb) -> (r: u32)
    ensures
        is_square_root(rgb_dist2(col_a, col_b), r as int),
{
    let d2 = rgb_distance_squared(col_a, col_b);
    let r = square_root(d2 as u64);
    proof {
        if r > 1000 {
            assert(r * r > 1000000) by (nonlinear_arith) requires r > 1000;
        }
    }
    assert(r <= 1000);
    r as u32
}

pub proof fn lemma_linear_bounds(c: u8)
    ensures
        0 <= linear(c) <= 1000000,
{
}

/// A cube root of a value at most `m * m * m` is at most `m`.
pub proof fn lemma_cube_root_bound(n: int, r: int, m: int)
    requires
        is_cube_root(n, r),
        0 <= m,
        n <= m * m * m,
    ensures
        r <= m,
{
    if r > m {
        lemma_cube_monotone(m + 1, r);
        assert((m + 1) * (m + 1) * (m + 1) > m * m * m) by (nonlinear_arith) requires 0 <= m;
    }
}

/// The cone responses of an sRGB color, in millionths.
pub open spec fn lms_of(c: Rgb) -> (int, int, int) {
    let r = linear(c.r);
    let g = linear(c.g);
    let b = linear(c.b);
    (
        (4122214708 * r + 5363325363 * g + 514459929 * b) / COEF as int,
        (2119034982 * r + 6806995451 * g + 1073969566 * b) / COEF as int,
        (883024619 * r + 2817188376 * g + 6299787005 * b) / COEF as int,
    )
}

/// The OkLab point of cube-rooted cone responses.
pub open spec fn oklab_of_lms_root(p: (int, int, int)) -> (int, int, int) {
    (
        (2104542553 * p.0 + 7936177850 * p.1 - 40720468 * p.2) / COEF as int,
        (19779984951 * p.0 - 24285922050 * p.1 + 4505937099 * p.2) / COEF as int,
        (259040371 * p.0 + 7827717662 * p.1 - 8086757660 * p.2) / COEF as int,
    )
}

/// The OkLab point of an sRGB color.
#[verifier::opaque]
pub open spec fn oklab_of(c: Rgb) -> (int, int, int) {
    let lms = lms_of(c);
    oklab_of_lms_root(
        (
            cbrt(lms.0 * SCALE_SQ as int),
            cbrt(lms.1 * SCALE_SQ as int),
            cbrt(lms.2 * SCALE_SQ as int),
        ),
    )
}

/// The cube-rooted cone responses of an OkLab point.
pub open spec fn lms_root_of_oklab(p: (int, int, int)) -> (int, int, int) {
    (
        (COEF * p.0 + 3963377774 * p.1 + 2158037573 * p.2) / COEF as int,
        (COEF * p.0 - 1055613458 * p.1 - 638541728 * p.2) / COEF as int,
        (COEF * p.0 - 894841775 * p.1 - 12914855480 * p.2) / COEF as int,
    )
}

/// Linear sRGB light, in millionths, of an OkLab point.
pub open spec fn linear_of_oklab(p: (int, int, int)) -> (int, int, int) {
    let q = lms_root_of_oklab(p);
    let l = (q.0 * q.0 * q.0) / SCALE_SQ as int;
    let m = (q.1 * q.1 * q.1) / SCALE_SQ as int;
    let s = (q.2 * q.2 * q.2) / SCALE_SQ as int;
    (
        (40767416621 * l - 33077115913 * m + 2309699292 * s) / COEF as int,
        (-12684380046 * l + 26097574011 * m - 3413193965 * s) / COEF as int,
        (-41960863 * l - 7034186147 * m + 17076147010 * s) / COEF as int,
    )
}

pub open spec fn abs(x: int) -> int {
    if x < 0 {
        -x
    } else {
        x
    }
}

/// How far the linear light of level `k` lies from `v`.
pub open spec fn level_gap(v: int, k: int) -> int {
    abs(LINEAR@[k] - v)
}

/// `b` is the 8-bit level whose linear light lies nearest to `v`; the lowest such level on a tie.
/// Below zero this is level 0, above full light level 255.
pub open spec fn is_nearest_level(v: int, b: u8) -> bool {
    &&& forall|k: int| 0 <= k < 256 ==> level_gap(v, b as int) <= #[trigger] level_gap(v, k)
    &&& forall|k: int| 0 <= k < b ==> level_gap(v, b as int) < #[trigger] level_gap(v, k)
}

/// The 8-bit level whose linear light lies nearest to `v`.
pub fn nearest_level(v: i128) -> (b: u8)
    requires
        -0x1_0000_0000_0000 <= v <= 0x1_0000_0000_0000,
    ensures
        is_nearest_level(v as int, b),
{
    let mut best: usize = 0;
    let mut best_gap: i128 = if v >= LINEAR[0] as i128 { v - LINEAR[0] as i128 } else { LINEAR[0] as i128 - v };
    let mut k: usize = 1;
    while k < 256
        invariant
            1 <= k <= 256,
            best < k,
            -0x1_0000_0000_0000 <= v <= 0x1_0000_0000_0000,
            best_gap == level_gap(v as int, best as int),
            forall|j: int| 0 <= j < k ==> best_gap <= #[trigger] level_gap(v as int, j),
            forall|j: int| 0 <= j < best ==> best_gap < #[trigger] level_gap(v as int, j),
        decreases 256 - k,
    {
        let lk = LINEAR[k] as i128;
        let gap: i128 = if v >= lk { v - lk } else { lk - v };
        if gap < best_gap {
            best = k;
            best_gap = gap;
        }
        k = k + 1;
    }
    best as u8
}

/// A point in OkLab, each coordinate in millionths.
#[derive(Clone, Copy, Debug, PartialEq, Eq, Structural)]
pub struct OkLab {
    pub l: i64,
    pub a: i64,
    pub b: i64,
}

impl OkLab {
    pub open spec fn view3(self) -> (int, int, int) {
        (self.l as int, self.a as int, self.b as int)
    }

    /// Each coordinate lies within `OKLAB_BOUND`.
    pub open spec fn wf(self) -> bool {
        &&& -OKLAB_BOUND <= self.l <= OKLAB_BOUND
        &&& -OKLAB_BOUND <= self.a <= OKLAB_BOUND
        &&& -OKLAB_BOUND <= self.b <= OKLAB_BOUND
    }

    pub fn new(l: i64, a: i64, b: i64) -> (r: Self)
        ensures
            r == (OkLab { l, a, b }),
    {
        OkLab { l, a, b }
    }

    /// The OkLab point of an sRGB color.
    pub fn from_rgb(rgb: &Rgb) -> (r: Self)
        ensures
            r.view3() == oklab_of(*rgb),
            r.wf(),
    {
        proof {
            reveal(oklab_of);
            lemma_linear_bounds(rgb.r);
            lemma_linear_bounds(rgb.g);
            lemma_linear_bounds(rgb.b);
        }
        let r = LINEAR[rgb.r as usize] as i128;
        let g = LINEAR[rgb.g as usize] as i128;
        let b = LINEAR[rgb.b as usize] as i128;
        let l = (4122214708 * r + 5363325363 * g + 514459929 * b) / COEF;
        let m = (2119034982 * r + 6806995451 * g + 1073969566 * b) / COEF;
        let s = (883024619 * r + 2817188376 * g + 6299787005 * b) / COEF;
        assert(0 <= l <= 1000000 && 0 <= m <= 1000000 && 0 <= s <= 1000000);
        let lr = cube_root((l * SCALE_SQ) as u64) as i128;
        let mr = cube_root((m * SCALE_SQ) as u64) as i128;
        let sr = cube_root((s * SCALE_SQ) as u64) as i128;
        proof {
            assert(1000000int * 1000000 * 1000000 == 1000000 * SCALE_SQ) by (nonlinear_arith);
            lemma_cube_root_bound(l * SCALE_SQ, lr as int, 1000000);
            lemma_cube_root_bound(m * SCALE_SQ, mr as int, 1000000);
            lemma_cube_root_bound(s * SCALE_SQ, sr as int, 1000000);
        }
        let ll = floor_div(2104542553 * lr + 7936177850 * mr - 40720468 * sr, COEF);
        let aa = floor_div(19779984951 * lr - 24285922050 * mr + 4505937099 * sr, COEF);
        let bb = floor_div(259040371 * lr + 7827717662 * mr - 8086757660 * sr, COEF);
        OkLab { l: ll as i64, a: aa as i64, b: bb as i64 }
    }

    /// The sRGB color of this point: each channel is the level nearest in linear light.
    pub fn to_rgb(&self) -> (r: Rgb)
        requires
            self.wf(),
        ensures
            is_nearest_level(linear_of_oklab(self.view3()).0, r.r),
            is_nearest_level(linear_of_oklab(self.view3()).1, r.g),
            is_nearest_level(linear_of_oklab(self.view3()).2, r.b),
    {
        let pl = self.l as i128;
        let pa = self.a as i128;
        let pb = self.b as i128;
        let ql = floor_div(COEF * pl + 3963377774 * pa + 2158037573 * pb, COEF);
        let qm = floor_div(COEF * pl - 1055613458 * pa - 638541728 * pb, COEF);
        let qs = floor_div(COEF * pl - 894841775 * pa - 12914855480 * pb, COEF);
        assert(-10000000 <= ql <= 10000000 && -10000000 <= qm <= 10000000 && -10000000 <= qs <= 10000000);
        let l = floor_div(cube(ql), SCALE_SQ);
        let m = floor_div(cube(qm), SCALE_SQ);
        let s = floor_div(cube(qs), SCALE_SQ);
        assert(-1000000000 <= l <= 1000000000 && -1000000000 <= m <= 1000000000 && -1000000000 <= s <= 1000000000);
        let lr = floor_div(40767416621 * l - 33077115913 * m + 2309699292 * s, COEF);
        let lg = floor_div(26097574011 * m - 12684380046 * l - 3413193965 * s, COEF);
        let lb = floor_div(17076147010 * s - 41960863 * l - 7034186147 * m, COEF);
        Rgb { r: nearest_level(lr), g: nearest_level(lg), b: nearest_level(lb) }
    }
}

/// The cube of a value of at most ten million in magnitude.
fn cube(x: i128) -> (r: i128)
    requires
        -10000000 <= x <= 10000000,
    ensures
        r == x * x * x,
        -1000000000000000000000 <= r <= 1000000000000000000000,
{
    assert(0 <= x * x <= 100000000000000) by (nonlinear_arith) requires -10000000 <= x <= 10000000;
    assert(-1000000000000000000000 <= x * x * x <= 1000000000000000000000) by (nonlinear_arith)
        requires
            -10000000 <= x <= 10000000,
            0 <= x * x <= 100000000000000,
    ;
    x * x * x
}

/// Bound on each coordinate of a CIELab point that this library handles.
pub const CIELAB_BOUND: i64 = 600000000;

/// Squared distance of two points with coordinates of at most `bound` in magnitude.
fn squared_gap(p: (i64, i64, i64), q: (i64, i64, i64), bound: i64) -> (r: u64)
    requires
        0 <= bound <= CIELAB_BOUND,
        -bound <= p.0 <= bound && -bound <= p.1 <= bound && -bound <= p.2 <= bound,
        -bound <= q.0 <= bound && -bound <= q.1 <= bound && -bound <= q.2 <= bound,
    ensures
        r == dist2((p.0 as int, p.1 as int, p.2 as int), (q.0 as int, q.1 as int, q.2 as int)),
{
    let d0 = p.0 as i128 - q.0 as i128;
    let d1 = p.1 as i128 - q.1 as i128;
    let d2 = p.2 as i128 - q.2 as i128;
    assert(0 <= d0 * d0 <= 4000000000000000000) by (nonlinear_arith) requires -2000000000 <= d0 <= 2000000000;
    assert(0 <= d1 * d1 <= 4000000000000000000) by (nonlinear_arith) requires -2000000000 <= d1 <= 2000000000;
    assert(0 <= d2 * d2 <= 4000000000000000000) by (nonlinear_arith) requires -2000000000 <= d2 <= 2000000000;
    (d0 * d0 + d1 * d1 + d2 * d2) as u64
}

impl OkLab {
    /// The squared Euclidean distance to `comp`, in squared millionths.
    pub fn distance_to_lab_squared(&self, comp: &OkLab) -> (r: u64)
        requires
            self.wf(),
            comp.wf(),
        ensures
            r == dist2(self.view3(), comp.view3()),
    {
        squared_gap((self.l, self.a, self.b), (comp.l, comp.a, comp.b), OKLAB_BOUND)
    }

    /// The integer part of the Euclidean distance to `comp`, in millionths.
    pub fn distance_to_lab(&self, comp: &OkLab) -> (r: u64)
        requires
            self.wf(),
            comp.wf(),
        ensures
            is_square_root(dist2(self.view3(), comp.view3()), r as int),
    {
        square_root(self.distance_to_lab_squared(comp))
    }
}

/// A point in CIE XYZ on the scale where white has `Y = 100`, each coordinate in millionths.
#[derive(Clone, Copy, Debug, PartialEq, Eq, Structural)]
pub struct XYZ {
    pub x: i64,
    pub y: i64,
    pub z: i64,
}

/// The XYZ point of an sRGB color.
pub open spec fn xyz_of(c: Rgb) -> (int, int, int) {
    let r = linear(c.r);
    let g = linear(c.g);
    let b = linear(c.b);
    ((4124 * r + 3576 * g + 1805 * b) / 100, (2126 * r + 7152 * g + 722 * b) / 100, (193 * r + 1192 * g + 9505 * b) / 100)
}

/// The CIELab companding function of a ratio to the white point, both in millionths.
pub open spec fn lab_f(t: int) -> int {
    if t > 8856 {
        cbrt(t * SCALE_SQ as int)
    } else {
        7787 * t / 1000 + 137931
    }
}

/// The CIELab point of an XYZ point, under the D65 white (95.047, 100, 108.883).
pub open spec fn cielab_of_xyz(p: (int, int, int)) -> (int, int, int) {
    let fx = lab_f(p.0 * 1000 / 95047);
    let fy = lab_f(p.1 / 100);
    let fz = lab_f(p.2 * 1000 / 108883);
    (116 * fy - 16 * SCALE, 500 * (fx - fy), 200 * (fy - fz))
}

/// The CIELab point of an sRGB color.
#[verifier::opaque]
pub open spec fn cielab_of(c: Rgb) -> (int, int, int) {
    cielab_of_xyz(xyz_of(c))
}

impl XYZ {
    pub open spec fn view3(self) -> (int, int, int) {
        (self.x as int, self.y as int, self.z as int)
    }

    /// The XYZ point of an sRGB color.
    pub fn from_rgb(rgb: &Rgb) -> (r: Self)
        ensures
            r.view3() == xyz_of(*rgb),
            0 <= r.x <= 95050000 && 0 <= r.y <= 100000000 && 0 <= r.z <= 108900000,
    {
        proof {
            lemma_linear_bounds(rgb.r);
            lemma_linear_bounds(rgb.g);
            lemma_linear_bounds(rgb.b);
        }
        let r = LINEAR[rgb.r as usize] as i64;
        let g = LINEAR[rgb.g as usize] as i64;
        let b = LINEAR[rgb.b as usize] as i64;
        XYZ {
            x: (4124 * r + 3576 * g + 1805 * b) / 100,
            y: (2126 * r + 7152 * g + 722 * b) / 100,
            z: (193 * r + 1192 * g + 9505 * b) / 100,
        }
    }
}

/// The CIELab companding function, for ratios up to a little above white.
fn lab_companding(t: i64) -> (r: i64)
    requires
        0 <= t <= 1100000,
    ensures
        r == lab_f(t as int),
        0 <= r <= 1100000,
{
    if t > 8856 {
        assert(t * 1000000000000 <= 1100000int * 1100000 * 1100000) by (nonlinear_arith) requires 0 <= t <= 1100000;
        let r = cube_root((t as u64) * 1000000000000u64);
        proof {
            lemma_cube_root_bound(t * SCALE_SQ, r as int, 1100000);
        }
        r as i64
    } else {
        7787 * t / 1000 + 137931
    }
}

/// A point in CIELab, each coordinate in millionths.
#[derive(Clone, Copy, Debug, PartialEq, Eq, Structural)]
pub struct CieLab {
    pub l: i64,
    pub a: i64,
    pub b: i64,
}

impl CieLab {
    pub open spec fn view3(self) -> (int, int, int) {
        (self.l as int, self.a as int, self.b as int)
    }

    /// Each coordinate lies within `CIELAB_BOUND`.
    pub open spec fn wf(self) -> bool {
        &&& -CIELAB_BOUND <= self.l <= CIELAB_BOUND
        &&& -CIELAB_BOUND <= self.a <= CIELAB_BOUND
        &&& -CIELAB_BOUND <= self.b <= CIELAB_BOUND
    }

    pub fn new(l: i64, a: i64, b: i64) -> (r: Self)
        ensures
            r == (CieLab { l, a, b }),
    {
        CieLab { l, a, b }
    }

    /// The CIELab point of an XYZ point of an sRGB color.
    pub fn from_xyz(xyz: &XYZ) -> (r: Self)
        requires
            0 <= xyz.x <= 95050000 && 0 <= xyz.y <= 100000000 && 0 <= xyz.z <= 108900000,
        ensures
            r.view3() == cielab_of_xyz(xyz.view3()),
            r.wf(),
    {
        let fx = lab_companding(xyz.x * 1000 / 95047);
        let fy = lab_companding(xyz.y / 100);
        let fz = lab_companding(xyz.z * 1000 / 108883);
        CieLab { l: 116 * fy - 16 * SCALE, a: 500 * (fx - fy), b: 200 * (fy - fz) }
    }

    /// The CIELab point of an sRGB color.
    pub fn from_rgb(rgb: Rgb) -> (r: Self)
        ensures
            r.view3() == cielab_of(rgb),
            r.wf(),
    {
        reveal(cielab_of);
        Self::from_xyz(&XYZ::from_rgb(&rgb))
    }

    /// The squared Euclidean distance to `comp`, in squared millionths.
    pub fn distance_to_lab_squared(&self, comp: &CieLab) -> (r: u64)
        requires
            self.wf(),
            comp.wf(),
        ensures
            r == dist2(self.view3(), comp.view3()),
    {
        squared_gap((self.l, self.a, self.b), (comp.l, comp.a, comp.b), CIELAB_BOUND)
    }

    /// The integer part of the Euclidean distance to `comp`, in millionths.
    pub fn distance_to_lab(&self, comp: &CieLab) -> (r: u64)
        requires
            self.wf(),
            comp.wf(),
        ensures
            is_square_root(dist2(self.view3(), comp.view3()), r as int),
    {
        square_root(self.distance_to_lab_squared(comp))
    }
}

/// The coordinates of a color in the space that decides clustering, in millionths.
/// In RGB space a channel unit is one unit of the space.
pub open spec fn point_of(space: ColorSpace, c: Rgb) -> (int, int, int) {
    match space {
        ColorSpace::Rgb => (c.r * SCALE, c.g * SCALE, c.b * SCALE),
        ColorSpace::CieLab => cielab_of(c),
        ColorSpace::OkLab => oklab_of(c),
    }
}

/// A point of some color space, in millionths.
pub type Point = (i64, i64, i64);

pub open spec fn point_view(p: Point) -> (int, int, int) {
    (p.0 as int, p.1 as int, p.2 as int)
}

pub open spec fn point_bounded(p: Point) -> bool {
    &&& -CIELAB_BOUND <= p.0 <= CIELAB_BOUND
    &&& -CIELAB_BOUND <= p.1 <= CIELAB_BOUND
    &&& -CIELAB_BOUND <= p.2 <= CIELAB_BOUND
}

/// The coordinates of a color in the given space.
pub fn space_point(space: ColorSpace, c: &Rgb) -> (p: Point)
    ensures
        point_view(p) == point_of(space, *c),
        point_bounded(p),
{
    match space {
        ColorSpace::Rgb => (c.r as i64 * SCALE, c.g as i64 * SCALE, c.b as i64 * SCALE),
        ColorSpace::CieLab => {
            let p = CieLab::from_rgb(*c);
            (p.l, p.a, p.b)
        },
        ColorSpace::OkLab => {
            let p = OkLab::from_rgb(c);
            (p.l, p.a, p.b)
        },
    }
}

/// The squared distance of two points of one space.
pub fn point_distance_squared(p: Point, q: Point) -> (r: u64)
    requires
        point_bounded(p),
        point_bounded(q),
    ensures
        r == dist2(point_view(p), point_view(q)),
{
    squared_gap(p, q, CIELAB_BOUND)
}

/// The squared distance of two colors in the given space, in squared millionths of its unit.
pub open spec fn space_dist2(space: ColorSpace, a: Rgb, b: Rgb) -> int {
    dist2(point_of(space, a), point_of(space, b))
}

/// The squared distance of two colors in OkLab, in squared millionths.
pub open spec fn oklab_dist2(a: Rgb, b: Rgb) -> int {
    dist2(oklab_of(a), oklab_of(b))
}

/// The squared distance of two colors in OkLab.
pub fn oklab_distance_squared(a: &Rgb, b: &Rgb) -> (r: u64)
    ensures
        r == oklab_dist2(*a, *b),
{
    OkLab::from_rgb(a).distance_to_lab_squared(&OkLab::from_rgb(b))
}

pub open spec fn max3(a: int, b: int, c: int) -> int {
    if a >= b && a >= c {
        a
    } else if b >= c {
        b
    } else {
        c
    }
}

pub open spec fn min3(a: int, b: int, c: int) -> int {
    if a <= b && a <= c {
        a
    } else if b <= c {
        b
    } else {
        c
    }
}

/// Hue in millionths of a degree in `[0, 360)`, then saturation and lightness in millionths.
/// The blue formula of the hue wins over the green one, and that over the red one, when
/// channels tie for the maximum.
pub open spec fn hsl_of(c: Rgb) -> (int, int, int) {
    let r = c.r as int;
    let g = c.g as int;
    let b = c.b as int;
    let mx = max3(r, g, b);
    let mn = min3(r, g, b);
    let d = mx - mn;
    let h = if d == 0 {
        0
    } else if mx == b {
        60 * SCALE * (r - g + 4 * d) / d
    } else if mx == g {
        60 * SCALE * (b - r + 2 * d) / d
    } else if 60 * SCALE * (g - b) / d < 0 {
        60 * SCALE * (g - b) / d + 360 * SCALE
    } else {
        60 * SCALE * (g - b) / d
    };
    let s = if d == 0 {
        0
    } else {
        d * SCALE / (255 - abs(mx + mn - 255))
    };
    (h, s, (mx + mn) * SCALE / 510)
}

/// Which component of HSL a distance speaks of.
#[derive(Clone, Copy, Debug, PartialEq, Eq, Structural)]
pub enum HSLDistanceType {
    Hue,
    Saturation,
    Lightness,
}

/// Hue, saturation and lightness; the hue in millionths of a degree, the others in millionths.
#[derive(Clone, Copy, Debug, PartialEq, Eq, Structural)]
pub struct HSL {
    pub h: i64,
    pub s: i64,
    pub l: i64,
}

/// The root of `a * a - b * b` where that is not negative, else nothing.
pub open spec fn square_gap_root(a: int, b: int, r: Option<u64>) -> bool {
    match r {
        Some(v) => a * a >= b * b && is_square_root(a * a - b * b, v as int),
        None => a * a < b * b,
    }
}

/// A quotient lies between the bounds that its dividend does, in multiples of the divisor.
pub proof fn lemma_div_between(n: int, d: int, lo: int, hi: int)
    requires
        d > 0,
        lo * d <= n <= hi * d,
    ensures
        lo <= n / d <= hi,
{
    lemma_fundamental_div_mod(n, d);
    let q = n / d;
    let r = n % d;
    assert(lo <= q <= hi) by (nonlinear_arith)
        requires
            d > 0,
            lo * d <= n <= hi * d,
            n == d * q + r,
            0 <= r < d,
    ;
}

fn square_gap(a: i64, b: i64) -> (r: Option<u64>)
    requires
        0 <= a <= 360 * SCALE,
        0 <= b <= 360 * SCALE,
    ensures
        square_gap_root(a as int, b as int, r),
{
    assert(0 <= a * a <= 360 * SCALE * 360 * SCALE) by (nonlinear_arith) requires 0 <= a <= 360 * SCALE;
    assert(0 <= b * b <= 360 * SCALE * 360 * SCALE) by (nonlinear_arith) requires 0 <= b <= 360 * SCALE;
    let aa = (a as u64) * (a as u64);
    let bb = (b as u64) * (b as u64);
    if aa >= bb {
        Some(square_root(aa - bb))
    } else {
        None
    }
}

impl HSL {
    pub open spec fn view3(self) -> (int, int, int) {
        (self.h as int, self.s as int, self.l as int)
    }

    /// Hue in `[0, 360)` degrees, saturation and lightness in `[0, 1]`.
    pub open spec fn wf(self) -> bool {
        &&& 0 <= self.h < 360 * SCALE
        &&& 0 <= self.s <= SCALE
        &&& 0 <= self.l <= SCALE
    }

    pub fn new(h: i64, s: i64, l: i64) -> (r: Self)
        ensures
            r == (HSL { h, s, l }),
    {
        HSL { h, s, l }
    }

    /// Hue, saturation and lightness of an sRGB color.
    pub fn from_rgb(rgb: &Rgb) -> (r: Self)
        ensures
            r.view3() == hsl_of(*rgb),
            r.wf(),
    {
        let r = rgb.r as i128;
        let g = rgb.g as i128;
        let b = rgb.b as i128;
        let mx = if r >= g && r >= b { r } else if g >= b { g } else { b };
        let mn = if r <= g && r <= b { r } else if g <= b { g } else { b };
        let d = mx - mn;
        let sc = SCALE as i128;
        let h: i128 = if d == 0 {
            0
        } else if mx == b {
            proof { lemma_div_between(60 * SCALE * (r - g + 4 * d), d as int, 180 * SCALE, 300 * SCALE); }
            floor_div(60 * sc * (r - g + 4 * d), d)
        } else if mx == g {
            proof { lemma_div_between(60 * SCALE * (b - r + 2 * d), d as int, 60 * SCALE, 180 * SCALE); }
            floor_div(60 * sc * (b - r + 2 * d), d)
        } else {
            proof {
                assert(mx == r && -d <= g - b <= d);
                assert(-60 * SCALE * d <= 60 * SCALE * (g - b) <= 60 * SCALE * d) by (nonlinear_arith)
                    requires
                        -d <= g - b <= d,
                ;
                lemma_div_between(60 * SCALE * (g - b), d as int, -60 * SCALE, 60 * SCALE);
            }
            let x = floor_div(60 * sc * (g - b), d);
            if x < 0 {
                x + 360 * sc
            } else {
                x
            }
        };
        let den = 255 - (if mx + mn >= 255 { mx + mn - 255 } else { 255 - mx - mn });
        let s: i128 = if d == 0 {
            0
        } else {
            assert(d <= den && den > 0);
            proof { lemma_div_between(d * SCALE, den as int, 0, SCALE as int); }
            d * sc / den
        };
        let l = (mx + mn) * sc / 510;
        HSL { h: h as i64, s: s as i64, l: l as i64 }
    }

    /// `sqrt(h^2 - h'^2)` of the hues, where the root exists.
    pub fn hue_distance(&self, hsl: &HSL) -> (r: Option<u64>)
        requires
            self.wf(),
            hsl.wf(),
        ensures
            square_gap_root(self.h as int, hsl.h as int, r),
    {
        square_gap(self.h, hsl.h)
    }

    /// `sqrt(s^2 - s'^2)` of the saturations, where the root exists.
    pub fn saturation_distance(&self, hsl: &HSL) -> (r: Option<u64>)
        requires
            self.wf(),
            hsl.wf(),
        ensures
            square_gap_root(self.s as int, hsl.s as int, r),
    {
        square_gap(self.s, hsl.s)
    }

    /// `sqrt(l^2 - l'^2)` of the lightnesses, where the root exists.
    pub fn lightness_distance(&self, hsl: &HSL) -> (r: Option<u64>)
        requires
            self.wf(),
            hsl.wf(),
        ensures
            square_gap_root(self.l as int, hsl.l as int, r),
    {
        square_gap(self.l, hsl.l)
    }

    /// The distance of the chosen component.
    pub fn component_distance(&self, hsl: &HSL, kind: HSLDistanceType) -> (r: Option<u64>)
        requires
            self.wf(),
            hsl.wf(),
        ensures
            kind == HSLDistanceType::Hue ==> square_gap_root(self.h as int, hsl.h as int, r),
            kind == HSLDistanceType::Saturation ==> square_gap_root(self.s as int, hsl.s as int, r),
            kind == HSLDistanceType::Lightness ==> square_gap_root(self.l as int, hsl.l as int, r),
    {
        match kind {
            HSLDistanceType::Hue => self.hue_distance(hsl),
            HSLDistanceType::Saturation => self.saturation_distance(hsl),
            HSLDistanceType::Lightness => self.lightness_distance(hsl),
        }
    }
}

/// The 8-bit level whose linear light lies nearest to `v`.
pub open spec fn nearest_of(v: int) -> u8 {
    choose|b: u8| is_nearest_level(v, b)
}

pub proof fn lemma_nearest_unique(v: int, b1: u8, b2: u8)
    requires
        is_nearest_level(v, b1),
        is_nearest_level(v, b2),
    ensures
        b1 == b2,
{
    if b1 < b2 {
        assert(level_gap(v, b2 as int) < level_gap(v, b1 as int));
        assert(level_gap(v, b1 as int) <= level_gap(v, b2 as int));
    } else if b2 < b1 {
        assert(level_gap(v, b1 as int) < level_gap(v, b2 as int));
        assert(level_gap(v, b2 as int) <= level_gap(v, b1 as int));
    }
}

/// The sRGB color of an OkLab point: each channel the level nearest in linear light.
pub open spec fn rgb_of_oklab(p: (int, int, int)) -> Rgb {
    let lin = linear_of_oklab(p);
    Rgb { r: nearest_of(lin.0), g: nearest_of(lin.1), b: nearest_of(lin.2) }
}

impl OkLab {
    /// The sRGB color of this point, as a value of `rgb_of_oklab`.
    pub fn to_rgb_color(&self) -> (r: Rgb)
        requires
            self.wf(),
        ensures
            r == rgb_of_oklab(self.view3()),
    {
        let r = self.to_rgb();
        proof {
            let lin = linear_of_oklab(self.view3());
            lemma_nearest_unique(lin.0, r.r, nearest_of(lin.0));
            lemma_nearest_unique(lin.1, r.g, nearest_of(lin.1));
            lemma_nearest_unique(lin.2, r.b, nearest_of(lin.2));
        }
        r
    }
}

/// A channel level of a light value in millionths: `255 * v`, rounded down, within `[0, 255]`.
pub open spec fn level_of(v: int) -> u8 {
    let q = v * 255 / SCALE as int;
    if q < 0 {
        0
    } else if q > 255 {
        255
    } else {
        q as u8
    }
}

/// The sRGB color of a hue (millionths of a degree), saturation and lightness (millionths):
/// chroma `c = (1 - |2l - 1|) s`, second component `x = c (1 - |(h / 60) mod 2 - 1|)`, offset
/// `m = l - c / 2`, arranged by the sextant of the hue.
pub open spec fn rgb_of_hsl(p: (int, int, int)) -> Rgb {
    let h = p.0;
    let s = p.1;
    let l = p.2;
    let c = (SCALE - abs(2 * l - SCALE)) * s / SCALE as int;
    let x = c * (60 * SCALE - abs(h % (120 * SCALE as int) - 60 * SCALE)) / (60 * SCALE as int);
    let m = l - c / 2;
    let sextant = h / (60 * SCALE as int);
    let v = if sextant == 0 {
        (c, x, 0)
    } else if sextant == 1 {
        (x, c, 0)
    } else if sextant == 2 {
        (0, c, x)
    } else if sextant == 3 {
        (0, x, c)
    } else if sextant == 4 {
        (x, 0, c)
    } else {
        (c, 0, x)
    };
    Rgb { r: level_of(v.0 + m), g: level_of(v.1 + m), b: level_of(v.2 + m) }
}

fn level(v: i128) -> (r: u8)
    requires
        -10000000 <= v <= 10000000,
    ensures
        r == level_of(v as int),
{
    let q = floor_div(v * 255, SCALE as i128);
    if q < 0 {
        0
    } else if q > 255 {
        255
    } else {
        q as u8
    }
}

impl HSL {
    /// The sRGB color of this hue, saturation and lightness.
    pub fn to_rgb(&self) -> (r: Rgb)
        requires
            self.wf(),
        ensures
            r == rgb_of_hsl(self.view3()),
    {
        let h = self.h as i128;
        let s = self.s as i128;
        let l = self.l as i128;
        let sc = SCALE as i128;
        let dl = if 2 * l >= sc { 2 * l - sc } else { sc - 2 * l };
        assert(0 <= (sc - dl) * s <= sc * sc) by (nonlinear_arith)
            requires
                0 <= sc - dl <= sc,
                0 <= s <= sc,
        ;
        let c = (sc - dl) * s / sc;
        proof {
            lemma_div_between((sc - dl) * s, sc as int, 0, sc as int);
        }
        let t = h % (120 * sc);
        let dt = if t >= 60 * sc { t - 60 * sc } else { 60 * sc - t };
        assert(0 <= c * (60 * sc - dt) <= sc * (60 * sc)) by (nonlinear_arith)
            requires
                0 <= c <= sc,
                0 <= 60 * sc - dt <= 60 * sc,
        ;
        let x = c * (60 * sc - dt) / (60 * sc);
        proof {
            lemma_div_between(c * (60 * sc - dt), 60 * sc as int, 0, sc as int);
        }
        let m = l - c / 2;
        let sextant = h / (60 * sc);
        let (vr, vg, vb): (i128, i128, i128) = if sextant == 0 {
            (c, x, 0)
        } else if sextant == 1 {
            (x, c, 0)
        } else if sextant == 2 {
            (0, c, x)
        } else if sextant == 3 {
            (0, x, c)
        } else if sextant == 4 {
            (x, 0, c)
        } else {
            (c, 0, x)
        };
        Rgb { r: level(vr + m), g: level(vg + m), b: level(vb + m) }
    }
}

/// In every space the distance is symmetric, and zero from a color to itself.
pub proof fn lemma_distance_symmetric(space: ColorSpace, a: Rgb, b: Rgb)
    ensures
        space_dist2(space, a, b) == space_dist2(space, b, a),
        space_dist2(space, a, a) == 0,
        rgb_dist2(a, b) == rgb_dist2(b, a),
        rgb_dist2(a, a) == 0,
{
    let p = point_of(space, a);
    let q = point_of(space, b);
    assert(sq(p.0 - q.0) == sq(q.0 - p.0)) by (nonlinear_arith);
    assert(sq(p.1 - q.1) == sq(q.1 - p.1)) by (nonlinear_arith);
    assert(sq(p.2 - q.2) == sq(q.2 - p.2)) by (nonlinear_arith);
    assert(sq(a.r - b.r) == sq(b.r - a.r)) by (nonlinear_arith);
    assert(sq(a.g - b.g) == sq(b.g - a.g)) by (nonlinear_arith);
    assert(sq(a.b - b.b) == sq(b.b - a.b)) by (nonlinear_arith);
}

/// The inverse of the CIELab companding function, in millionths.
pub open spec fn lab_f_inv(f: int) -> int {
    if f * f * f > 8856 * SCALE_SQ {
        f * f * f / SCALE_SQ as int
    } else {
        (f - 137931) * 1000 / 7787
    }
}

/// Linear sRGB light, in millionths, of a CIELab point under the D65 white.
pub open spec fn linear_of_cielab(p: (int, int, int)) -> (int, int, int) {
    let fy = (p.0 + 16 * SCALE) / 116;
    let fx = fy + p.1 / 500;
    let fz = fy - p.2 / 200;
    let x = lab_f_inv(fx) * 95047 / 1000;
    let y = lab_f_inv(fy) * 100;
    let z = lab_f_inv(fz) * 108883 / 1000;
    (
        (32406 * x - 15372 * y - 4986 * z) / 1000000,
        (18758 * y - 9689 * x + 415 * z) / 1000000,
        (557 * x - 2040 * y + 10570 * z) / 1000000,
    )
}

fn lab_f_inverse(f: i128) -> (r: i128)
    requires
        -10000000 <= f <= 10000000,
    ensures
        r == lab_f_inv(f as int),
        -1000000000 <= r <= 1000000000,
{
    let c = cube(f);
    if c > 8856 * SCALE_SQ {
        floor_div(c, SCALE_SQ)
    } else {
        floor_div((f - 137931) * 1000, 7787)
    }
}

impl CieLab {
    /// The sRGB color of this point: each channel is the level nearest in linear light.
    pub fn to_rgb(&self) -> (r: Rgb)
        requires
            self.wf(),
        ensures
            is_nearest_level(linear_of_cielab(self.view3()).0, r.r),
            is_nearest_level(linear_of_cielab(self.view3()).1, r.g),
            is_nearest_level(linear_of_cielab(self.view3()).2, r.b),
    {
        let l = self.l as i128;
        let a = self.a as i128;
        let b = self.b as i128;
        let fy = floor_div(l + 16 * SCALE as i128, 116);
        let fx = fy + floor_div(a, 500);
        let fz = fy - floor_div(b, 200);
        let x = floor_div(lab_f_inverse(fx) * 95047, 1000);
        let y = lab_f_inverse(fy) * 100;
        let z = floor_div(lab_f_inverse(fz) * 108883, 1000);
        let lr = floor_div(32406 * x - 15372 * y - 4986 * z, 1000000);
        let lg = floor_div(18758 * y - 9689 * x + 415 * z, 1000000);
        let lb = floor_div(557 * x - 2040 * y + 10570 * z, 1000000);
        Rgb { r: nearest_level(lr), g: nearest_level(lg), b: nearest_level(lb) }
    }
}

/// The signed integer cube root of a value of at most `u64::MAX` in magnitude.
fn signed_cube_root(n: i128) -> (r: i128)
    requires
        -0xffff_ffff_ffff_ffff <= n <= 0xffff_ffff_ffff_ffff,
    ensures
        r == cbrt(n as int),
        -4194304 <= r <= 4194304,
{
    if n >= 0 {
        let r = cube_root(n as u64);
        proof {
            lemma_cube_root_bound(n as int, r as int, 4194304);
        }
        r as i128
    } else {
        let r = cube_root((-n) as u64);
        proof {
            lemma_cube_root_bound(-n, r as int, 4194304);
        }
        -(r as i128)
    }
}

/// The OkLab point of an XYZ point given on the scale where white has `Y = 100`.
pub open spec fn oklab_of_xyz(p: (int, int, int)) -> (int, int, int) {
    let l = (8189330101 * p.0 + 3618667424 * p.1 - 1288597137 * p.2) / 1000000000000;
    let m = (329845436 * p.0 + 9293118715 * p.1 + 361456387 * p.2) / 1000000000000;
    let s = (482003018 * p.0 + 2643662691 * p.1 + 6338517070 * p.2) / 1000000000000;
    oklab_of_lms_root((cbrt(l * SCALE_SQ as int), cbrt(m * SCALE_SQ as int), cbrt(s * SCALE_SQ as int)))
}

/// The XYZ point, on the scale where white has `Y = 100`, of an OkLab point.
pub open spec fn xyz_of_oklab(p: (int, int, int)) -> (int, int, int) {
    let ql = (9999999985 * p.0 + 3963377922 * p.1 + 2158037581 * p.2) / COEF as int;
    let qm = (10000000089 * p.0 - 1055613423 * p.1 - 638541748 * p.2) / COEF as int;
    let qs = (10000000547 * p.0 - 894841821 * p.1 - 12914855379 * p.2) / COEF as int;
    let l = ql * ql * ql / SCALE_SQ as int;
    let m = qm * qm * qm / SCALE_SQ as int;
    let s = qs * qs * qs / SCALE_SQ as int;
    (
        (12270138511 * l - 5577999807 * m + 2812561490 * s) / COEF as int * 100,
        (11122568696 * m - 405801784 * l - 716766787 * s) / COEF as int * 100,
        (15861632204 * s - 763812845 * l - 4214819784 * m) / COEF as int * 100,
    )
}

impl OkLab {
    /// The OkLab point of an XYZ point given on the scale where white has `Y = 100`.
    pub fn from_xyz(xyz: &XYZ) -> (r: Self)
        requires
            -200000000 <= xyz.x <= 200000000,
            -200000000 <= xyz.y <= 200000000,
            -200000000 <= xyz.z <= 200000000,
        ensures
            r.view3() == oklab_of_xyz(xyz.view3()),
    {
        let x = xyz.x as i128;
        let y = xyz.y as i128;
        let z = xyz.z as i128;
        let l = floor_div(8189330101 * x + 3618667424 * y - 1288597137 * z, 1000000000000);
        let m = floor_div(329845436 * x + 9293118715 * y + 361456387 * z, 1000000000000);
        let s = floor_div(482003018 * x + 2643662691 * y + 6338517070 * z, 1000000000000);
        let lr = signed_cube_root(l * SCALE_SQ);
        let mr = signed_cube_root(m * SCALE_SQ);
        let sr = signed_cube_root(s * SCALE_SQ);
        let ll = floor_div(2104542553 * lr + 7936177850 * mr - 40720468 * sr, COEF);
        let aa = floor_div(19779984951 * lr - 24285922050 * mr + 4505937099 * sr, COEF);
        let bb = floor_div(259040371 * lr + 7827717662 * mr - 8086757660 * sr, COEF);
        OkLab { l: ll as i64, a: aa as i64, b: bb as i64 }
    }

    /// The XYZ point of this point, on the scale where white has `Y = 100`.
    pub fn to_xyz(&self) -> (r: XYZ)
        requires
            self.wf(),
        ensures
            r.view3() == xyz_of_oklab(self.view3()),
    {
        let pl = self.l as i128;
        let pa = self.a as i128;
        let pb = self.b as i128;
        let ql = floor_div(9999999985 * pl + 3963377922 * pa + 2158037581 * pb, COEF);
        let qm = floor_div(10000000089 * pl - 1055613423 * pa - 638541748 * pb, COEF);
        let qs = floor_div(10000000547 * pl - 894841821 * pa - 12914855379 * pb, COEF);
        assert(-10000000 <= ql <= 10000000 && -10000000 <= qm <= 10000000 && -10000000 <= qs <= 10000000);
        let l = floor_div(cube(ql), SCALE_SQ);
        let m = floor_div(cube(qm), SCALE_SQ);
        let s = floor_div(cube(qs), SCALE_SQ);
        assert(-1000000000 <= l <= 1000000000 && -1000000000 <= m <= 1000000000 && -1000000000 <= s <= 1000000000);
        let x = floor_div(12270138511 * l - 5577999807 * m + 2812561490 * s, COEF);
        let y = floor_div(11122568696 * m - 405801784 * l - 716766787 * s, COEF);
        let z = floor_div(15861632204 * s - 763812845 * l - 4214819784 * m, COEF);
        XYZ { x: (x * 100) as i64, y: (y * 100) as i64, z: (z * 100) as i64 }
    }
}

} // verus!
