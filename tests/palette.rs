use iris::cluster::{AvarageRgb, Cluster, ClusterStore, PaletteError, Pixel, Position, Sample};
use iris::color::{
    rgb_distance, rgb_distance_squared, CieLab, ColorSpace, HSLDistanceType, OkLab, Rgb, HSL, XYZ,
};
use iris::creator::ImageCreator;
use iris::meanshift::{scan_image_mean_shift, MeanShiftCursor};
use iris::median::{get_median_color, median_cut, scan_image_median_color, scan_image_median_cutting};
use iris::merge::scan_image_delta_e;
use iris::online::scan_online;

fn rgb(r: u8, g: u8, b: u8) -> Rgb {
    Rgb { r, g, b }
}

fn image(colors: &[(u8, u8, u8)], width: u32) -> Vec<Pixel> {
    colors
        .iter()
        .enumerate()
        .map(|(i, &(r, g, b))| Pixel {
            rgb: rgb(r, g, b),
            alpha: 255,
            position: Position { x: i as u32 % width, y: i as u32 / width },
        })
        .collect()
}

fn sample(r: u8, g: u8, b: u8) -> Sample {
    Sample { rgb: rgb(r, g, b), position: Position { x: 0, y: 0 } }
}

fn percents(store: &ClusterStore) -> Vec<f64> {
    store.clusters.iter().map(|c| c.share as f64 / store.share_total as f64).collect()
}

fn sample_image() -> Vec<Pixel> {
    let mut colors = Vec::new();
    for i in 0..64u32 {
        colors.push(((i * 37 % 256) as u8, (i * 91 % 256) as u8, (i * 13 % 256) as u8));
    }
    let mut px = image(&colors, 8);
    for i in (0..64).step_by(7) {
        px[i].alpha = 0;
    }
    px
}

#[test]
fn two_by_two_image_gives_three_clusters() {
    let px = image(&[(255, 0, 0), (255, 0, 0), (0, 255, 0), (0, 0, 255)], 2);
    let store = scan_image_delta_e(&px, ColorSpace::Rgb, 0, 10_000).unwrap();
    assert_eq!(store.clusters.len(), 3);
    assert_eq!(percents(&store), vec![0.5, 0.25, 0.25]);
    assert_eq!(store.clusters[0].centroid, rgb(254, 0, 0));
    let plain = scan_online(&px, ColorSpace::Rgb, 0).unwrap();
    assert_eq!(percents(&plain), vec![0.5, 0.25, 0.25]);
}

#[test]
fn solid_image_gives_one_cluster() {
    let px = image(&[(10, 20, 30); 16], 4);
    for (space, gradation) in [
        (ColorSpace::Rgb, 0u64),
        (ColorSpace::Rgb, 50_000_000),
        (ColorSpace::CieLab, 10_000_000),
        (ColorSpace::OkLab, 100_000),
    ] {
        let store = scan_image_delta_e(&px, space, gradation, 10_000).unwrap();
        assert_eq!(store.clusters.len(), 1);
        assert_eq!(store.clusters[0].member_count, 16);
        assert_eq!(store.clusters[0].pixel_count, 16);
        assert_eq!(store.clusters[0].centroid, rgb(10, 20, 30));
        assert_eq!(percents(&store), vec![1.0]);
    }
}

#[test]
fn oklab_distances_of_named_pairs() {
    let white = OkLab::from_rgb(&rgb(255, 255, 255));
    let black = OkLab::from_rgb(&rgb(0, 0, 0));
    // White sits a millionth below lightness one.
    assert_eq!(white.distance_to_lab(&black), 999_999);
    let red = OkLab::from_rgb(&rgb(255, 0, 0));
    let near_red = OkLab::from_rgb(&rgb(254, 1, 1));
    assert!(red.distance_to_lab(&near_red) < 10_000);
    let px = image(&[(255, 0, 0), (254, 1, 1)], 2);
    let store = scan_image_delta_e(&px, ColorSpace::Rgb, 0, 10_000).unwrap();
    assert_eq!(store.clusters.len(), 1);
    assert_eq!(store.clusters[0].pixel_count, 2);
}

#[test]
fn mean_shift_with_zero_radius_keeps_each_color() {
    let px = image(&[(255, 0, 0), (0, 255, 0), (0, 0, 255), (255, 0, 0)], 2);
    let store = scan_image_mean_shift(&px, 0).unwrap();
    assert_eq!(store.clusters.len(), 3);
    let expected = [rgb(255, 0, 0), rgb(0, 255, 0), rgb(0, 0, 255)];
    for (c, e) in store.clusters.iter().zip(expected.iter()) {
        assert_eq!(c.centroid, *e);
        assert_eq!(c.sub_members.len(), 1);
        assert_eq!(c.sub_members[0].rgb, *e);
        assert_eq!(c.member_count, 1);
    }
}

#[test]
fn mean_shift_with_wide_radius_joins_near_colors() {
    let px = image(&[(200, 10, 10), (202, 12, 12), (10, 10, 200)], 3);
    let store = scan_image_mean_shift(&px, 100_000).unwrap();
    assert_eq!(store.clusters.len(), 2);
    assert_eq!(store.clusters[0].member_count, 2);
    assert_eq!(store.clusters[1].member_count, 1);
    assert_eq!(store.clusters[1].centroid, rgb(10, 10, 200));
    assert_eq!(percents(&store), vec![1.0, 1.0]);
}

#[test]
fn oklab_round_trip_on_a_coarse_grid() {
    for r in (0..=255u32).step_by(15) {
        for g in (0..=255u32).step_by(15) {
            for b in (0..=255u32).step_by(15) {
                let c = rgb(r as u8, g as u8, b as u8);
                let back = OkLab::from_rgb(&c).to_rgb();
                assert!((back.r as i32 - c.r as i32).abs() <= 1);
                assert!((back.g as i32 - c.g as i32).abs() <= 1);
                assert!((back.b as i32 - c.b as i32).abs() <= 1);
            }
        }
    }
}

#[test]
fn cielab_round_trip_on_a_coarse_grid() {
    for r in (0..=255u32).step_by(15) {
        for g in (0..=255u32).step_by(15) {
            for b in (0..=255u32).step_by(15) {
                let c = rgb(r as u8, g as u8, b as u8);
                let back = CieLab::from_xyz(&XYZ::from_rgb(&c)).to_rgb();
                assert!((back.r as i32 - c.r as i32).abs() <= 1);
                assert!((back.g as i32 - c.g as i32).abs() <= 1);
                assert!((back.b as i32 - c.b as i32).abs() <= 1);
            }
        }
    }
}

#[test]
fn distances_are_symmetric_and_zero_on_equal_colors() {
    let colors = [rgb(0, 0, 0), rgb(255, 255, 255), rgb(12, 200, 99), rgb(250, 3, 140)];
    for a in colors.iter() {
        for b in colors.iter() {
            assert_eq!(rgb_distance_squared(*a, *b), rgb_distance_squared(*b, *a));
            let (la, lb) = (CieLab::from_rgb(*a), CieLab::from_rgb(*b));
            assert_eq!(la.distance_to_lab_squared(&lb), lb.distance_to_lab_squared(&la));
            let (oa, ob) = (OkLab::from_rgb(a), OkLab::from_rgb(b));
            assert_eq!(oa.distance_to_lab_squared(&ob), ob.distance_to_lab_squared(&oa));
        }
        assert_eq!(rgb_distance_squared(*a, *a), 0);
        assert_eq!(CieLab::from_rgb(*a).distance_to_lab(&CieLab::from_rgb(*a)), 0);
        assert_eq!(OkLab::from_rgb(a).distance_to_lab(&OkLab::from_rgb(a)), 0);
    }
    assert_eq!(rgb_distance(rgb(0, 0, 0), rgb(3, 4, 0)), 5);
}

#[test]
fn online_scan_counts_every_opaque_pixel() {
    let px = sample_image();
    let opaque = px.iter().filter(|p| p.alpha > 0).count() as u32;
    for (space, gradation) in [
        (ColorSpace::Rgb, 0u64),
        (ColorSpace::Rgb, 60_000_000),
        (ColorSpace::CieLab, 30_000_000),
        (ColorSpace::OkLab, 150_000),
    ] {
        let store = scan_online(&px, space, gradation).unwrap();
        let total: u32 = store.clusters.iter().map(|c| c.pixel_count).sum();
        let members: u32 = store.clusters.iter().map(|c| c.member_count).sum();
        assert_eq!(total, opaque);
        assert_eq!(members, opaque);
        assert_eq!(store.share_total, opaque as u64);
    }
}

#[test]
fn percentages_add_up_to_one() {
    let px = image(&[(1, 2, 3), (200, 100, 50), (1, 2, 3), (9, 9, 9), (200, 100, 50), (30, 60, 90)], 3);
    let store = scan_online(&px, ColorSpace::OkLab, 20_000).unwrap();
    let sum: f64 = percents(&store).iter().sum();
    assert!((sum - 1.0).abs() < 1e-4);
}

#[test]
fn second_cleanup_changes_nothing() {
    let px = sample_image();
    let mut store = scan_online(&px, ColorSpace::Rgb, 0).unwrap();
    store.clean_up(150_000);
    let first: Vec<(u32, Rgb, u32, u32)> =
        store.clusters.iter().map(|c| (c.id, c.centroid, c.member_count, c.pixel_count)).collect();
    assert!(first.len() < 55);
    store.clean_up(150_000);
    let second: Vec<(u32, Rgb, u32, u32)> =
        store.clusters.iter().map(|c| (c.id, c.centroid, c.member_count, c.pixel_count)).collect();
    assert_eq!(first, second);
}

#[test]
fn cleanup_merges_into_the_first_close_cluster() {
    let px = image(&[(100, 100, 100), (200, 0, 0), (101, 100, 100), (100, 101, 100)], 2);
    let mut store = scan_online(&px, ColorSpace::Rgb, 0).unwrap();
    assert_eq!(store.clusters.len(), 4);
    store.clean_up(10_000);
    assert_eq!(store.clusters.len(), 2);
    assert_eq!(store.clusters[0].id, 0);
    assert_eq!(store.clusters[0].centroid, rgb(100, 100, 100));
    assert_eq!(store.clusters[0].pixel_count, 3);
    assert_eq!(store.clusters[1].id, 1);
    assert_eq!(store.share_total, 4);
}

#[test]
fn median_cut_yields_one_more_cluster_than_cuts() {
    let px = sample_image();
    let distinct = {
        let mut seen: Vec<Rgb> = Vec::new();
        for p in px.iter().filter(|p| p.alpha > 0) {
            if !seen.contains(&p.rgb) {
                seen.push(p.rgb);
            }
        }
        seen.len() as u32
    };
    for cuts in [0u32, 1, 2, 5, 10] {
        let store = scan_image_median_cutting(&px, cuts).unwrap();
        assert_eq!(store.clusters.len() as u32, cuts + 1);
        let members: u32 = store.clusters.iter().map(|c| c.member_count).sum();
        assert_eq!(members, distinct);
        assert_eq!(store.share_total, distinct as u64);
    }
    let few = image(&[(1, 1, 1), (2, 2, 2), (1, 1, 1)], 3);
    let store = scan_image_median_cutting(&few, 5).unwrap();
    assert_eq!(store.clusters.len(), 2);
}

#[test]
fn median_color_is_per_channel() {
    let odd = vec![sample(10, 200, 5), sample(30, 100, 7), sample(20, 150, 9)];
    assert_eq!(get_median_color(&odd), Some(rgb(20, 150, 7)));
    let even = vec![sample(0, 10, 100), sample(10, 0, 50), sample(3, 7, 0), sample(255, 255, 1)];
    assert_eq!(get_median_color(&even), Some(rgb(6, 8, 25)));
    assert_eq!(get_median_color(&Vec::new()), None);
    // No member has this color.
    assert!(!even.iter().any(|s| s.rgb == rgb(6, 8, 25)));
}

#[test]
fn median_cut_splits_on_the_widest_channel() {
    let bucket = vec![sample(0, 10, 10), sample(200, 12, 10), sample(100, 11, 10), sample(50, 10, 12)];
    let (lo, hi) = median_cut(&bucket);
    let lo_r: Vec<u8> = lo.iter().map(|s| s.rgb.r).collect();
    let hi_r: Vec<u8> = hi.iter().map(|s| s.rgb.r).collect();
    assert_eq!(lo_r, vec![0, 50]);
    assert_eq!(hi_r, vec![200, 100]);
}

#[test]
fn median_scan_gives_the_median_of_all_pixels() {
    let px = image(&[(10, 0, 0), (10, 0, 0), (200, 0, 0), (0, 50, 0), (0, 50, 0)], 5);
    let store = scan_image_median_color(&px).unwrap();
    assert_eq!(store.clusters.len(), 1);
    assert_eq!(store.clusters[0].centroid, rgb(10, 0, 0));
    assert_eq!(store.clusters[0].pixel_count, 5);
}

#[test]
fn empty_and_transparent_images_are_errors() {
    let empty: Vec<Pixel> = Vec::new();
    assert_eq!(scan_online(&empty, ColorSpace::Rgb, 0).unwrap_err(), PaletteError::EmptyImage);
    assert_eq!(scan_image_median_cutting(&empty, 2).unwrap_err(), PaletteError::EmptyImage);
    assert_eq!(scan_image_mean_shift(&empty, 10).unwrap_err(), PaletteError::EmptyImage);
    assert_eq!(scan_image_median_color(&empty).unwrap_err(), PaletteError::EmptyImage);
    let mut clear = image(&[(1, 2, 3), (4, 5, 6)], 2);
    for p in clear.iter_mut() {
        p.alpha = 0;
    }
    assert_eq!(scan_image_delta_e(&clear, ColorSpace::OkLab, 10, 10).unwrap_err(), PaletteError::NoColors);
    assert_eq!(scan_image_median_cutting(&clear, 2).unwrap_err(), PaletteError::NoColors);
    assert_eq!(scan_image_mean_shift(&clear, 10).unwrap_err(), PaletteError::NoColors);
    assert_eq!(scan_image_median_color(&clear).unwrap_err(), PaletteError::NoColors);
}

#[test]
fn single_pixel_image() {
    let px = image(&[(7, 8, 9)], 1);
    assert_eq!(scan_image_median_cutting(&px, 3).unwrap().clusters.len(), 1);
    assert_eq!(scan_image_mean_shift(&px, 50_000).unwrap().clusters.len(), 1);
    assert_eq!(scan_online(&px, ColorSpace::CieLab, 0).unwrap().clusters.len(), 1);
}

#[test]
fn merge_with_an_unknown_id_is_an_error() {
    let px = image(&[(255, 0, 0), (0, 255, 0), (0, 0, 255)], 3);
    let mut store = scan_online(&px, ColorSpace::Rgb, 0).unwrap();
    assert_eq!(store.merge_clusters(0, 9), Err(PaletteError::UnknownCluster(9)));
    assert_eq!(store.merge_clusters(7, 1), Err(PaletteError::UnknownCluster(7)));
    assert_eq!(store.clusters.len(), 3);
    assert_eq!(store.merge_clusters(0, 2), Ok(()));
    assert_eq!(store.clusters.len(), 2);
    assert_eq!(store.clusters[0].pixel_count, 2);
    assert_eq!(store.clusters[0].centroid, rgb(255, 0, 0));
}

#[test]
fn absorbing_takes_the_quadratic_mean() {
    let px = image(&[(0, 0, 0), (255, 255, 255)], 2);
    let store = scan_online(&px, ColorSpace::Rgb, 500_000_000).unwrap();
    assert_eq!(store.clusters.len(), 1);
    assert_eq!(store.clusters[0].centroid, rgb(180, 180, 180));
    assert_eq!(store.clusters[0].member_count, 2);
    assert_eq!(store.clusters[0].sub_members.len(), 1);
    let mut c = Cluster::from_rgb(0, rgb(255, 255, 255), Position { x: 0, y: 0 });
    c.avarage_with_rgb(sample(255, 255, 255), 0);
    assert_eq!(c.centroid, rgb(254, 254, 254));
    assert_eq!(c.sub_members.len(), 0);
}

#[test]
fn conversions_of_known_colors() {
    let white = CieLab::from_rgb(rgb(255, 255, 255));
    assert_eq!(white.l, 100_000_000);
    let xyz = XYZ::from_rgb(&rgb(255, 255, 255));
    assert_eq!(xyz.y, 100_000_000);
    let red = HSL::from_rgb(&rgb(255, 0, 0));
    assert_eq!((red.h, red.s, red.l), (0, 1_000_000, 500_000));
    assert_eq!(red.to_rgb(), rgb(255, 0, 0));
    let teal = HSL::from_rgb(&rgb(0, 128, 128));
    assert_eq!(teal.h, 180_000_000);
    let gray = HSL::from_rgb(&rgb(128, 128, 128));
    assert_eq!((gray.h, gray.s), (0, 0));
    assert_eq!(red.hue_distance(&teal), None);
    assert_eq!(teal.hue_distance(&red), Some(180_000_000));
    assert_eq!(red.component_distance(&gray, HSLDistanceType::Saturation), Some(1_000_000));
    assert_eq!(red.lightness_distance(&red), Some(0));
}

#[test]
fn oklab_through_xyz() {
    for c in [rgb(255, 255, 255), rgb(255, 0, 0), rgb(12, 200, 99), rgb(30, 30, 30)] {
        let a = OkLab::from_xyz(&XYZ::from_rgb(&c));
        let b = OkLab::from_rgb(&c);
        assert!((a.l - b.l).abs() < 5_000);
        assert!((a.a - b.a).abs() < 5_000);
        assert!((a.b - b.b).abs() < 5_000);
    }
    let white = OkLab::from_rgb(&rgb(255, 255, 255)).to_xyz();
    assert!((white.y - 100_000_000).abs() < 100_000);
    assert!((white.x - 95_047_000).abs() < 100_000);
    assert!((white.z - 108_883_000).abs() < 100_000);
}

#[test]
fn palette_statistics_weigh_clusters_equally() {
    let px = image(&[(255, 0, 0), (128, 128, 128), (128, 128, 128), (128, 128, 128)], 2);
    let store = scan_online(&px, ColorSpace::Rgb, 0).unwrap();
    assert_eq!(store.clusters.len(), 2);
    let stats = store.get_img_data().unwrap();
    assert_eq!(stats.saturation_range, [1_000_000, 0]);
    assert_eq!(stats.avarage_saturation, 500_000);
    assert_eq!(stats.lightness_range, [501_960, 500_000]);
    let empty = ClusterStore { clusters: Vec::new(), share_total: 0 };
    assert!(empty.get_img_data().is_none());
}

#[test]
fn removing_clusters_renormalizes() {
    let px = image(&[(255, 0, 0), (255, 0, 0), (0, 255, 0), (0, 0, 255)], 2);
    let mut store = scan_online(&px, ColorSpace::Rgb, 0).unwrap();
    store.remove_selected_color(&vec![1]);
    assert_eq!(store.clusters.len(), 2);
    assert_eq!(percents(&store), vec![2.0 / 3.0, 1.0 / 3.0]);
}

#[test]
fn switching_to_the_most_saturated_color() {
    let mut c = AvarageRgb::from_rgb(3, rgb(120, 100, 100), Position { x: 0, y: 0 });
    c.sub_members = vec![sample(200, 10, 10), sample(90, 90, 90)];
    c.switch_to_most_saturated_color();
    assert_eq!(c.centroid, rgb(200, 10, 10));
    assert_eq!(c.member_count, 2);
    let rest: Vec<Rgb> = c.sub_members.iter().map(|s| s.rgb).collect();
    assert_eq!(rest, vec![rgb(90, 90, 90), rgb(120, 100, 100)]);
}

#[test]
fn cursor_steps() {
    let mut cur = MeanShiftCursor::new(rgb(100, 0, 0), 100_000);
    assert!(cur.inside_radius(rgb(101, 0, 0)));
    assert!(!cur.inside_radius(rgb(0, 0, 255)));
    assert!(cur.add_color(rgb(100, 0, 0)));
    assert!(!cur.add_color(rgb(100, 0, 0)));
    cur.move_to_color_avarage();
    assert_eq!(cur.rgb_color, rgb(100, 0, 0));
    let other = MeanShiftCursor::new(rgb(101, 0, 0), 0);
    assert!(cur.is_same_as(&other));
}

#[test]
fn image_creator_starts_open() {
    let w = ImageCreator::new();
    assert!(w.open);
    assert_eq!(w.id, 0);
}

#[test]
fn median_cut_of_small_buckets() {
    let (lo, hi) = median_cut(&vec![sample(5, 6, 7)]);
    assert!(lo.is_empty());
    assert_eq!(hi, vec![sample(5, 6, 7)]);
    let (lo, hi) = median_cut(&Vec::new());
    assert!(lo.is_empty() && hi.is_empty());
}
