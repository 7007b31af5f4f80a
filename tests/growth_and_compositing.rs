use ast_gen::asteroid::GeneratedAsteroid;
use ast_gen::bias::{canvas_side, push_accepted};
use ast_gen::growth::{generate, Growth};
use ast_gen::raster::Raster;
use rand::rngs::StdRng;
use rand::SeedableRng;

fn filled(mask: &Raster<u8>) -> usize {
    mask.pixels.iter().filter(|p| **p != 0).count()
}

fn mask(width: u32, height: u32, cells: &[usize]) -> Raster<u8> {
    let mut pixels = vec![0u8; (width * height) as usize];
    for c in cells {
        pixels[*c] = 255;
    }
    Raster { width, height, pixels }
}

fn hand_made(layers: Vec<(Raster<u8>, u8)>, size: (u32, u32)) -> GeneratedAsteroid {
    GeneratedAsteroid { layers, colored_img: None, combined_img: None, layer_size: size }
}

#[test]
fn single_band_of_a_hundred_pixels() {
    let mut rng = StdRng::seed_from_u64(7);
    let a = generate(100, 1, None, &mut rng);
    assert_eq!(a.layer_size, (16, 16));
    assert_eq!(a.layers.len(), 1);
    assert_eq!(a.layers[0].1, 255);
    let n = filled(&a.layers[0].0);
    assert!(n >= 1 && n <= 100);
}

#[test]
fn four_bands_of_a_thousand_pixels() {
    let mut rng = StdRng::seed_from_u64(11);
    let a = generate(1000, 4, None, &mut rng);
    assert!(a.layers.len() <= 4);
    let expected = [255u8, 192, 129, 66];
    for (k, (_, c)) in a.layers.iter().enumerate() {
        assert_eq!(*c, expected[k]);
    }
    let a = a.combine_gray();
    let g = a.combined_img.as_ref().unwrap();
    let opaque = g.pixels.iter().filter(|p| p.1 != 0).count();
    assert!(opaque >= 1 && opaque <= 1000);
}

#[test]
fn bands_are_disjoint_and_within_area() {
    for seed in 0..10u64 {
        let mut rng = StdRng::seed_from_u64(seed);
        let a = generate(300, 5, Some((2, 1)), &mut rng);
        assert!(a.layers.len() >= 1 && a.layers.len() <= 5);
        let total: usize = a.layers.iter().map(|(m, _)| filled(m)).sum();
        assert!(total <= 300);
        let n = (a.layer_size.0 * a.layer_size.1) as usize;
        for i in 0..n {
            let owners = a.layers.iter().filter(|(m, _)| m.pixels[i] != 0).count();
            assert!(owners <= 1);
        }
        for w in a.layers.windows(2) {
            assert!(w[0].1 >= w[1].1);
        }
    }
}

#[test]
fn more_bands_than_pixels() {
    let mut rng = StdRng::seed_from_u64(3);
    let a = generate(3, 10, None, &mut rng);
    assert!(a.layers.len() <= 10);
    for (k, (_, c)) in a.layers.iter().enumerate() {
        assert_eq!(*c as usize, 255 - k * 25);
    }
    let total: usize = a.layers.iter().map(|(m, _)| filled(m)).sum();
    assert_eq!(total, 3);
}

fn second_moment_ratio(axis: Option<(i32, i32)>, seed: u64) -> f64 {
    let mut rng = StdRng::seed_from_u64(seed);
    let a = generate(1500, 1, axis, &mut rng);
    let side = a.layer_size.0 as f64;
    let (mut sxx, mut syy, mut n) = (0.0f64, 0.0f64, 0.0f64);
    for (i, p) in a.layers[0].0.pixels.iter().enumerate() {
        if *p != 0 {
            let x = (i as u32 % a.layer_size.0) as f64 - side / 2.0;
            let y = (i as u32 / a.layer_size.0) as f64 - side / 2.0;
            sxx += x * x;
            syy += y * y;
            n += 1.0;
        }
    }
    assert!(n > 0.0);
    sxx / syy
}

#[test]
fn axis_elongates_the_silhouette() {
    let trials = 20u64;
    let mut with_axis = 0.0;
    let mut without = 0.0;
    for seed in 0..trials {
        with_axis += second_moment_ratio(Some((1, 0)), seed);
        without += second_moment_ratio(None, seed + 1000);
    }
    with_axis /= trials as f64;
    without /= trials as f64;
    assert!(with_axis > without * 1.2, "{} vs {}", with_axis, without);
    assert!(without > 0.7 && without < 1.4);
}

#[test]
fn canvas_side_is_ceiling_of_root() {
    assert_eq!(canvas_side(100), 16);
    assert_eq!(canvas_side(1), 2);
    assert_eq!(canvas_side(10), 5);
    assert_eq!(canvas_side(1000), 50);
    assert_eq!(canvas_side(1001), 51);
}

#[test]
fn push_factor_in_integers() {
    assert!(push_accepted(4095, 10, 10, None));
    assert!(push_accepted(4095, 0, 0, Some((0, 1))));
    // perpendicular to the axis: only the 0.45 floor admits
    assert!(push_accepted(1843, 10, 0, Some((0, 1))));
    assert!(!push_accepted(1844, 10, 0, Some((0, 1))));
    // along the axis every draw is admitted
    assert!(push_accepted(4095, 0, -8, Some((0, 3))));
    // at 45 degrees the factor is about 0.707
    assert!(push_accepted(2896, 6, 6, Some((1, 0))));
    assert!(!push_accepted(2897, 6, 6, Some((1, 0))));
    // a zero axis leaves only the floor
    assert!(!push_accepted(1844, 4, 4, Some((0, 0))));
}

#[test]
fn band_closes_after_its_boundary() {
    let mut g = Growth::new(4, 2);
    assert_eq!(g.side, 4);
    assert_eq!(g.frontier, vec![(2, 2)]);
    assert!(g.fill((1, 1)));
    assert!(g.fill((2, 1)));
    assert_eq!(g.layers.len(), 0);
    assert!(g.fill((3, 1)));
    assert_eq!(g.layers.len(), 1);
    assert_eq!(g.layers[0].1, 255);
    assert_eq!(filled(&g.layers[0].0), 3);
    assert_eq!(g.band_color, 128);
    assert!(g.band.iter().all(|p| *p == 0));
    assert!(g.fill((0, 0)));
    let a = g.finish();
    assert_eq!(a.layers.len(), 2);
    assert_eq!(a.layers[1].1, 128);
    assert_eq!(a.layers[1].0.pixels[0], 255);
    assert_eq!(filled(&a.layers[1].0), 1);
}

#[test]
fn pick_skips_stale_candidates() {
    let mut g = Growth::new(4, 1);
    g.frontier.push((2, 2));
    g.frontier.push((0, 3));
    assert_eq!(g.pick(0), Some((2, 2)));
    assert_eq!(g.frontier, vec![(0, 3), (2, 2)]);
    assert!(g.fill((2, 2)));
    assert_eq!(g.pick(1), None);
    assert_eq!(g.frontier, vec![(0, 3)]);
}

#[test]
fn offer_queues_only_empty_admitted_cells() {
    let mut g = Growth::new(4, 1);
    assert!(g.fill((2, 2)));
    assert!(!g.offer((2, 2), (2, 2), 0, None));
    assert!(g.offer((2, 2), (1, 2), 0, None));
    assert!(!g.offer((3, 2), (3, 3), 4000, Some((0, 1))));
    assert!(g.offer((2, 3), (2, 3), 4000, Some((0, 1))));
    assert_eq!(g.frontier, vec![(2, 2), (1, 2), (2, 3)]);
}

#[test]
fn gray_combination_prefers_earlier_band() {
    let a = hand_made(vec![(mask(2, 2, &[0, 1]), 255), (mask(2, 2, &[1, 2]), 128)], (2, 2));
    let a = a.combine_gray();
    let g = a.combined_img.as_ref().unwrap();
    assert_eq!(g.pixels, vec![(255, 255), (255, 255), (128, 255), (0, 0)]);
}

#[test]
fn gray_combination_twice_is_identical() {
    let mut rng = StdRng::seed_from_u64(5);
    let a = generate(200, 3, None, &mut rng).combine_gray();
    let first = a.combined_img.as_ref().unwrap().pixels.clone();
    let a = a.combine_gray();
    assert_eq!(a.combined_img.as_ref().unwrap().pixels, first);
}

#[test]
fn colored_combination_scales_hue() {
    let a = hand_made(vec![(mask(2, 1, &[0]), 255), (mask(2, 1, &[1]), 128)], (2, 1));
    let a = a.combine_colored(Some([100, 200, 50]));
    let c = a.colored_img.as_ref().unwrap();
    assert_eq!(c.pixels, vec![(100, 200, 50, 255), (50, 100, 25, 255)]);
    let b = hand_made(vec![(mask(2, 1, &[1]), 128)], (2, 1)).combine_colored(None);
    assert_eq!(b.colored_img.unwrap().pixels, vec![(0, 0, 0, 0), (128, 128, 128, 255)]);
}

#[test]
fn ensure_keeps_a_cached_raster() {
    let a = hand_made(vec![(mask(2, 1, &[0]), 200)], (2, 1)).ensure_gray();
    assert_eq!(a.combined_img.as_ref().unwrap().pixels, vec![(200, 255), (0, 0)]);
    let mut a = a;
    a.layers[0].1 = 10;
    let a = a.ensure_gray();
    assert_eq!(a.combined_img.as_ref().unwrap().pixels, vec![(200, 255), (0, 0)]);
    let a = a.ensure_colored();
    assert_eq!(a.colored_img.as_ref().unwrap().pixels, vec![(10, 10, 10, 255), (0, 0, 0, 0)]);
}

#[test]
fn two_band_layer_masks_are_isolated() {
    let a = hand_made(vec![(mask(2, 2, &[0, 3]), 255), (mask(2, 2, &[1]), 128)], (2, 2));
    let m0 = a.layer_image(0);
    let m1 = a.layer_image(1);
    assert_eq!(m0.pixels, vec![(255, 255), (0, 0), (0, 0), (255, 255)]);
    assert_eq!(m1.pixels, vec![(0, 0), (255, 255), (0, 0), (0, 0)]);
    assert_eq!((m1.width, m1.height), (2, 2));
}

#[test]
fn smoothing_dilates_each_band() {
    let a = hand_made(vec![(mask(5, 5, &[12]), 255), (mask(5, 5, &[0]), 128)], (5, 5));
    let a = a.smoothen_all(1);
    let expect0: Vec<u8> = (0..25)
        .map(|i| if (1..4).contains(&(i % 5)) && (1..4).contains(&(i / 5)) { 255 } else { 0 })
        .collect();
    assert_eq!(a.layers[0].0.pixels, expect0);
    assert_eq!(a.layers[0].1, 255);
    assert_eq!(filled(&a.layers[1].0), 4);
    assert_eq!(a.layers[1].0.pixels[6], 255);
    assert_eq!(a.layers[1].1, 128);
}

#[test]
fn smoothing_by_radius_zero_keeps_masks() {
    let a = hand_made(vec![(mask(3, 2, &[0, 4]), 255), (mask(3, 2, &[2]), 128)], (3, 2));
    let before: Vec<Vec<u8>> = a.layers.iter().map(|(m, _)| m.pixels.clone()).collect();
    let a = a.smoothen_all(0);
    let after: Vec<Vec<u8>> = a.layers.iter().map(|(m, _)| m.pixels.clone()).collect();
    assert_eq!(before, after);
}

#[test]
fn smoothing_an_empty_mask_follows_the_distance_cap() {
    // width + height = 4: a radius of 4 reaches the cap, a radius of 3 does not
    let a = hand_made(vec![(mask(2, 2, &[]), 255)], (2, 2)).smoothen_all(4);
    assert_eq!(a.layers[0].0.pixels, vec![255, 255, 255, 255]);
    let b = hand_made(vec![(mask(2, 2, &[]), 255)], (2, 2)).smoothen_all(3);
    assert_eq!(b.layers[0].0.pixels, vec![0, 0, 0, 0]);
}

#[test]
fn seed_is_filled_in_first_band() {
    for seed in 0..5u64 {
        let mut rng = StdRng::seed_from_u64(seed);
        let a = generate(400, 3, Some((1, 2)), &mut rng);
        let side = a.layer_size.0 as usize;
        assert_eq!(a.layers[0].0.pixels[(side / 2) * side + side / 2], 255);
    }
}

#[test]
fn bands_close_right_after_their_boundaries() {
    let mut rng = StdRng::seed_from_u64(21);
    let a = generate(1000, 4, None, &mut rng);
    assert_eq!(a.layers.len(), 4);
    let counts: Vec<usize> = a.layers.iter().map(|(m, _)| filled(m)).collect();
    assert_eq!(counts[0], 251);
    assert_eq!(counts[0] + counts[1], 501);
    assert_eq!(counts[0] + counts[1] + counts[2], 751);
    assert_eq!(counts.iter().sum::<usize>(), 1000);
}
