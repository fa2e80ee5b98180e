use ddot::image::{Color, Image};
use ddot::palette::kmeans::{kmeans_samples, kmeans_seed_indices, KMeans};
use ddot::palette::median_cut::{MedianCut, MedianCutParams};
use ddot::palette::octree::{Octree, OctreeParams};
use ddot::palette::PaletteGenerator;

fn create_test_image() -> Image {
    let mut pixels = Vec::new();
    for _ in 0..10 {
        pixels.extend_from_slice(&[255, 0, 0, 255]);
    }
    for _ in 0..10 {
        pixels.extend_from_slice(&[0, 255, 0, 255]);
    }
    for _ in 0..10 {
        pixels.extend_from_slice(&[0, 0, 255, 255]);
    }
    for _ in 0..10 {
        pixels.extend_from_slice(&[255, 255, 0, 255]);
    }

    Image { width: 40, height: 1, pixels }
}

fn has_each_test_color(colors: Vec<Color>) {
    let mut has_red = false;
    let mut has_green = false;
    let mut has_blue = false;
    let mut has_yellow = false;

    for c in colors {
        if c.r > 200 && c.g < 50 && c.b < 50 {
            has_red = true;
        }
        if c.r < 50 && c.g > 200 && c.b < 50 {
            has_green = true;
        }
        if c.r < 50 && c.g < 50 && c.b > 200 {
            has_blue = true;
        }
        if c.r > 200 && c.g > 200 && c.b < 50 {
            has_yellow = true;
        }
    }

    assert!(has_red);
    assert!(has_green);
    assert!(has_blue);
    assert!(has_yellow);
}

#[test]
fn test_median_cut() {
    let image = create_test_image();
    let generator = MedianCut;
    let palette = generator.calculate(&image, &MedianCutParams { n_of_colors: 4 });
    assert_eq!(palette.colors.len(), 4);
    has_each_test_color(palette.colors);
}

#[test]
fn test_octree() {
    let image = create_test_image();
    let generator = Octree;
    let palette = generator.calculate(&image, &OctreeParams { n_of_colors: 4 });
    assert_eq!(palette.colors.len(), 4);
    has_each_test_color(palette.colors);
}

#[test]
fn generator_names() {
    assert_eq!(MedianCut.name(), "median_cut");
    assert_eq!(Octree.name(), "octree");
    assert_eq!(KMeans.name(), "kmeans");
}

#[test]
fn median_cut_empty_image_or_zero_colors_gives_empty_palette() {
    let empty = Image { width: 0, height: 0, pixels: vec![] };
    assert!(MedianCut.calculate(&empty, &MedianCutParams { n_of_colors: 4 }).colors.is_empty());
    let image = create_test_image();
    assert!(MedianCut.calculate(&image, &MedianCutParams { n_of_colors: 0 }).colors.is_empty());
}

#[test]
fn median_cut_single_bucket_is_weighted_mean() {
    // 3 pixels of value 0 and 1 pixel of value 255: mean 63.75 rounds to 64.
    let image = Image {
        width: 4,
        height: 1,
        pixels: vec![0, 0, 0, 255, 0, 0, 0, 255, 0, 0, 0, 255, 255, 255, 255, 255],
    };
    let palette = MedianCut.calculate(&image, &MedianCutParams { n_of_colors: 1 });
    assert_eq!(palette.colors, vec![Color { r: 64, g: 64, b: 64, a: 255 }]);
}

#[test]
fn median_cut_rounds_half_up() {
    // One pixel of 0 and one of 1: mean 0.5 rounds to 1.
    let image = Image { width: 2, height: 1, pixels: vec![0, 0, 0, 255, 1, 1, 1, 255] };
    let palette = MedianCut.calculate(&image, &MedianCutParams { n_of_colors: 1 });
    assert_eq!(palette.colors, vec![Color { r: 1, g: 1, b: 1, a: 255 }]);
}

#[test]
fn median_cut_never_exceeds_requested_colors() {
    let image = create_test_image();
    for n in 1..6u32 {
        let palette = MedianCut.calculate(&image, &MedianCutParams { n_of_colors: n });
        assert!(palette.colors.len() <= n as usize);
        assert!(palette.colors.iter().all(|c| c.a == 255));
    }
}

#[test]
fn octree_never_exceeds_requested_colors() {
    let image = create_test_image();
    for n in 1..6u32 {
        let palette = Octree.calculate(&image, &OctreeParams { n_of_colors: n });
        assert!(palette.colors.len() <= n as usize);
    }
}

#[test]
fn octree_single_color_is_that_color() {
    let image = Image { width: 2, height: 1, pixels: vec![10, 20, 30, 255, 10, 20, 30, 255] };
    let palette = Octree.calculate(&image, &OctreeParams { n_of_colors: 8 });
    assert_eq!(palette.colors, vec![Color { r: 10, g: 20, b: 30, a: 255 }]);
}

#[test]
fn median_cut_reproduces_few_colors_exactly() {
    let image = create_test_image();
    let palette = MedianCut.calculate(&image, &MedianCutParams { n_of_colors: 8 });
    let mut got: Vec<(u8, u8, u8, u8)> = palette.colors.iter().map(|c| (c.r, c.g, c.b, c.a)).collect();
    got.sort();
    assert_eq!(
        got,
        vec![(0, 0, 255, 255), (0, 255, 0, 255), (255, 0, 0, 255), (255, 255, 0, 255)]
    );
}

#[test]
fn median_cut_nonempty_for_nonempty_image() {
    let image = Image { width: 1, height: 1, pixels: vec![9, 8, 7, 0] };
    let palette = MedianCut.calculate(&image, &MedianCutParams { n_of_colors: 1 });
    assert_eq!(palette.colors, vec![Color { r: 9, g: 8, b: 7, a: 255 }]);
}

#[test]
fn octree_reproduces_few_colors_exactly() {
    let image = create_test_image();
    let palette = Octree.calculate(&image, &OctreeParams { n_of_colors: 8 });
    let mut got: Vec<(u8, u8, u8, u8)> = palette.colors.iter().map(|c| (c.r, c.g, c.b, c.a)).collect();
    got.sort();
    assert_eq!(
        got,
        vec![(0, 0, 255, 255), (0, 255, 0, 255), (255, 0, 0, 255), (255, 255, 0, 255)]
    );
}

#[test]
fn octree_merges_when_too_many_colors() {
    // Two nearby colors and one limit: they merge into their average.
    let image = Image { width: 2, height: 1, pixels: vec![10, 10, 10, 255, 12, 12, 12, 255] };
    let palette = Octree.calculate(&image, &OctreeParams { n_of_colors: 1 });
    assert_eq!(palette.colors, vec![Color { r: 11, g: 11, b: 11, a: 255 }]);
}

#[test]
fn kmeans_samples_every_pixel_of_small_images() {
    let colors = vec![Color { r: 1, g: 2, b: 3, a: 4 }, Color { r: 5, g: 6, b: 7, a: 8 }];
    assert_eq!(kmeans_samples(&colors), vec![[1, 2, 3], [5, 6, 7]]);
}

#[test]
fn kmeans_samples_with_a_stride_on_large_images() {
    let colors: Vec<Color> =
        (0..30000u32).map(|i| Color { r: (i % 256) as u8, g: 0, b: 0, a: 255 }).collect();
    let samples = kmeans_samples(&colors);
    // Stride 3: pixels 0, 3, 6, ...
    assert_eq!(samples.len(), 10000);
    assert_eq!(samples[1], [3, 0, 0]);
    assert_eq!(samples[2], [6, 0, 0]);
}

#[test]
fn kmeans_seeds_are_evenly_spaced() {
    assert_eq!(kmeans_seed_indices(10, 4), vec![0, 2, 5, 7]);
    assert_eq!(kmeans_seed_indices(3, 3), vec![0, 1, 2]);
}

#[test]
fn median_cut_gives_min_of_requested_and_distinct() {
    let mut pixels = Vec::new();
    for i in 0..20u8 {
        pixels.extend_from_slice(&[i * 10, 255 - i * 7, i * 3, 255]);
    }
    let image = Image { width: 20, height: 1, pixels };
    for n in 1..30u32 {
        let palette = MedianCut.calculate(&image, &MedianCutParams { n_of_colors: n });
        assert_eq!(palette.colors.len(), n.min(20) as usize);
    }
}

#[test]
fn median_cut_channels_stay_within_the_image() {
    let mut pixels = Vec::new();
    for i in 0..30u8 {
        pixels.extend_from_slice(&[40 + i * 5, 200 - i * 3, 90 + (i % 7) * 11, 255]);
    }
    let image = Image { width: 30, height: 1, pixels };
    let colors = image.colors();
    for n in 1..8u32 {
        let palette = MedianCut.calculate(&image, &MedianCutParams { n_of_colors: n });
        for p in &palette.colors {
            for (v, get) in [(p.r, 0), (p.g, 1), (p.b, 2)] {
                let channel = |c: &Color| [c.r, c.g, c.b][get];
                assert!(colors.iter().map(channel).min().unwrap() <= v);
                assert!(v <= colors.iter().map(channel).max().unwrap());
            }
        }
    }
}

#[test]
fn octree_channels_stay_within_the_image() {
    let mut pixels = Vec::new();
    for i in 0..40u8 {
        pixels.extend_from_slice(&[60 + i * 3, 180 - i * 2, 100 + (i % 9) * 7, 255]);
    }
    let image = Image { width: 40, height: 1, pixels };
    let colors = image.colors();
    for n in 1..10u32 {
        let palette = Octree.calculate(&image, &OctreeParams { n_of_colors: n });
        assert!(!palette.colors.is_empty());
        for p in &palette.colors {
            for (v, get) in [(p.r, 0), (p.g, 1), (p.b, 2)] {
                let channel = |c: &Color| [c.r, c.g, c.b][get];
                assert!(colors.iter().map(channel).min().unwrap() <= v);
                assert!(v <= colors.iter().map(channel).max().unwrap());
            }
        }
    }
}

#[test]
fn octree_single_leaf_holds_every_pixel() {
    let image = Image {
        width: 3,
        height: 1,
        pixels: vec![0, 0, 0, 255, 30, 60, 90, 255, 60, 0, 30, 255],
    };
    let palette = Octree.calculate(&image, &OctreeParams { n_of_colors: 1 });
    assert_eq!(palette.colors, vec![Color { r: 30, g: 20, b: 40, a: 255 }]);
}
