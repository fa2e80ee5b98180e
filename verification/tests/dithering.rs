use ddot::dithering::{
    closest_color, Atkinson, Bayer, Burkes, OnlyPalette, OnlyPaletteParams, Random, SierraLite,
};
use ddot::image::{Color, Image};
use ddot::palette::Palette;

fn test_gradient_image() -> Image {
    let mut pixels = Vec::new();
    for i in 0..10 {
        let v = (i * 28) as u8;
        pixels.extend_from_slice(&[v, v, v, 255]);
    }
    Image { width: 10, height: 1, pixels }
}

fn black_white_palette() -> Palette {
    Palette {
        colors: vec![Color { r: 0, g: 0, b: 0, a: 255 }, Color { r: 255, g: 255, b: 255, a: 255 }],
    }
}

#[test]
fn test_only_palette() {
    let mut img = test_gradient_image();
    let pal = black_white_palette();
    OnlyPalette.apply(&mut img, &pal, &OnlyPaletteParams {});
    for color in img.colors() {
        assert!(color.r == 0 || color.r == 255);
    }
}

#[test]
fn only_palette_splits_gradient_at_midpoint() {
    let mut img = test_gradient_image();
    OnlyPalette.apply(&mut img, &black_white_palette(), &OnlyPaletteParams {});
    let reds: Vec<u8> = img.colors().iter().map(|c| c.r).collect();
    assert_eq!(reds, vec![0, 0, 0, 0, 0, 255, 255, 255, 255, 255]);
    assert_eq!(img.width, 10);
    assert_eq!(img.height, 1);
}

#[test]
fn closest_color_prefers_first_on_tie() {
    let pal = Palette {
        colors: vec![Color { r: 0, g: 0, b: 0, a: 1 }, Color { r: 2, g: 2, b: 2, a: 2 }],
    };
    assert_eq!(closest_color(1, 1, 1, &pal), Color { r: 0, g: 0, b: 0, a: 1 });
}

#[test]
fn closest_color_with_empty_palette_keeps_color() {
    let pal = Palette { colors: vec![] };
    assert_eq!(closest_color(7, 8, 9, &pal), Color { r: 7, g: 8, b: 9, a: 255 });
}

#[test]
fn only_palette_takes_palette_alpha() {
    let mut img = Image { width: 1, height: 1, pixels: vec![100, 100, 100, 7] };
    let pal = Palette { colors: vec![Color { r: 90, g: 90, b: 90, a: 200 }] };
    OnlyPalette.apply(&mut img, &pal, &OnlyPaletteParams {});
    assert_eq!(img.pixels, vec![90, 90, 90, 200]);
}

#[test]
fn dither_names() {
    assert_eq!(OnlyPalette.name(), "only_palette");
    assert_eq!(Atkinson.name(), "atkinson");
    assert_eq!(Bayer.name(), "bayer");
    assert_eq!(Burkes.name(), "burkes");
    assert_eq!(Random.name(), "random");
    assert_eq!(SierraLite.name(), "sierra_lite");
}

#[test]
fn only_palette_twice_equals_once() {
    let pal = Palette {
        colors: vec![
            Color { r: 10, g: 10, b: 10, a: 1 },
            Color { r: 10, g: 10, b: 10, a: 2 },
            Color { r: 200, g: 30, b: 90, a: 255 },
        ],
    };
    let mut once = test_gradient_image();
    OnlyPalette.apply(&mut once, &pal, &OnlyPaletteParams {});
    let mut twice = once.clone();
    OnlyPalette.apply(&mut twice, &pal, &OnlyPaletteParams {});
    assert_eq!(once.pixels, twice.pixels);
}
