use ddot::image::Image;
use ddot::transform::{crop, resize};

#[test]
fn test_crop() {
    let image = Image {
        width: 4,
        height: 4,
        pixels: vec![
            1, 2, 3, 4, 5, 6, 7, 8, 9, 10, 11, 12, 13, 14, 15, 16, 17, 18, 19, 20, 21, 22, 23, 24,
            25, 26, 27, 28, 29, 30, 31, 32, 33, 34, 35, 36, 37, 38, 39, 40, 41, 42, 43, 44, 45, 46,
            47, 48, 49, 50, 51, 52, 53, 54, 55, 56, 57, 58, 59, 60, 61, 62, 63, 64,
        ],
    };

    let cropped = crop(&image, 1, 1, 1, 1);
    assert_eq!(cropped.width, 2);
    assert_eq!(cropped.height, 2);

    let expected = vec![21, 22, 23, 24, 25, 26, 27, 28, 37, 38, 39, 40, 41, 42, 43, 44];
    assert_eq!(cropped.pixels, expected);
}

#[test]
fn test_crop_max_clamp() {
    let image = Image {
        width: 2,
        height: 2,
        pixels: vec![1, 2, 3, 4, 5, 6, 7, 8, 9, 10, 11, 12, 13, 14, 15, 16],
    };

    let cropped = crop(&image, 10, 10, 10, 10);
    assert_eq!(cropped.width, 1);
    assert_eq!(cropped.height, 1);
    assert_eq!(cropped.pixels, vec![13, 14, 15, 16]);
}

#[test]
fn test_downscale() {
    let image = Image {
        width: 4,
        height: 4,
        pixels: vec![
            255, 0, 0, 255, 0, 255, 0, 255, 0, 0, 255, 255, 255, 255, 255, 255, 255, 0, 0, 255, 0,
            255, 0, 255, 0, 0, 255, 255, 255, 255, 255, 255, 255, 0, 0, 255, 0, 255, 0, 255, 0, 0,
            255, 255, 255, 255, 255, 255, 255, 0, 0, 255, 0, 255, 0, 255, 0, 0, 255, 255, 255, 255,
            255, 255,
        ],
    };

    let scaled = resize(&image, 2, 2);
    assert_eq!(scaled.width, 2);
    assert_eq!(scaled.height, 2);

    assert_eq!(scaled.pixels[0..4], [255, 0, 0, 255]);
    assert_eq!(scaled.pixels[4..8], [0, 0, 255, 255]);
    assert_eq!(scaled.pixels[8..12], [255, 0, 0, 255]);
    assert_eq!(scaled.pixels[12..16], [0, 0, 255, 255]);
}

#[test]
fn test_clamps_to_max_dimensions() {
    let image = Image {
        width: 2,
        height: 2,
        pixels: vec![255, 0, 0, 255, 0, 255, 0, 255, 255, 0, 0, 255, 0, 255, 0, 255],
    };

    let scaled = resize(&image, 10, 10);
    assert_eq!(scaled.width, 2);
    assert_eq!(scaled.height, 2);
    assert_eq!(scaled.pixels, image.pixels);
}

#[test]
fn resize_to_zero_keeps_one_pixel() {
    let image = Image { width: 2, height: 1, pixels: vec![1, 2, 3, 4, 5, 6, 7, 8] };
    let scaled = resize(&image, 0, 0);
    assert_eq!(scaled.width, 1);
    assert_eq!(scaled.height, 1);
    assert_eq!(scaled.pixels, vec![1, 2, 3, 4]);
}

#[test]
fn resize_picks_nearest_source_rows() {
    // A 1x4 column of distinct pixels scaled to 1x2 keeps rows 0 and 2.
    let image = Image {
        width: 1,
        height: 4,
        pixels: vec![0, 0, 0, 1, 1, 1, 1, 1, 2, 2, 2, 1, 3, 3, 3, 1],
    };
    let scaled = resize(&image, 1, 2);
    assert_eq!(scaled.pixels, vec![0, 0, 0, 1, 2, 2, 2, 1]);
}

#[test]
fn crop_without_cuts_is_identity() {
    let image = Image { width: 2, height: 1, pixels: vec![1, 2, 3, 4, 5, 6, 7, 8] };
    let cropped = crop(&image, 0, 0, 0, 0);
    assert_eq!(cropped.width, 2);
    assert_eq!(cropped.height, 1);
    assert_eq!(cropped.pixels, image.pixels);
}

#[test]
fn crop_left_only_keeps_right_columns() {
    let image = Image {
        width: 3,
        height: 1,
        pixels: vec![1, 1, 1, 1, 2, 2, 2, 2, 3, 3, 3, 3],
    };
    let cropped = crop(&image, 0, 2, 0, 0);
    assert_eq!(cropped.width, 1);
    assert_eq!(cropped.pixels, vec![3, 3, 3, 3]);
}

#[test]
fn colors_mut_writes_through_to_the_pixels() {
    let mut image = Image { width: 1, height: 2, pixels: vec![1, 2, 3, 4, 5, 6, 7, 8] };
    {
        let quads = image.colors_mut();
        assert_eq!(quads.len(), 2);
        assert_eq!(quads[0], [1, 2, 3, 4]);
        quads[1] = [9, 9, 9, 9];
    }
    assert_eq!(image.pixels, vec![1, 2, 3, 4, 9, 9, 9, 9]);
}

#[test]
fn cropping_twice_adds_the_cuts() {
    let (w, h) = (7u32, 6u32);
    let pixels: Vec<u8> = (0..(w * h * 4)).map(|i| (i % 251) as u8).collect();
    let image = Image { width: w, height: h, pixels };
    let once = crop(&crop(&image, 1, 2, 0, 1), 1, 1, 2, 1);
    let direct = crop(&image, 2, 3, 2, 2);
    assert_eq!((once.width, once.height), (direct.width, direct.height));
    assert_eq!(once.pixels, direct.pixels);
    let same = crop(&image, 0, 0, 0, 0);
    assert_eq!(same.pixels, image.pixels);
}
