//! Geometric transforms: nearest-neighbour downscaling and cropping.
use vstd::prelude::*;
use vstd::arithmetic::div_mod::{
    lemma_div_by_multiple, lemma_div_by_multiple_is_strongly_ordered, lemma_div_is_ordered,
    lemma_div_pos_is_pos, lemma_fundamental_div_mod, lemma_fundamental_div_mod_converse,
};
use vstd::arithmetic::mul::{
    lemma_mul_inequality, lemma_mul_is_commutative, lemma_mul_nonnegative,
    lemma_mul_strict_inequality,
};
use crate::image::Image;

verus! {

/// A requested dimension clamped to the current one, and to at least one.
pub open spec fn resize_dim(requested: u32, current: u32) -> u32 {
    let m = if requested <= current { requested } else { current };
    if m >= 1 { m } else { 1 }
}

/// The source pixel that target pixel `p` (row-major in a `tw` by `th` image)
/// copies when a `w` by `h` image is scaled by nearest neighbour.
pub open spec fn resize_source_pixel(w: int, h: int, tw: int, th: int, p: int) -> int {
    ((p / tw) * h / th) * w + (p % tw) * w / tw
}

/// The source byte that target byte `k` copies.
pub open spec fn resize_source_byte(w: int, h: int, tw: int, th: int, k: int) -> int {
    4 * resize_source_pixel(w, h, tw, th, k / 4) + k % 4
}

/// Channel `c` of pixel `(x, y)` in a row-major RGBA buffer of `w`-wide rows.
pub open spec fn byte_at(pixels: Seq<u8>, w: int, x: int, y: int, c: int) -> u8 {
    pixels[(y * w + x) * 4 + c]
}

/// The `u32` arithmetic of a resize stays in range: either the target is the
/// source size, or every product that the scaling computes fits in a `u32`.
pub open spec fn resize_fits(w: u32, h: u32, width: u32, height: u32) -> bool {
    let tw = resize_dim(width, w) as int;
    let th = resize_dim(height, h) as int;
    ||| (tw == w && th == h)
    ||| {
        &&& tw * th * 4 <= u32::MAX
        &&& (th - 1) * h <= u32::MAX
        &&& ((th - 1) * h / th) * w * 4 <= u32::MAX
        &&& (tw - 1) * w <= u32::MAX
        &&& ((tw - 1) * w / tw) * 4 <= u32::MAX
    }
}

/// For `0 <= i < n`, the scaled coordinate `i * m / n` lies in `0..m` and is at
/// most the scaled coordinate of `n - 1`.
proof fn lemma_scaled_coordinate(i: int, n: int, m: int)
    requires
        0 <= i < n,
        1 <= m,
    ensures
        0 <= i * m <= (n - 1) * m,
        0 <= (i * m) / n <= ((n - 1) * m) / n,
        (i * m) / n < m,
{
    lemma_mul_inequality(i, n - 1, m);
    lemma_mul_nonnegative(i, m);
    lemma_div_is_ordered(i * m, (n - 1) * m, n);
    lemma_div_pos_is_pos(i * m, n);
    lemma_mul_strict_inequality(i, n, m);
    lemma_mul_is_commutative(n, m);
    lemma_div_by_multiple_is_strongly_ordered(i * m, m * n, m, n);
    lemma_div_by_multiple(m, n);
}

/// Byte `k` of a row-major buffer of `tw`-wide rows lies in row `(k / 4) / tw`.
proof fn lemma_byte_position(k: int, tw: int, x: int, y: int, c: int)
    requires
        tw >= 1,
        0 <= x < tw,
        0 <= y,
        0 <= c < 4,
        k == (y * tw + x) * 4 + c,
    ensures
        k / 4 == y * tw + x,
        k % 4 == c,
        (k / 4) / tw == y,
        (k / 4) % tw == x,
{
    lemma_fundamental_div_mod_converse(k, 4, y * tw + x, c);
    lemma_fundamental_div_mod_converse(y * tw + x, tw, y, x);
}

/// When the target size is the source size, each byte copies itself.
proof fn lemma_resize_identity(w: int, h: int, k: int)
    requires
        w >= 1,
        h >= 1,
        0 <= k,
    ensures
        resize_source_byte(w, h, w, h, k) == k,
{
    let p = k / 4;
    lemma_div_pos_is_pos(k, 4);
    lemma_div_pos_is_pos(p, w);
    lemma_div_by_multiple(p / w, h);
    lemma_mul_is_commutative(p / w, h);
    lemma_div_by_multiple(p % w, w);
    lemma_fundamental_div_mod(p, w);
    lemma_fundamental_div_mod(k, 4);
    lemma_mul_is_commutative(w, p / w);
}

/// Pixel `(x, y)` of a `w` by `h` image starts at a byte whose pixel lies inside the buffer.
proof fn lemma_pixel_in_bounds(x: int, y: int, w: int, h: int)
    requires
        0 <= x < w,
        0 <= y < h,
    ensures
        0 <= (y * w + x) * 4,
        (y * w + x) * 4 + 3 < w * h * 4,
{
    assert(0 <= (y * w + x) * 4 && (y * w + x) * 4 + 3 < w * h * 4) by (nonlinear_arith)
        requires
            0 <= x < w,
            0 <= y < h,
    ;
}

/// Resizes an image by nearest neighbour. The target size is clamped to the
/// source size, so the image is only ever scaled down, and to at least one pixel.
pub fn resize(image: &Image, width: u32, height: u32) -> (result: Image)
    requires
        image.wf(),
        image.width >= 1,
        image.height >= 1,
        resize_fits(image.width, image.height, width, height),
    ensures
        result.width == resize_dim(width, image.width),
        result.height == resize_dim(height, image.height),
        1 <= result.width <= image.width,
        1 <= result.height <= image.height,
        result.wf(),
        width >= image.width && height >= image.height ==> result.pixels@ == image.pixels@,
        forall|x: int, y: int, c: int|
            0 <= x < result.width && 0 <= y < result.height && 0 <= c < 4 ==> #[trigger] byte_at(
                result.pixels@,
                result.width as int,
                x,
                y,
                c,
            ) == byte_at(
                image.pixels@,
                image.width as int,
                x * image.width / (result.width as int),
                y * image.height / (result.height as int),
                c,
            ),
        forall|k: int|
            0 <= k < result.pixels@.len() ==> #[trigger] result.pixels@[k] == image.pixels@[
                resize_source_byte(
                    image.width as int,
                    image.height as int,
                    result.width as int,
                    result.height as int,
                    k,
                )],
{
    let w = image.width;
    let h = image.height;
    let tw0 = if width <= w { width } else { w };
    let target_width = if tw0 >= 1 { tw0 } else { 1 };
    let th0 = if height <= h { height } else { h };
    let target_height = if th0 >= 1 { th0 } else { 1 };

    if target_width == w && target_height == h {
        let pixels = image.pixels.clone();
        assert(pixels@ =~= image.pixels@);
        assert forall|k: int| 0 <= k < pixels@.len() implies #[trigger] pixels@[k]
            == image.pixels@[resize_source_byte(w as int, h as int, w as int, h as int, k)] by {
            lemma_resize_identity(w as int, h as int, k);
        }
        proof {
            assert(w * h * 4 == w * h * 4);
            lemma_resize_pixelwise(image.pixels@, pixels@, w as int, h as int, w as int, h as int);
        }
        return Image { width: w, height: h, pixels };
    }
    assert(!(width >= w && height >= h));
    let ghost tw = target_width as int;
    let ghost th = target_height as int;
    proof {
        lemma_scaled_coordinate(th - 1, th, h as int);
        lemma_scaled_coordinate(tw - 1, tw, w as int);
    }
    let plen = image.pixels.len();
    let mut new_pixels: Vec<u8> = Vec::with_capacity((target_width * target_height * 4) as usize);
    let mut y: u32 = 0;
    while y < target_height
        invariant
            image.wf(),
            plen == image.pixels@.len(),
            w == image.width,
            h == image.height,
            w >= 1,
            h >= 1,
            tw == target_width,
            th == target_height,
            1 <= tw <= w,
            1 <= th <= h,
            tw * th * 4 <= u32::MAX,
            (th - 1) * h <= u32::MAX,
            ((th - 1) * h / th) * w * 4 <= u32::MAX,
            (tw - 1) * w <= u32::MAX,
            ((tw - 1) * w / tw) * 4 <= u32::MAX,
            y <= th,
            new_pixels@.len() == y * tw * 4,
            forall|k: int|
                0 <= k < new_pixels@.len() ==> #[trigger] new_pixels@[k] == image.pixels@[
                    resize_source_byte(w as int, h as int, tw, th, k)],
        decreases th - y,
    {
        proof {
            lemma_scaled_coordinate(y as int, th, h as int);
            lemma_mul_inequality(y as int * h / th, (th - 1) * h / th, w as int);
        }
        let src_y = (y * h) / target_height;
        let src_row_start = (src_y * w * 4) as usize;
        let mut x: u32 = 0;
        while x < target_width
            invariant
                image.wf(),
                plen == image.pixels@.len(),
                w == image.width,
                h == image.height,
                w >= 1,
                h >= 1,
                tw == target_width,
                th == target_height,
                1 <= tw <= w,
                1 <= th <= h,
                (tw - 1) * w <= u32::MAX,
                ((tw - 1) * w / tw) * 4 <= u32::MAX,
                y < th,
                src_y == (y as int * h) / th,
                src_y < h,
                src_row_start == src_y * w * 4,
                x <= tw,
                new_pixels@.len() == (y * tw + x) * 4,
                forall|k: int|
                    0 <= k < new_pixels@.len() ==> #[trigger] new_pixels@[k] == image.pixels@[
                        resize_source_byte(w as int, h as int, tw, th, k)],
            decreases tw - x,
        {
            proof {
                lemma_scaled_coordinate(x as int, tw, w as int);
            }
            let src_x = (x * w) / target_width;
            proof {
                lemma_pixel_in_bounds(src_x as int, src_y as int, w as int, h as int);
                assert(src_row_start + src_x * 4 == (src_y * w + src_x) * 4) by (nonlinear_arith)
                    requires src_row_start == src_y * w * 4;
                assert(src_row_start + src_x * 4 + 3 < image.pixels@.len());
                assert(plen == image.pixels@.len());
            }
            let src_pixel_start = src_row_start + (src_x * 4) as usize;
            let ghost base = new_pixels@.len() as int;
            proof {
                assert forall|c: int| 0 <= c < 4 implies resize_source_byte(
                    w as int,
                    h as int,
                    tw,
                    th,
                    #[trigger] (base + c),
                ) == src_pixel_start + c by {
                    lemma_byte_position(base + c, tw, x as int, y as int, c);
                }
            }
            new_pixels.push(image.pixels[src_pixel_start]);
            new_pixels.push(image.pixels[src_pixel_start + 1]);
            new_pixels.push(image.pixels[src_pixel_start + 2]);
            new_pixels.push(image.pixels[src_pixel_start + 3]);
            proof {
                assert(resize_source_byte(w as int, h as int, tw, th, base + 0) == src_pixel_start + 0);
                assert(resize_source_byte(w as int, h as int, tw, th, base + 1) == src_pixel_start + 1);
                assert(resize_source_byte(w as int, h as int, tw, th, base + 2) == src_pixel_start + 2);
                assert(resize_source_byte(w as int, h as int, tw, th, base + 3) == src_pixel_start + 3);
                assert((y * tw + (x + 1)) * 4 == (y * tw + x) * 4 + 4) by (nonlinear_arith);
            }
            x = x + 1;
        }
        proof {
            assert((y * tw + tw) * 4 == (y + 1) * tw * 4) by (nonlinear_arith);
        }
        y = y + 1;
    }
    proof {
        assert(th * tw * 4 == tw * th * 4) by (nonlinear_arith);
        lemma_resize_pixelwise(image.pixels@, new_pixels@, w as int, h as int, tw, th);
    }
    Image { width: target_width, height: target_height, pixels: new_pixels }
}

/// `a - b`, or zero when `b` exceeds `a`.
pub open spec fn saturating_sub(a: u32, b: u32) -> u32 {
    if a >= b { (a - b) as u32 } else { 0 }
}

/// The size left after cutting `a` and then `b` off an edge of length `size`,
/// and at least one.
pub open spec fn crop_dim(size: u32, a: u32, b: u32) -> u32 {
    let d = saturating_sub(saturating_sub(size, a), b);
    if d >= 1 { d } else { 1 }
}

/// The first kept row or column: the cut, moved back so that `target` fit.
pub open spec fn crop_start(size: u32, cut: u32, target: u32) -> u32 {
    let limit = saturating_sub(size, target);
    if cut <= limit { cut } else { limit }
}

/// The source byte that target byte `k` copies when a `tw`-wide window at
/// `(x0, y0)` is cut out of a `w`-wide image.
pub open spec fn crop_source_byte(w: int, tw: int, x0: int, y0: int, k: int) -> int {
    ((y0 + (k / 4) / tw) * w + x0 + (k / 4) % tw) * 4 + k % 4
}

/// Byte `j` of row `y` of the window is the window's row start plus `j`.
proof fn lemma_crop_row_byte(w: int, tw: int, x0: int, y0: int, y: int, j: int)
    requires
        tw >= 1,
        0 <= y,
        0 <= j < tw * 4,
    ensures
        crop_source_byte(w, tw, x0, y0, y * tw * 4 + j) == (y0 + y) * w * 4 + x0 * 4 + j,
{
    let k = y * tw * 4 + j;
    lemma_fundamental_div_mod(j, 4);
    let q = j / 4;
    let r = j % 4;
    assert(0 <= q < tw) by (nonlinear_arith)
        requires
            j == 4 * q + r,
            0 <= r < 4,
            0 <= j < tw * 4,
    ;
    assert(k == (y * tw + q) * 4 + r) by (nonlinear_arith)
        requires
            k == y * tw * 4 + j,
            j == 4 * q + r,
    ;
    lemma_byte_position(k, tw, q, y, r);
    assert(((y0 + y) * w + x0 + q) * 4 + r == (y0 + y) * w * 4 + x0 * 4 + j) by (nonlinear_arith)
        requires
            j == 4 * q + r,
    ;
}

/// The width, height and bytes of the crop of a `w` by `h` image with bytes
/// `p`, cut by `top`, `left`, `right` and `bottom`.
pub open spec fn crop_view(w: u32, h: u32, p: Seq<u8>, top: u32, left: u32, right: u32, bottom: u32) -> (
    u32,
    u32,
    Seq<u8>,
) {
    let tw = crop_dim(w, left, right);
    let th = crop_dim(h, top, bottom);
    let x0 = crop_start(w, left, tw);
    let y0 = crop_start(h, top, th);
    (
        tw,
        th,
        Seq::new(
            (tw * th * 4) as nat,
            |k: int| p[crop_source_byte(w as int, tw as int, x0 as int, y0 as int, k)],
        ),
    )
}

/// Crops an image by cutting pixels off its top, left, right and bottom edges.
/// Each dimension keeps at least one pixel; when the cuts leave nothing, the
/// kept window is pushed back to the bottom-right edge of the image.
pub fn crop(image: &Image, top: u32, left: u32, right: u32, bottom: u32) -> (result: Image)
    requires
        image.wf(),
        image.width >= 1,
        image.height >= 1,
        crop_dim(image.width, left, right) * crop_dim(image.height, top, bottom) * 4 <= u32::MAX,
    ensures
        result.width == crop_dim(image.width, left, right),
        result.height == crop_dim(image.height, top, bottom),
        1 <= result.width <= image.width,
        1 <= result.height <= image.height,
        crop_start(image.width, left, result.width) + result.width <= image.width,
        crop_start(image.height, top, result.height) + result.height <= image.height,
        result.wf(),
        top == 0 && left == 0 && right == 0 && bottom == 0 ==> result.pixels@ == image.pixels@,
        forall|x: int, y: int, c: int|
            0 <= x < result.width && 0 <= y < result.height && 0 <= c < 4 ==> #[trigger] byte_at(
                result.pixels@,
                result.width as int,
                x,
                y,
                c,
            ) == byte_at(
                image.pixels@,
                image.width as int,
                x + crop_start(image.width, left, result.width),
                y + crop_start(image.height, top, result.height),
                c,
            ),
        (result.width, result.height, result.pixels@) == crop_view(
            image.width,
            image.height,
            image.pixels@,
            top,
            left,
            right,
            bottom,
        ),
        forall|k: int|
            0 <= k < result.pixels@.len() ==> #[trigger] result.pixels@[k] == image.pixels@[
                crop_source_byte(
                    image.width as int,
                    result.width as int,
                    crop_start(image.width, left, result.width) as int,
                    crop_start(image.height, top, result.height) as int,
                    k,
                )],
{
    let w = image.width;
    let h = image.height;
    let target_width = w.saturating_sub(left).saturating_sub(right).max(1);
    let target_height = h.saturating_sub(top).saturating_sub(bottom).max(1);

    let x_start = left.min(w.saturating_sub(target_width)) as usize;
    let y_start = top.min(h.saturating_sub(target_height)) as usize;
    let ghost tw = target_width as int;
    let ghost th = target_height as int;
    let plen = image.pixels.len();

    let mut new_pixels: Vec<u8> = Vec::with_capacity((target_width * target_height * 4) as usize);
    let mut y: u32 = 0;
    while y < target_height
        invariant
            image.wf(),
            plen == image.pixels@.len(),
            w == image.width,
            h == image.height,
            tw == target_width,
            th == target_height,
            target_width == crop_dim(w, left, right),
            target_height == crop_dim(h, top, bottom),
            x_start == crop_start(w, left, target_width),
            y_start == crop_start(h, top, target_height),
            1 <= tw <= w,
            1 <= th <= h,
            x_start + tw <= w,
            y_start + th <= h,
            y <= th,
            new_pixels@.len() == y * tw * 4,
            forall|k: int|
                0 <= k < new_pixels@.len() ==> #[trigger] new_pixels@[k] == image.pixels@[
                    crop_source_byte(w as int, tw, x_start as int, y_start as int, k)],
        decreases th - y,
    {
        let src_y = y_start + y as usize;
        proof {
            assert((src_y * w + x_start + tw) * 4 <= w * h * 4) by (nonlinear_arith)
                requires
                    src_y < h,
                    x_start + tw <= w,
            ;
            assert(src_y * w * 4 + x_start * 4 + tw * 4 == (src_y * w + x_start + tw) * 4)
                by (nonlinear_arith);
        }
        let src_row_start = src_y * w as usize * 4;
        let src_pixel_start = src_row_start + x_start * 4;
        let src_pixel_end = src_pixel_start + target_width as usize * 4;
        let ghost before = new_pixels@;
        new_pixels.extend_from_slice(
            vstd::slice::slice_subrange(image.pixels.as_slice(), src_pixel_start, src_pixel_end),
        );
        proof {
            assert forall|k: int| 0 <= k < new_pixels@.len() implies #[trigger] new_pixels@[k]
                == image.pixels@[crop_source_byte(w as int, tw, x_start as int, y_start as int, k)] by {
                if k >= before.len() {
                    let j = k - before.len();
                    lemma_crop_row_byte(w as int, tw, x_start as int, y_start as int, y as int, j);
                    assert(new_pixels@[k] == image.pixels@[src_pixel_start + j]);
                }
            }
            assert((y + 1) * tw * 4 == y * tw * 4 + tw * 4) by (nonlinear_arith);
        }
        y = y + 1;
    }
    proof {
        assert(th * tw * 4 == tw * th * 4) by (nonlinear_arith);
        if top == 0 && left == 0 && right == 0 && bottom == 0 {
            assert forall|k: int| 0 <= k < new_pixels@.len() implies new_pixels@[k]
                == image.pixels@[k] by {
                lemma_crop_identity(w as int, h as int, k);
            }
            assert(new_pixels@ =~= image.pixels@);
        }
        assert(new_pixels@ =~= crop_view(w, h, image.pixels@, top, left, right, bottom).2);
        assert forall|x: int, y: int, c: int|
            0 <= x < tw && 0 <= y < th && 0 <= c < 4 implies #[trigger] byte_at(new_pixels@, tw, x, y, c)
            == byte_at(image.pixels@, w as int, x + x_start, y + y_start, c) by {
            let k = (y * tw + x) * 4 + c;
            lemma_crop_window_byte(w as int, tw, x_start as int, y_start as int, x, y, c);
            assert(0 <= k < tw * th * 4) by (nonlinear_arith)
                requires
                    k == (y * tw + x) * 4 + c,
                    0 <= x < tw,
                    0 <= y < th,
                    0 <= c < 4,
            ;
        }
    }
    Image { width: target_width, height: target_height, pixels: new_pixels }
}

/// A full-size window at the origin copies each byte to itself.
proof fn lemma_crop_identity(w: int, h: int, k: int)
    requires
        w >= 1,
        h >= 1,
        0 <= k,
    ensures
        crop_source_byte(w, w, 0, 0, k) == k,
{
    let p = k / 4;
    lemma_div_pos_is_pos(k, 4);
    lemma_fundamental_div_mod(p, w);
    lemma_fundamental_div_mod(k, 4);
    lemma_mul_is_commutative(w, p / w);
}

/// Source byte of a byte in a window of a window: windows at offsets add up.
proof fn lemma_crop_source_compose(
    w: int,
    tw1: int,
    tw: int,
    x1: int,
    y1: int,
    x2: int,
    y2: int,
    k: int,
)
    requires
        tw >= 1,
        x2 >= 0,
        y2 >= 0,
        x2 + tw <= tw1,
        0 <= k,
    ensures
        crop_source_byte(tw1, tw, x2, y2, k) >= 0,
        crop_source_byte(w, tw1, x1, y1, crop_source_byte(tw1, tw, x2, y2, k)) == crop_source_byte(
            w,
            tw,
            x1 + x2,
            y1 + y2,
            k,
        ),
{
    let q = k / 4;
    let c = k % 4;
    let y = q / tw;
    let x = q % tw;
    lemma_fundamental_div_mod(k, 4);
    lemma_fundamental_div_mod(q, tw);
    assert(0 <= q) by {
        vstd::arithmetic::div_mod::lemma_div_pos_is_pos(k, 4);
    }
    assert(0 <= y) by {
        vstd::arithmetic::div_mod::lemma_div_pos_is_pos(q, tw);
    }
    let k1 = ((y2 + y) * tw1 + x2 + x) * 4 + c;
    assert(crop_source_byte(tw1, tw, x2, y2, k) == k1);
    assert(0 <= (y2 + y) * tw1) by (nonlinear_arith)
        requires
            0 <= y2 + y,
            tw1 >= 1,
    ;
    lemma_byte_position(k1, tw1, x2 + x, y2 + y, c);
}

/// Cropping twice without clamping is one crop by the summed cuts; cropping
/// by nothing keeps the image.
pub proof fn law_crop_twice(
    w: u32,
    h: u32,
    p: Seq<u8>,
    t1: u32,
    l1: u32,
    r1: u32,
    b1: u32,
    t2: u32,
    l2: u32,
    r2: u32,
    b2: u32,
)
    requires
        w >= 1,
        h >= 1,
        p.len() == w * h * 4,
        l1 + l2 + r1 + r2 < w,
        t1 + t2 + b1 + b2 < h,
    ensures
        ({
            let c1 = crop_view(w, h, p, t1, l1, r1, b1);
            crop_view(c1.0, c1.1, c1.2, t2, l2, r2, b2) == crop_view(
                w,
                h,
                p,
                (t1 + t2) as u32,
                (l1 + l2) as u32,
                (r1 + r2) as u32,
                (b1 + b2) as u32,
            )
        }),
        crop_view(w, h, p, 0, 0, 0, 0) == (w, h, p),
{
    let c1 = crop_view(w, h, p, t1, l1, r1, b1);
    let c2 = crop_view(c1.0, c1.1, c1.2, t2, l2, r2, b2);
    let c = crop_view(w, h, p, (t1 + t2) as u32, (l1 + l2) as u32, (r1 + r2) as u32, (b1 + b2) as u32);
    let tw1 = c1.0 as int;
    let th1 = c1.1 as int;
    assert(tw1 == w - l1 - r1);
    assert(th1 == h - t1 - b1);
    assert(c2.0 == c.0 && c2.1 == c.1);
    let tw = c.0 as int;
    let th = c.1 as int;
    assert(tw == w - l1 - l2 - r1 - r2);
    assert(th == h - t1 - t2 - b1 - b2);
    assert(crop_start(w, l1, c1.0) == l1);
    assert(crop_start(h, t1, c1.1) == t1);
    assert(crop_start(c1.0, l2, c2.0) == l2);
    assert(crop_start(c1.1, t2, c2.1) == t2);
    assert(crop_start(w, (l1 + l2) as u32, c.0) == l1 + l2);
    assert(crop_start(h, (t1 + t2) as u32, c.1) == t1 + t2);
    assert(c2.2.len() == c.2.len());
    assert forall|k: int| 0 <= k < c.2.len() implies c2.2[k] == c.2[k] by {
        lemma_crop_source_compose(w as int, tw1, tw, l1 as int, t1 as int, l2 as int, t2 as int, k);
        let k1 = crop_source_byte(tw1, tw, l2 as int, t2 as int, k);
        let q = k / 4;
        lemma_fundamental_div_mod(k, 4);
        lemma_fundamental_div_mod(q, tw);
        assert(0 <= q < tw * th) by (nonlinear_arith)
            requires
                0 <= k < tw * th * 4,
                k == 4 * q + k % 4,
                0 <= k % 4 < 4,
        ;
        let y = q / tw;
        let x = q % tw;
        assert(y < th) by (nonlinear_arith)
            requires
                q == tw * y + x,
                0 <= x,
                q < tw * th,
                tw >= 1,
        ;
        assert(0 <= y) by {
            vstd::arithmetic::div_mod::lemma_div_pos_is_pos(q, tw);
        }
        assert(k1 < tw1 * th1 * 4) by (nonlinear_arith)
            requires
                k1 == ((t2 + y) * tw1 + l2 + x) * 4 + k % 4,
                0 <= k % 4 < 4,
                0 <= x < tw,
                l2 + tw <= tw1,
                t2 + y + 1 <= th1,
                0 <= t2 + y,
        ;
    }
    assert(c2.2 =~= c.2);
    let c0 = crop_view(w, h, p, 0, 0, 0, 0);
    assert forall|k: int| 0 <= k < c0.2.len() implies c0.2[k] == p[k] by {
        lemma_crop_identity(w as int, h as int, k);
    }
    assert(c0.2 =~= p);
}

/// A buffer that copies each byte from its scaled source byte copies each
/// pixel from its scaled source pixel.
proof fn lemma_resize_pixelwise(src: Seq<u8>, dst: Seq<u8>, w: int, h: int, tw: int, th: int)
    requires
        1 <= tw,
        1 <= th,
        dst.len() == tw * th * 4,
        forall|k: int| 0 <= k < dst.len() ==> #[trigger] dst[k] == src[resize_source_byte(w, h, tw, th, k)],
    ensures
        forall|x: int, y: int, c: int|
            0 <= x < tw && 0 <= y < th && 0 <= c < 4 ==> #[trigger] byte_at(dst, tw, x, y, c) == byte_at(
                src,
                w,
                x * w / tw,
                y * h / th,
                c,
            ),
{
    assert forall|x: int, y: int, c: int|
        0 <= x < tw && 0 <= y < th && 0 <= c < 4 implies #[trigger] byte_at(dst, tw, x, y, c) == byte_at(
            src,
            w,
            x * w / tw,
            y * h / th,
            c,
        ) by {
        let k = (y * tw + x) * 4 + c;
        law_resize_scales_coordinates(w, h, tw, th, x, y, c);
        assert(0 <= k < tw * th * 4) by (nonlinear_arith)
            requires
                k == (y * tw + x) * 4 + c,
                0 <= x < tw,
                0 <= y < th,
                0 <= c < 4,
        ;
        assert(dst[k] == src[resize_source_byte(w, h, tw, th, k)]);
    }
}

/// Nearest-neighbour scaling: channel `c` of target pixel `(x, y)` in a
/// `tw` by `th` image comes from channel `c` of source pixel
/// `(x * w / tw, y * h / th)` of the `w` by `h` source, both rounded down.
pub proof fn law_resize_scales_coordinates(w: int, h: int, tw: int, th: int, x: int, y: int, c: int)
    requires
        1 <= tw,
        1 <= th,
        0 <= x < tw,
        0 <= y < th,
        0 <= c < 4,
    ensures
        resize_source_byte(w, h, tw, th, (y * tw + x) * 4 + c) == ((y * h / th) * w + x * w / tw) * 4 + c,
{
    let k = (y * tw + x) * 4 + c;
    lemma_byte_position(k, tw, x, y, c);
}

/// Byte `c` of window pixel `(x, y)` is byte `c` of source pixel
/// `(x0 + x, y0 + y)`.
proof fn lemma_crop_window_byte(w: int, tw: int, x0: int, y0: int, x: int, y: int, c: int)
    requires
        1 <= tw,
        0 <= x < tw,
        0 <= y,
        0 <= c < 4,
    ensures
        crop_source_byte(w, tw, x0, y0, (y * tw + x) * 4 + c) == ((y0 + y) * w + x0 + x) * 4 + c,
{
    lemma_byte_position((y * tw + x) * 4 + c, tw, x, y, c);
}

/// The window a crop keeps: when the cuts leave something, it is
/// `size - a - b` wide and starts at cut `a`; when they leave nothing, it
/// is one pixel wide and starts at `a` or, past the edge, at the last pixel.
pub proof fn law_crop_window(size: u32, a: u32, b: u32)
    requires
        size >= 1,
    ensures
        a + b < size ==> crop_dim(size, a, b) == size - a - b,
        a + b < size ==> crop_start(size, a, crop_dim(size, a, b)) == a,
        a + b >= size ==> crop_dim(size, a, b) == 1,
        a + b >= size ==> crop_start(size, a, crop_dim(size, a, b)) == if a < size {
            a as int
        } else {
            size - 1
        },
{
}

/// The size a resize targets: the requested size when it is between one and
/// the current size, the current size when more is requested, and one when
/// nothing is.
pub proof fn law_resize_dim(requested: u32, current: u32)
    requires
        current >= 1,
    ensures
        1 <= requested <= current ==> resize_dim(requested, current) == requested,
        requested > current ==> resize_dim(requested, current) == current,
        requested == 0 ==> resize_dim(requested, current) == 1,
{
}

} // verus!
