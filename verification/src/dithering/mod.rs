//! Dithering onto a palette: the algorithms' names, and the nearest-color
//! mapping that sends every pixel to its closest palette color.
use vstd::prelude::*;
use crate::image::{color_at, Color, Image};
use crate::palette::Palette;

verus! {

/// The squared RGB distance between a color and `(r, g, b)`.
pub open spec fn dist_sq(c: Color, r: int, g: int, b: int) -> int {
    (c.r - r) * (c.r - r) + (c.g - g) * (c.g - g) + (c.b - b) * (c.b - b)
}

/// Among the first `k` palette colors, the first one nearest to `(r, g, b)`.
pub open spec fn nearest_among(palette: Seq<Color>, r: int, g: int, b: int, k: int) -> Color
    decreases k,
{
    if k <= 1 {
        palette[0]
    } else {
        let best = nearest_among(palette, r, g, b, k - 1);
        let c = palette[k - 1];
        if dist_sq(c, r, g, b) < dist_sq(best, r, g, b) {
            c
        } else {
            best
        }
    }
}

/// The palette color nearest to `(r, g, b)`, the first one on a tie; with
/// an empty palette, the opaque color `(r, g, b)` itself.
pub open spec fn nearest_color(palette: Seq<Color>, r: u8, g: u8, b: u8) -> Color {
    if palette.len() == 0 {
        Color { r, g, b, a: 255 }
    } else {
        nearest_among(palette, r as int, g as int, b as int, palette.len() as int)
    }
}

/// The palette color nearest to `(r, g, b)`.
pub fn closest_color(r: u8, g: u8, b: u8, palette: &Palette) -> (c: Color)
    ensures
        c == nearest_color(palette.colors@, r, g, b),
        palette.colors@.len() > 0 ==> palette.colors@.contains(c),
        forall|i: int|
            0 <= i < palette.colors@.len() ==> {
                let p = #[trigger] palette.colors@[i];
                (c.r - r) * (c.r - r) + (c.g - g) * (c.g - g) + (c.b - b) * (c.b - b) <= (p.r - r) * (p.r
                    - r) + (p.g - g) * (p.g - g) + (p.b - b) * (p.b - b)
            },
        forall|i: int|
            0 <= i < palette.colors@.len() ==> dist_sq(c, r as int, g as int, b as int) <= #[trigger] dist_sq(
                palette.colors@[i],
                r as int,
                g as int,
                b as int,
            ),
{
    let n = palette.colors.len();
    if n == 0 {
        return Color { r, g, b, a: 255 };
    }
    let mut closest = palette.colors[0];
    let mut best: u32 = color_distance(closest, r, g, b);
    let mut i: usize = 1;
    while i < n
        invariant
            1 <= i <= n == palette.colors@.len(),
            closest == nearest_among(palette.colors@, r as int, g as int, b as int, i as int),
            best == dist_sq(closest, r as int, g as int, b as int),
        decreases n - i,
    {
        let c = palette.colors[i];
        let d = color_distance(c, r, g, b);
        if d < best {
            best = d;
            closest = c;
        }
        i = i + 1;
    }
    proof {
        let j = lemma_nearest_index(palette.colors@, r as int, g as int, b as int, n as int);
        assert(palette.colors@[j] == closest);
    }
    closest
}

/// The nearest color among the first `k` is the first of them at the
/// smallest distance; returns its index.
proof fn lemma_nearest_index(palette: Seq<Color>, r: int, g: int, b: int, k: int) -> (j: int)
    requires
        1 <= k <= palette.len(),
    ensures
        0 <= j < k,
        palette[j] == nearest_among(palette, r, g, b, k),
        forall|i: int| 0 <= i < k ==> dist_sq(#[trigger] palette[i], r, g, b) >= dist_sq(palette[j], r, g, b),
        forall|i: int| 0 <= i < j ==> dist_sq(#[trigger] palette[i], r, g, b) > dist_sq(palette[j], r, g, b),
    decreases k,
{
    if k > 1 {
        let j0 = lemma_nearest_index(palette, r, g, b, k - 1);
        if dist_sq(palette[k - 1], r, g, b) < dist_sq(palette[j0], r, g, b) {
            k - 1
        } else {
            j0
        }
    } else {
        0
    }
}

/// The nearest palette color is a palette color at the smallest squared
/// Euclidean distance `(r' - r)^2 + (g' - g)^2 + (b' - b)^2` from
/// `(r, g, b)`, and every palette color before it is strictly farther.
pub proof fn law_nearest_color_is_closest(palette: Seq<Color>, r: u8, g: u8, b: u8)
    requires
        palette.len() > 0,
    ensures
        exists|j: int| {
            &&& 0 <= j < palette.len()
            &&& palette[j] == nearest_color(palette, r, g, b)
            &&& forall|i: int|
                0 <= i < j ==> {
                    let p = #[trigger] palette[i];
                    let c = palette[j];
                    (p.r - r) * (p.r - r) + (p.g - g) * (p.g - g) + (p.b - b) * (p.b - b) > (c.r - r)
                        * (c.r - r) + (c.g - g) * (c.g - g) + (c.b - b) * (c.b - b)
                }
        },
        forall|i: int|
            0 <= i < palette.len() ==> {
                let p = #[trigger] palette[i];
                let c = nearest_color(palette, r, g, b);
                (c.r - r) * (c.r - r) + (c.g - g) * (c.g - g) + (c.b - b) * (c.b - b) <= (p.r - r) * (p.r
                    - r) + (p.g - g) * (p.g - g) + (p.b - b) * (p.b - b)
            },
{
    let j = lemma_nearest_index(palette, r as int, g as int, b as int, palette.len() as int);
    assert(palette[j] == nearest_color(palette, r, g, b));
}

/// A squared distance is zero exactly for the same red, green and blue.
proof fn lemma_dist_zero(c: Color, r: int, g: int, b: int)
    ensures
        dist_sq(c, r, g, b) >= 0,
        dist_sq(c, r, g, b) == 0 <==> (c.r == r && c.g == g && c.b == b),
{
    assert(dist_sq(c, r, g, b) >= 0 && (dist_sq(c, r, g, b) == 0 <==> (c.r == r && c.g == g && c.b == b))) by (nonlinear_arith)
        requires
            dist_sq(c, r, g, b) == (c.r - r) * (c.r - r) + (c.g - g) * (c.g - g) + (c.b - b) * (c.b - b),
    ;
}

/// Mapping a color to the palette twice gives what mapping it once gives:
/// the nearest palette color is its own nearest palette color.
pub proof fn law_nearest_color_idempotent(palette: Seq<Color>, r: u8, g: u8, b: u8)
    ensures
        ({
            let c = nearest_color(palette, r, g, b);
            nearest_color(palette, c.r, c.g, c.b) == c
        }),
{
    if palette.len() > 0 {
        let n = palette.len() as int;
        let c = nearest_color(palette, r, g, b);
        let j = lemma_nearest_index(palette, r as int, g as int, b as int, n);
        let (cr, cg, cb) = (c.r as int, c.g as int, c.b as int);
        let j2 = lemma_nearest_index(palette, cr, cg, cb, n);
        lemma_dist_zero(palette[j], cr, cg, cb);
        lemma_dist_zero(palette[j2], cr, cg, cb);
        if j2 < j {
            assert(dist_sq(palette[j2], cr, cg, cb) <= dist_sq(palette[j], cr, cg, cb));
            assert(dist_sq(palette[j2], r as int, g as int, b as int) > dist_sq(palette[j], r as int, g as int, b as int));
        }
        if j < j2 {
            assert(dist_sq(palette[j], cr, cg, cb) > dist_sq(palette[j2], cr, cg, cb));
        }
    }
}

/// The squared RGB distance between `c` and `(r, g, b)`.
fn color_distance(c: Color, r: u8, g: u8, b: u8) -> (d: u32)
    ensures
        d == dist_sq(c, r as int, g as int, b as int),
        d == (c.r - r) * (c.r - r) + (c.g - g) * (c.g - g) + (c.b - b) * (c.b - b),
{
    let dr: i32 = c.r as i32 - r as i32;
    let dg: i32 = c.g as i32 - g as i32;
    let db: i32 = c.b as i32 - b as i32;
    assert(0 <= dr * dr <= 65025 && 0 <= dg * dg <= 65025 && 0 <= db * db <= 65025) by (nonlinear_arith)
        requires
            -255 <= dr <= 255,
            -255 <= dg <= 255,
            -255 <= db <= 255,
    ;
    (dr * dr + dg * dg + db * db) as u32
}

/// Parameters of the nearest-color mapping: there are none.
#[derive(Clone, Debug)]
pub struct OnlyPaletteParams {}

/// Maps every pixel to its nearest palette color, without error diffusion.
pub struct OnlyPalette;

impl OnlyPalette {
    /// The algorithm's registered name.
    pub const NAME: &'static str = "only_palette";

    /// The algorithm's registered name.
    pub fn name(&self) -> (name: &'static str)
        ensures
            name == Self::NAME,
    {
        Self::NAME
    }

    /// Replaces every pixel by the palette color nearest to its RGB value
    /// (alpha included); the size of the image does not change.
    pub fn apply(&self, image: &mut Image, palette: &Palette, params: &OnlyPaletteParams)
        requires
            old(image).pixels@.len() % 4 == 0,
        ensures
            final(image).width == old(image).width,
            final(image).height == old(image).height,
            final(image).pixels@.len() == old(image).pixels@.len(),
            forall|i: int|
                0 <= i < old(image).pixels@.len() / 4 ==> color_at(final(image).pixels@, i) == {
                    let c = color_at(old(image).pixels@, i);
                    nearest_color(palette.colors@, c.r, c.g, c.b)
                },
            palette.colors@.len() > 0 ==> forall|i: int|
                0 <= i < old(image).pixels@.len() / 4 ==> palette.colors@.contains(
                    #[trigger] color_at(final(image).pixels@, i),
                ),
    {
        let ghost before = image.pixels@;
        let len = image.pixels.len();
        let n = len / 4;
        let mut i: usize = 0;
        while i < n
            invariant
                before.len() % 4 == 0,
                before.len() == len,
                n == before.len() / 4,
                i <= n,
                image.pixels@.len() == before.len(),
                image.width == old(image).width,
                image.height == old(image).height,
                before == old(image).pixels@,
                forall|k: int| 0 <= k < i ==> color_at(image.pixels@, k) == {
                    let c = color_at(before, k);
                    nearest_color(palette.colors@, c.r, c.g, c.b)
                },
                forall|j: int| 4 * i <= j < before.len() ==> image.pixels@[j] == before[j],
            decreases n - i,
        {
            assert(4 * i + 4 <= before.len()) by (nonlinear_arith)
                requires
                    i < n,
                    n == before.len() / 4,
            ;
            let ghost prev = image.pixels@;
            let base = 4 * i;
            let c = closest_color(image.pixels[base], image.pixels[base + 1], image.pixels[base + 2], palette);
            image.pixels.set(base, c.r);
            image.pixels.set(base + 1, c.g);
            image.pixels.set(base + 2, c.b);
            image.pixels.set(base + 3, c.a);
            proof {
                assert forall|k: int| 0 <= k < i + 1 implies color_at(image.pixels@, k) == {
                    let c = color_at(before, k);
                    nearest_color(palette.colors@, c.r, c.g, c.b)
                } by {
                    if k < i {
                        assert(color_at(prev, k) == {
                            let c = color_at(before, k);
                            nearest_color(palette.colors@, c.r, c.g, c.b)
                        });
                        assert(color_at(image.pixels@, k) == color_at(prev, k));
                    } else {
                        assert(prev[4 * k] == before[4 * k]);
                        assert(prev[4 * k + 1] == before[4 * k + 1]);
                        assert(prev[4 * k + 2] == before[4 * k + 2]);
                    }
                }
            }
            i = i + 1;
        }
        proof {
            if palette.colors@.len() > 0 {
                assert forall|k: int| 0 <= k < before.len() / 4 implies palette.colors@.contains(
                    #[trigger] color_at(image.pixels@, k),
                ) by {
                    let c = color_at(before, k);
                    let j = lemma_nearest_index(
                        palette.colors@,
                        c.r as int,
                        c.g as int,
                        c.b as int,
                        palette.colors@.len() as int,
                    );
                    assert(palette.colors@[j] == color_at(image.pixels@, k));
                }
            }
        }
    }
}

/// Mapping an image to the palette twice gives what mapping it once gives:
/// if `once` maps every pixel of `pixels` to its nearest palette color and
/// `twice` does the same to `once`, the two are equal.
pub proof fn law_only_palette_idempotent(
    palette: Seq<Color>,
    pixels: Seq<u8>,
    once: Seq<u8>,
    twice: Seq<u8>,
)
    requires
        pixels.len() % 4 == 0,
        once.len() == pixels.len(),
        twice.len() == once.len(),
        forall|i: int|
            0 <= i < pixels.len() / 4 ==> color_at(once, i) == {
                let c = color_at(pixels, i);
                nearest_color(palette, c.r, c.g, c.b)
            },
        forall|i: int|
            0 <= i < once.len() / 4 ==> color_at(twice, i) == {
                let c = color_at(once, i);
                nearest_color(palette, c.r, c.g, c.b)
            },
    ensures
        twice == once,
{
    assert forall|k: int| 0 <= k < once.len() implies twice[k] == once[k] by {
        let i = k / 4;
        assert(0 <= i < pixels.len() / 4 && k == 4 * i + k % 4) by (nonlinear_arith)
            requires
                0 <= k < pixels.len(),
                pixels.len() % 4 == 0,
                i == k / 4,
        ;
        let c = color_at(pixels, i);
        law_nearest_color_idempotent(palette, c.r, c.g, c.b);
        assert(color_at(twice, i) == color_at(once, i));
    }
    assert(twice =~= once);
}

/// Atkinson error diffusion.
pub struct Atkinson;

impl Atkinson {
    /// The algorithm's registered name.
    pub const NAME: &'static str = "atkinson";

    /// The algorithm's registered name.
    pub fn name(&self) -> (name: &'static str)
        ensures
            name == Self::NAME,
    {
        Self::NAME
    }
}

/// Ordered dithering with a Bayer threshold matrix.
pub struct Bayer;

impl Bayer {
    /// The algorithm's registered name.
    pub const NAME: &'static str = "bayer";

    /// The algorithm's registered name.
    pub fn name(&self) -> (name: &'static str)
        ensures
            name == Self::NAME,
    {
        Self::NAME
    }
}

/// Burkes error diffusion.
pub struct Burkes;

impl Burkes {
    /// The algorithm's registered name.
    pub const NAME: &'static str = "burkes";

    /// The algorithm's registered name.
    pub fn name(&self) -> (name: &'static str)
        ensures
            name == Self::NAME,
    {
        Self::NAME
    }
}

/// Ordered dithering with a hashed threshold.
pub struct Random;

impl Random {
    /// The algorithm's registered name.
    pub const NAME: &'static str = "random";

    /// The algorithm's registered name.
    pub fn name(&self) -> (name: &'static str)
        ensures
            name == Self::NAME,
    {
        Self::NAME
    }
}

/// Sierra Lite error diffusion.
pub struct SierraLite;

impl SierraLite {
    /// The algorithm's registered name.
    pub const NAME: &'static str = "sierra_lite";

    /// The algorithm's registered name.
    pub fn name(&self) -> (name: &'static str)
        ensures
            name == Self::NAME,
    {
        Self::NAME
    }
}

} // verus!
