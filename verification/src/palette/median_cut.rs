//! Median-cut color quantization.
//!
//! The distinct colors of the image, in the order in which they first
//! appear and with the number of pixels of each, start in one bucket. While there are fewer buckets than requested, the
//! heaviest bucket that holds more than one color is sorted along its widest
//! channel and cut where the running pixel count reaches half its weight.
//! Each bucket then contributes its pixel-weighted mean color.
use vstd::prelude::*;
use std::collections::HashMap;
use crate::image::{opaque, rgb, rgb_seq, Color, Image};
use crate::palette::{Palette, PaletteGenerator};

verus! {

broadcast use vstd::std_specs::hash::group_hash_axioms;

/// The median-cut palette generator.
pub struct MedianCut;

/// Parameters of the median-cut generator.
#[derive(Debug, Clone, Copy)]
pub struct MedianCutParams {
    pub n_of_colors: u32,
}

/// A distinct color and the number of pixels that have it.
pub type Entry = ([u8; 3], u32);

/// A bucket as `(start, end, weight)`: the entries `start..end` and their pixel count.
pub type BucketModel = (int, int, int);

/// A run `start..end` of distinct colors and the number of pixels they cover.
struct Bucket {
    start: usize,
    end: usize,
    total_weight: u64,
}

impl View for Bucket {
    type V = BucketModel;

    closed spec fn view(&self) -> BucketModel {
        (self.start as int, self.end as int, self.total_weight as int)
    }
}

// ---------------------------------------------------------------------------
// Distinct colors.
// ---------------------------------------------------------------------------

/// A color packed into one integer, red in the high byte.
pub open spec fn pack(c: [u8; 3]) -> u32 {
    ((c[0] as u32) << 16u32) | ((c[1] as u32) << 8u32) | (c[2] as u32)
}

/// The first entry of `t` that has color `c`.
pub open spec fn position_of(t: Seq<Entry>, c: [u8; 3]) -> Option<int>
    decreases t.len(),
{
    if t.len() == 0 {
        None
    } else {
        match position_of(t.drop_last(), c) {
            Some(p) => Some(p),
            None => if t.last().0 == c {
                Some(t.len() - 1)
            } else {
                None
            },
        }
    }
}

/// The distinct colors of `colors` in order of first appearance, each with
/// the number of pixels that have it.
pub open spec fn tally(colors: Seq<Color>) -> Seq<Entry>
    decreases colors.len(),
{
    if colors.len() == 0 {
        seq![]
    } else {
        let t = tally(colors.drop_last());
        let c = rgb(colors.last());
        match position_of(t, c) {
            Some(p) => t.update(p, (c, (t[p].1 + 1) as u32)),
            None => t.push((c, 1u32)),
        }
    }
}

/// The total pixel count of entries `lo..hi`.
pub open spec fn range_weight(u: Seq<Entry>, lo: int, hi: int) -> int
    decreases hi - lo,
{
    if hi <= lo {
        0
    } else {
        range_weight(u, lo, hi - 1) + u[hi - 1].1
    }
}

/// The pixel-weighted sum of channel `ch` over entries `lo..hi`.
pub open spec fn range_channel(u: Seq<Entry>, lo: int, hi: int, ch: int) -> int
    decreases hi - lo,
{
    if hi <= lo {
        0
    } else {
        range_channel(u, lo, hi - 1, ch) + u[hi - 1].0[ch] * u[hi - 1].1
    }
}

// ---------------------------------------------------------------------------
// One cut.
// ---------------------------------------------------------------------------

/// Among the first `k` buckets, the first heaviest one that holds more than
/// one color, with its weight (0 when there is none).
pub open spec fn pick_bucket(b: Seq<BucketModel>, k: int) -> (Option<int>, int)
    decreases k,
{
    if k <= 0 {
        (None, 0)
    } else {
        let (best, max_weight) = pick_bucket(b, k - 1);
        let bk = b[k - 1];
        if bk.1 - bk.0 > 1 && bk.2 > max_weight {
            (Some(k - 1), bk.2)
        } else {
            (best, max_weight)
        }
    }
}

/// The smallest value of channel `ch` among the first `k` entries (255 when `k` is 0).
pub open spec fn channel_min(s: Seq<Entry>, ch: int, k: int) -> int
    decreases k,
{
    if k <= 0 {
        255
    } else {
        let m = channel_min(s, ch, k - 1);
        let v = s[k - 1].0[ch] as int;
        if v < m { v } else { m }
    }
}

/// The largest value of channel `ch` among the first `k` entries (0 when `k` is 0).
pub open spec fn channel_max(s: Seq<Entry>, ch: int, k: int) -> int
    decreases k,
{
    if k <= 0 {
        0
    } else {
        let m = channel_max(s, ch, k - 1);
        let v = s[k - 1].0[ch] as int;
        if v > m { v } else { m }
    }
}

/// The channel with the largest range over `s`; red, then green, win ties.
pub open spec fn widest_channel(s: Seq<Entry>) -> int {
    let n = s.len() as int;
    let range_r = channel_max(s, 0, n) - channel_min(s, 0, n);
    let range_g = channel_max(s, 1, n) - channel_min(s, 1, n);
    let range_b = channel_max(s, 2, n) - channel_min(s, 2, n);
    if range_r >= range_g && range_r >= range_b {
        0
    } else if range_g >= range_r && range_g >= range_b {
        1
    } else {
        2
    }
}

/// The entries of `s` whose channel `ch` is `k`, in order.
pub open spec fn keyed(s: Seq<Entry>, ch: int, k: int) -> Seq<Entry>
    decreases s.len(),
{
    if s.len() == 0 {
        seq![]
    } else {
        keyed(s.drop_last(), ch, k) + if s.last().0[ch] as int == k {
            seq![s.last()]
        } else {
            seq![]
        }
    }
}

/// The entries of `s` whose channel `ch` is below `k`, by channel value and
/// then in their order in `s`.
pub open spec fn sorted_below(s: Seq<Entry>, ch: int, k: int) -> Seq<Entry>
    decreases k,
{
    if k <= 0 {
        seq![]
    } else {
        sorted_below(s, ch, k - 1) + keyed(s, ch, k - 1)
    }
}

/// `s` sorted stably by channel `ch`.
pub open spec fn sort_by_channel(s: Seq<Entry>, ch: int) -> Seq<Entry> {
    sorted_below(s, ch, 256)
}

/// The first index `i`, from `from` on, at which the running pixel count of
/// `s[0..=i]` reaches `half`.
pub open spec fn crossing(s: Seq<Entry>, half: int, from: int) -> Option<int>
    decreases s.len() - from,
{
    if from < 0 || from >= s.len() {
        None
    } else if range_weight(s, 0, from + 1) >= half {
        Some(from)
    } else {
        crossing(s, half, from + 1)
    }
}

/// The cut of bucket `start..end`: the crossing point, kept strictly inside.
pub open spec fn split_point(start: int, end: int, c: Option<int>) -> int {
    let s0 = match c {
        Some(i) => start + i,
        None => start,
    };
    let s1 = if s0 == start { start + 1 } else { s0 };
    if s1 >= end { end - 1 } else { s1 }
}

/// One cut: the entries after sorting the chosen bucket, and the buckets
/// with the chosen one replaced by its two halves at the end. `None` when
/// no bucket holds more than one color.
pub open spec fn cut(u: Seq<Entry>, b: Seq<BucketModel>) -> Option<(Seq<Entry>, Seq<BucketModel>)> {
    match pick_bucket(b, b.len() as int).0 {
        None => None,
        Some(idx) => {
            let (start, end, weight) = b[idx];
            let slice = u.subrange(start, end);
            let ch = widest_channel(slice);
            let sorted = sort_by_channel(slice, ch);
            let u2 = u.subrange(0, start) + sorted + u.subrange(end, u.len() as int);
            let split = split_point(start, end, crossing(sorted, weight / 2, 0));
            let left = (start, split, range_weight(u2, start, split));
            let right = (split, end, range_weight(u2, split, end));
            Some((u2, b.remove(idx).push(left).push(right)))
        },
    }
}

/// Cut until there are `n` buckets or no bucket can be cut.
pub open spec fn cut_all(u: Seq<Entry>, b: Seq<BucketModel>, n: int) -> (Seq<Entry>, Seq<BucketModel>)
    decreases n - b.len(),
{
    if b.len() < n {
        match cut(u, b) {
            Some((u2, b2)) => if b2.len() == b.len() + 1 {
                cut_all(u2, b2, n)
            } else {
                (u2, b2)
            },
            None => (u, b),
        }
    } else {
        (u, b)
    }
}

// ---------------------------------------------------------------------------
// The palette.
// ---------------------------------------------------------------------------

/// `sum / weight` rounded to the nearest integer, halves upwards.
pub open spec fn rounded_mean(sum: int, weight: int) -> int {
    (2 * sum + weight) / (2 * weight)
}

/// The pixel-weighted mean color of a bucket.
pub open spec fn bucket_color(u: Seq<Entry>, bk: BucketModel) -> Color {
    Color {
        r: rounded_mean(range_channel(u, bk.0, bk.1, 0), bk.2) as u8,
        g: rounded_mean(range_channel(u, bk.0, bk.1, 1), bk.2) as u8,
        b: rounded_mean(range_channel(u, bk.0, bk.1, 2), bk.2) as u8,
        a: 255,
    }
}

/// The colors of the first `k` buckets that hold pixels.
pub open spec fn bucket_colors(u: Seq<Entry>, b: Seq<BucketModel>, k: int) -> Seq<Color>
    decreases k,
{
    if k <= 0 {
        seq![]
    } else {
        bucket_colors(u, b, k - 1) + if b[k - 1].2 == 0 {
            seq![]
        } else {
            seq![bucket_color(u, b[k - 1])]
        }
    }
}

/// The palette that the median-cut generator computes for `colors` and `n_of_colors`.
pub open spec fn median_cut_palette(colors: Seq<Color>, n_of_colors: int) -> Seq<Color> {
    if colors.len() == 0 || n_of_colors == 0 {
        seq![]
    } else {
        let t = tally(colors);
        let (u, b) = cut_all(t, seq![(0int, t.len() as int, range_weight(t, 0, t.len() as int))], n_of_colors);
        bucket_colors(u, b, b.len() as int)
    }
}

} // verus!

verus! {

// ---------------------------------------------------------------------------
// Lemmas on the tally.
// ---------------------------------------------------------------------------

/// Packing is injective.
proof fn lemma_pack_injective(a: [u8; 3], b: [u8; 3])
    requires
        pack(a) == pack(b),
    ensures
        a == b,
{
    let (a0, a1, a2, b0, b1, b2) = (a[0], a[1], a[2], b[0], b[1], b[2]);
    assert(((a0 as u32) << 16u32) | ((a1 as u32) << 8u32) | (a2 as u32) == ((b0 as u32) << 16u32)
        | ((b1 as u32) << 8u32) | (b2 as u32) ==> a0 == b0 && a1 == b1 && a2 == b2)
        by (bit_vector);
    assert(a =~= b);
}

/// `position_of` finds the first entry with the color, and only such an entry.
proof fn lemma_position_of(t: Seq<Entry>, c: [u8; 3])
    ensures
        position_of(t, c) is None <==> (forall|q: int| 0 <= q < t.len() ==> t[q].0 != c),
        position_of(t, c) matches Some(p) ==> 0 <= p < t.len() && t[p].0 == c && (forall|q: int|
            0 <= q < p ==> t[q].0 != c),
    decreases t.len(),
{
    if t.len() > 0 {
        lemma_position_of(t.drop_last(), c);
        assert forall|q: int| 0 <= q < t.len() - 1 implies t[q] == t.drop_last()[q] by {}
    }
}

/// In a run of entries with distinct colors, the entry that has color `c` is its position.
proof fn lemma_position_of_distinct(t: Seq<Entry>, c: [u8; 3], p: int)
    requires
        0 <= p < t.len(),
        t[p].0 == c,
        forall|q: int, r: int| 0 <= q < t.len() && 0 <= r < t.len() && #[trigger] t[q].0 == #[trigger] t[r].0 ==> q == r,
    ensures
        position_of(t, c) == Some(p),
{
    lemma_position_of(t, c);
}

/// The tally of one more color.
proof fn lemma_tally_step(colors: Seq<Color>, i: int)
    requires
        0 <= i < colors.len(),
    ensures
        tally(colors.take(i + 1)) == ({
            let t = tally(colors.take(i));
            let c = rgb(colors[i]);
            match position_of(t, c) {
                Some(p) => t.update(p, (c, (t[p].1 + 1) as u32)),
                None => t.push((c, 1u32)),
            }
        }),
{
    assert(colors.take(i + 1).drop_last() =~= colors.take(i));
}

/// The distinct colors of `colors`, in order of first appearance, with their pixel counts.
fn tally_colors(colors: &Vec<Color>) -> (u: Vec<Entry>)
    requires
        colors@.len() <= u32::MAX,
    ensures
        u@ == tally(colors@),
{
    let mut index: HashMap<u32, usize> = HashMap::new();
    let mut u: Vec<Entry> = Vec::new();
    let n = colors.len();
    let mut i: usize = 0;
    while i < n
        invariant
            n == colors@.len() <= u32::MAX,
            i <= n,
            u@ == tally(colors@.take(i as int)),
            forall|p: int| 0 <= p < u@.len() ==> #[trigger] index@.contains_key(pack(u@[p].0))
                && index@[pack(u@[p].0)] == p,
            forall|k: u32| #[trigger] index@.contains_key(k) ==> index@[k] < u@.len() && pack(
                u@[index@[k] as int].0,
            ) == k,
            forall|p: int| 0 <= p < u@.len() ==> #[trigger] u@[p].1 <= i,
        decreases n - i,
    {
        let c = colors[i];
        let triple: [u8; 3] = [c.r, c.g, c.b];
        let key = ((c.r as u32) << 16u32) | ((c.g as u32) << 8u32) | (c.b as u32);
        proof {
            lemma_tally_step(colors@, i as int);
            assert(triple =~= rgb(colors@[i as int]));
            assert(key == pack(triple));
            assert forall|q: int, r: int|
                0 <= q < u@.len() && 0 <= r < u@.len() && #[trigger] u@[q].0 == #[trigger] u@[r].0 implies q == r by {
                assert(index@.contains_key(pack(u@[q].0)));
                assert(index@.contains_key(pack(u@[r].0)));
            }
        }
        match index.get(&key) {
            Some(found) => {
                let p: usize = *found;
                proof {
                    lemma_pack_injective(u@[p as int].0, triple);
                    lemma_position_of_distinct(u@, triple, p as int);
                }
                let (col, cnt) = u[p];
                u.set(p, (col, cnt + 1));
            },
            None => {
                proof {
                    lemma_position_of(u@, triple);
                    assert forall|q: int| 0 <= q < u@.len() implies u@[q].0 != triple by {
                        assert(index@.contains_key(pack(u@[q].0)));
                    }
                }
                index.insert(key, u.len());
                u.push((triple, 1u32));
            },
        }
        i = i + 1;
    }
    assert(colors@.take(n as int) =~= colors@);
    u
}

} // verus!

verus! {

// ---------------------------------------------------------------------------
// Lemmas on weights and on the sort.
// ---------------------------------------------------------------------------

/// The tally has no more entries than there are colors.
proof fn lemma_tally_len(colors: Seq<Color>)
    ensures
        tally(colors).len() <= colors.len(),
    decreases colors.len(),
{
    if colors.len() > 0 {
        lemma_tally_len(colors.drop_last());
        lemma_position_of(tally(colors.drop_last()), rgb(colors.last()));
    }
}

/// A run of `hi - lo` entries weighs at most `hi - lo` times the largest count.
proof fn lemma_range_weight_bound(u: Seq<Entry>, lo: int, hi: int)
    requires
        0 <= lo <= hi <= u.len(),
    ensures
        0 <= range_weight(u, lo, hi) <= (hi - lo) * 0xffff_ffff,
    decreases hi - lo,
{
    if hi > lo {
        lemma_range_weight_bound(u, lo, hi - 1);
    }
}

/// A run of `hi - lo` entries has a channel sum of at most `hi - lo` times
/// the largest channel value times the largest count.
proof fn lemma_range_channel_bound(u: Seq<Entry>, lo: int, hi: int, ch: int)
    requires
        0 <= lo <= hi <= u.len(),
        0 <= ch < 3,
    ensures
        0 <= range_channel(u, lo, hi, ch) <= (hi - lo) * 1_095_216_660_225,
    decreases hi - lo,
{
    if hi > lo {
        lemma_range_channel_bound(u, lo, hi - 1, ch);
        let e = u[hi - 1];
        assert(0 <= e.0[ch] * e.1 <= 1_095_216_660_225) by (nonlinear_arith)
            requires
                0 <= e.0[ch] <= 255,
                0 <= e.1 <= 0xffff_ffff,
        ;
        assert(range_channel(u, lo, hi, ch) == range_channel(u, lo, hi - 1, ch) + e.0[ch] * e.1);
        assert((hi - lo) * 1_095_216_660_225 == (hi - 1 - lo) * 1_095_216_660_225 + 1_095_216_660_225);
    }
}

/// The smallest and largest channel values bound every value among the first `k` entries.
proof fn lemma_channel_extremes(s: Seq<Entry>, ch: int, k: int, j: int)
    requires
        0 <= j < k <= s.len(),
    ensures
        channel_min(s, ch, k) <= s[j].0[ch] <= channel_max(s, ch, k),
    decreases k,
{
    if j < k - 1 {
        lemma_channel_extremes(s, ch, k - 1, j);
    }
}

/// Removing the last entry changes the length of each key class only at the last entry's key.
proof fn lemma_sorted_below_len_step(s: Seq<Entry>, ch: int, k: int)
    requires
        s.len() > 0,
        0 <= k,
    ensures
        sorted_below(s, ch, k).len() == sorted_below(s.drop_last(), ch, k).len() + if (
        s.last().0[ch] as int) < k {
            1int
        } else {
            0int
        },
    decreases k,
{
    if k > 0 {
        lemma_sorted_below_len_step(s, ch, k - 1);
    }
}

/// Sorting by a channel keeps the number of entries.
proof fn lemma_sort_len(s: Seq<Entry>, ch: int)
    ensures
        sort_by_channel(s, ch).len() == s.len(),
    decreases s.len(),
{
    if s.len() == 0 {
        lemma_sorted_below_empty(s, ch, 256);
    } else {
        lemma_sort_len(s.drop_last(), ch);
        lemma_sorted_below_len_step(s, ch, 256);
    }
}

/// Nothing sorts out of nothing.
proof fn lemma_sorted_below_empty(s: Seq<Entry>, ch: int, k: int)
    requires
        s.len() == 0,
    ensures
        sorted_below(s, ch, k).len() == 0,
    decreases k,
{
    if k > 0 {
        lemma_sorted_below_empty(s, ch, k - 1);
    }
}

} // verus!

verus! {

// ---------------------------------------------------------------------------
// The steps of one cut.
// ---------------------------------------------------------------------------

/// The models of a run of buckets.
spec fn models(b: Seq<Bucket>) -> Seq<BucketModel> {
    b.map_values(|x: Bucket| x@)
}

/// An optional index as an optional integer.
spec fn opt_index(o: Option<usize>) -> Option<int> {
    match o {
        Some(i) => Some(i as int),
        None => None,
    }
}

/// Every bucket is a run `start..end` of the `len` entries.
spec fn buckets_in(b: Seq<Bucket>, len: int) -> bool {
    forall|k: int| 0 <= k < b.len() ==> #[trigger] b[k].start <= b[k].end && b[k].end <= len
}

/// The total pixel count of entries `lo..hi`.
fn weight_of(u: &Vec<Entry>, lo: usize, hi: usize) -> (w: u64)
    requires
        lo <= hi <= u@.len() <= u32::MAX,
    ensures
        w == range_weight(u@, lo as int, hi as int),
{
    let mut w: u64 = 0;
    let mut j = lo;
    while j < hi
        invariant
            lo <= j <= hi <= u@.len() <= u32::MAX,
            w == range_weight(u@, lo as int, j as int),
        decreases hi - j,
    {
        proof {
            lemma_range_weight_bound(u@, lo as int, j + 1);
            assert((j + 1 - lo) * 0xffff_ffff <= 0xffff_ffff * 0xffff_ffff) by (nonlinear_arith)
                requires
                    j + 1 - lo <= 0xffff_ffff,
            ;
        }
        w = w + u[j].1 as u64;
        j = j + 1;
    }
    w
}

/// The chosen bucket is one of the first `k` and holds more than one color.
proof fn lemma_pick_bucket(b: Seq<BucketModel>, k: int)
    ensures
        pick_bucket(b, k).0 matches Some(i) ==> 0 <= i < k && b[i].1 - b[i].0 > 1,
    decreases k,
{
    if k > 0 {
        lemma_pick_bucket(b, k - 1);
    }
}

/// Among the buckets, the first heaviest one that holds more than one color.
fn pick(buckets: &Vec<Bucket>) -> (best: Option<usize>)
    requires
        buckets_in(buckets@, usize::MAX as int),
    ensures
        opt_index(best) == pick_bucket(models(buckets@), buckets@.len() as int).0,
        best matches Some(i) ==> i < buckets@.len() && buckets@[i as int].end - buckets@[i as int].start > 1,
{
    let mut best: Option<usize> = None;
    let mut max_weight: u64 = 0;
    let mut i: usize = 0;
    while i < buckets.len()
        invariant
            i <= buckets@.len(),
            buckets_in(buckets@, usize::MAX as int),
            pick_bucket(models(buckets@), i as int) == (opt_index(best), max_weight as int),
        decreases buckets@.len() - i,
    {
        let b = &buckets[i];
        assert(models(buckets@)[i as int] == b@);
        let len = b.end - b.start;
        if len > 1 && b.total_weight > max_weight {
            max_weight = b.total_weight;
            best = Some(i);
        }
        i = i + 1;
    }
    proof {
        lemma_pick_bucket(models(buckets@), buckets@.len() as int);
        if let Some(i) = best {
            assert(models(buckets@)[i as int] == buckets@[i as int]@);
        }
    }
    best
}

/// The channel with the largest range over entries `start..end`.
fn widest(u: &Vec<Entry>, start: usize, end: usize) -> (ch: usize)
    requires
        start < end <= u@.len(),
    ensures
        ch as int == widest_channel(u@.subrange(start as int, end as int)),
        ch < 3,
{
    let ghost s = u@.subrange(start as int, end as int);
    let mut min_r: u8 = 255;
    let mut max_r: u8 = 0;
    let mut min_g: u8 = 255;
    let mut max_g: u8 = 0;
    let mut min_b: u8 = 255;
    let mut max_b: u8 = 0;
    let mut j = start;
    while j < end
        invariant
            start <= j <= end <= u@.len(),
            s == u@.subrange(start as int, end as int),
            min_r == channel_min(s, 0, j - start),
            max_r == channel_max(s, 0, j - start),
            min_g == channel_min(s, 1, j - start),
            max_g == channel_max(s, 1, j - start),
            min_b == channel_min(s, 2, j - start),
            max_b == channel_max(s, 2, j - start),
        decreases end - j,
    {
        let rgb = u[j].0;
        assert(s[j - start] == u@[j as int]);
        if rgb[0] < min_r {
            min_r = rgb[0];
        }
        if rgb[0] > max_r {
            max_r = rgb[0];
        }
        if rgb[1] < min_g {
            min_g = rgb[1];
        }
        if rgb[1] > max_g {
            max_g = rgb[1];
        }
        if rgb[2] < min_b {
            min_b = rgb[2];
        }
        if rgb[2] > max_b {
            max_b = rgb[2];
        }
        j = j + 1;
    }
    proof {
        let n = s.len() as int;
        lemma_channel_extremes(s, 0, n, 0);
        lemma_channel_extremes(s, 1, n, 0);
        lemma_channel_extremes(s, 2, n, 0);
    }
    let range_r = max_r - min_r;
    let range_g = max_g - min_g;
    let range_b = max_b - min_b;
    if range_r >= range_g && range_r >= range_b {
        0
    } else if range_g >= range_r && range_g >= range_b {
        1
    } else {
        2
    }
}

/// Sorts entries `start..end` stably by channel `ch`.
fn sort_range(u: &mut Vec<Entry>, start: usize, end: usize, ch: usize)
    requires
        start <= end <= old(u)@.len(),
        ch < 3,
    ensures
        final(u)@ == old(u)@.subrange(0, start as int) + sort_by_channel(
            old(u)@.subrange(start as int, end as int),
            ch as int,
        ) + old(u)@.subrange(end as int, old(u)@.len() as int),
{
    let ghost s = u@.subrange(start as int, end as int);
    let ghost orig = u@;
    let mut sorted: Vec<Entry> = Vec::new();
    let mut k: u16 = 0;
    while k < 256
        invariant
            k <= 256,
            start <= end <= u@.len(),
            ch < 3,
            u@ == orig,
            s == orig.subrange(start as int, end as int),
            sorted@ == sorted_below(s, ch as int, k as int),
        decreases 256 - k,
    {
        let mut j = start;
        while j < end
            invariant
                k < 256,
                start <= j <= end <= u@.len(),
                ch < 3,
                u@ == orig,
                s == orig.subrange(start as int, end as int),
                sorted@ == sorted_below(s, ch as int, k as int) + keyed(
                    s.take(j - start),
                    ch as int,
                    k as int,
                ),
            decreases end - j,
        {
            let e = u[j];
            proof {
                assert(s.take(j + 1 - start).drop_last() =~= s.take(j - start));
                assert(s.take(j + 1 - start).last() == e);
            }
            if e.0[ch] as u16 == k {
                sorted.push(e);
            }
            proof {
                assert(sorted@ =~= sorted_below(s, ch as int, k as int) + keyed(
                    s.take(j + 1 - start),
                    ch as int,
                    k as int,
                ));
            }
            j = j + 1;
        }
        assert(s.take(end - start) =~= s);
        k = k + 1;
    }
    proof {
        lemma_sort_len(s, ch as int);
    }
    let ghost target = orig.subrange(0, start as int) + sorted@ + orig.subrange(
        end as int,
        orig.len() as int,
    );
    let mut j: usize = 0;
    while j < end - start
        invariant
            start <= end <= orig.len(),
            sorted@.len() == end - start,
            j <= end - start,
            u@.len() == orig.len(),
            forall|idx: int|
                0 <= idx < orig.len() ==> #[trigger] u@[idx] == if start <= idx < start + j {
                    sorted@[idx - start]
                } else {
                    orig[idx]
                },
        decreases end - start - j,
    {
        u.set(start + j, sorted[j]);
        j = j + 1;
    }
    assert(u@ =~= target);
}

/// The crossing point, when there is one, is at or after `from` and inside `s`.
proof fn lemma_crossing_range(s: Seq<Entry>, half: int, from: int)
    ensures
        crossing(s, half, from) matches Some(i) ==> 0 <= from <= i < s.len(),
    decreases s.len() - from,
{
    if 0 <= from < s.len() {
        lemma_crossing_range(s, half, from + 1);
    }
}

/// Where the chosen bucket `start..end` is cut, for a half weight of `half`.
fn find_split(u: &Vec<Entry>, start: usize, end: usize, half: u64) -> (split: usize)
    requires
        start + 1 < end <= u@.len() <= u32::MAX,
    ensures
        split as int == split_point(
            start as int,
            end as int,
            crossing(u@.subrange(start as int, end as int), half as int, 0),
        ),
        start < split < end,
{
    let ghost s = u@.subrange(start as int, end as int);
    let mut running: u64 = 0;
    let mut split = start;
    let mut j: usize = 0;
    while j < end - start
        invariant_except_break
            split == start,
            crossing(s, half as int, 0) == crossing(s, half as int, j as int),
            running == range_weight(s, 0, j as int),
        invariant
            start + 1 < end <= u@.len() <= u32::MAX,
            s == u@.subrange(start as int, end as int),
            j <= end - start,
        ensures
            crossing(s, half as int, 0) is None ==> split == start,
            crossing(s, half as int, 0) matches Some(i) ==> split == start + i,
        decreases end - start - j,
    {
        proof {
            lemma_range_weight_bound(s, 0, j + 1);
            assert((j + 1) * 0xffff_ffff <= 0xffff_ffff * 0xffff_ffff) by (nonlinear_arith)
                requires
                    j + 1 <= 0xffff_ffff,
            ;
            assert(s[j as int] == u@[start + j]);
        }
        running = running + u[start + j].1 as u64;
        if running >= half {
            split = start + j;
            break;
        }
        j = j + 1;
    }
    proof {
        lemma_crossing_range(s, half as int, 0);
    }
    if split == start {
        split = start + 1;
    }
    if split >= end {
        split = end - 1;
    }
    split
}

/// The pixel-weighted channel sums of entries `lo..hi`.
fn channel_sums(u: &Vec<Entry>, lo: usize, hi: usize) -> (sums: (u128, u128, u128))
    requires
        lo <= hi <= u@.len() <= u32::MAX,
    ensures
        sums.0 == range_channel(u@, lo as int, hi as int, 0),
        sums.1 == range_channel(u@, lo as int, hi as int, 1),
        sums.2 == range_channel(u@, lo as int, hi as int, 2),
{
    let mut sr: u128 = 0;
    let mut sg: u128 = 0;
    let mut sb: u128 = 0;
    let mut j = lo;
    while j < hi
        invariant
            lo <= j <= hi <= u@.len() <= u32::MAX,
            sr == range_channel(u@, lo as int, j as int, 0),
            sg == range_channel(u@, lo as int, j as int, 1),
            sb == range_channel(u@, lo as int, j as int, 2),
        decreases hi - j,
    {
        proof {
            lemma_range_channel_bound(u@, lo as int, j + 1, 0);
            lemma_range_channel_bound(u@, lo as int, j + 1, 1);
            lemma_range_channel_bound(u@, lo as int, j + 1, 2);
            assert((j + 1 - lo) * 1_095_216_660_225 <= 0xffff_ffff * 1_095_216_660_225) by (nonlinear_arith)
                requires
                    j + 1 - lo <= 0xffff_ffff,
            ;
        }
        let (rgb, count) = u[j];
        let w = count as u128;
        assert(rgb[0] * count <= 1_095_216_660_225) by (nonlinear_arith)
            requires rgb[0] <= 255, count <= 0xffff_ffff;
        assert(rgb[1] * count <= 1_095_216_660_225) by (nonlinear_arith)
            requires rgb[1] <= 255, count <= 0xffff_ffff;
        assert(rgb[2] * count <= 1_095_216_660_225) by (nonlinear_arith)
            requires rgb[2] <= 255, count <= 0xffff_ffff;
        sr = sr + rgb[0] as u128 * w;
        sg = sg + rgb[1] as u128 * w;
        sb = sb + rgb[2] as u128 * w;
        j = j + 1;
    }
    (sr, sg, sb)
}

} // verus!

verus! {

impl PaletteGenerator for MedianCut {
    type Params = MedianCutParams;

    fn name(&self) -> (name: &'static str)
        ensures
            name@ == "median_cut"@,
    {
        "median_cut"
    }

    /// The pixel-weighted mean colors of the buckets that median cut leaves,
    /// cutting until there are `n_of_colors` buckets or none holds two colors.
    fn calculate(&self, image: &Image, params: &MedianCutParams) -> (palette: Palette)
        ensures
            palette.colors@ == median_cut_palette(image.color_seq(), params.n_of_colors as int),
    {
        let colors = image.colors();
        if colors.len() == 0 || params.n_of_colors == 0 {
            return Palette { colors: Vec::new() };
        }
        let mut u = tally_colors(&colors);
        proof {
            lemma_tally_len(colors@);
        }
        let ghost t = u@;
        let n: usize = params.n_of_colors as usize;
        let total = weight_of(&u, 0, u.len());
        let mut buckets: Vec<Bucket> = Vec::new();
        buckets.push(Bucket { start: 0, end: u.len(), total_weight: total });
        assert(models(buckets@) =~= seq![(0int, t.len() as int, range_weight(t, 0, t.len() as int))]);
        let ghost target = cut_all(u@, models(buckets@), n as int);
        while buckets.len() < n
            invariant
                u@.len() == t.len() <= u32::MAX,
                buckets_in(buckets@, u@.len() as int),
                cut_all(u@, models(buckets@), n as int) == target,
            ensures
                u@.len() == t.len() <= u32::MAX,
                buckets_in(buckets@, u@.len() as int),
                target == (u@, models(buckets@)),
            decreases n - buckets.len(),
        {
            let ghost b = models(buckets@);
            let ghost u0 = u@;
            let picked = pick(&buckets);
            let idx = match picked {
                Some(idx) => idx,
                None => {
                    break;
                },
            };
            let ghost old_buckets = buckets@;
            let bucket = buckets.remove(idx);
            let start = bucket.start;
            let end = bucket.end;
            proof {
                assert(b[idx as int] == bucket@);
            }
            let ch = widest(&u, start, end);
            sort_range(&mut u, start, end, ch);
            let ghost sorted = sort_by_channel(u0.subrange(start as int, end as int), ch as int);
            proof {
                lemma_sort_len(u0.subrange(start as int, end as int), ch as int);
                assert(u@.subrange(start as int, end as int) =~= sorted);
            }
            let split = find_split(&u, start, end, bucket.total_weight / 2);
            let weight_left = weight_of(&u, start, split);
            let weight_right = weight_of(&u, split, end);
            buckets.push(Bucket { start, end: split, total_weight: weight_left });
            buckets.push(Bucket { start: split, end, total_weight: weight_right });
            proof {
                let left = (start as int, split as int, weight_left as int);
                let right = (split as int, end as int, weight_right as int);
                assert(models(buckets@) =~= b.remove(idx as int).push(left).push(right));
                assert forall|k: int| 0 <= k < buckets@.len() implies #[trigger] buckets@[k].start
                    <= buckets@[k].end && buckets@[k].end <= u@.len() by {
                    if k < buckets@.len() - 2 {
                        let o = if k < idx { k } else { k + 1 };
                        assert(buckets@[k] == old_buckets[o]);
                    }
                }
                assert(cut(u0, b) == Some((u@, models(buckets@))));
            }
        }
        // Each bucket with pixels contributes its weighted mean color.
        let mut palette_colors: Vec<Color> = Vec::with_capacity(buckets.len());
        let mut k: usize = 0;
        while k < buckets.len()
            invariant
                k <= buckets@.len(),
                u@.len() <= u32::MAX,
                buckets_in(buckets@, u@.len() as int),
                palette_colors@ == bucket_colors(u@, models(buckets@), k as int),
            decreases buckets@.len() - k,
        {
            let bucket = &buckets[k];
            assert(models(buckets@)[k as int] == bucket@);
            if bucket.total_weight != 0 {
                let (sr, sg, sb) = channel_sums(&u, bucket.start, bucket.end);
                let w = bucket.total_weight as u128;
                proof {
                    lemma_range_channel_bound(u@, bucket.start as int, bucket.end as int, 0);
                    lemma_range_channel_bound(u@, bucket.start as int, bucket.end as int, 1);
                    lemma_range_channel_bound(u@, bucket.start as int, bucket.end as int, 2);
                    assert((bucket.end - bucket.start) * 1_095_216_660_225 <= 0xffff_ffff * 1_095_216_660_225) by (nonlinear_arith)
                        requires
                            bucket.end - bucket.start <= 0xffff_ffff,
                    ;
                }
                let r = (2 * sr + w) / (2 * w);
                let g = (2 * sg + w) / (2 * w);
                let b = (2 * sb + w) / (2 * w);
                palette_colors.push(Color { r: r as u8, g: g as u8, b: b as u8, a: 255 });
            }
            k = k + 1;
        }
        Palette { colors: palette_colors }
    }
}

} // verus!

verus! {

// ---------------------------------------------------------------------------
// Laws.
// ---------------------------------------------------------------------------

/// A cut adds exactly one bucket.
proof fn lemma_cut_adds_one(u: Seq<Entry>, b: Seq<BucketModel>)
    ensures
        cut(u, b) matches Some((u2, b2)) ==> b2.len() == b.len() + 1,
{
    lemma_pick_bucket(b, b.len() as int);
}

/// Cutting never leaves more buckets than requested, unless there were already more.
proof fn lemma_cut_all_len(u: Seq<Entry>, b: Seq<BucketModel>, n: int)
    ensures
        cut_all(u, b, n).1.len() <= if b.len() <= n {
            n
        } else {
            b.len() as int
        },
    decreases n - b.len(),
{
    if b.len() < n {
        lemma_cut_adds_one(u, b);
        if let Some((u2, b2)) = cut(u, b) {
            lemma_cut_all_len(u2, b2, n);
        }
    }
}

/// There are at most as many palette colors as buckets, and every one is opaque.
proof fn lemma_bucket_colors(u: Seq<Entry>, b: Seq<BucketModel>, k: int)
    requires
        0 <= k,
    ensures
        bucket_colors(u, b, k).len() <= k,
        forall|i: int| 0 <= i < bucket_colors(u, b, k).len() ==> (#[trigger] bucket_colors(u, b, k)[i]).a == 255,
    decreases k,
{
    if k > 0 {
        lemma_bucket_colors(u, b, k - 1);
    }
}

/// The median-cut palette has at most `n_of_colors` colors, and all of them are opaque.
pub proof fn law_median_cut_palette_size(colors: Seq<Color>, n_of_colors: int)
    requires
        0 <= n_of_colors,
    ensures
        median_cut_palette(colors, n_of_colors).len() <= n_of_colors,
        forall|i: int|
            0 <= i < median_cut_palette(colors, n_of_colors).len() ==> (
            #[trigger] median_cut_palette(colors, n_of_colors)[i]).a == 255,
{
    if colors.len() > 0 && n_of_colors > 0 {
        let t = tally(colors);
        let b0 = seq![(0int, t.len() as int, range_weight(t, 0, t.len() as int))];
        lemma_cut_all_len(t, b0, n_of_colors);
        let (u, b) = cut_all(t, b0, n_of_colors);
        lemma_bucket_colors(u, b, b.len() as int);
    }
}

} // verus!

verus! {

// ---------------------------------------------------------------------------
// The sort is a permutation, and cuts keep the buckets well formed.
// ---------------------------------------------------------------------------

/// The entries of one key class are those of `s` with that key, as many times.
proof fn lemma_keyed_count(s: Seq<Entry>, ch: int, k: int, x: Entry)
    ensures
        keyed(s, ch, k).to_multiset().count(x) == if x.0[ch] as int == k {
            s.to_multiset().count(x)
        } else {
            0
        },
    decreases s.len(),
{
    broadcast use vstd::seq_lib::group_to_multiset_ensures;
    broadcast use vstd::multiset::group_multiset_axioms;
    broadcast use vstd::seq_lib::lemma_multiset_commutative;

    if s.len() == 0 {
        assert(keyed(s, ch, k) =~= Seq::<Entry>::empty());
        assert(s.to_multiset() =~= vstd::multiset::Multiset::<Entry>::empty());
        assert(keyed(s, ch, k).to_multiset() =~= vstd::multiset::Multiset::<Entry>::empty());
    } else {
        let d = s.drop_last();
        lemma_keyed_count(d, ch, k, x);
        assert(s =~= d.push(s.last()));
        if s.last().0[ch] as int == k {
            assert(keyed(s, ch, k) =~= keyed(d, ch, k).push(s.last()));
        } else {
            assert(keyed(s, ch, k) =~= keyed(d, ch, k));
        }
    }
}

/// The entries sorted below key `k` are those of `s` with a smaller key, as many times.
proof fn lemma_sorted_below_count(s: Seq<Entry>, ch: int, k: int, x: Entry)
    requires
        0 <= k,
    ensures
        sorted_below(s, ch, k).to_multiset().count(x) == if (x.0[ch] as int) < k {
            s.to_multiset().count(x)
        } else {
            0
        },
    decreases k,
{
    broadcast use vstd::multiset::group_multiset_axioms;
    broadcast use vstd::seq_lib::lemma_multiset_commutative;

    if k == 0 {
        assert(sorted_below(s, ch, k).to_multiset() =~= vstd::multiset::Multiset::<Entry>::empty()) by {
            broadcast use vstd::seq_lib::group_to_multiset_ensures;
            assert(sorted_below(s, ch, k).len() == 0);
        }
    } else {
        lemma_sorted_below_count(s, ch, k - 1, x);
        lemma_keyed_count(s, ch, k - 1, x);
    }
}

/// Sorting by a channel permutes the entries.
proof fn lemma_sort_permutes(s: Seq<Entry>, ch: int)
    ensures
        sort_by_channel(s, ch).to_multiset() == s.to_multiset(),
{
    assert forall|x: Entry| sort_by_channel(s, ch).to_multiset().count(x) == s.to_multiset().count(x) by {
        lemma_sorted_below_count(s, ch, 256, x);
    }
    assert(sort_by_channel(s, ch).to_multiset() =~= s.to_multiset());
}

/// Every sorted entry is an entry of the run it came from.
proof fn lemma_sort_members(s: Seq<Entry>, ch: int, i: int)
    requires
        0 <= i < sort_by_channel(s, ch).len(),
    ensures
        exists|j: int| 0 <= j < s.len() && s[j] == sort_by_channel(s, ch)[i],
{
    broadcast use vstd::seq_lib::group_to_multiset_ensures;

    lemma_sort_permutes(s, ch);
    let x = sort_by_channel(s, ch)[i];
    assert(sort_by_channel(s, ch).contains(x));
    assert(sort_by_channel(s, ch).to_multiset().count(x) > 0);
    assert(s.to_multiset().count(x) > 0);
    assert(s.contains(x));
}

/// Runs that agree entry by entry have the same weight.
proof fn lemma_range_weight_agree(u: Seq<Entry>, v: Seq<Entry>, lo: int, hi: int)
    requires
        forall|p: int| lo <= p < hi ==> #[trigger] u[p] == v[p],
    ensures
        range_weight(u, lo, hi) == range_weight(v, lo, hi),
    decreases hi - lo,
{
    if hi > lo {
        lemma_range_weight_agree(u, v, lo, hi - 1);
    }
}

/// A run of entries that each count at least one pixel weighs at least its length.
proof fn lemma_range_weight_positive(u: Seq<Entry>, lo: int, hi: int)
    requires
        0 <= lo <= hi <= u.len(),
        forall|p: int| lo <= p < hi ==> #[trigger] u[p].1 >= 1,
    ensures
        range_weight(u, lo, hi) >= hi - lo,
    decreases hi - lo,
{
    if hi > lo {
        lemma_range_weight_positive(u, lo, hi - 1);
    }
}

/// The buckets are disjoint, nonempty runs of the entries, each weighing
/// what its entries weigh, and every entry counts at least one pixel.
pub open spec fn buckets_ok(u: Seq<Entry>, b: Seq<BucketModel>) -> bool {
    &&& forall|p: int| 0 <= p < u.len() ==> #[trigger] u[p].1 >= 1
    &&& forall|k: int|
        0 <= k < b.len() ==> 0 <= (#[trigger] b[k]).0 < b[k].1 <= u.len() && b[k].2 == range_weight(
            u,
            b[k].0,
            b[k].1,
        )
    &&& forall|k: int, l: int|
        0 <= k < b.len() && 0 <= l < b.len() && k != l ==> (#[trigger] b[k]).1 <= (#[trigger] b[l]).0
            || b[l].1 <= b[k].0
}

/// The cut point lies strictly inside a bucket of at least two entries.
proof fn lemma_split_point_inside(start: int, end: int, s: Seq<Entry>, half: int)
    requires
        start + 1 < end,
        s.len() == end - start,
    ensures
        start < split_point(start, end, crossing(s, half, 0)) < end,
{
    lemma_crossing_range(s, half, 0);
}

/// A cut keeps the buckets well formed and the number of entries.
proof fn lemma_cut_ok(u: Seq<Entry>, b: Seq<BucketModel>)
    requires
        buckets_ok(u, b),
    ensures
        cut(u, b) matches Some((u2, b2)) ==> buckets_ok(u2, b2) && u2.len() == u.len(),
{
    lemma_pick_bucket(b, b.len() as int);
    if let Some(idx) = pick_bucket(b, b.len() as int).0 {
        let (start, end, weight) = b[idx];
        let slice = u.subrange(start, end);
        let ch = widest_channel(slice);
        let sorted = sort_by_channel(slice, ch);
        lemma_sort_len(slice, ch);
        let u2 = u.subrange(0, start) + sorted + u.subrange(end, u.len() as int);
        let split = split_point(start, end, crossing(sorted, weight / 2, 0));
        lemma_split_point_inside(start, end, sorted, weight / 2);
        let left = (start, split, range_weight(u2, start, split));
        let right = (split, end, range_weight(u2, split, end));
        let b2 = b.remove(idx).push(left).push(right);
        assert(u2.len() == u.len());
        assert forall|p: int| 0 <= p < u2.len() && !(start <= p < end) implies #[trigger] u2[p] == u[p] by {}
        assert forall|p: int| 0 <= p < u2.len() implies #[trigger] u2[p].1 >= 1 by {
            if start <= p < end {
                lemma_sort_members(slice, ch, p - start);
                let j = choose|j: int| 0 <= j < slice.len() && slice[j] == sorted[p - start];
                assert(u[start + j] == slice[j]);
            }
        }
        assert forall|k: int| 0 <= k < b2.len() implies 0 <= (#[trigger] b2[k]).0 < b2[k].1 <= u2.len()
            && b2[k].2 == range_weight(u2, b2[k].0, b2[k].1) by {
            if k < b2.len() - 2 {
                let o = if k < idx { k } else { k + 1 };
                assert(b2[k] == b[o]);
                assert(b[o].1 <= b[idx].0 || b[idx].1 <= b[o].0);
                lemma_range_weight_agree(u, u2, b[o].0, b[o].1);
            }
        }
        assert forall|k: int, l: int|
            0 <= k < b2.len() && 0 <= l < b2.len() && k != l implies (#[trigger] b2[k]).1 <= (
            #[trigger] b2[l]).0 || b2[l].1 <= b2[k].0 by {
            let ok = if k < idx { k } else { k + 1 };
            let ol = if l < idx { l } else { l + 1 };
            if k < b2.len() - 2 {
                assert(b2[k] == b[ok]);
                assert(b[ok].1 <= b[idx].0 || b[idx].1 <= b[ok].0);
            }
            if l < b2.len() - 2 {
                assert(b2[l] == b[ol]);
                assert(b[ol].1 <= b[idx].0 || b[idx].1 <= b[ol].0);
            }
            if k < b2.len() - 2 && l < b2.len() - 2 {
                assert(ok != ol);
            }
        }
    }
}

/// Cutting keeps the buckets well formed, keeps at least as many buckets,
/// and keeps the number of entries.
proof fn lemma_cut_all_ok(u: Seq<Entry>, b: Seq<BucketModel>, n: int)
    requires
        buckets_ok(u, b),
    ensures
        buckets_ok(cut_all(u, b, n).0, cut_all(u, b, n).1),
        cut_all(u, b, n).1.len() >= b.len(),
        cut_all(u, b, n).0.len() == u.len(),
    decreases n - b.len(),
{
    if b.len() < n {
        lemma_cut_adds_one(u, b);
        lemma_cut_ok(u, b);
        if let Some((u2, b2)) = cut(u, b) {
            lemma_cut_all_ok(u2, b2, n);
        }
    }
}

/// Well-formed buckets all contribute a color.
proof fn lemma_bucket_colors_all(u: Seq<Entry>, b: Seq<BucketModel>, k: int)
    requires
        buckets_ok(u, b),
        0 <= k <= b.len(),
    ensures
        bucket_colors(u, b, k).len() == k,
    decreases k,
{
    if k > 0 {
        lemma_bucket_colors_all(u, b, k - 1);
        let bk = b[k - 1];
        lemma_range_weight_positive(u, bk.0, bk.1);
    }
}

/// Every tally entry counts at least one pixel and at most all of them, and
/// a nonempty image has an entry.
proof fn lemma_tally_counts(colors: Seq<Color>)
    requires
        colors.len() <= u32::MAX,
    ensures
        forall|p: int|
            0 <= p < tally(colors).len() ==> 1 <= #[trigger] tally(colors)[p].1 <= colors.len(),
        colors.len() > 0 ==> tally(colors).len() >= 1,
    decreases colors.len(),
{
    if colors.len() > 0 {
        let d = colors.drop_last();
        lemma_tally_counts(d);
        lemma_position_of(tally(d), rgb(colors.last()));
        lemma_tally_len(d);
    }
}

/// The median-cut palette of a nonempty image, for at least one color, is not empty.
pub proof fn law_median_cut_palette_nonempty(colors: Seq<Color>, n_of_colors: int)
    requires
        0 < colors.len() <= u32::MAX,
        n_of_colors >= 1,
    ensures
        median_cut_palette(colors, n_of_colors).len() >= 1,
{
    let t = tally(colors);
    lemma_tally_counts(colors);
    let b0 = seq![(0int, t.len() as int, range_weight(t, 0, t.len() as int))];
    assert(buckets_ok(t, b0));
    lemma_cut_all_ok(t, b0, n_of_colors);
    let (u, b) = cut_all(t, b0, n_of_colors);
    lemma_bucket_colors_all(u, b, b.len() as int);
}

} // verus!

verus! {

// ---------------------------------------------------------------------------
// With no more distinct colors than requested, the palette is exact.
// ---------------------------------------------------------------------------

/// The number of entries that the buckets span, together.
pub open spec fn total_size(b: Seq<BucketModel>) -> int
    decreases b.len(),
{
    if b.len() == 0 {
        0
    } else {
        total_size(b.drop_last()) + (b.last().1 - b.last().0)
    }
}

/// Entry `p` lies in some bucket.
pub open spec fn in_some_bucket(b: Seq<BucketModel>, p: int) -> bool {
    exists|k: int| 0 <= k < b.len() && (#[trigger] b[k]).0 <= p < b[k].1
}

/// Every entry lies in some bucket.
pub open spec fn covers(len: int, b: Seq<BucketModel>) -> bool {
    forall|p: int| 0 <= p < len ==> #[trigger] in_some_bucket(b, p)
}

/// The buckets partition the entries, which are a permutation of the tally `t`.
pub open spec fn partition_of(t: Seq<Entry>, u: Seq<Entry>, b: Seq<BucketModel>) -> bool {
    &&& buckets_ok(u, b)
    &&& covers(u.len() as int, b)
    &&& total_size(b) == u.len()
    &&& u.to_multiset() == t.to_multiset()
}

/// Removing a bucket removes its span from the total.
proof fn lemma_total_size_remove(b: Seq<BucketModel>, i: int)
    requires
        0 <= i < b.len(),
    ensures
        total_size(b.remove(i)) == total_size(b) - (b[i].1 - b[i].0),
    decreases b.len(),
{
    if i < b.len() - 1 {
        lemma_total_size_remove(b.drop_last(), i);
        assert(b.remove(i).drop_last() =~= b.drop_last().remove(i));
    } else {
        assert(b.remove(i) =~= b.drop_last());
    }
}

/// The total span is at least the number of nonempty buckets, and equals it
/// only when every bucket holds one entry.
proof fn lemma_total_size_count(b: Seq<BucketModel>)
    requires
        forall|k: int| 0 <= k < b.len() ==> (#[trigger] b[k]).0 < b[k].1,
    ensures
        total_size(b) >= b.len(),
        total_size(b) == b.len() <==> forall|k: int| 0 <= k < b.len() ==> (#[trigger] b[k]).1 == b[k].0 + 1,
    decreases b.len(),
{
    if b.len() > 0 {
        lemma_total_size_count(b.drop_last());
        assert forall|k: int| 0 <= k < b.len() - 1 implies b.drop_last()[k] == b[k] by {}
    }
}

/// A cut keeps the buckets a partition of a permutation of the tally.
proof fn lemma_cut_partition(t: Seq<Entry>, u: Seq<Entry>, b: Seq<BucketModel>)
    requires
        partition_of(t, u, b),
    ensures
        cut(u, b) matches Some((u2, b2)) ==> partition_of(t, u2, b2),
{
    broadcast use vstd::seq_lib::lemma_multiset_commutative;

    lemma_cut_ok(u, b);
    lemma_pick_bucket(b, b.len() as int);
    if let Some(idx) = pick_bucket(b, b.len() as int).0 {
        let (start, end, weight) = b[idx];
        let slice = u.subrange(start, end);
        let ch = widest_channel(slice);
        let sorted = sort_by_channel(slice, ch);
        lemma_sort_len(slice, ch);
        lemma_sort_permutes(slice, ch);
        let pre = u.subrange(0, start);
        let post = u.subrange(end, u.len() as int);
        let u2 = pre + sorted + post;
        let split = split_point(start, end, crossing(sorted, weight / 2, 0));
        lemma_split_point_inside(start, end, sorted, weight / 2);
        let left = (start, split, range_weight(u2, start, split));
        let right = (split, end, range_weight(u2, split, end));
        let b1 = b.remove(idx);
        let b2 = b1.push(left).push(right);
        // The entries are permuted.
        assert(u =~= pre + slice + post);
        assert(u2.to_multiset() =~= u.to_multiset());
        // The spans add up.
        lemma_total_size_remove(b, idx);
        assert(b2.drop_last() =~= b1.push(left));
        assert(b1.push(left).drop_last() =~= b1);
        assert(cut(u, b) == Some((u2, b2)));
        assert(total_size(b1.push(left)) == total_size(b1) + (split - start));
        assert(total_size(b2) == total_size(b1.push(left)) + (end - split));
        assert(total_size(b2) == u2.len());
        // Every entry still lies in a bucket.
        assert forall|p: int| 0 <= p < u2.len() implies #[trigger] in_some_bucket(b2, p) by {
            assert(in_some_bucket(b, p));
            let k = choose|k: int| 0 <= k < b.len() && (#[trigger] b[k]).0 <= p < b[k].1;
            if k == idx {
                if p < split {
                    assert(b2[b2.len() - 2] == left);
                } else {
                    assert(b2[b2.len() - 1] == right);
                }
            } else if k < idx {
                assert(b2[k] == b[k]);
            } else {
                assert(b2[k - 1] == b[k]);
            }
        }
    }
}

/// Cutting keeps the buckets a partition of a permutation of the tally, and
/// stops with the requested number of buckets or with none left to cut.
proof fn lemma_cut_all_partition(t: Seq<Entry>, u: Seq<Entry>, b: Seq<BucketModel>, n: int)
    requires
        partition_of(t, u, b),
        b.len() <= n,
    ensures
        partition_of(t, cut_all(u, b, n).0, cut_all(u, b, n).1),
        cut_all(u, b, n).1.len() >= n || cut(cut_all(u, b, n).0, cut_all(u, b, n).1) is None,
    decreases n - b.len(),
{
    if b.len() < n {
        lemma_cut_adds_one(u, b);
        lemma_cut_partition(t, u, b);
        if let Some((u2, b2)) = cut(u, b) {
            lemma_cut_all_partition(t, u2, b2, n);
        }
    }
}

/// When no bucket is chosen, no bucket with pixels holds two entries or more.
proof fn lemma_pick_none(b: Seq<BucketModel>, k: int)
    requires
        pick_bucket(b, k).0 is None,
    ensures
        pick_bucket(b, k).1 == 0,
        forall|i: int| 0 <= i < k ==> !((#[trigger] b[i]).1 - b[i].0 > 1 && b[i].2 > 0),
    decreases k,
{
    if k > 0 {
        lemma_pick_none(b, k - 1);
    }
}

} // verus!

verus! {

/// The opaque color of a red, green and blue triple.
pub open spec fn opaque_rgb(c: [u8; 3]) -> Color {
    Color { r: c[0], g: c[1], b: c[2], a: 255 }
}

/// The tally holds exactly the colors of the image.
proof fn lemma_tally_colors(colors: Seq<Color>)
    ensures
        forall|j: int|
            0 <= j < colors.len() ==> exists|p: int|
                0 <= p < tally(colors).len() && (#[trigger] tally(colors)[p]).0 == rgb(
                    #[trigger] colors[j],
                ),
        forall|p: int|
            0 <= p < tally(colors).len() ==> exists|j: int|
                0 <= j < colors.len() && (#[trigger] tally(colors)[p]).0 == rgb(#[trigger] colors[j]),
    decreases colors.len(),
{
    if colors.len() > 0 {
        let d = colors.drop_last();
        let t0 = tally(d);
        let c = rgb(colors.last());
        let t = tally(colors);
        lemma_tally_colors(d);
        lemma_position_of(t0, c);
        assert forall|p: int| 0 <= p < t0.len() implies (#[trigger] t[p]).0 == t0[p].0 by {}
        assert forall|j: int| 0 <= j < colors.len() implies exists|p: int|
            0 <= p < t.len() && (#[trigger] t[p]).0 == rgb(#[trigger] colors[j]) by {
            if j < colors.len() - 1 {
                assert(colors[j] == d[j]);
                let p = choose|p: int| 0 <= p < t0.len() && (#[trigger] t0[p]).0 == rgb(d[j]);
                assert(t[p].0 == t0[p].0);
            } else {
                match position_of(t0, c) {
                    Some(p) => {
                        assert(t[p].0 == c);
                    },
                    None => {
                        assert(t[t0.len() as int].0 == c);
                    },
                }
            }
        }
        assert forall|p: int| 0 <= p < t.len() implies exists|j: int|
            0 <= j < colors.len() && (#[trigger] t[p]).0 == rgb(#[trigger] colors[j]) by {
            if p < t0.len() {
                let j = choose|j: int| 0 <= j < d.len() && (#[trigger] t0[p]).0 == rgb(#[trigger] d[j]);
                assert(colors[j] == d[j]);
                assert(t[p].0 == t0[p].0);
            } else {
                assert(t[p].0 == c);
                assert(colors[colors.len() - 1] == colors.last());
            }
        }
    }
}

/// The rounded mean of `w` copies of `c` is `c`.
proof fn lemma_rounded_mean_exact(c: int, w: int)
    requires
        0 <= c,
        0 < w,
    ensures
        rounded_mean(c * w, w) == c,
{
    assert(2 * (c * w) + w == c * (2 * w) + w) by (nonlinear_arith);
    vstd::arithmetic::div_mod::lemma_fundamental_div_mod_converse(2 * (c * w) + w, 2 * w, c, w);
}

/// A bucket of one entry has that entry's color.
proof fn lemma_singleton_color(u: Seq<Entry>, bk: BucketModel)
    requires
        0 <= bk.0 < u.len(),
        bk.1 == bk.0 + 1,
        bk.2 == u[bk.0].1,
        u[bk.0].1 >= 1,
    ensures
        bucket_color(u, bk) == opaque_rgb(u[bk.0].0),
{
    let e = u[bk.0];
    lemma_rounded_mean_exact(e.0[0] as int, e.1 as int);
    lemma_rounded_mean_exact(e.0[1] as int, e.1 as int);
    lemma_rounded_mean_exact(e.0[2] as int, e.1 as int);
    assert(range_channel(u, bk.0, bk.0, 0) == 0);
    assert(range_channel(u, bk.0, bk.0, 1) == 0);
    assert(range_channel(u, bk.0, bk.0, 2) == 0);
    assert(range_channel(u, bk.0, bk.1, 0) == e.0[0] * e.1);
    assert(range_channel(u, bk.0, bk.1, 1) == e.0[1] * e.1);
    assert(range_channel(u, bk.0, bk.1, 2) == e.0[2] * e.1);
}

/// With buckets of one entry each, the palette lists the buckets' entries.
proof fn lemma_singleton_colors(u: Seq<Entry>, b: Seq<BucketModel>, k: int)
    requires
        buckets_ok(u, b),
        forall|i: int| 0 <= i < b.len() ==> (#[trigger] b[i]).1 == b[i].0 + 1,
        0 <= k <= b.len(),
    ensures
        bucket_colors(u, b, k).len() == k,
        forall|i: int| 0 <= i < k ==> #[trigger] bucket_colors(u, b, k)[i] == opaque_rgb(u[b[i].0].0),
    decreases k,
{
    if k > 0 {
        lemma_singleton_colors(u, b, k - 1);
        let bk = b[k - 1];
        assert(range_weight(u, bk.0, bk.0) == 0);
        assert(bk.2 == u[bk.0].1);
        lemma_singleton_color(u, bk);
        let prev = bucket_colors(u, b, k - 1);
        assert(bucket_colors(u, b, k) == prev + seq![bucket_color(u, bk)]);
        assert forall|i: int| 0 <= i < k implies #[trigger] bucket_colors(u, b, k)[i] == opaque_rgb(u[b[i].0].0) by {
            if i < k - 1 {
                assert(bucket_colors(u, b, k)[i] == prev[i]);
            }
        }
    }
}

/// Once cutting stops with at least as many buckets requested as there are
/// entries, every bucket holds one entry.
proof fn lemma_final_singletons(t: Seq<Entry>, u: Seq<Entry>, b: Seq<BucketModel>, n: int)
    requires
        partition_of(t, u, b),
        u.len() <= n,
        b.len() >= n || cut(u, b) is None,
    ensures
        forall|k: int| 0 <= k < b.len() ==> (#[trigger] b[k]).1 == b[k].0 + 1,
{
    assert forall|k: int| 0 <= k < b.len() implies (#[trigger] b[k]).0 < b[k].1 by {}
    lemma_total_size_count(b);
    if b.len() < n {
        lemma_pick_bucket(b, b.len() as int);
        lemma_pick_none(b, b.len() as int);
        assert forall|k: int| 0 <= k < b.len() implies (#[trigger] b[k]).1 == b[k].0 + 1 by {
            lemma_range_weight_positive(u, b[k].0, b[k].1);
        }
    }
}

/// Each palette color of singleton buckets is the opaque color of an entry of the tally.
proof fn lemma_singletons_from_tally(t: Seq<Entry>, u: Seq<Entry>, b: Seq<BucketModel>, i: int)
    requires
        partition_of(t, u, b),
        forall|k: int| 0 <= k < b.len() ==> (#[trigger] b[k]).1 == b[k].0 + 1,
        0 <= i < b.len(),
    ensures
        exists|p: int| 0 <= p < t.len() && bucket_colors(u, b, b.len() as int)[i] == opaque_rgb(#[trigger] t[p].0),
{
    broadcast use vstd::seq_lib::group_to_multiset_ensures;

    lemma_singleton_colors(u, b, b.len() as int);
    let e = u[b[i].0];
    assert(u.contains(e));
    assert(u.to_multiset().count(e) > 0);
    assert(t.to_multiset().count(e) > 0);
    assert(t.contains(e));
    let p = choose|p: int| 0 <= p < t.len() && t[p] == e;
    assert(bucket_colors(u, b, b.len() as int)[i] == opaque_rgb(t[p].0));
}

/// Each entry of the tally, made opaque, is a palette color of singleton buckets.
proof fn lemma_tally_in_singletons(t: Seq<Entry>, u: Seq<Entry>, b: Seq<BucketModel>, p: int)
    requires
        partition_of(t, u, b),
        forall|k: int| 0 <= k < b.len() ==> (#[trigger] b[k]).1 == b[k].0 + 1,
        0 <= p < t.len(),
    ensures
        exists|i: int| 0 <= i < b.len() && bucket_colors(u, b, b.len() as int)[i] == opaque_rgb(#[trigger] t[p].0),
{
    broadcast use vstd::seq_lib::group_to_multiset_ensures;

    lemma_singleton_colors(u, b, b.len() as int);
    let e = t[p];
    assert(t.contains(e));
    assert(t.to_multiset().count(e) > 0);
    assert(u.to_multiset().count(e) > 0);
    assert(u.contains(e));
    let q = choose|q: int| 0 <= q < u.len() && u[q] == e;
    assert(in_some_bucket(b, q));
    let k = choose|k: int| 0 <= k < b.len() && (#[trigger] b[k]).0 <= q < b[k].1;
    assert(bucket_colors(u, b, b.len() as int)[k] == opaque_rgb(e.0));
}

/// The state that cutting ends in, for an image with at most `n` distinct
/// colors: buckets of one entry each, one per tally entry.
proof fn lemma_few_colors_state(colors: Seq<Color>, n: int)
    requires
        0 < colors.len() <= u32::MAX,
        tally(colors).len() <= n,
    ensures
        ({
            let t = tally(colors);
            let b0 = seq![(0int, t.len() as int, range_weight(t, 0, t.len() as int))];
            let (u, b) = cut_all(t, b0, n);
            &&& partition_of(t, u, b)
            &&& forall|k: int| 0 <= k < b.len() ==> (#[trigger] b[k]).1 == b[k].0 + 1
            &&& b.len() == t.len()
            &&& median_cut_palette(colors, n) == bucket_colors(u, b, b.len() as int)
        }),
{
    let t = tally(colors);
    lemma_tally_counts(colors);
    let b0 = seq![(0int, t.len() as int, range_weight(t, 0, t.len() as int))];
    assert(buckets_ok(t, b0));
    assert forall|p: int| 0 <= p < t.len() implies #[trigger] in_some_bucket(b0, p) by {
        assert(b0[0].0 <= p < b0[0].1);
    }
    assert(total_size(b0) == t.len()) by {
        assert(b0.drop_last() =~= Seq::<BucketModel>::empty());
        assert(total_size(Seq::<BucketModel>::empty()) == 0);
    }
    lemma_cut_all_partition(t, t, b0, n);
    lemma_cut_all_ok(t, b0, n);
    let (u, b) = cut_all(t, b0, n);
    lemma_final_singletons(t, u, b, n);
    assert forall|k: int| 0 <= k < b.len() implies (#[trigger] b[k]).0 < b[k].1 by {}
    lemma_total_size_count(b);
    assert(b.len() == t.len());
    assert(median_cut_palette(colors, n) == bucket_colors(u, b, b.len() as int));
}

/// The tally holds each color once.
proof fn lemma_tally_distinct(colors: Seq<Color>)
    ensures
        forall|p: int, q: int|
            0 <= p < tally(colors).len() && 0 <= q < tally(colors).len() && p != q ==> (#[trigger] tally(
                colors,
            )[p]).0 != (#[trigger] tally(colors)[q]).0,
    decreases colors.len(),
{
    if colors.len() > 0 {
        let d = colors.drop_last();
        let t0 = tally(d);
        lemma_tally_distinct(d);
        lemma_position_of(t0, rgb(colors.last()));
        let t = tally(colors);
        assert forall|p: int| 0 <= p < t0.len() implies (#[trigger] t[p]).0 == t0[p].0 by {}
        assert forall|p: int, q: int|
            0 <= p < t.len() && 0 <= q < t.len() && p != q implies (#[trigger] t[p]).0 != (#[trigger] t[q]).0 by {
            if p < t0.len() && q < t0.len() {
                assert(t0[p].0 != t0[q].0);
            }
        }
    }
}

/// The tally has one entry per distinct color of the image.
proof fn lemma_tally_len_distinct(colors: Seq<Color>)
    ensures
        tally(colors).len() == rgb_seq(colors).to_set().len(),
{
    let t = tally(colors);
    let keys = t.map_values(|e: Entry| e.0);
    lemma_tally_distinct(colors);
    lemma_tally_colors(colors);
    assert(keys.no_duplicates()) by {
        assert forall|p: int, q: int| 0 <= p < keys.len() && 0 <= q < keys.len() && p != q implies keys[p] != keys[q] by {
            assert(t[p].0 != t[q].0);
        }
    }
    keys.unique_seq_to_set();
    assert forall|x: [u8; 3]| keys.to_set().contains(x) <==> rgb_seq(colors).to_set().contains(x) by {
        if keys.to_set().contains(x) {
            let p = choose|p: int| 0 <= p < keys.len() && keys[p] == x;
            let j = choose|j: int| 0 <= j < colors.len() && (#[trigger] t[p]).0 == rgb(#[trigger] colors[j]);
            assert(rgb_seq(colors)[j] == x);
        }
        if rgb_seq(colors).to_set().contains(x) {
            let j = choose|j: int| 0 <= j < rgb_seq(colors).len() && rgb_seq(colors)[j] == x;
            assert(rgb(colors[j]) == x);
            let p = choose|p: int| 0 <= p < t.len() && (#[trigger] t[p]).0 == rgb(#[trigger] colors[j]);
            assert(keys[p] == x);
        }
    }
    assert(keys.to_set() =~= rgb_seq(colors).to_set());
}

/// Each palette color of an image with few colors is an image color made opaque.
proof fn lemma_few_colors_palette_member(colors: Seq<Color>, n: int, i: int)
    requires
        0 < colors.len() <= u32::MAX,
        tally(colors).len() <= n,
        0 <= i < median_cut_palette(colors, n).len(),
    ensures
        exists|j: int| 0 <= j < colors.len() && median_cut_palette(colors, n)[i] == opaque(#[trigger] colors[j]),
{
    let t = tally(colors);
    let b0 = seq![(0int, t.len() as int, range_weight(t, 0, t.len() as int))];
    let (u, b) = cut_all(t, b0, n);
    lemma_few_colors_state(colors, n);
    lemma_singleton_colors(u, b, b.len() as int);
    lemma_tally_colors(colors);
    lemma_singletons_from_tally(t, u, b, i);
    let pal = bucket_colors(u, b, b.len() as int);
    let p = choose|p: int| 0 <= p < t.len() && pal[i] == opaque_rgb(#[trigger] t[p].0);
    let j = choose|j: int| 0 <= j < colors.len() && (#[trigger] t[p]).0 == rgb(#[trigger] colors[j]);
    assert(pal[i] == opaque(colors[j]));
}

/// Each color of an image with few colors, made opaque, is a palette color.
proof fn lemma_few_colors_image_member(colors: Seq<Color>, n: int, j: int)
    requires
        0 < colors.len() <= u32::MAX,
        tally(colors).len() <= n,
        0 <= j < colors.len(),
    ensures
        exists|i: int| 0 <= i < median_cut_palette(colors, n).len() && #[trigger] median_cut_palette(colors, n)[i] == opaque(colors[j]),
{
    let t = tally(colors);
    let b0 = seq![(0int, t.len() as int, range_weight(t, 0, t.len() as int))];
    let (u, b) = cut_all(t, b0, n);
    lemma_few_colors_state(colors, n);
    lemma_singleton_colors(u, b, b.len() as int);
    lemma_tally_colors(colors);
    let pal = bucket_colors(u, b, b.len() as int);
    let p = choose|p: int| 0 <= p < t.len() && (#[trigger] t[p]).0 == rgb(#[trigger] colors[j]);
    lemma_tally_in_singletons(t, u, b, p);
    let i = choose|i: int| 0 <= i < b.len() && pal[i] == opaque_rgb(#[trigger] t[p].0);
    assert(pal[i] == opaque(colors[j]));
}

/// With at most `n_of_colors` distinct colors in a nonempty image, the
/// median-cut palette has one color per distinct image color: each palette
/// color is an image color made opaque, and each image color, made opaque,
/// is in the palette.
#[verifier::spinoff_prover]
pub proof fn law_median_cut_exact_for_few_colors(colors: Seq<Color>, n_of_colors: int)
    requires
        0 < colors.len() <= u32::MAX,
        rgb_seq(colors).to_set().len() <= n_of_colors,
    ensures
        median_cut_palette(colors, n_of_colors).len() == rgb_seq(colors).to_set().len(),
        forall|i: int|
            0 <= i < median_cut_palette(colors, n_of_colors).len() ==> exists|j: int|
                0 <= j < colors.len() && #[trigger] median_cut_palette(colors, n_of_colors)[i]
                    == opaque(colors[j]),
        forall|j: int|
            0 <= j < colors.len() ==> median_cut_palette(colors, n_of_colors).contains(
                opaque(#[trigger] colors[j]),
            ),
{
    lemma_tally_len_distinct(colors);
    lemma_few_colors_state(colors, n_of_colors);
    lemma_singleton_colors(
        cut_all(
            tally(colors),
            seq![(0int, tally(colors).len() as int, range_weight(tally(colors), 0, tally(colors).len() as int))],
            n_of_colors,
        ).0,
        cut_all(
            tally(colors),
            seq![(0int, tally(colors).len() as int, range_weight(tally(colors), 0, tally(colors).len() as int))],
            n_of_colors,
        ).1,
        tally(colors).len() as int,
    );
    assert forall|i: int| 0 <= i < median_cut_palette(colors, n_of_colors).len() implies exists|j: int|
        0 <= j < colors.len() && #[trigger] median_cut_palette(colors, n_of_colors)[i] == opaque(colors[j]) by {
        lemma_few_colors_palette_member(colors, n_of_colors, i);
    }
    assert forall|j: int| 0 <= j < colors.len() implies median_cut_palette(colors, n_of_colors).contains(
        opaque(#[trigger] colors[j]),
    ) by {
        lemma_few_colors_image_member(colors, n_of_colors, j);
    }
}

/// When no bucket can be cut, every bucket holds one entry, so there are
/// as many buckets as entries.
proof fn lemma_no_cut_singletons(t: Seq<Entry>, u: Seq<Entry>, b: Seq<BucketModel>)
    requires
        partition_of(t, u, b),
        cut(u, b) is None,
    ensures
        b.len() == u.len(),
{
    lemma_pick_bucket(b, b.len() as int);
    lemma_pick_none(b, b.len() as int);
    assert forall|k: int| 0 <= k < b.len() implies (#[trigger] b[k]).1 == b[k].0 + 1 by {
        lemma_range_weight_positive(u, b[k].0, b[k].1);
    }
    assert forall|k: int| 0 <= k < b.len() implies (#[trigger] b[k]).0 < b[k].1 by {}
    lemma_total_size_count(b);
}

/// The median-cut palette of a nonempty image has as many colors as
/// requested, or as the image has distinct colors where that is fewer.
pub proof fn law_median_cut_palette_len(colors: Seq<Color>, n_of_colors: int)
    requires
        0 < colors.len() <= u32::MAX,
        n_of_colors >= 1,
    ensures
        median_cut_palette(colors, n_of_colors).len() == if n_of_colors < rgb_seq(
            colors,
        ).to_set().len() {
            n_of_colors
        } else {
            rgb_seq(colors).to_set().len() as int
        },
{
    let t = tally(colors);
    lemma_tally_len_distinct(colors);
    lemma_tally_counts(colors);
    let b0 = seq![(0int, t.len() as int, range_weight(t, 0, t.len() as int))];
    assert(buckets_ok(t, b0));
    assert forall|p: int| 0 <= p < t.len() implies #[trigger] in_some_bucket(b0, p) by {
        assert(b0[0].0 <= p < b0[0].1);
    }
    assert(total_size(b0) == t.len()) by {
        assert(b0.drop_last() =~= Seq::<BucketModel>::empty());
        assert(total_size(Seq::<BucketModel>::empty()) == 0);
    }
    lemma_cut_all_partition(t, t, b0, n_of_colors);
    lemma_cut_all_len(t, b0, n_of_colors);
    lemma_cut_all_ok(t, b0, n_of_colors);
    let (u, b) = cut_all(t, b0, n_of_colors);
    assert(u.len() == t.len());
    assert forall|k: int| 0 <= k < b.len() implies (#[trigger] b[k]).0 < b[k].1 by {}
    lemma_total_size_count(b);
    assert(b.len() <= t.len());
    assert(b.len() <= n_of_colors);
    if b.len() < n_of_colors {
        lemma_no_cut_singletons(t, u, b);
    }
    lemma_bucket_colors_all(u, b, b.len() as int);
    assert(median_cut_palette(colors, n_of_colors) == bucket_colors(u, b, b.len() as int));
}

// ---------------------------------------------------------------------------
// Palette channels stay within the image's channels.
// ---------------------------------------------------------------------------

/// Some image color has channel `ch` at most `v`, and some has it at least `v`.
pub open spec fn within_image_channel(colors: Seq<Color>, ch: int, v: int) -> bool {
    &&& exists|j: int| 0 <= j < colors.len() && rgb(#[trigger] colors[j])[ch] <= v
    &&& exists|k: int| 0 <= k < colors.len() && v <= rgb(#[trigger] colors[k])[ch]
}

/// The weighted channel sum of entries `lo..hi` lies between `m` and `mx`
/// times their weight when every entry's channel does.
proof fn lemma_range_channel_between(u: Seq<Entry>, lo: int, hi: int, ch: int, m: int, mx: int)
    requires
        0 <= lo <= hi <= u.len(),
        0 <= ch < 3,
        forall|p: int| lo <= p < hi ==> m <= #[trigger] u[p].0[ch] <= mx,
    ensures
        m * range_weight(u, lo, hi) <= range_channel(u, lo, hi, ch) <= mx * range_weight(u, lo, hi),
    decreases hi - lo,
{
    if hi > lo {
        lemma_range_channel_between(u, lo, hi - 1, ch, m, mx);
        let v = u[hi - 1].0[ch] as int;
        let w = u[hi - 1].1 as int;
        assert(range_weight(u, lo, hi) == range_weight(u, lo, hi - 1) + w);
        assert(range_channel(u, lo, hi, ch) == range_channel(u, lo, hi - 1, ch) + v * w);
        assert(m <= v <= mx);
        assert(m * w <= v * w <= mx * w) by (nonlinear_arith)
            requires
                m <= v <= mx,
                0 <= w,
        ;
        assert(m * range_weight(u, lo, hi) == m * range_weight(u, lo, hi - 1) + m * w)
            by (nonlinear_arith)
            requires
                range_weight(u, lo, hi) == range_weight(u, lo, hi - 1) + w,
        ;
        assert(mx * range_weight(u, lo, hi) == mx * range_weight(u, lo, hi - 1) + mx * w)
            by (nonlinear_arith)
            requires
                range_weight(u, lo, hi) == range_weight(u, lo, hi - 1) + w,
        ;
    } else {
        assert(range_weight(u, lo, hi) == 0);
        assert(range_channel(u, lo, hi, ch) == 0);
        assert(m * 0 == 0 && mx * 0 == 0);
    }
}

/// A rounded mean of values between `m` and `mx` lies between them.
proof fn lemma_rounded_mean_between(sum: int, w: int, m: int, mx: int)
    requires
        0 < w,
        m * w <= sum <= mx * w,
    ensures
        m <= rounded_mean(sum, w) <= mx,
{
    let q = rounded_mean(sum, w);
    let n = 2 * sum + w;
    vstd::arithmetic::div_mod::lemma_fundamental_div_mod(n, 2 * w);
    let r = n % (2 * w);
    assert(n == (2 * w) * q + r);
    assert(2 * m * w + w <= n <= 2 * mx * w + w) by (nonlinear_arith)
        requires
            n == 2 * sum + w,
            m * w <= sum <= mx * w,
    ;
    assert(m <= q) by (nonlinear_arith)
        requires
            n == (2 * w) * q + r,
            r < 2 * w,
            n >= 2 * m * w + w,
            w > 0,
    ;
    assert(q <= mx) by (nonlinear_arith)
        requires
            n == (2 * w) * q + r,
            0 <= r,
            n <= 2 * mx * w + w,
            w > 0,
    ;
}

/// The smallest channel among the first `k` entries belongs to one of them.
proof fn lemma_channel_min_attained(s: Seq<Entry>, ch: int, k: int) -> (j: int)
    requires
        1 <= k <= s.len(),
        0 <= ch < 3,
    ensures
        0 <= j < k,
        s[j].0[ch] == channel_min(s, ch, k),
    decreases k,
{
    reveal_with_fuel(channel_min, 2);
    if k == 1 {
        0
    } else {
        let j0 = lemma_channel_min_attained(s, ch, k - 1);
        if (s[k - 1].0[ch] as int) < channel_min(s, ch, k - 1) {
            k - 1
        } else {
            j0
        }
    }
}

/// The largest channel among the first `k` entries belongs to one of them.
proof fn lemma_channel_max_attained(s: Seq<Entry>, ch: int, k: int) -> (j: int)
    requires
        1 <= k <= s.len(),
        0 <= ch < 3,
    ensures
        0 <= j < k,
        s[j].0[ch] == channel_max(s, ch, k),
    decreases k,
{
    reveal_with_fuel(channel_max, 2);
    if k == 1 {
        0
    } else {
        let j0 = lemma_channel_max_attained(s, ch, k - 1);
        if (s[k - 1].0[ch] as int) > channel_max(s, ch, k - 1) {
            k - 1
        } else {
            j0
        }
    }
}

/// Palette color `i` is the color of bucket `i` when every bucket weighs something.
proof fn lemma_bucket_colors_index(u: Seq<Entry>, b: Seq<BucketModel>, k: int, i: int)
    requires
        buckets_ok(u, b),
        0 <= i < k <= b.len(),
    ensures
        bucket_colors(u, b, k)[i] == bucket_color(u, b[i]),
    decreases k,
{
    lemma_bucket_colors_all(u, b, k - 1);
    let bk = b[k - 1];
    lemma_range_weight_positive(u, bk.0, bk.1);
    if i < k - 1 {
        lemma_bucket_colors_index(u, b, k - 1, i);
    }
}

/// An entry of the permuted tally has the color of some image pixel.
proof fn lemma_entry_from_image(colors: Seq<Color>, u: Seq<Entry>, p: int) -> (j: int)
    requires
        u.to_multiset() == tally(colors).to_multiset(),
        0 <= p < u.len(),
    ensures
        0 <= j < colors.len(),
        u[p].0 == rgb(colors[j]),
{
    broadcast use vstd::seq_lib::group_to_multiset_ensures;

    let t = tally(colors);
    let e = u[p];
    assert(u.contains(e));
    assert(t.to_multiset().count(e) > 0);
    assert(t.contains(e));
    let q = choose|q: int| 0 <= q < t.len() && t[q] == e;
    lemma_tally_colors(colors);
    let j = choose|j: int| 0 <= j < colors.len() && (#[trigger] t[q]).0 == rgb(#[trigger] colors[j]);
    j
}

/// Every channel of every median-cut palette color lies within the range
/// of that channel over the image's colors.
pub proof fn law_median_cut_channels_within_image(colors: Seq<Color>, n_of_colors: int, i: int, ch: int)
    requires
        0 < colors.len() <= u32::MAX,
        n_of_colors >= 1,
        0 <= i < median_cut_palette(colors, n_of_colors).len(),
        0 <= ch < 3,
    ensures
        within_image_channel(colors, ch, rgb(median_cut_palette(colors, n_of_colors)[i])[ch] as int),
{
    let t = tally(colors);
    lemma_tally_counts(colors);
    let b0 = seq![(0int, t.len() as int, range_weight(t, 0, t.len() as int))];
    assert(buckets_ok(t, b0));
    assert forall|p: int| 0 <= p < t.len() implies #[trigger] in_some_bucket(b0, p) by {
        assert(b0[0].0 <= p < b0[0].1);
    }
    assert(total_size(b0) == t.len()) by {
        assert(b0.drop_last() =~= Seq::<BucketModel>::empty());
        assert(total_size(Seq::<BucketModel>::empty()) == 0);
    }
    lemma_cut_all_partition(t, t, b0, n_of_colors);
    let (u, b) = cut_all(t, b0, n_of_colors);
    let pal = bucket_colors(u, b, b.len() as int);
    assert(median_cut_palette(colors, n_of_colors) == pal);
    lemma_bucket_colors_all(u, b, b.len() as int);
    lemma_bucket_colors_index(u, b, b.len() as int, i);
    let (lo, hi, w) = b[i];
    lemma_range_weight_positive(u, lo, hi);
    let slice = u.subrange(lo, hi);
    let len = hi - lo;
    let jm = lemma_channel_min_attained(slice, ch, len);
    let jx = lemma_channel_max_attained(slice, ch, len);
    let m = channel_min(slice, ch, len);
    let mx = channel_max(slice, ch, len);
    assert forall|p: int| lo <= p < hi implies m <= #[trigger] u[p].0[ch] <= mx by {
        lemma_channel_extremes(slice, ch, len, p - lo);
        assert(slice[p - lo] == u[p]);
    }
    lemma_range_channel_between(u, lo, hi, ch, m, mx);
    let mean = rounded_mean(range_channel(u, lo, hi, ch), w);
    lemma_rounded_mean_between(range_channel(u, lo, hi, ch), w, m, mx);
    assert(0 <= m && mx <= 255) by {
        assert(slice[jm] == u[lo + jm]);
        assert(slice[jx] == u[lo + jx]);
    }
    let c = bucket_color(u, b[i]);
    assert(rgb(c)[ch] as int == mean) by {
        if ch == 0 {
            assert(rgb(c)[0] == c.r);
        } else if ch == 1 {
            assert(rgb(c)[1] == c.g);
        } else {
            assert(rgb(c)[2] == c.b);
        }
    }
    let ja = lemma_entry_from_image(colors, u, lo + jm);
    let jb = lemma_entry_from_image(colors, u, lo + jx);
    assert(slice[jm] == u[lo + jm]);
    assert(slice[jx] == u[lo + jx]);
    assert(rgb(colors[ja])[ch] <= mean);
    assert(mean <= rgb(colors[jb])[ch]);
}

// ---------------------------------------------------------------------------
// A bucket is cut along its widest channel.
// ---------------------------------------------------------------------------

/// The channel a bucket is sorted and cut along has the largest range over
/// the bucket's entries: two entries `a` and `b` span it, and no two entries
/// differ more in any channel. A channel before it in red, green, blue
/// order has a strictly smaller range, so red and then green win ties.
pub proof fn law_cut_channel_is_widest(s: Seq<Entry>)
    requires
        s.len() >= 1,
    ensures
        0 <= widest_channel(s) < 3,
        exists|a: int, b: int|
            #![trigger s[a], s[b]]
            {
                let ch = widest_channel(s);
                &&& 0 <= a < s.len()
                &&& 0 <= b < s.len()
                &&& forall|c: int, p: int, q: int|
                    0 <= c < 3 && 0 <= p < s.len() && 0 <= q < s.len() ==> #[trigger] s[p].0[c]
                        - #[trigger] s[q].0[c] <= s[a].0[ch] - s[b].0[ch]
                &&& forall|c: int, p: int, q: int|
                    0 <= c < ch && 0 <= p < s.len() && 0 <= q < s.len() ==> #[trigger] s[p].0[c]
                        - #[trigger] s[q].0[c] < s[a].0[ch] - s[b].0[ch]
            },
{
    let n = s.len() as int;
    let ch = widest_channel(s);
    let a = lemma_channel_max_attained(s, ch, n);
    let b = lemma_channel_min_attained(s, ch, n);
    assert forall|c: int, p: int, q: int| 0 <= c < 3 && 0 <= p < n && 0 <= q < n implies #[trigger] s[p].0[c]
        - #[trigger] s[q].0[c] <= channel_max(s, c, n) - channel_min(s, c, n) by {
        lemma_channel_extremes(s, c, n, p);
        lemma_channel_extremes(s, c, n, q);
    }
    assert forall|c: int| 0 <= c < 3 implies channel_max(s, c, n) - channel_min(s, c, n) <= s[a].0[ch]
        - s[b].0[ch] && (c < ch ==> channel_max(s, c, n) - channel_min(s, c, n) < s[a].0[ch] - s[b].0[ch]) by {
        if c == 0 {
        } else if c == 1 {
        } else {
        }
    }
    assert forall|c: int, p: int, q: int|
        0 <= c < 3 && 0 <= p < n && 0 <= q < n implies #[trigger] s[p].0[c] - #[trigger] s[q].0[c] <= s[a].0[ch]
        - s[b].0[ch] by {
        lemma_channel_extremes(s, c, n, p);
        lemma_channel_extremes(s, c, n, q);
    }
    assert forall|c: int, p: int, q: int|
        0 <= c < ch && 0 <= p < n && 0 <= q < n implies #[trigger] s[p].0[c] - #[trigger] s[q].0[c] < s[a].0[ch]
        - s[b].0[ch] by {
        lemma_channel_extremes(s, c, n, p);
        lemma_channel_extremes(s, c, n, q);
    }
}

/// The color of a bucket is, channel by channel, the pixel-weighted mean of
/// its entries rounded to the nearest integer, halves upwards: for weight
/// `w` and weighted sum `t` the channel `v` satisfies
/// `2 * w * v <= 2 * t + w < 2 * w * (v + 1)`; the color is opaque.
pub proof fn law_bucket_color_rounds_mean(u: Seq<Entry>, lo: int, hi: int, ch: int)
    requires
        0 <= lo < hi <= u.len(),
        0 <= ch < 3,
        range_weight(u, lo, hi) > 0,
    ensures
        ({
            let w = range_weight(u, lo, hi);
            let t = range_channel(u, lo, hi, ch);
            let v = rgb(bucket_color(u, (lo, hi, w)))[ch] as int;
            &&& 2 * w * v <= 2 * t + w < 2 * w * (v + 1)
            &&& bucket_color(u, (lo, hi, w)).a == 255
        }),
{
    let w = range_weight(u, lo, hi);
    let t = range_channel(u, lo, hi, ch);
    assert forall|p: int| lo <= p < hi implies 0 <= #[trigger] u[p].0[ch] <= 255 by {}
    lemma_range_channel_between(u, lo, hi, ch, 0, 255);
    lemma_rounded_mean_between(t, w, 0, 255);
    let q = rounded_mean(t, w);
    vstd::arithmetic::div_mod::lemma_fundamental_div_mod(2 * t + w, 2 * w);
    assert(2 * w * q <= 2 * t + w < 2 * w * (q + 1)) by (nonlinear_arith)
        requires
            2 * t + w == (2 * w) * q + (2 * t + w) % (2 * w),
            0 <= (2 * t + w) % (2 * w) < 2 * w,
    ;
    let c = bucket_color(u, (lo, hi, w));
    if ch == 0 {
        assert(rgb(c)[0] == c.r);
    } else if ch == 1 {
        assert(rgb(c)[1] == c.g);
    } else {
        assert(rgb(c)[2] == c.b);
    }
}

// ---------------------------------------------------------------------------
// How a bucket is cut: sorted along a channel, split at the weighted median,
// the heaviest bucket first.
// ---------------------------------------------------------------------------

/// Every entry of the class of `k` has channel `ch` equal to `k`.
proof fn lemma_keyed_value(s: Seq<Entry>, ch: int, k: int)
    requires
        0 <= ch < 3,
    ensures
        forall|p: int| 0 <= p < keyed(s, ch, k).len() ==> (#[trigger] keyed(s, ch, k)[p]).0[ch] == k,
    decreases s.len(),
{
    if s.len() > 0 {
        let d = s.drop_last();
        lemma_keyed_value(d, ch, k);
        let a = keyed(d, ch, k);
        let t: Seq<Entry> = if s.last().0[ch] as int == k { seq![s.last()] } else { seq![] };
        assert(keyed(s, ch, k) == a + t);
        assert forall|p: int| 0 <= p < (a + t).len() implies (#[trigger] (a + t)[p]).0[ch] == k by {
            if p >= a.len() {
                assert((a + t)[p] == t[p - a.len()]);
            }
        }
    }
}

/// The entries below `k` are in nondecreasing order of channel `ch`, all below `k`.
proof fn lemma_sorted_below_ordered(s: Seq<Entry>, ch: int, k: int)
    requires
        0 <= ch < 3,
    ensures
        forall|p: int| 0 <= p < sorted_below(s, ch, k).len() ==> (#[trigger] sorted_below(s, ch, k)[p]).0[ch] < k,
        forall|p: int, q: int|
            0 <= p <= q < sorted_below(s, ch, k).len() ==> (#[trigger] sorted_below(s, ch, k)[p]).0[ch]
                <= (#[trigger] sorted_below(s, ch, k)[q]).0[ch],
    decreases k,
{
    if k > 0 {
        lemma_sorted_below_ordered(s, ch, k - 1);
        lemma_keyed_value(s, ch, k - 1);
        let a = sorted_below(s, ch, k - 1);
        let b = keyed(s, ch, k - 1);
        assert(sorted_below(s, ch, k) == a + b);
        assert forall|p: int| 0 <= p < (a + b).len() implies (#[trigger] (a + b)[p]).0[ch] < k by {
            if p >= a.len() {
                assert((a + b)[p] == b[p - a.len()]);
            }
        }
        assert forall|p: int, q: int|
            0 <= p <= q < (a + b).len() implies (#[trigger] (a + b)[p]).0[ch] <= (#[trigger] (a + b)[q]).0[ch] by {
            if q < a.len() {
            } else if p >= a.len() {
                assert((a + b)[p] == b[p - a.len()]);
                assert((a + b)[q] == b[q - a.len()]);
            } else {
                assert((a + b)[q] == b[q - a.len()]);
            }
        }
    }
}

/// A bucket is sorted along channel `ch`: the sort holds the bucket's
/// entries, as many times each, in nondecreasing order of that channel.
pub proof fn law_sort_orders_by_channel(s: Seq<Entry>, ch: int)
    requires
        0 <= ch < 3,
    ensures
        sort_by_channel(s, ch).to_multiset() == s.to_multiset(),
        forall|p: int, q: int|
            0 <= p <= q < sort_by_channel(s, ch).len() ==> (#[trigger] sort_by_channel(s, ch)[p]).0[ch]
                <= (#[trigger] sort_by_channel(s, ch)[q]).0[ch],
{
    lemma_sort_permutes(s, ch);
    lemma_sorted_below_ordered(s, ch, 256);
}

/// The split point is the first entry at which the running pixel count
/// reaches `half`: the count through it reaches `half`, and the count
/// through any earlier entry does not. When no entry reaches it, there is none.
pub proof fn law_crossing_is_first_reach(s: Seq<Entry>, half: int, from: int)
    requires
        0 <= from,
    ensures
        crossing(s, half, from) matches Some(i) ==> {
            &&& from <= i < s.len()
            &&& range_weight(s, 0, i + 1) >= half
            &&& forall|j: int| from <= j < i ==> #[trigger] range_weight(s, 0, j + 1) < half
        },
        crossing(s, half, from) is None ==> forall|j: int|
            from <= j < s.len() ==> #[trigger] range_weight(s, 0, j + 1) < half,
    decreases s.len() - from,
{
    if from < s.len() {
        law_crossing_is_first_reach(s, half, from + 1);
    }
}

/// The bucket chosen among the first `k` holds more than one entry and
/// weighs more than nothing; no bucket of more than one entry weighs more,
/// and every such bucket before it weighs less. When none is chosen, no
/// bucket of more than one entry weighs anything.
pub proof fn law_pick_bucket_heaviest(b: Seq<BucketModel>, k: int)
    requires
        0 <= k <= b.len(),
    ensures
        pick_bucket(b, k).0 matches Some(i) ==> {
            &&& 0 <= i < k
            &&& b[i].1 - b[i].0 > 1
            &&& b[i].2 > 0
            &&& pick_bucket(b, k).1 == b[i].2
            &&& forall|j: int| 0 <= j < k && (#[trigger] b[j]).1 - b[j].0 > 1 ==> b[j].2 <= b[i].2
            &&& forall|j: int| 0 <= j < i && (#[trigger] b[j]).1 - b[j].0 > 1 ==> b[j].2 < b[i].2
        },
        pick_bucket(b, k).0 is None ==> pick_bucket(b, k).1 == 0,
        pick_bucket(b, k).0 is None ==> forall|j: int|
            0 <= j < k && (#[trigger] b[j]).1 - b[j].0 > 1 ==> b[j].2 <= 0,
    decreases k,
{
    if k > 0 {
        law_pick_bucket_heaviest(b, k - 1);
        let (best, mw) = pick_bucket(b, k - 1);
        let bk = b[k - 1];
        if bk.1 - bk.0 > 1 && bk.2 > mw {
            assert(pick_bucket(b, k) == (Some(k - 1), bk.2));
        } else {
            assert(pick_bucket(b, k) == (best, mw));
        }
    }
}

} // verus!
