//! The k-means palette generator. Its clustering moves floating-point
//! centroids, which the application layer computes; the library holds the
//! generator's name, the pixels it clusters and the pixels it starts from.
use vstd::prelude::*;
use crate::image::Color;

verus! {

/// K-means clustering of the image's colors.
pub struct KMeans;

impl KMeans {
    /// The generator's name.
    pub fn name(&self) -> (name: &'static str)
        ensures
            name@ == "kmeans"@,
    {
        "kmeans"
    }
}

/// The stride between sampled pixels: one pixel in `len / 10000`, and every
/// pixel when there are fewer than 20000.
pub open spec fn sample_step(len: int) -> int {
    if len / 10000 >= 1 {
        len / 10000
    } else {
        1
    }
}

/// The number of sampled pixels among `len`.
pub open spec fn sample_count(len: int) -> int {
    (len + sample_step(len) - 1) / sample_step(len)
}

/// The red, green and blue bytes of every `sample_step`-th color, starting
/// with the first.
pub open spec fn samples_of(colors: Seq<Color>) -> Seq<[u8; 3]> {
    let step = sample_step(colors.len() as int);
    Seq::new(
        sample_count(colors.len() as int) as nat,
        |i: int| [colors[i * step].r, colors[i * step].g, colors[i * step].b],
    )
}

/// The pixels that the clustering works on: every `sample_step`-th color.
pub fn kmeans_samples(colors: &Vec<Color>) -> (samples: Vec<[u8; 3]>)
    requires
        colors@.len() <= u32::MAX,
    ensures
        samples@ == samples_of(colors@),
        samples@.len() == (colors@.len() + sample_step(colors@.len() as int) - 1) / sample_step(
            colors@.len() as int,
        ),
        forall|i: int|
            #![trigger samples@[i]]
            0 <= i < samples@.len() ==> samples@[i] == [
                colors@[i * sample_step(colors@.len() as int)].r,
                colors@[i * sample_step(colors@.len() as int)].g,
                colors@[i * sample_step(colors@.len() as int)].b,
            ],
{
    let len = colors.len();
    let step = if len / 10000 >= 1 {
        len / 10000
    } else {
        1
    };
    let ghost target = samples_of(colors@);
    let mut samples: Vec<[u8; 3]> = Vec::new();
    if len == 0 {
        assert(samples@ =~= target);
        assert(samples@.len() == 0);
        return samples;
    }
    proof {
        let (si, li) = (step as int, len as int);
        assert(target.len() == sample_count(li));
        vstd::arithmetic::div_mod::lemma_div_is_ordered(si, li + si - 1, si);
        vstd::arithmetic::div_mod::lemma_div_multiples_vanish(1, si);
    }
    let mut i: usize = 0;
    let mut k: usize = 0;
    loop
        invariant_except_break
            samples@.len() == k,
            forall|j: int| 0 <= j < k ==> #[trigger] samples@[j] == target[j],
        invariant
            len == colors@.len() <= u32::MAX,
            step == sample_step(len as int),
            1 <= step <= len,
            i == k * step,
            k <= i < len,
            k < sample_count(len as int),
            target.len() == sample_count(len as int),
            target == samples_of(colors@),
        ensures
            samples@.len() == sample_count(len as int),
            forall|j: int| 0 <= j < samples@.len() ==> #[trigger] samples@[j] == target[j],
        decreases len - i,
    {
        let c = colors[i];
        samples.push([c.r, c.g, c.b]);
        let ghost (ki, si, li) = (k as int, step as int, len as int);
        assert(target[ki] == [colors@[ki * si].r, colors@[ki * si].g, colors@[ki * si].b]);
        assert(samples@[ki] == target[ki]);
        if len - i <= step {
            proof {
                assert(li + si - 1 <= ki * si + si + (si - 1));
                vstd::arithmetic::div_mod::lemma_div_is_ordered(li + si - 1, ki * si + si + (si - 1), si);
                assert(ki * si + si + (si - 1) == si * (ki + 1) + (si - 1)) by (nonlinear_arith);
                vstd::arithmetic::div_mod::lemma_div_multiples_vanish_fancy(ki + 1, si - 1, si);
            }
            break;
        }
        proof {
            assert((ki + 1) * si == ki * si + si) by (nonlinear_arith);
            assert(ki + 1 <= (ki + 1) * si) by (nonlinear_arith)
                requires
                    ki >= 0,
                    si >= 1,
            ;
            assert((ki + 2) * si <= li + si - 1) by (nonlinear_arith)
                requires
                    ki * si + si < li,
                    si >= 1,
            ;
            vstd::arithmetic::div_mod::lemma_div_is_ordered((ki + 2) * si, li + si - 1, si);
            assert((ki + 2) * si == si * (ki + 2)) by (nonlinear_arith);
            vstd::arithmetic::div_mod::lemma_div_multiples_vanish(ki + 2, si);
        }
        i = i + step;
        k = k + 1;
    }
    assert(samples@ =~= target);
    proof {
        law_samples_are_sampled_pixels(colors@);
        assert forall|j: int| 0 <= j < samples@.len() implies #[trigger] samples@[j] == [
            colors@[j * sample_step(colors@.len() as int)].r,
            colors@[j * sample_step(colors@.len() as int)].g,
            colors@[j * sample_step(colors@.len() as int)].b,
        ] by {
            assert(samples@[j] == samples_of(colors@)[j]);
        }
    }
    samples
}

/// Every sample is the red, green and blue bytes, in that order, of the
/// pixel it samples: sample `i` is pixel `i * step`, which lies in the
/// image, for a step of one pixel in `len / 10000` that is never below one;
/// and the samples cover the image, one per step.
pub proof fn law_samples_are_sampled_pixels(colors: Seq<Color>)
    ensures
        sample_step(colors.len() as int) >= 1,
        sample_step(colors.len() as int) == if colors.len() / 10000 >= 1 {
            colors.len() / 10000
        } else {
            1
        },
        samples_of(colors).len() == (colors.len() + sample_step(colors.len() as int) - 1) / sample_step(
            colors.len() as int,
        ),
        forall|i: int|
            #![trigger samples_of(colors)[i]]
            0 <= i < samples_of(colors).len() ==> 0 <= i * sample_step(colors.len() as int) < colors.len()
                && samples_of(colors)[i] == [
                colors[i * sample_step(colors.len() as int)].r,
                colors[i * sample_step(colors.len() as int)].g,
                colors[i * sample_step(colors.len() as int)].b,
            ],
{
    let n = colors.len() as int;
    let step = sample_step(n);
    assert forall|i: int| 0 <= i < samples_of(colors).len() implies 0 <= #[trigger] (i * step) < n by {
        let q = (n + step - 1) / step;
        vstd::arithmetic::div_mod::lemma_fundamental_div_mod(n + step - 1, step);
        assert(0 <= i * step) by (nonlinear_arith)
            requires
                0 <= i,
                step >= 1,
        ;
        assert(i * step < n) by (nonlinear_arith)
            requires
                0 <= i < q,
                n + step - 1 == step * q + (n + step - 1) % step,
                0 <= (n + step - 1) % step < step,
                step >= 1,
        ;
    }
}

/// The samples the clusters start from: sample `i * n / k` for cluster `i`.
pub open spec fn seed_indices(n: int, k: int) -> Seq<int> {
    Seq::new(k as nat, |i: int| i * n / k)
}

/// The indices of the samples that the `k` clusters start from, evenly spaced
/// over `n` samples.
pub fn kmeans_seed_indices(n: usize, k: usize) -> (indices: Vec<usize>)
    requires
        1 <= k <= n <= u32::MAX,
    ensures
        indices@.len() == k,
        forall|i: int| 0 <= i < k ==> #[trigger] indices@[i] == seed_indices(n as int, k as int)[i],
        forall|i: int| 0 <= i < k ==> #[trigger] indices@[i] < n,
        forall|i: int|
            0 <= i < k ==> k * #[trigger] indices@[i] <= i * n < k * (indices@[i] + 1),
{
    let mut indices: Vec<usize> = Vec::new();
    let mut i: usize = 0;
    while i < k
        invariant
            1 <= k <= n <= u32::MAX,
            i <= k,
            indices@.len() == i,
            forall|j: int| 0 <= j < i ==> #[trigger] indices@[j] == j * (n as int) / (k as int),
            forall|j: int| 0 <= j < i ==> #[trigger] indices@[j] < n,
        decreases k - i,
    {
        proof {
            let (ii, ni, ki) = (i as int, n as int, k as int);
            assert(ii * ni < ki * ni && ii * ni <= 0xffff_ffff * 0xffff_ffff && ii * ni >= 0) by (nonlinear_arith)
                requires
                    0 <= ii < ki,
                    1 <= ki <= ni <= 0xffff_ffff,
            ;
            vstd::arithmetic::div_mod::lemma_div_by_multiple_is_strongly_ordered(ii * ni, ki * ni, ni, ki);
            assert(ki * ni == ni * ki) by (nonlinear_arith);
            vstd::arithmetic::div_mod::lemma_div_multiples_vanish(ni, ki);
        }
        let idx = ((i as u64) * (n as u64) / (k as u64)) as usize;
        indices.push(idx);
        i = i + 1;
    }
    proof {
        assert forall|i: int| 0 <= i < k implies k * #[trigger] indices@[i] <= i * n < k * (indices@[i] + 1) by {
            law_seed_indices_spread(n as int, k as int, i);
        }
    }
    indices
}

/// Cluster `i` of `k` starts from the sample at `i / k` of the way through
/// the `n` samples, rounded down: `k * s <= i * n < k * (s + 1)`. The first
/// cluster starts from the first sample, and the starts never go back.
pub proof fn law_seed_indices_spread(n: int, k: int, i: int)
    requires
        1 <= k,
        0 <= n,
        0 <= i < k,
    ensures
        k * seed_indices(n, k)[i] <= i * n < k * (seed_indices(n, k)[i] + 1),
        seed_indices(n, k)[0] == 0,
        i + 1 < k ==> seed_indices(n, k)[i] <= seed_indices(n, k)[i + 1],
{
    let s = seed_indices(n, k)[i];
    vstd::arithmetic::div_mod::lemma_fundamental_div_mod(i * n, k);
    assert(k * s <= i * n < k * (s + 1)) by (nonlinear_arith)
        requires
            i * n == k * s + (i * n) % k,
            0 <= (i * n) % k < k,
    ;
    assert(seed_indices(n, k)[0] == 0 * n / k);
    assert(0 * n == 0);
    if i + 1 < k {
        assert(i * n <= (i + 1) * n) by (nonlinear_arith)
            requires
                0 <= n,
        ;
        vstd::arithmetic::div_mod::lemma_div_is_ordered(i * n, (i + 1) * n, k);
    }
}

} // verus!
