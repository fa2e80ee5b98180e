//! The WGSL compute shaders of the filters that run on the GPU.
//!
//! Each shader reads the RGBA pixels, packed one per `u32` with red in the
//! low byte, from binding 0, writes them to binding 1, takes the image size
//! from binding 2 and the filter's parameters, as consecutive `f32` values,
//! from the uniform buffer at binding 3. One invocation computes one pixel;
//! workgroups are 16 by 16 pixels.
use vstd::prelude::*;

verus! {

/// The shader of the `adjustment` filter: gamma, blacks, whites and
/// contrast per channel, then saturation around the luma, then a hue
/// rotation in YIQ space. Alpha is kept.
pub const ADJUSTMENT: &'static str = "struct Params {
    gamma: f32,
    blacks: f32,
    whites: f32,
    contrast: f32,
    saturation: f32,
    hue: f32,
    pad0: f32,
    pad1: f32,
}

@group(0) @binding(0) var<storage, read> src: array<u32>;
@group(0) @binding(1) var<storage, read_write> dst: array<u32>;
@group(0) @binding(2) var<uniform> dims: vec2<u32>;
@group(0) @binding(3) var<uniform> params: Params;

fn unpack(p: u32) -> vec4<f32> {
    return vec4<f32>(f32(p & 255u), f32((p >> 8u) & 255u), f32((p >> 16u) & 255u), f32(p >> 24u));
}

fn pack(c: vec4<f32>) -> u32 {
    let q = vec4<u32>(clamp(round(c), vec4<f32>(0.0), vec4<f32>(255.0)));
    return q.x | (q.y << 8u) | (q.z << 16u) | (q.w << 24u);
}

fn smooth_step(x: f32) -> f32 {
    let t = clamp(x, 0.0, 1.0);
    return t * t * (3.0 - 2.0 * t);
}

fn levels(byte: f32) -> f32 {
    var v = byte * (1.0 / 255.0);
    if (params.gamma != 1.0) {
        v = pow(v, 1.0 / params.gamma);
    }
    if (params.blacks != 0.0) {
        v = v + params.blacks * smooth_step(1.0 - v);
    }
    if (params.whites != 0.0) {
        v = v + params.whites * smooth_step(v);
    }
    if (params.contrast != 0.0) {
        let c = clamp(params.contrast, -255.0, 258.0);
        let factor = (259.0 * (c + 255.0)) / (255.0 * (259.0 - c));
        v = (v - 0.5) * factor + 0.5;
    }
    return round(clamp(v, 0.0, 1.0) * 255.0);
}

@compute @workgroup_size(16, 16)
fn main(@builtin(global_invocation_id) id: vec3<u32>) {
    if (id.x >= dims.x || id.y >= dims.y) {
        return;
    }
    let i = id.y * dims.x + id.x;
    let px = unpack(src[i]);
    var rgb = vec3<f32>(levels(px.x), levels(px.y), levels(px.z)) * (1.0 / 255.0);
    if (params.saturation != 1.0) {
        let gray = 0.2126 * rgb.x + 0.7152 * rgb.y + 0.0722 * rgb.z;
        if (params.saturation == 0.0) {
            rgb = vec3<f32>(gray);
        } else {
            rgb = clamp(vec3<f32>(gray) + (rgb - vec3<f32>(gray)) * params.saturation, vec3<f32>(0.0), vec3<f32>(1.0));
        }
        rgb = round(rgb * 255.0) * (1.0 / 255.0);
    }
    if (params.hue != 0.0) {
        let cos_h = cos(params.hue);
        let sin_h = sin(params.hue);
        let y = 0.299 * rgb.x + 0.587 * rgb.y + 0.114 * rgb.z;
        let iq_i = 0.596 * rgb.x - 0.274 * rgb.y - 0.322 * rgb.z;
        let iq_q = 0.211 * rgb.x - 0.523 * rgb.y + 0.312 * rgb.z;
        let i2 = iq_i * cos_h - iq_q * sin_h;
        let q2 = iq_i * sin_h + iq_q * cos_h;
        rgb = clamp(
            vec3<f32>(y + 0.956 * i2 + 0.621 * q2, y - 0.272 * i2 - 0.647 * q2, y - 1.106 * i2 + 1.703 * q2),
            vec3<f32>(0.0),
            vec3<f32>(1.0),
        );
    }
    dst[i] = pack(vec4<f32>(rgb * 255.0, px.w));
}
";

/// The shader of the `gaussian_blur` filter: a Gaussian kernel of standard
/// deviation `sigma` and radius `ceil(3 * sigma)` over all four channels,
/// with the image edges repeated. A `sigma` of zero keeps the image.
pub const GAUSSIAN_BLUR: &'static str = "struct Params {
    sigma: f32,
    pad0: f32,
    pad1: f32,
    pad2: f32,
}

@group(0) @binding(0) var<storage, read> src: array<u32>;
@group(0) @binding(1) var<storage, read_write> dst: array<u32>;
@group(0) @binding(2) var<uniform> dims: vec2<u32>;
@group(0) @binding(3) var<uniform> params: Params;

fn unpack(p: u32) -> vec4<f32> {
    return vec4<f32>(f32(p & 255u), f32((p >> 8u) & 255u), f32((p >> 16u) & 255u), f32(p >> 24u));
}

fn pack(c: vec4<f32>) -> u32 {
    let q = vec4<u32>(clamp(floor(c), vec4<f32>(0.0), vec4<f32>(255.0)));
    return q.x | (q.y << 8u) | (q.z << 16u) | (q.w << 24u);
}

@compute @workgroup_size(16, 16)
fn main(@builtin(global_invocation_id) id: vec3<u32>) {
    if (id.x >= dims.x || id.y >= dims.y) {
        return;
    }
    let i = id.y * dims.x + id.x;
    if (params.sigma <= 0.0) {
        dst[i] = src[i];
        return;
    }
    let radius = i32(ceil(3.0 * params.sigma));
    let two_sigma2 = 2.0 * params.sigma * params.sigma;
    let w = i32(dims.x);
    let h = i32(dims.y);
    var sum = vec4<f32>(0.0);
    var total = 0.0;
    for (var dy = -radius; dy <= radius; dy = dy + 1) {
        let sy = clamp(i32(id.y) + dy, 0, h - 1);
        let wy = exp(-f32(dy * dy) / two_sigma2);
        for (var dx = -radius; dx <= radius; dx = dx + 1) {
            let sx = clamp(i32(id.x) + dx, 0, w - 1);
            let weight = wy * exp(-f32(dx * dx) / two_sigma2);
            sum = sum + unpack(src[u32(sy * w + sx)]) * weight;
            total = total + weight;
        }
    }
    dst[i] = pack(sum / total);
}
";

/// The shader of the `kawase_blur` filter: one pass that averages each
/// pixel with four bilinear samples `blurStrength` pixels away on the
/// diagonals, each weighted down by its color distance from the pixel times
/// `edgeStrength`. Alpha is kept; a `blurStrength` of zero keeps the image.
/// The host runs it once per pass.
pub const KAWASE_BLUR: &'static str = "struct Params {
    blur_strength: f32,
    edge_strength: f32,
    passes: f32,
    pad0: f32,
}

@group(0) @binding(0) var<storage, read> src: array<u32>;
@group(0) @binding(1) var<storage, read_write> dst: array<u32>;
@group(0) @binding(2) var<uniform> dims: vec2<u32>;
@group(0) @binding(3) var<uniform> params: Params;

fn unpack(p: u32) -> vec4<f32> {
    return vec4<f32>(f32(p & 255u), f32((p >> 8u) & 255u), f32((p >> 16u) & 255u), f32(p >> 24u));
}

fn pack(c: vec4<f32>) -> u32 {
    let q = vec4<u32>(clamp(round(c), vec4<f32>(0.0), vec4<f32>(255.0)));
    return q.x | (q.y << 8u) | (q.z << 16u) | (q.w << 24u);
}

fn texel(x: i32, y: i32) -> vec3<f32> {
    return unpack(src[u32(y * i32(dims.x) + x)]).xyz * (1.0 / 255.0);
}

fn sample_bilinear(px: f32, py: f32) -> vec3<f32> {
    let x = clamp(px, 0.0, f32(dims.x) - 1.0);
    let y = clamp(py, 0.0, f32(dims.y) - 1.0);
    let x0 = i32(floor(x));
    let y0 = i32(floor(y));
    let x1 = min(x0 + 1, i32(dims.x) - 1);
    let y1 = min(y0 + 1, i32(dims.y) - 1);
    let tx = x - floor(x);
    let ty = y - floor(y);
    let top = mix(texel(x0, y0), texel(x1, y0), tx);
    let bottom = mix(texel(x0, y1), texel(x1, y1), tx);
    return mix(top, bottom, ty);
}

fn edge_weight(a: vec3<f32>, b: vec3<f32>) -> f32 {
    return exp(-length(a - b) * params.edge_strength);
}

@compute @workgroup_size(16, 16)
fn main(@builtin(global_invocation_id) id: vec3<u32>) {
    if (id.x >= dims.x || id.y >= dims.y) {
        return;
    }
    let i = id.y * dims.x + id.x;
    if (params.blur_strength <= 0.0 || params.passes <= 0.0) {
        dst[i] = src[i];
        return;
    }
    let x = f32(id.x);
    let y = f32(id.y);
    let o = params.blur_strength;
    let center = texel(i32(id.x), i32(id.y));
    let c1 = sample_bilinear(x + o, y + o);
    let c2 = sample_bilinear(x - o, y + o);
    let c3 = sample_bilinear(x + o, y - o);
    let c4 = sample_bilinear(x - o, y - o);
    let w1 = edge_weight(center, c1);
    let w2 = edge_weight(center, c2);
    let w3 = edge_weight(center, c3);
    let w4 = edge_weight(center, c4);
    let rgb = (center + c1 * w1 + c2 * w2 + c3 * w3 + c4 * w4) / (1.0 + w1 + w2 + w3 + w4);
    dst[i] = pack(vec4<f32>(rgb * 255.0, unpack(src[i]).w));
}
";

} // verus!
