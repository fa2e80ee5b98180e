//! The filter catalogue: each filter's name, the backends it runs on and
//! its GPU shader, and the lookups by name.
use vstd::prelude::*;
use crate::filter::BackendSupport;
#[allow(unused_imports)]
use vstd::string::StringSliceAdditionalSpecFns;

pub mod adjustment;
pub mod gaussian_blur;
pub mod kawase_blur;
pub mod noise;
pub mod shaders;

pub use adjustment::Adjustment;
pub use gaussian_blur::GaussianBlur;
pub use kawase_blur::KawaseBlur;
pub use noise::Noise;

verus! {

/// A registered filter.
#[derive(Debug, Clone, Copy, PartialEq, Eq, Structural)]
pub enum FilterKind {
    Adjustment,
    Noise,
    GaussianBlur,
    KawaseBlur,
}

/// The names of the registered filters, in registration order.
pub open spec fn registered_names() -> Seq<Seq<char>> {
    seq!["adjustment"@, "noise"@, "gaussian_blur"@, "kawase_blur"@]
}

/// The registered filter called `name`, if there is one.
pub open spec fn registered_kind(name: Seq<char>) -> Option<FilterKind> {
    if name == "adjustment"@ {
        Some(FilterKind::Adjustment)
    } else if name == "noise"@ {
        Some(FilterKind::Noise)
    } else if name == "gaussian_blur"@ {
        Some(FilterKind::GaussianBlur)
    } else if name == "kawase_blur"@ {
        Some(FilterKind::KawaseBlur)
    } else {
        None
    }
}

/// The backends that filter `kind` runs on: the noise filter has no shader.
pub open spec fn kind_backends(kind: FilterKind) -> BackendSupport {
    match kind {
        FilterKind::Noise => BackendSupport::CpuOnly,
        _ => BackendSupport::CpuAndGpu,
    }
}

/// The GPU shader of filter `kind`, if it has one.
pub open spec fn kind_shader(kind: FilterKind) -> Option<&'static str> {
    match kind {
        FilterKind::Adjustment => Some(shaders::ADJUSTMENT),
        FilterKind::Noise => None,
        FilterKind::GaussianBlur => Some(shaders::GAUSSIAN_BLUR),
        FilterKind::KawaseBlur => Some(shaders::KAWASE_BLUR),
    }
}

/// The backends of the registered filter `name`, if there is one.
pub open spec fn registered_backends(name: Seq<char>) -> Option<BackendSupport> {
    match registered_kind(name) {
        Some(kind) => Some(kind_backends(kind)),
        None => None,
    }
}

/// Whether two strings hold the same text: their UTF-8 bytes agree one by
/// one, and UTF-8 encodes each text by one byte sequence.
pub(crate) fn same_text(a: &str, b: &str) -> (same: bool)
    ensures
        same == (a@ == b@),
{
    let x = a.as_bytes();
    let y = b.as_bytes();
    if x.len() != y.len() {
        return false;
    }
    let mut i: usize = 0;
    while i < x.len()
        invariant
            x@ == a.spec_bytes(),
            y@ == b.spec_bytes(),
            x@.len() == y@.len(),
            i <= x@.len(),
            forall|k: int| 0 <= k < i ==> x@[k] == y@[k],
        decreases x@.len() - i,
    {
        if x[i] != y[i] {
            return false;
        }
        i = i + 1;
    }
    proof {
        assert(x@ =~= y@);
        vstd::utf8::encode_utf8_decode_utf8(a@);
        vstd::utf8::encode_utf8_decode_utf8(b@);
    }
    true
}

/// The names of the registered filters, in registration order.
pub fn filter_names() -> (names: Vec<&'static str>)
    ensures
        names@.map_values(|s: &'static str| s@) == registered_names(),
{
    let names = vec![Adjustment::NAME, Noise::NAME, GaussianBlur::NAME, KawaseBlur::NAME];
    proof {
        reveal_strlit("adjustment");
        reveal_strlit("noise");
        reveal_strlit("gaussian_blur");
        reveal_strlit("kawase_blur");
    }
    assert(names@.map_values(|s: &'static str| s@) =~= registered_names());
    names
}

/// The registered filter called `name`; `None` for an unknown name.
pub fn filter_named(name: &str) -> (kind: Option<FilterKind>)
    ensures
        kind == registered_kind(name@),
{
    if same_text(name, Adjustment::NAME) {
        Some(FilterKind::Adjustment)
    } else if same_text(name, Noise::NAME) {
        Some(FilterKind::Noise)
    } else if same_text(name, GaussianBlur::NAME) {
        Some(FilterKind::GaussianBlur)
    } else if same_text(name, KawaseBlur::NAME) {
        Some(FilterKind::KawaseBlur)
    } else {
        None
    }
}

impl FilterKind {
    /// The filter's registered name.
    pub fn name(&self) -> (name: &'static str)
        ensures
            registered_kind(name@) == Some(*self),
    {
        proof {
            reveal_strlit("adjustment");
            reveal_strlit("noise");
            reveal_strlit("gaussian_blur");
            reveal_strlit("kawase_blur");
            assert("adjustment"@.len() == 10 && "noise"@.len() == 5);
            assert("gaussian_blur"@.len() == 13 && "kawase_blur"@.len() == 11);
        }
        match self {
            FilterKind::Adjustment => Adjustment.name(),
            FilterKind::Noise => Noise.name(),
            FilterKind::GaussianBlur => GaussianBlur.name(),
            FilterKind::KawaseBlur => KawaseBlur.name(),
        }
    }

    /// The backends the filter runs on.
    pub fn backend_support(&self) -> (support: BackendSupport)
        ensures
            support == kind_backends(*self),
    {
        match self {
            FilterKind::Adjustment => Adjustment.backend_support(),
            FilterKind::Noise => Noise.backend_support(),
            FilterKind::GaussianBlur => GaussianBlur.backend_support(),
            FilterKind::KawaseBlur => KawaseBlur.backend_support(),
        }
    }

    /// The filter's GPU shader, if it has one.
    pub fn gpu_shader(&self) -> (shader: Option<&'static str>)
        ensures
            shader == kind_shader(*self),
    {
        match self {
            FilterKind::Adjustment => Adjustment.gpu_shader(),
            FilterKind::Noise => Noise.gpu_shader(),
            FilterKind::GaussianBlur => GaussianBlur.gpu_shader(),
            FilterKind::KawaseBlur => KawaseBlur.gpu_shader(),
        }
    }
}

/// The backends that the registered filter `name` runs on; `None` for an unknown name.
pub fn filter_backend_support(name: &str) -> (support: Option<BackendSupport>)
    ensures
        support == registered_backends(name@),
{
    match filter_named(name) {
        Some(kind) => Some(kind.backend_support()),
        None => None,
    }
}

/// The GPU shader of the registered filter `name`; `None` for an unknown
/// name or a filter that runs on the CPU only.
pub fn filter_gpu_shader(name: &str) -> (shader: Option<&'static str>)
    ensures
        shader is Some <==> registered_backends(name@) == Some(BackendSupport::CpuAndGpu),
        shader == (match registered_kind(name@) {
            Some(kind) => kind_shader(kind),
            None => None,
        }),
{
    match filter_named(name) {
        Some(kind) => kind.gpu_shader(),
        None => None,
    }
}

/// The registered name of filter `kind`.
pub open spec fn kind_name(kind: FilterKind) -> Seq<char> {
    match kind {
        FilterKind::Adjustment => "adjustment"@,
        FilterKind::Noise => "noise"@,
        FilterKind::GaussianBlur => "gaussian_blur"@,
        FilterKind::KawaseBlur => "kawase_blur"@,
    }
}

/// The registry agrees with itself: no name is registered twice; a name is
/// registered exactly when it names a filter, exactly when it has backends;
/// and the filter it names is registered under that very name.
pub proof fn law_registry_consistent(name: Seq<char>)
    ensures
        registered_names().no_duplicates(),
        registered_names().contains(name) <==> registered_kind(name) is Some,
        registered_kind(name) is Some <==> registered_backends(name) is Some,
        registered_kind(name) matches Some(kind) ==> kind_name(kind) == name,
        forall|kind: FilterKind| registered_kind(#[trigger] kind_name(kind)) == Some(kind),
{
    reveal_strlit("adjustment");
    reveal_strlit("noise");
    reveal_strlit("gaussian_blur");
    reveal_strlit("kawase_blur");
    let r = registered_names();
    assert(r[0].len() == 10 && r[1].len() == 5 && r[2].len() == 13 && r[3].len() == 11);
    if r.contains(name) {
        let i = choose|i: int| 0 <= i < r.len() && r[i] == name;
        assert(i == 0 || i == 1 || i == 2 || i == 3);
    }
    if registered_kind(name) is Some {
        if name == "adjustment"@ {
            assert(r[0] == name);
        } else if name == "noise"@ {
            assert(r[1] == name);
        } else if name == "gaussian_blur"@ {
            assert(r[2] == name);
        } else {
            assert(r[3] == name);
        }
    }
}

} // verus!
