use wgpu::naga::valid::{Capabilities, ValidationFlags, Validator};
use ddot::filter::detect::{GpuShaderDetect, GpuShaderFallback, Wrap};
use ddot::filter::{BackendSupport, ParamError};
use ddot::filter::validation::{check_param, ParamInput, ParamShape, ParamVerdict};
use ddot::filters::{
    filter_backend_support, filter_gpu_shader, filter_named, filter_names, Adjustment, FilterKind,
    GaussianBlur, KawaseBlur, Noise,
};
use ddot::image::Color;

#[test]
fn verifies_filter_backend_support_capabilities() {
    assert_eq!(filter_backend_support("adjustment"), Some(BackendSupport::CpuAndGpu));
    let adj_shader = Adjustment.gpu_shader().expect("adjustment gpu shader");
    assert!(adj_shader.contains("@compute"));

    assert_eq!(filter_backend_support("noise"), Some(BackendSupport::CpuOnly));
    assert!(Noise.gpu_shader().is_none());
}

#[test]
fn unknown_filter_has_no_backend_or_shader() {
    assert_eq!(filter_backend_support("sepia"), None);
    assert_eq!(filter_gpu_shader("sepia"), None);
    assert_eq!(filter_gpu_shader("noise"), None);
}

#[test]
fn gaussian_blur_runs_on_gpu() {
    assert_eq!(filter_backend_support("gaussian_blur"), Some(BackendSupport::CpuAndGpu));
    assert_eq!(filter_gpu_shader("gaussian_blur"), GaussianBlur.gpu_shader());
    assert_eq!(filter_gpu_shader("adjustment"), Adjustment.gpu_shader());
    assert_eq!(KawaseBlur.backend_support(), BackendSupport::CpuAndGpu);
}

#[test]
fn kawase_blur_is_registered() {
    assert_eq!(filter_backend_support("kawase_blur"), Some(BackendSupport::CpuAndGpu));
    assert_eq!(filter_gpu_shader("kawase_blur"), KawaseBlur.gpu_shader());
    assert_eq!(filter_named("kawase_blur"), Some(FilterKind::KawaseBlur));
}

#[test]
fn filters_are_found_by_name() {
    for name in filter_names() {
        let kind = filter_named(name).unwrap();
        assert_eq!(kind.name(), name);
        assert_eq!(filter_backend_support(name), Some(kind.backend_support()));
        assert_eq!(filter_gpu_shader(name), kind.gpu_shader());
    }
    let names = filter_names();
    for (i, a) in names.iter().enumerate() {
        for b in &names[i + 1..] {
            assert_ne!(a, b);
        }
    }
    assert_eq!(filter_named("Adjustment"), None);
    assert_eq!(filter_backend_support("Adjustment"), None);
    assert_eq!(filter_named("Noise"), None);
    assert_eq!(filter_named(""), None);
    assert_eq!(FilterKind::Noise.gpu_shader(), None);
}

#[test]
fn registered_filter_names() {
    assert_eq!(filter_names(), vec!["adjustment", "noise", "gaussian_blur", "kawase_blur"]);
    assert_eq!(Adjustment.name(), "adjustment");
    assert_eq!(Noise.name(), "noise");
    assert_eq!(GaussianBlur.name(), "gaussian_blur");
    assert_eq!(KawaseBlur.name(), "kawase_blur");
}

#[test]
fn shader_detection_dispatches_on_gpu_support() {
    assert!((&Wrap::new(&Adjustment)).ddot_gpu_shader().is_some());
    assert!((&Wrap::new(&Noise)).ddot_gpu_shader().is_none());
}

#[test]
fn lookup_table_maps_color_channels() {
    let mut lut = [0u8; 256];
    for (i, v) in lut.iter_mut().enumerate() {
        *v = 255 - i as u8;
    }
    let mut color = Color { r: 0, g: 100, b: 255, a: 42 };
    Adjustment::apply_lut(&mut color, &lut);
    assert_eq!(color, Color { r: 255, g: 155, b: 0, a: 42 });
}

#[test]
fn param_error_messages() {
    let out_of_range = ParamError::OutOfRange {
        name: "gamma",
        value: "3.1".to_string(),
        min: "0.3".to_string(),
        max: "3".to_string(),
    };
    assert_eq!(out_of_range.message(), "parameter 'gamma' is out of range: 3.1 (expected 0.3..3)");
    let invalid = ParamError::InvalidValue { name: "hue", value: "NaN".to_string() };
    assert_eq!(invalid.message(), "parameter 'hue' has an invalid value: NaN");
}

#[test]
fn integer_parameters_are_checked_against_their_bounds() {
    let shape = ParamShape::Int { min: Some(-100), max: Some(500) };
    assert_eq!(check_param(&shape, &ParamInput::Int(0)), ParamVerdict::Valid);
    assert_eq!(check_param(&shape, &ParamInput::Int(-100)), ParamVerdict::Valid);
    assert_eq!(check_param(&shape, &ParamInput::Int(500)), ParamVerdict::Valid);
    assert_eq!(
        check_param(&shape, &ParamInput::Int(-101)),
        ParamVerdict::Invalid("Value -101 is below minimum -100".to_string())
    );
    assert_eq!(
        check_param(&shape, &ParamInput::Int(501)),
        ParamVerdict::Invalid("Value 501 is above maximum 500".to_string())
    );
    assert_eq!(
        check_param(&ParamShape::Int { min: Some(0), max: None }, &ParamInput::Int(i32::MIN)),
        ParamVerdict::Invalid("Value -2147483648 is below minimum 0".to_string())
    );
    assert_eq!(
        check_param(&ParamShape::Int { min: None, max: Some(-1) }, &ParamInput::Int(0)),
        ParamVerdict::Invalid("Value 0 is above maximum -1".to_string())
    );
    assert_eq!(
        check_param(&ParamShape::Int { min: None, max: Some(i32::MAX - 1) }, &ParamInput::Int(i32::MAX)),
        ParamVerdict::Invalid("Value 2147483647 is above maximum 2147483646".to_string())
    );
    let open = ParamShape::Int { min: None, max: None };
    assert_eq!(check_param(&open, &ParamInput::Int(i32::MIN)), ParamVerdict::Valid);
}

#[test]
fn parameter_types_must_match() {
    let mismatch = ParamVerdict::Invalid("Parameter type mismatch".to_string());
    assert_eq!(check_param(&ParamShape::Bool, &ParamInput::Bool(true)), ParamVerdict::Valid);
    assert_eq!(check_param(&ParamShape::Float, &ParamInput::Float), ParamVerdict::FloatBounds);
    assert_eq!(check_param(&ParamShape::Bool, &ParamInput::Int(1)), mismatch);
    assert_eq!(check_param(&ParamShape::Float, &ParamInput::Bool(false)), mismatch);
    assert_eq!(
        check_param(&ParamShape::Int { min: None, max: None }, &ParamInput::Float),
        mismatch
    );
}

#[test]
fn gpu_shaders_are_valid_wgsl() {
    let mut checked = 0;
    for name in filter_names() {
        if let Some(source) = filter_gpu_shader(name) {
            let module = wgpu::naga::front::wgsl::parse_str(source)
                .unwrap_or_else(|e| panic!("{name}: {}", e.emit_to_string(source)));
            Validator::new(ValidationFlags::all(), Capabilities::all())
                .validate(&module)
                .unwrap_or_else(|e| panic!("{name}: {e:?}"));
            assert!(module.entry_points.iter().any(|e| e.name == "main"));
            assert_eq!(module.global_variables.len(), 4);
            checked += 1;
        }
    }
    assert_eq!(checked, 3);
}
