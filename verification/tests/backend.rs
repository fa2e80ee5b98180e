use ddot::backend::{after_gpu, first_step, parse_backend, AfterGpu, Backend, FirstStep, GpuOutcome};
use ddot::dispatch::{padded_params, pixel_buffer_size, workgroup_count};

#[test]
fn backend_names() {
    assert_eq!(parse_backend("cpu"), Backend::Cpu);
    assert_eq!(parse_backend("gpu"), Backend::Gpu);
    assert_eq!(parse_backend("auto"), Backend::Auto);
    assert_eq!(parse_backend("anything"), Backend::Auto);
}

#[test]
fn first_steps() {
    assert_eq!(first_step(Backend::Cpu, true), FirstStep::Cpu);
    assert_eq!(first_step(Backend::Gpu, true), FirstStep::Gpu);
    assert_eq!(first_step(Backend::Gpu, false), FirstStep::CpuWithWarning);
    assert_eq!(first_step(Backend::Auto, true), FirstStep::Gpu);
    assert_eq!(first_step(Backend::Auto, false), FirstStep::Cpu);
}

#[test]
fn steps_after_gpu() {
    assert_eq!(after_gpu(Backend::Auto, GpuOutcome::Unavailable), AfterGpu::FallBackToCpu);
    assert_eq!(after_gpu(Backend::Gpu, GpuOutcome::Unavailable), AfterGpu::FallBackToCpuWithWarning);
    assert_eq!(after_gpu(Backend::Auto, GpuOutcome::Failed), AfterGpu::Fail);
    assert_eq!(after_gpu(Backend::Gpu, GpuOutcome::Done), AfterGpu::Done);
}

#[test]
fn gpu_dispatch_sizes() {
    assert_eq!(padded_params(&[]), Vec::<u8>::new());
    assert_eq!(padded_params(&[1, 2, 3]), vec![1, 2, 3, 0]);
    assert_eq!(padded_params(&[1, 2, 3, 4]), vec![1, 2, 3, 4]);
    assert_eq!(padded_params(&[9, 9, 9, 9, 9]), vec![9, 9, 9, 9, 9, 0, 0, 0]);
    assert_eq!(workgroup_count(0), 0);
    assert_eq!(workgroup_count(1), 1);
    assert_eq!(workgroup_count(16), 1);
    assert_eq!(workgroup_count(17), 2);
    assert_eq!(pixel_buffer_size(3, 2), 24);
    assert_eq!(pixel_buffer_size(65536, 65535), 4 * 65536 * 65535);
}
