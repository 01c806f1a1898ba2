use yin_yang_extractor::math;
use yin_yang_extractor::signal::{HoldSampler, ZeroSampler};

#[test]
fn hold_sampler_clamps_to_the_ends() {
    let data = [3, 5, 7];
    let s = HoldSampler::new(&data[..]);
    assert_eq!(*s.get(-4), 3);
    assert_eq!(*s.get(0), 3);
    assert_eq!(*s.get(1), 5);
    assert_eq!(*s.get(2), 7);
    assert_eq!(*s.get(9), 7);
}

#[test]
fn zero_sampler_reads_zero_outside() {
    let data = [3, 5, 7];
    let s = ZeroSampler::new(0, &data[..]);
    assert_eq!(s.len(), 3);
    assert_eq!(*s.get(-1), 0);
    assert_eq!(*s.get(0), 3);
    assert_eq!(*s.get(2), 7);
    assert_eq!(*s.get(3), 0);
    assert_eq!(*s.get(isize::MAX), 0);
}

#[test]
fn zero_sampler_of_empty_signal_reads_zero() {
    let data: [i32; 0] = [];
    let s = ZeroSampler::new(-1, &data[..]);
    assert_eq!(s.len(), 0);
    assert_eq!(*s.get(0), -1);
}

#[test]
fn math_exposes_the_same_samplers() {
    let data = [1.5f32, 2.5];
    let s = math::HoldSampler::new(&data[..]);
    assert_eq!(*s.get(5), 2.5);
    let z = math::ZeroSampler::new(0.0f32, &data[..]);
    assert_eq!(*z.get(1), 2.5);
}

#[test]
fn hold_sampler_of_one_sample_always_reads_it() {
    let data = [42u8];
    let s = HoldSampler::new(&data[..]);
    assert_eq!(*s.get(isize::MIN), 42);
    assert_eq!(*s.get(0), 42);
    assert_eq!(*s.get(isize::MAX), 42);
}
