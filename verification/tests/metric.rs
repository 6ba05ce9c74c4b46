use hnsw_rs::level::{next_sample, sample_level};
use hnsw_rs::metric::{DistL1, DistL2, Metric};

#[test]
fn l1_distances() {
    assert_eq!(DistL1.eval(&[1u8, 2, 3], &[4u8, 2, 1]), 5.0f32.to_bits());
    assert_eq!(DistL1.eval(&[100u16, 0], &[0u16, 50]), 150.0f32.to_bits());
    assert_eq!(DistL1.eval(&[-3i32, 4], &[3i32, -4]), 14.0f32.to_bits());
    assert_eq!(<DistL1 as Metric<u8>>::metric_tag(&DistL1), 1);
}

#[test]
fn l2_distances() {
    assert_eq!(DistL2.eval(&[0u8, 0], &[3u8, 4]), 5.0f32.to_bits());
    assert_eq!(DistL2.eval(&[0u16, 0], &[300u16, 400]), 500.0f32.to_bits());
    assert_eq!(DistL2.eval(&[-3i32, 0], &[0i32, 4]), 5.0f32.to_bits());
    assert_eq!(<DistL2 as Metric<i32>>::metric_tag(&DistL2), 2);
}

#[test]
fn distance_to_itself_is_zero() {
    assert_eq!(DistL1.eval(&[7u8, 9], &[7u8, 9]), 0);
    assert_eq!(DistL2.eval(&[7i32, -9], &[7i32, -9]), 0);
    assert_eq!(DistL2.eval(&[7u16, 9], &[7u16, 9]), 0);
}

#[test]
fn level_of_a_sample() {
    assert_eq!(sample_level(u64::MAX, 16, 15), 0);
    assert_eq!(sample_level((1u64 << 60) - 1, 16, 15), 1);
    assert_eq!(sample_level(1u64 << 60, 16, 15), 0);
    assert_eq!(sample_level((1u64 << 56) - 1, 16, 15), 2);
    assert_eq!(sample_level(0, 16, 15), 15);
    assert_eq!(sample_level(0, 16, 20), 16);
    assert_eq!(sample_level(0, 2, 100), 64);
    assert_eq!(sample_level(1, 2, 100), 63);
    assert_eq!(sample_level(0, 16, 0), 0);
}

#[test]
fn generator_is_splitmix() {
    let mut s: u64 = 0;
    assert_eq!(next_sample(&mut s), 0xE220A8397B1DCDAF);
    assert_eq!(s, 0x9E3779B97F4A7C15);
    assert_eq!(next_sample(&mut s), 0x6E789E6AA1B965F4);
}
