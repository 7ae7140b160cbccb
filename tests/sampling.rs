use iris::sampling::{array_index_from_bits, hash_u32, Draw, Sampler};

#[test]
fn hash_of_zero_with_zero_seed_is_zero() {
    assert_eq!(hash_u32(0, 0), 0);
}

#[test]
fn hash_matches_three_rounds() {
    assert_eq!(hash_u32(1, 0), 3_890_109_358);
    assert_eq!(hash_u32(12_345, 123_456_789), 2_081_979_212);
}

#[test]
fn sampler_seeded_from_pixel_and_seed() {
    let s = Sampler::new(3, 5, 7, 123_456_789);
    assert_eq!(s.scramble, 468_977_117);
    assert_eq!(s.dimension, 0);
    assert_eq!(s.index, 7);
}

#[test]
fn sampler_draws_consume_dimensions() {
    let mut s = Sampler::new(3, 5, 7, 123_456_789);
    let a = s.next_draw();
    let b = s.next_draw();
    assert_eq!(a, Draw::Sobol { sample_index: 7, dimension: 0, seed: 1_541_829_137 });
    assert_eq!(b, Draw::Sobol { sample_index: 7, dimension: 1, seed: 3_123_720_327 });
    assert_eq!(s.dimension, 2);
}

#[test]
fn sampler_falls_back_to_hash_past_sobol_range() {
    let mut s = Sampler::new(3, 5, 70_000, 123_456_789);
    assert_eq!(s.next_draw(), Draw::Hashed { bits: 913_680_124 });
    let mut t = Sampler::new(0, 0, 0, 7);
    t.dimension = 256;
    match t.next_draw() {
        Draw::Hashed { .. } => {}
        Draw::Sobol { .. } => panic!("dimension 256 is past the Sobol table"),
    }
}

#[test]
fn sampler_dimension_saturates() {
    let mut s = Sampler::new(0, 0, 0, 1);
    s.dimension = u32::MAX;
    s.next_draw();
    assert_eq!(s.dimension, u32::MAX);
}

#[test]
fn samplers_with_same_inputs_draw_the_same() {
    let mut a = Sampler::new(17, 29, 3, 99);
    let mut b = Sampler::new(17, 29, 3, 99);
    for _ in 0..300 {
        assert_eq!(a.next_draw(), b.next_draw());
    }
    let mut c = Sampler::new(18, 29, 3, 99);
    let mut d = Sampler::new(17, 29, 3, 99);
    assert_ne!(c.next_draw(), d.next_draw());
}

#[test]
fn golden_ratio_bits_value() {
    let s = Sampler::new(3, 5, 7, 123_456_789);
    assert_eq!(s.golden_ratio_bits(), 2_250_048_964);
    let t = Sampler::new(0, 0, 0, 7);
    assert_eq!(t.golden_ratio_bits(), 979_224_766);
}

#[test]
fn array_index_covers_range() {
    assert_eq!(array_index_from_bits(0, 5), 0);
    assert_eq!(array_index_from_bits(u32::MAX, 3), 2);
    assert_eq!(array_index_from_bits(1 << 31, 4), 2);
    assert_eq!(array_index_from_bits(u32::MAX, 1), 0);
}
