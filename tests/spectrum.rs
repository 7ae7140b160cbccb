use iris::sampling::Sampler;
use iris::spectrum::{rotate_n, Wavelength, LAMBDA_MAX_PM, LAMBDA_MIN_PM};

#[test]
fn rotate_by_quarters() {
    assert_eq!(rotate_n(360_000, 1), 477_500);
    assert_eq!(rotate_n(360_000, 3), 712_500);
    assert_eq!(rotate_n(712_500, 1), 360_000);
    assert_eq!(rotate_n(830_000, 1), 477_500);
    assert_eq!(rotate_n(500_000, 4), 500_000);
}

#[test]
fn rotate_four_times_round_trips() {
    for hero in [360_000u32, 400_001, 595_000, 712_499, 712_500, 829_999] {
        let mut w = hero;
        for _ in 0..4 {
            w = rotate_n(w, 1);
        }
        assert_eq!(w, hero);
    }
}

#[test]
fn rotate_round_trip_fails_at_top_of_band() {
    let mut w = LAMBDA_MAX_PM;
    for _ in 0..4 {
        w = rotate_n(w, 1);
    }
    assert_eq!(w, LAMBDA_MIN_PM);
}

#[test]
fn wavelength_lanes() {
    let wl = Wavelength::new(595_000);
    assert_eq!(wl.hero(), 595_000);
    assert_eq!(wl.lane(0), 595_000);
    assert_eq!(wl.lane(1), 712_500);
    assert_eq!(wl.lane(2), 360_000);
    assert_eq!(wl.lane(3), 477_500);
    let r = wl.rotate_n(1);
    assert_eq!(r.hero(), 712_500);
    assert_eq!(r.lane(1), 360_000);
}

#[test]
fn wavelength_from_bits_spans_band() {
    assert_eq!(Wavelength::sample_from_bits(0).hero(), 360_000);
    assert_eq!(Wavelength::sample_from_bits(1 << 31).hero(), 595_000);
    let top = Wavelength::sample_from_bits(u32::MAX).hero();
    assert!(top < LAMBDA_MAX_PM);
    assert_eq!(top, 829_999);
}

#[test]
fn wavelength_sample_uses_golden_ratio() {
    let s = Sampler::new(0, 0, 0, 7);
    let wl = Wavelength::sample(&s);
    assert_eq!(wl, Wavelength::sample_from_bits(979_224_766));
    for i in 0..4 {
        let l = wl.lane(i);
        assert!((LAMBDA_MIN_PM..LAMBDA_MAX_PM).contains(&l));
    }
}
