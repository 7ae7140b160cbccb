use iris::bsdf::{Bsdf, LambertianBsdf, NullBsdf};
use iris::frame::UpdateRate;

type Model = Bsdf<u8, u16, u32, u64>;

#[test]
fn specular_models() {
    assert!(!Model::LambertianBsdf(LambertianBsdf::new(5)).is_specular());
    assert!(!Model::MicrofacetBsdf(1).is_specular());
    assert!(Model::FresnelBsdf(2).is_specular());
    assert!(Model::SpecularBsdf(3).is_specular());
    assert!(!Model::NullBsdf(NullBsdf::new()).is_specular());
}

#[test]
fn lambertian_keeps_albedo() {
    assert_eq!(LambertianBsdf::new(0.5f32).albedo, 0.5);
}

#[test]
fn update_rate_records_rounds() {
    let mut r = UpdateRate::new(std::time::Duration::from_millis(100));
    assert_eq!(r.target_rate, std::time::Duration::from_millis(100));
    let now = std::time::Instant::now();
    r.mark(now);
    assert_eq!(r.prev_time, now);
}
