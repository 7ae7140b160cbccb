use iris::integrator::{Hit, HwssNaive, HwssSlow, PathState, SwssNaive, VertexPlan, MAX_DEPTH};

fn surface(emissive: bool, scatters: bool, specular: bool) -> Hit {
    Hit::Surface { emissive, scatters, specular }
}

#[test]
fn miss_adds_background_and_ends() {
    let p = HwssNaive.plan_vertex(&PathState::start(), Hit::Miss, 3);
    assert_eq!(
        p,
        VertexPlan { add_background: true, add_emission: false, scatter: false, next_event: false }
    );
}

#[test]
fn camera_ray_sees_emitter_directly() {
    let p = HwssNaive.plan_vertex(&PathState::start(), surface(true, false, false), 1);
    assert!(p.add_emission);
    assert!(!p.scatter);
    assert!(!p.next_event);
}

#[test]
fn emission_after_diffuse_bounce_is_left_to_next_event() {
    let s = PathState { bounces: 1, specular_bounce: false };
    let p = HwssNaive.plan_vertex(&s, surface(true, true, false), 1);
    assert!(!p.add_emission);
    assert!(p.next_event);
    let t = PathState { bounces: 1, specular_bounce: true };
    assert!(HwssNaive.plan_vertex(&t, surface(true, true, false), 1).add_emission);
}

#[test]
fn specular_vertex_skips_next_event() {
    let p = HwssNaive.plan_vertex(&PathState::start(), surface(false, true, true), 2);
    assert!(p.scatter);
    assert!(!p.next_event);
}

#[test]
fn no_lights_no_contribution() {
    let s = PathState { bounces: 3, specular_bounce: true };
    for hit in [Hit::Miss, surface(false, true, false), surface(false, true, true), surface(false, false, false)] {
        let p = HwssNaive.plan_vertex(&s, hit, 0);
        assert!(!p.add_emission);
        assert!(!p.next_event);
    }
}

#[test]
fn after_scatter_transitions() {
    let s = PathState::start();
    assert_eq!(
        s.after_scatter(true, false, false),
        Some(PathState { bounces: 1, specular_bounce: true })
    );
    assert_eq!(s.after_scatter(false, true, true), None);
    let deep = PathState { bounces: 2, specular_bounce: false };
    assert!(deep.roulette_applies());
    assert!(!s.roulette_applies());
    assert_eq!(deep.after_scatter(false, false, false), None);
    assert_eq!(
        deep.after_scatter(false, false, true),
        Some(PathState { bounces: 3, specular_bounce: false })
    );
    let last = PathState { bounces: MAX_DEPTH - 1, specular_bounce: false };
    assert_eq!(last.after_scatter(false, false, true), None);
}

#[test]
fn path_length_is_capped() {
    let mut s = PathState::start();
    let mut bounces = 0;
    while let Some(n) = s.after_scatter(false, false, true) {
        s = n;
        bounces += 1;
    }
    assert_eq!(bounces, MAX_DEPTH - 1);
}

#[test]
fn light_sample_gate() {
    assert!(HwssNaive.light_sample_counts(true, true, false, true, true));
    assert!(HwssNaive.light_sample_counts(true, false, true, true, true));
    assert!(!HwssNaive.light_sample_counts(true, true, true, true, true));
    assert!(!HwssNaive.light_sample_counts(false, true, false, true, true));
    assert!(!HwssNaive.light_sample_counts(true, true, false, false, true));
    assert!(!HwssNaive.light_sample_counts(true, true, false, true, false));
}

#[test]
fn other_integrators_plans() {
    let s = PathState { bounces: 4, specular_bounce: false };
    let p = HwssSlow.plan_vertex(surface(true, true, false));
    assert!(p.add_emission && p.scatter && !p.next_event);
    let miss = HwssSlow.plan_vertex(Hit::Miss);
    assert!(miss.add_background && !miss.scatter);
    let q = SwssNaive.plan_vertex(&PathState::start(), surface(true, false, false), 1);
    assert!(q.add_emission && !q.scatter);
    let r = SwssNaive.plan_vertex(&PathState::start(), surface(false, true, true), 1);
    assert!(r.scatter && !r.next_event);
    let after_mirror = PathState { bounces: 2, specular_bounce: true };
    assert!(SwssNaive.plan_vertex(&after_mirror, surface(true, true, false), 1).add_emission);
    assert!(!SwssNaive.plan_vertex(&s, surface(true, true, false), 1).add_emission);
    assert!(SwssNaive.plan_vertex(&s, Hit::Miss, 1).add_background);
    for hit in [Hit::Miss, surface(true, false, false), surface(false, true, false), surface(true, true, true)] {
        for st in [s, after_mirror, PathState::start()] {
            assert_eq!(SwssNaive.plan_vertex(&st, hit, 2), HwssNaive.plan_vertex(&st, hit, 2));
        }
    }
}
