use vstd::prelude::*;

verus! {

/// Hard cap on the number of bounces of one path.
pub const MAX_DEPTH: u32 = 15;

/// Bounces made before Russian roulette may end a path.
pub const MIN_DEPTH: u32 = 2;

/// What tracing the current ray found.
#[derive(Debug, Copy, Clone, PartialEq, Eq, Structural)]
pub enum Hit {
    /// The ray left the scene.
    Miss,
    /// The ray hit a primitive: whether it emits light, whether it has a
    /// material, and whether that material is specular.
    Surface { emissive: bool, scatters: bool, specular: bool },
}

/// The part of a path's state that drives its control flow.
#[derive(Debug, Copy, Clone, PartialEq, Eq, Structural)]
pub struct PathState {
    /// Bounces made so far.
    pub bounces: u32,
    /// Was the BSDF at the previous vertex specular?
    pub specular_bounce: bool,
}

/// What to do at the vertex just found.
#[derive(Debug, Copy, Clone, PartialEq, Eq, Structural)]
pub struct VertexPlan {
    /// Add the background emission, weighted by the path's MIS weight.
    pub add_background: bool,
    /// Add the hit primitive's emission, weighted by the path's MIS weight.
    pub add_emission: bool,
    /// Sample the BSDF and carry on; when false the path ends here.
    pub scatter: bool,
    /// Sample one light (next-event estimation) before scattering.
    pub next_event: bool,
}

impl PathState {
    /// A path about to trace its camera ray.
    pub fn start() -> (r: PathState)
        ensures
            r.bounces == 0,
            !r.specular_bounce,
    {
        PathState { bounces: 0, specular_bounce: false }
    }

    /// Does Russian roulette apply after the current bounce?
    pub fn roulette_applies(&self) -> (r: bool)
        ensures
            r == (self.bounces >= MIN_DEPTH),
    {
        self.bounces >= MIN_DEPTH
    }

    /// The state after the BSDF of the current vertex was sampled.
    ///
    /// `degenerate` says that the sampled hero pdf or cosine is zero;
    /// `survived` is the outcome of Russian roulette, read only when it
    /// applies. `None` ends the path, which also happens at the depth cap.
    pub fn after_scatter(&self, specular: bool, degenerate: bool, survived: bool) -> (r: Option<
        PathState,
    >)
        requires
            self.bounces < MAX_DEPTH,
        ensures
            r.is_some() <==> (!degenerate && (self.bounces < MIN_DEPTH || survived)
                && self.bounces + 1 < MAX_DEPTH),
            r.is_some() ==> r.unwrap() == (PathState {
                bounces: (self.bounces + 1) as u32,
                specular_bounce: specular,
            }),
    {
        if degenerate {
            return None;
        }
        if self.roulette_applies() && !survived {
            return None;
        }
        if self.bounces + 1 >= MAX_DEPTH {
            return None;
        }
        Some(PathState { bounces: self.bounces + 1, specular_bounce: specular })
    }
}

/// The vertex plan of the path tracer with next-event estimation and
/// multiple importance sampling.
pub open spec fn plan_spec(state: PathState, hit: Hit, light_count: int) -> VertexPlan {
    match hit {
        Hit::Miss => VertexPlan {
            add_background: true,
            add_emission: false,
            scatter: false,
            next_event: false,
        },
        Hit::Surface { emissive, scatters, specular } => VertexPlan {
            add_background: false,
            add_emission: emissive && (state.bounces == 0 || state.specular_bounce),
            scatter: scatters,
            next_event: scatters && !specular && light_count > 0,
        },
    }
}

/// Unidirectional path tracer with next-event estimation, balance-heuristic
/// MIS over the four wavelength lanes and Russian roulette.
#[derive(Debug, Copy, Clone, Default)]
pub struct HwssNaive;

impl HwssNaive {
    /// Decides what to do at a vertex.
    ///
    /// A miss adds the background and ends the path. An emitter adds its
    /// emission only on the camera ray or after a specular bounce, because
    /// next-event estimation at the previous vertex already counted it
    /// otherwise. A primitive without material ends the path. Next-event
    /// estimation runs at non-specular vertices of a scene with lights.
    pub fn plan_vertex(&self, state: &PathState, hit: Hit, light_count: usize) -> (r: VertexPlan)
        ensures
            r == plan_spec(*state, hit, light_count as int),
    {
        match hit {
            Hit::Miss => VertexPlan {
                add_background: true,
                add_emission: false,
                scatter: false,
                next_event: false,
            },
            Hit::Surface { emissive, scatters, specular } => VertexPlan {
                add_background: false,
                add_emission: emissive && (state.bounces == 0 || state.specular_bounce),
                scatter: scatters,
                next_event: scatters && !specular && light_count > 0,
            },
        }
    }

    /// Does a light sample taken for next-event estimation contribute? Only
    /// when its pdf is positive, the light faces the hit point from the side
    /// the path arrived on, it is farther than the self-shadowing epsilon,
    /// and nothing blocks the shadow ray.
    pub fn light_sample_counts(
        &self,
        pdf_positive: bool,
        facing_forward: bool,
        back_face: bool,
        beyond_epsilon: bool,
        unoccluded: bool,
    ) -> (r: bool)
        ensures
            r == (pdf_positive && facing_forward != back_face && beyond_epsilon && unoccluded),
    {
        pdf_positive && facing_forward != back_face && beyond_epsilon && unoccluded
    }
}

/// Path tracer without next-event estimation: with no light sampling to
/// share the work, every emitter hit adds its emission, and escaping rays add
/// the background.
#[derive(Debug, Copy, Clone, Default)]
pub struct HwssSlow;

impl HwssSlow {
    /// Decides what to do at a vertex. A miss adds the background and ends
    /// the path; an emitter always adds its emission; a primitive without
    /// material ends the path; no light is ever sampled.
    pub fn plan_vertex(&self, hit: Hit) -> (r: VertexPlan)
        ensures
            r == (match hit {
                Hit::Miss => VertexPlan {
                    add_background: true,
                    add_emission: false,
                    scatter: false,
                    next_event: false,
                },
                Hit::Surface { emissive, scatters, .. } => VertexPlan {
                    add_background: false,
                    add_emission: emissive,
                    scatter: scatters,
                    next_event: false,
                },
            }),
    {
        match hit {
            Hit::Miss => VertexPlan {
                add_background: true,
                add_emission: false,
                scatter: false,
                next_event: false,
            },
            Hit::Surface { emissive, scatters, .. } => VertexPlan {
                add_background: false,
                add_emission: emissive,
                scatter: scatters,
                next_event: false,
            },
        }
    }
}

/// Single-wavelength path tracer: only the hero lane carries radiance, and
/// its vertices follow the same plan as `HwssNaive`.
#[derive(Debug, Copy, Clone, Default)]
pub struct SwssNaive;

impl SwssNaive {
    /// Decides what to do at a vertex, as `HwssNaive::plan_vertex` does.
    pub fn plan_vertex(&self, state: &PathState, hit: Hit, light_count: usize) -> (r: VertexPlan)
        ensures
            r == plan_spec(*state, hit, light_count as int),
    {
        HwssNaive.plan_vertex(state, hit, light_count)
    }
}

/// After a vertex that ran next-event estimation, the next vertex does not add
/// the emission of what it hits: each light path is counted by one strategy.
pub proof fn lemma_emission_not_counted_twice(
    state: PathState,
    hit: Hit,
    next_hit: Hit,
    light_count: int,
)
    requires
        state.bounces < MAX_DEPTH,
        plan_spec(state, hit, light_count).next_event,
    ensures
        ({
            let next = PathState {
                bounces: (state.bounces + 1) as u32,
                specular_bounce: match hit {
                    Hit::Surface { specular, .. } => specular,
                    Hit::Miss => false,
                },
            };
            !plan_spec(next, next_hit, light_count).add_emission
        }),
{
}

/// A specular vertex never runs next-event estimation, and a vertex that
/// does not scatter ends the path.
pub proof fn lemma_specular_skips_next_event(state: PathState, hit: Hit, light_count: int)
    ensures
        plan_spec(state, hit, light_count).next_event ==> plan_spec(state, hit, light_count).scatter,
        (match hit {
            Hit::Surface { specular, .. } => specular,
            Hit::Miss => false,
        }) ==> !plan_spec(state, hit, light_count).next_event,
{
}

/// In a scene without lights, a vertex whose primitive does not emit adds
/// nothing but (on a miss) the background: no emission and no light sample.
pub proof fn lemma_no_light_no_contribution(state: PathState, hit: Hit)
    requires
        match hit {
            Hit::Surface { emissive, .. } => !emissive,
            Hit::Miss => true,
        },
    ensures
        !plan_spec(state, hit, 0).add_emission,
        !plan_spec(state, hit, 0).next_event,
{
}

} // verus!
