use vstd::prelude::*;

verus! {

/// A surface that scatters uniformly over the hemisphere, with the given
/// albedo spectrum.
#[derive(Debug, Clone)]
pub struct LambertianBsdf<S> {
    pub albedo: S,
}

impl<S> LambertianBsdf<S> {
    /// A Lambertian surface of albedo `albedo`.
    pub fn new(albedo: S) -> (r: LambertianBsdf<S>)
        ensures
            r.albedo == albedo,
    {
        LambertianBsdf { albedo }
    }
}

/// A surface that does not scatter at all.
#[derive(Debug, Copy, Clone, PartialEq, Eq, Structural)]
pub struct NullBsdf;

impl NullBsdf {
    /// The null surface.
    pub fn new() -> (r: NullBsdf)
        ensures
            r == NullBsdf,
    {
        NullBsdf
    }
}

/// The closed set of scattering models: diffuse, rough (microfacet)
/// reflection, smooth dielectric, mirror and none. The parameters of each
/// model are carried as given.
#[derive(Debug, Clone)]
pub enum Bsdf<A, M, F, S> {
    LambertianBsdf(LambertianBsdf<A>),
    MicrofacetBsdf(M),
    FresnelBsdf(F),
    SpecularBsdf(S),
    NullBsdf(NullBsdf),
}

impl<A, M, F, S> Bsdf<A, M, F, S> {
    /// Is the model's lobe a Dirac delta? Smooth dielectrics and mirrors are;
    /// the others are not.
    pub open spec fn is_specular_spec(&self) -> bool {
        match self {
            Bsdf::FresnelBsdf(_) => true,
            Bsdf::SpecularBsdf(_) => true,
            _ => false,
        }
    }

    /// Does the model have a Dirac-delta lobe? Next-event estimation is
    /// skipped at such a vertex.
    pub fn is_specular(&self) -> (r: bool)
        ensures
            r == self.is_specular_spec(),
    {
        match self {
            Bsdf::FresnelBsdf(_) => true,
            Bsdf::SpecularBsdf(_) => true,
            _ => false,
        }
    }
}

} // verus!
