use vstd::prelude::*;

verus! {

/// A light or material of the scene together with the primitive it belongs to.
#[derive(Debug)]
pub struct PrimIndex<T> {
    pub data: T,
    pub prim_index: usize,
}

/// A piece of geometry with an optional light and an optional material,
/// referred to by their positions in the scene's lists.
#[derive(Debug)]
pub struct Primitive<G> {
    pub geometry: G,
    pub light_index: Option<usize>,
    pub material_index: Option<usize>,
}

impl<G> Primitive<G> {
    /// A purely emissive primitive: it emits light number `light_index` and
    /// does not scatter.
    pub fn new_light(geometry: G, light_index: usize) -> (r: Primitive<G>)
        ensures
            r.geometry == geometry,
            r.light_index == Some(light_index),
            r.material_index == None::<usize>,
    {
        Primitive { geometry, material_index: None, light_index: Some(light_index) }
    }

    /// A primitive that scatters with material number `material_index` and
    /// emits nothing.
    pub fn new_material(geometry: G, material_index: usize) -> (r: Primitive<G>)
        ensures
            r.geometry == geometry,
            r.light_index == None::<usize>,
            r.material_index == Some(material_index),
    {
        Primitive { geometry, material_index: Some(material_index), light_index: None }
    }

    /// A primitive that both scatters and emits.
    pub fn new_emissive_material(geometry: G, material_index: usize, light_index: usize) -> (r:
        Primitive<G>)
        ensures
            r.geometry == geometry,
            r.light_index == Some(light_index),
            r.material_index == Some(material_index),
    {
        Primitive {
            geometry,
            material_index: Some(material_index),
            light_index: Some(light_index),
        }
    }

    /// The primitive's light, looked up in the scene's list of lights.
    pub fn get_light<'a, T>(&self, lights: &'a [PrimIndex<T>]) -> (r: Option<&'a T>)
        requires
            self.light_index.is_some() ==> self.light_index.unwrap() < lights@.len(),
        ensures
            r.is_some() == self.light_index.is_some(),
            r.is_some() ==> *r.unwrap() == lights@[self.light_index.unwrap() as int].data,
    {
        match self.light_index {
            Some(i) => Some(&lights[i].data),
            None => None,
        }
    }

    /// The primitive's material, looked up in the scene's list of materials.
    pub fn get_material<'a, T>(&self, materials: &'a [PrimIndex<T>]) -> (r: Option<&'a T>)
        requires
            self.material_index.is_some() ==> self.material_index.unwrap() < materials@.len(),
        ensures
            r.is_some() == self.material_index.is_some(),
            r.is_some() ==> *r.unwrap() == materials@[self.material_index.unwrap() as int].data,
    {
        match self.material_index {
            Some(i) => Some(&materials[i].data),
            None => None,
        }
    }
}

} // verus!
