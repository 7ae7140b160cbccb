use vstd::prelude::*;
use crate::sampling::{array_index_from_bits, index_of_fraction};
use crate::shape::{PrimIndex, Primitive};

verus! {

/// The primitives of a scene with the lights and materials they refer to.
pub struct Scene<G, L, M> {
    pub lights: Vec<PrimIndex<L>>,
    pub materials: Vec<PrimIndex<M>>,
    pub primitives: Vec<Primitive<G>>,
}

impl<G, L, M> Scene<G, L, M> {
    /// Every light and material points at its primitive, and that primitive
    /// points back at it; no primitive points anywhere else.
    pub open spec fn wf(&self) -> bool {
        &&& forall|i: int|
            0 <= i < self.lights@.len() ==> {
                let p = (#[trigger] self.lights@[i]).prim_index as int;
                &&& 0 <= p < self.primitives@.len()
                &&& self.primitives@[p].light_index == Some(i as usize)
            }
        &&& forall|i: int|
            0 <= i < self.materials@.len() ==> {
                let p = (#[trigger] self.materials@[i]).prim_index as int;
                &&& 0 <= p < self.primitives@.len()
                &&& self.primitives@[p].material_index == Some(i as usize)
            }
        &&& forall|p: int|
            0 <= p < self.primitives@.len() ==> {
                let prim = #[trigger] self.primitives@[p];
                &&& prim.light_index.is_some() ==> {
                    &&& prim.light_index.unwrap() < self.lights@.len()
                    &&& self.lights@[prim.light_index.unwrap() as int].prim_index == p
                }
                &&& prim.material_index.is_some() ==> {
                    &&& prim.material_index.unwrap() < self.materials@.len()
                    &&& self.materials@[prim.material_index.unwrap() as int].prim_index == p
                }
            }
    }

    /// A scene with nothing in it.
    pub fn new() -> (r: Scene<G, L, M>)
        ensures
            r.wf(),
            r.lights@.len() == 0,
            r.materials@.len() == 0,
            r.primitives@.len() == 0,
    {
        Scene { lights: Vec::new(), materials: Vec::new(), primitives: Vec::new() }
    }

    /// Adds a purely emissive primitive.
    pub fn add_light(&mut self, geometry: G, light: L)
        requires
            old(self).wf(),
            old(self).primitives@.len() < usize::MAX,
            old(self).lights@.len() < usize::MAX,
            old(self).materials@.len() < usize::MAX,
        ensures
            final(self).wf(),
            final(self).lights@.len() == old(self).lights@.len() + 1,
            final(self).lights@.last().data == light,
            final(self).lights@.drop_last() == old(self).lights@,
            final(self).materials@ == old(self).materials@,
            final(self).primitives@.drop_last() == old(self).primitives@,
            final(self).primitives@.len() == old(self).primitives@.len() + 1,
            final(self).primitives@.last().geometry == geometry,
            final(self).primitives@.last().material_index == None::<usize>,
    {
        let p = self.primitives.len();
        self.lights.push(PrimIndex { data: light, prim_index: p });
        let l = self.lights.len() - 1;
        self.primitives.push(Primitive::new_light(geometry, l));
        proof {
            assert(self.primitives@.drop_last() =~= old(self).primitives@);
            assert(self.lights@.drop_last() =~= old(self).lights@ || self.lights@ == old(self).lights@);
            assert(self.materials@.drop_last() =~= old(self).materials@ || self.materials@ == old(self).materials@);
            self.lemma_push_keeps_links(old(self));
        }
    }

    /// Adds a primitive that scatters and does not emit.
    pub fn add_material(&mut self, geometry: G, material: M)
        requires
            old(self).wf(),
            old(self).primitives@.len() < usize::MAX,
            old(self).lights@.len() < usize::MAX,
            old(self).materials@.len() < usize::MAX,
        ensures
            final(self).wf(),
            final(self).materials@.len() == old(self).materials@.len() + 1,
            final(self).materials@.last().data == material,
            final(self).materials@.drop_last() == old(self).materials@,
            final(self).lights@ == old(self).lights@,
            final(self).primitives@.drop_last() == old(self).primitives@,
            final(self).primitives@.len() == old(self).primitives@.len() + 1,
            final(self).primitives@.last().geometry == geometry,
            final(self).primitives@.last().light_index == None::<usize>,
    {
        let p = self.primitives.len();
        self.materials.push(PrimIndex { data: material, prim_index: p });
        let m = self.materials.len() - 1;
        self.primitives.push(Primitive::new_material(geometry, m));
        proof {
            assert(self.primitives@.drop_last() =~= old(self).primitives@);
            assert(self.lights@.drop_last() =~= old(self).lights@ || self.lights@ == old(self).lights@);
            assert(self.materials@.drop_last() =~= old(self).materials@ || self.materials@ == old(self).materials@);
            self.lemma_push_keeps_links(old(self));
        }
    }

    /// Adds a primitive that both scatters and emits.
    pub fn add_emissive_material(&mut self, geometry: G, material: M, light: L)
        requires
            old(self).wf(),
            old(self).primitives@.len() < usize::MAX,
            old(self).materials@.len() < usize::MAX,
            old(self).lights@.len() < usize::MAX,
        ensures
            final(self).wf(),
            final(self).materials@.len() == old(self).materials@.len() + 1,
            final(self).materials@.last().data == material,
            final(self).materials@.drop_last() == old(self).materials@,
            final(self).lights@.len() == old(self).lights@.len() + 1,
            final(self).lights@.last().data == light,
            final(self).lights@.drop_last() == old(self).lights@,
            final(self).primitives@.drop_last() == old(self).primitives@,
            final(self).primitives@.len() == old(self).primitives@.len() + 1,
            final(self).primitives@.last().geometry == geometry,
    {
        let p = self.primitives.len();
        self.materials.push(PrimIndex { data: material, prim_index: p });
        self.lights.push(PrimIndex { data: light, prim_index: p });
        let m = self.materials.len() - 1;
        let l = self.lights.len() - 1;
        self.primitives.push(Primitive::new_emissive_material(geometry, m, l));
        proof {
            assert(self.primitives@.drop_last() =~= old(self).primitives@);
            assert(self.lights@.drop_last() =~= old(self).lights@ || self.lights@ == old(self).lights@);
            assert(self.materials@.drop_last() =~= old(self).materials@ || self.materials@ == old(self).materials@);
            self.lemma_push_keeps_links(old(self));
        }
    }

    /// Pushing one primitive whose links point at the newly pushed light and
    /// material (if any) keeps the scene well formed.
    proof fn lemma_push_keeps_links(&self, before: &Self)
        requires
            before.wf(),
            before.lights@.len() < usize::MAX,
            before.materials@.len() < usize::MAX,
            self.primitives@.len() == before.primitives@.len() + 1,
            self.primitives@.drop_last() == before.primitives@,
            self.lights@.len() == before.lights@.len() || (self.lights@.len()
                == before.lights@.len() + 1 && self.lights@.last().prim_index
                == before.primitives@.len() && self.primitives@.last().light_index == Some(
                before.lights@.len() as usize,
            )),
            self.lights@.len() == before.lights@.len() ==> self.primitives@.last().light_index
                == None::<usize>,
            forall|i: int| 0 <= i < before.lights@.len() ==> self.lights@[i] == before.lights@[i],
            self.materials@.len() == before.materials@.len() || (self.materials@.len()
                == before.materials@.len() + 1 && self.materials@.last().prim_index
                == before.primitives@.len() && self.primitives@.last().material_index == Some(
                before.materials@.len() as usize,
            )),
            self.materials@.len() == before.materials@.len()
                ==> self.primitives@.last().material_index == None::<usize>,
            forall|i: int|
                0 <= i < before.materials@.len() ==> self.materials@[i] == before.materials@[i],
        ensures
            self.wf(),
    {
        let n = before.primitives@.len() as int;
        assert forall|p: int| 0 <= p < n implies #[trigger] self.primitives@[p]
            == before.primitives@[p] by {
            assert(self.primitives@.drop_last()[p] == self.primitives@[p]);
        }
        assert forall|i: int| 0 <= i < self.lights@.len() implies {
            let p = (#[trigger] self.lights@[i]).prim_index as int;
            &&& 0 <= p < self.primitives@.len()
            &&& self.primitives@[p].light_index == Some(i as usize)
        } by {
            if i < before.lights@.len() {
                assert(self.lights@[i] == before.lights@[i]);
                assert(self.primitives@[before.lights@[i].prim_index as int] == before.primitives@[before.lights@[i].prim_index as int]);
            }
        }
        assert forall|i: int| 0 <= i < self.materials@.len() implies {
            let p = (#[trigger] self.materials@[i]).prim_index as int;
            &&& 0 <= p < self.primitives@.len()
            &&& self.primitives@[p].material_index == Some(i as usize)
        } by {
            if i < before.materials@.len() {
                assert(self.materials@[i] == before.materials@[i]);
                assert(self.primitives@[before.materials@[i].prim_index as int] == before.primitives@[before.materials@[i].prim_index as int]);
            }
        }
        assert forall|p: int| 0 <= p < self.primitives@.len() implies {
            let prim = #[trigger] self.primitives@[p];
            &&& prim.light_index.is_some() ==> {
                &&& prim.light_index.unwrap() < self.lights@.len()
                &&& self.lights@[prim.light_index.unwrap() as int].prim_index == p
            }
            &&& prim.material_index.is_some() ==> {
                &&& prim.material_index.unwrap() < self.materials@.len()
                &&& self.materials@[prim.material_index.unwrap() as int].prim_index == p
            }
        } by {
            if p < n {
                assert(self.primitives@[p] == before.primitives@[p]);
                let prim = before.primitives@[p];
                assert(prim.light_index.is_some() ==> {
                    &&& prim.light_index.unwrap() < before.lights@.len()
                    &&& before.lights@[prim.light_index.unwrap() as int].prim_index == p
                });
                assert(prim.material_index.is_some() ==> {
                    &&& prim.material_index.unwrap() < before.materials@.len()
                    &&& before.materials@[prim.material_index.unwrap() as int].prim_index == p
                });
                if prim.light_index.is_some() {
                    assert(self.lights@[prim.light_index.unwrap() as int] == before.lights@[prim.light_index.unwrap() as int]);
                }
                if prim.material_index.is_some() {
                    assert(self.materials@[prim.material_index.unwrap() as int] == before.materials@[prim.material_index.unwrap() as int]);
                }
            } else {
                assert(self.primitives@[p] == self.primitives@.last());
                if self.lights@.len() > before.lights@.len() {
                    assert(self.lights@[before.lights@.len() as int] == self.lights@.last());
                }
                if self.materials@.len() > before.materials@.len() {
                    assert(self.materials@[before.materials@.len() as int] == self.materials@.last());
                }
            }
        }
    }

    /// Number of lights.
    pub fn light_count(&self) -> (r: usize)
        ensures
            r == self.lights@.len(),
    {
        self.lights.len()
    }

    /// Picks one light uniformly from the fraction `bits / 2^32` and returns
    /// its emission, its primitive and the weight that undoes the pick: the
    /// number of lights.
    pub fn pick_one_light(&self, bits: u32) -> (r: (&L, &Primitive<G>, usize))
        requires
            self.wf(),
            self.lights@.len() > 0,
        ensures
            ({
                let i = index_of_fraction(bits, self.lights@.len() as usize);
                &&& *r.0 == self.lights@[i].data
                &&& *r.1 == self.primitives@[self.lights@[i].prim_index as int]
                &&& r.1.light_index == Some(i as usize)
            }),
            r.2 == self.lights@.len(),
    {
        let i = array_index_from_bits(bits, self.lights.len());
        let light = &self.lights[i];
        (&light.data, &self.primitives[light.prim_index], self.lights.len())
    }
}

/// A well-formed scene without lights has no emissive primitive.
pub proof fn lemma_no_lights_no_emitters<G, L, M>(scene: &Scene<G, L, M>, p: int)
    requires
        scene.wf(),
        scene.lights@.len() == 0,
        0 <= p < scene.primitives@.len(),
    ensures
        scene.primitives@[p].light_index.is_none(),
{
}

} // verus!
