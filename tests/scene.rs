use iris::scene::Scene;
use iris::shape::{PrimIndex, Primitive};

#[test]
fn primitive_constructors() {
    let l = Primitive::new_light('a', 2);
    assert_eq!((l.light_index, l.material_index), (Some(2), None));
    let m = Primitive::new_material('b', 1);
    assert_eq!((m.light_index, m.material_index), (None, Some(1)));
    let e = Primitive::new_emissive_material('c', 4, 5);
    assert_eq!((e.light_index, e.material_index), (Some(5), Some(4)));
    assert_eq!(e.geometry, 'c');
}

#[test]
fn primitive_lookups() {
    let lights = vec![
        PrimIndex { data: 10u32, prim_index: 0 },
        PrimIndex { data: 20u32, prim_index: 1 },
    ];
    let materials = vec![PrimIndex { data: "glass", prim_index: 1 }];
    let p = Primitive::new_emissive_material((), 0, 1);
    assert_eq!(p.get_light(&lights), Some(&20));
    assert_eq!(p.get_material(&materials), Some(&"glass"));
    let q = Primitive::new_light((), 0);
    assert_eq!(q.get_material(&materials), None);
    assert_eq!(q.get_light(&lights), Some(&10));
}

#[test]
fn scene_links_lights_and_materials() {
    let mut scene: Scene<&str, u32, char> = Scene::new();
    scene.add_emissive_material("lamp", 'L', 3);
    scene.add_material("ball", 'B');
    scene.add_material("floor", 'F');
    scene.add_light("sun", 7);
    assert_eq!(scene.primitives.len(), 4);
    assert_eq!(scene.light_count(), 2);
    assert_eq!(scene.lights[1].prim_index, 3);
    assert_eq!(scene.materials[2].prim_index, 2);
    let floor = &scene.primitives[2];
    assert_eq!(floor.get_material(&scene.materials), Some(&'F'));
    assert_eq!(floor.get_light(&scene.lights), None);
    let lamp = &scene.primitives[0];
    assert_eq!(lamp.get_light(&scene.lights), Some(&3));
}

#[test]
fn pick_one_light_is_uniform_over_lights() {
    let mut scene: Scene<&str, u32, char> = Scene::new();
    scene.add_light("a", 1);
    scene.add_material("b", 'b');
    scene.add_light("c", 2);
    let (e, p, w) = scene.pick_one_light(0);
    assert_eq!((*e, p.geometry, w), (1, "a", 2));
    let (e, p, w) = scene.pick_one_light(u32::MAX);
    assert_eq!((*e, p.geometry, w), (2, "c", 2));
    let (e, _, _) = scene.pick_one_light(1 << 31);
    assert_eq!(*e, 2);
}

#[test]
fn scene_without_lights_has_no_emitters() {
    let mut scene: Scene<u8, u32, u8> = Scene::new();
    scene.add_material(1, 1);
    scene.add_material(2, 2);
    assert_eq!(scene.light_count(), 0);
    assert!(scene.primitives.iter().all(|p| p.light_index.is_none()));
}
