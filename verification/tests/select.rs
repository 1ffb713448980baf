use raymond::mesh::Mesh;
use raymond::scene::Scene;
use raymond::select::{closest, Hit};

#[test]
fn hit_constructors() {
    assert_eq!(Hit::new(17), Hit { distance: 17, subobject_index: 0 });
    assert_eq!(Hit::with_child(17, 4), Hit { distance: 17, subobject_index: 4 });
}

#[test]
fn closest_picks_the_nearest() {
    let hits = vec![Some(Hit::new(9)), None, Some(Hit::new(4)), Some(Hit::new(6))];
    assert_eq!(closest(&hits, 100), Some(2));
}

#[test]
fn closest_keeps_the_first_of_equals() {
    let hits = vec![Some(Hit::new(9)), Some(Hit::new(4)), None, Some(Hit::new(4))];
    assert_eq!(closest(&hits, 100), Some(1));
}

#[test]
fn closest_ignores_hits_at_or_beyond_the_limit() {
    let hits = vec![Some(Hit::new(100)), Some(Hit::new(250))];
    assert_eq!(closest(&hits, 100), None);
    assert_eq!(closest(&hits, 101), Some(0));
}

#[test]
fn closest_of_nothing_is_nothing() {
    assert_eq!(closest(&Vec::new(), 100), None);
    assert_eq!(closest(&vec![None, None], 100), None);
    assert_eq!(closest(&vec![Some(Hit::new(0))], 0), None);
}

// Objects are named by a letter and hit at the distance they carry.
fn scene(objects: Vec<(char, Option<Hit>)>) -> Scene<(char, Option<Hit>), (), u8> {
    let mut scene = Scene::new(0u8);
    scene.objects = objects;
    scene
}

#[test]
fn new_scene_is_empty() {
    let s: Scene<u8, u8, [u32; 3]> = Scene::new([1, 2, 3]);
    assert!(s.objects.is_empty());
    assert!(s.lights.is_empty());
    assert_eq!(s.background, [1, 2, 3]);
}

#[test]
fn scene_intersect_returns_object_and_hit() {
    let s = scene(vec![
        ('a', None),
        ('b', Some(Hit::with_child(30, 7))),
        ('c', Some(Hit::new(20))),
        ('d', Some(Hit::new(20))),
    ]);
    let probe = |o: &(char, Option<Hit>)| o.1;
    let found = s.intersect(u32::MAX, &probe).expect("an object is hit");
    assert_eq!(found.0 .0, 'c');
    assert_eq!(found.1, Hit::new(20));
    assert!(s.intersect(20, &probe).is_none());
    let composite = scene(vec![('m', Some(Hit::with_child(5, 7))), ('p', Some(Hit::new(20)))]);
    let found = composite.intersect(u32::MAX, &probe).expect("the mesh is hit");
    assert_eq!((found.0 .0, found.1), ('m', Hit::with_child(5, 7)));
}

#[test]
fn scene_intersect_asks_every_object_in_order() {
    let s = scene(vec![('a', Some(Hit::new(1))), ('b', None), ('c', Some(Hit::new(0)))]);
    let asked = std::cell::RefCell::new(Vec::new());
    let probe = |o: &(char, Option<Hit>)| {
        asked.borrow_mut().push(o.0);
        o.1
    };
    assert_eq!(s.intersect(100, &probe).map(|f| f.0 .0), Some('c'));
    assert_eq!(*asked.borrow(), vec!['a', 'b', 'c']);
    let empty = scene(Vec::new());
    assert!(empty.intersect(100, &probe).is_none());
}

#[test]
fn mesh_intersects_names_the_triangle() {
    let hits = vec![None, Some(Hit::new(30)), None, Some(Hit::new(12)), Some(Hit::new(12))];
    let locate = |_: &Option<Hit>| {
        let p = raymond::mesh::Point { x: 0, y: 0, z: 0 };
        raymond::mesh::Triangle(p, p, p)
    };
    let mesh = Mesh::new(hits, &locate);
    let probe = |t: &Option<Hit>| *t;
    assert_eq!(mesh.intersects(u32::MAX, &probe), Some(Hit::with_child(12, 3)));
    assert_eq!(mesh.intersects(12, &probe), None);
    assert_eq!(mesh.triangle(Hit::with_child(12, 3)), Some(&Some(Hit::new(12))));
    assert_eq!(mesh.triangle(Hit::with_child(12, 5)), None);
}
