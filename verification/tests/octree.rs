use nbody::body::{Body, BodyStore, Entity};
use nbody::com::COM;
use nbody::octree::{OctNode, Octree};
use nbody::vec3::{Moment, Vec3};

/// Lattice units per unit of length.
const UNIT: f32 = 1024.;

fn fx(v: f32) -> i64 {
    (v * UNIT) as i64
}

fn vec3(x: f32, y: f32, z: f32) -> Vec3 {
    Vec3::new(fx(x), fx(y), fx(z))
}

fn splat(v: f32) -> Vec3 {
    Vec3::splat(fx(v))
}

fn com(x: f32, y: f32, z: f32, mass: u64) -> COM {
    COM { sum: Moment::new(fx(x) as i128, fx(y) as i128, fx(z) as i128), mass }
}

fn build_body(pos: Vec3, m: u64) -> Body {
    Body { position: pos, vel: Vec3::new(0, 0, 0), mass: m, angular_vel: Vec3::new(0, 0, 0) }
}

fn build_tree(store: &BodyStore, tree: &mut Octree) {
    for i in 0..store.len() {
        tree.add(store, Entity(i)).unwrap();
    }
}

fn branch(pos: Vec3, size: f32, com: COM, children: Vec<Octree>) -> Octree {
    Octree { pos, size: fx(size), node: OctNode::Branch { com, children } }
}

#[test]
fn octree_tree_eq() {
    let tree1 = Octree::empty(vec3(-1., -1., -1.), fx(2.));
    let tree2 = Octree::empty(vec3(-1., -1., -1.), fx(2.));
    assert_eq!(tree1, tree2);

    let tree1 = Octree {
        pos: vec3(-1., -1., -1.),
        size: fx(2.),
        node: OctNode::Branch {
            com: COM::zero(),
            children: vec![
                Octree::empty(vec3(-1., -1., -1.), fx(1.)),
                Octree::empty(vec3(0., -1., -1.), fx(1.)),
                Octree::empty(vec3(-1., 0., -1.), fx(1.)),
                Octree::empty(vec3(0., 0., -1.), fx(1.)),
                Octree::empty(vec3(-1., -1., 0.), fx(1.)),
                Octree::empty(vec3(0., -1., 0.), fx(1.)),
                Octree::empty(vec3(-1., 0., 0.), fx(1.)),
                Octree::empty(vec3(0., 0., 0.), fx(1.)),
            ],
        },
    };
    let tree2 = Octree::empty(vec3(-1., -1., -1.), fx(2.));
    assert_ne!(tree1, tree2);

    let tree2 = Octree {
        pos: vec3(-1., -1., -1.),
        size: fx(2.),
        node: OctNode::Branch {
            com: COM::zero(),
            children: vec![
                Octree::empty(vec3(-1., -1., -1.), fx(1.)),
                Octree::empty(vec3(0., -1., -1.), fx(1.)),
                Octree::empty(vec3(-1., 0., -1.), fx(1.)),
                Octree::empty(vec3(0., 0., -1.), fx(1.)),
                Octree::empty(vec3(-1., -1., 0.), fx(1.)),
                Octree::empty(vec3(0., -1., 0.), fx(1.)),
                Octree::empty(vec3(-1., 0., 0.), fx(1.)),
                Octree::empty(vec3(0., 0., 0.), fx(1.)),
            ],
        },
    };
    assert_eq!(tree1, tree2);
}

#[test]
fn depth_1() {
    let mut store = BodyStore::new();
    let entities = [
        store.spawn(build_body(vec3(0.5, 0., 0.), 1)).unwrap(),
        store.spawn(build_body(vec3(0., 0.5, 0.), 1)).unwrap(),
        store.spawn(build_body(vec3(0., 0., 0.5), 1)).unwrap(),
    ];
    let answer = branch(
        vec3(0., 0., 0.),
        1.,
        com(0.5, 0.5, 0.5, 3),
        vec![
            Octree::empty(vec3(0., 0., 0.), fx(0.5)),
            Octree::leaf_unchecked(vec3(0.5, 0., 0.), fx(0.5), entities[0]),
            Octree::leaf_unchecked(vec3(0., 0.5, 0.), fx(0.5), entities[1]),
            Octree::empty(vec3(0.5, 0.5, 0.), fx(0.5)),
            Octree::leaf_unchecked(vec3(0., 0., 0.5), fx(0.5), entities[2]),
            Octree::empty(vec3(0.5, 0., 0.5), fx(0.5)),
            Octree::empty(vec3(0., 0.5, 0.5), fx(0.5)),
            Octree::empty(vec3(0.5, 0.5, 0.5), fx(0.5)),
        ],
    );
    let mut tree = Octree::empty(vec3(0., 0., 0.), fx(1.));
    build_tree(&store, &mut tree);
    assert_eq!(tree, answer);
}

#[test]
fn depth_2() {
    let mut store = BodyStore::new();
    let entities = [
        store.spawn(build_body(vec3(0., 1., 0.), 1)).unwrap(),
        store.spawn(build_body(vec3(0.5, 1., 0.), 1)).unwrap(),
    ];
    let answer = branch(
        vec3(0., 0., 0.),
        2.,
        com(0.5, 2., 0., 2),
        vec![
            Octree::empty(vec3(0., 0., 0.), fx(1.)),
            Octree::empty(vec3(1., 0., 0.), fx(1.)),
            branch(
                vec3(0., 1., 0.),
                1.,
                com(0.5, 2., 0., 2),
                vec![
                    Octree::leaf_unchecked(vec3(0., 1., 0.), fx(0.5), entities[0]),
                    Octree::leaf_unchecked(vec3(0.5, 1., 0.), fx(0.5), entities[1]),
                    Octree::empty(vec3(0., 1.5, 0.), fx(0.5)),
                    Octree::empty(vec3(0.5, 1.5, 0.), fx(0.5)),
                    Octree::empty(vec3(0., 1., 0.5), fx(0.5)),
                    Octree::empty(vec3(0.5, 1., 0.5), fx(0.5)),
                    Octree::empty(vec3(0., 1.5, 0.5), fx(0.5)),
                    Octree::empty(vec3(0.5, 1.5, 0.5), fx(0.5)),
                ],
            ),
            Octree::empty(vec3(1., 1., 0.), fx(1.)),
            Octree::empty(vec3(0., 0., 1.), fx(1.)),
            Octree::empty(vec3(1., 0., 1.), fx(1.)),
            Octree::empty(vec3(0., 1., 1.), fx(1.)),
            Octree::empty(vec3(1., 1., 1.), fx(1.)),
        ],
    );
    let mut tree = Octree::empty(vec3(0., 0., 0.), fx(2.));
    build_tree(&store, &mut tree);
    assert_eq!(tree, answer);
}

#[test]
fn depth_3() {
    let mut store = BodyStore::new();
    let entities = [
        store.spawn(build_body(vec3(0., 1., 1.), 1)).unwrap(),
        store.spawn(build_body(vec3(0.5, 1., 1.), 1)).unwrap(),
    ];
    let answer = branch(
        vec3(0., 0., 0.),
        4.,
        com(0.5, 2., 2., 2),
        vec![
            branch(
                vec3(0., 0., 0.),
                2.,
                com(0.5, 2., 2., 2),
                vec![
                    Octree::empty(vec3(0., 0., 0.), fx(1.)),
                    Octree::empty(vec3(1., 0., 0.), fx(1.)),
                    Octree::empty(vec3(0., 1., 0.), fx(1.)),
                    Octree::empty(vec3(1., 1., 0.), fx(1.)),
                    Octree::empty(vec3(0., 0., 1.), fx(1.)),
                    Octree::empty(vec3(1., 0., 1.), fx(1.)),
                    branch(
                        vec3(0., 1., 1.),
                        1.,
                        com(0.5, 2., 2., 2),
                        vec![
                            Octree::leaf_unchecked(vec3(0., 1., 1.), fx(0.5), entities[0]),
                            Octree::leaf_unchecked(vec3(0.5, 1., 1.), fx(0.5), entities[1]),
                            Octree::empty(vec3(0., 1.5, 1.), fx(0.5)),
                            Octree::empty(vec3(0.5, 1.5, 1.), fx(0.5)),
                            Octree::empty(vec3(0., 1., 1.5), fx(0.5)),
                            Octree::empty(vec3(0.5, 1., 1.5), fx(0.5)),
                            Octree::empty(vec3(0., 1.5, 1.5), fx(0.5)),
                            Octree::empty(vec3(0.5, 1.5, 1.5), fx(0.5)),
                        ],
                    ),
                    Octree::empty(vec3(1., 1., 1.), fx(1.)),
                ],
            ),
            Octree::empty(vec3(2., 0., 0.), fx(2.)),
            Octree::empty(vec3(0., 2., 0.), fx(2.)),
            Octree::empty(vec3(2., 2., 0.), fx(2.)),
            Octree::empty(vec3(0., 0., 2.), fx(2.)),
            Octree::empty(vec3(2., 0., 2.), fx(2.)),
            Octree::empty(vec3(0., 2., 2.), fx(2.)),
            Octree::empty(splat(2.), fx(2.)),
        ],
    );
    let mut tree = Octree::empty(vec3(0., 0., 0.), fx(4.));
    build_tree(&store, &mut tree);
    assert_eq!(tree, answer);
}

#[test]
fn add_super() {
    let mut store = BodyStore::new();
    let entities = [
        store.spawn(build_body(vec3(1., 0., 0.), 1)).unwrap(),
        store.spawn(build_body(vec3(0., 1., 0.), 1)).unwrap(),
        store.spawn(build_body(vec3(0., 0., 1.), 1)).unwrap(),
    ];
    let mut tree = Octree::empty(vec3(0., 0., 0.), fx(1.));
    build_tree(&store, &mut tree);
    let answer = branch(
        vec3(0., 0., 0.),
        2.,
        com(1., 1., 1., 3),
        vec![
            Octree::empty(vec3(0., 0., 0.), fx(1.)),
            Octree::leaf_unchecked(vec3(1., 0., 0.), fx(1.), entities[0]),
            Octree::leaf_unchecked(vec3(0., 1., 0.), fx(1.), entities[1]),
            Octree::empty(vec3(1., 1., 0.), fx(1.)),
            Octree::leaf_unchecked(vec3(0., 0., 1.), fx(1.), entities[2]),
            Octree::empty(vec3(1., 0., 1.), fx(1.)),
            Octree::empty(vec3(0., 1., 1.), fx(1.)),
            Octree::empty(splat(1.), fx(1.)),
        ],
    );
    assert_eq!(tree, answer);
}

#[test]
fn add_super2() {
    let mut store = BodyStore::new();
    let entities = [
        store.spawn(build_body(vec3(1., 0., 0.), 1)).unwrap(),
        store.spawn(build_body(vec3(-1., 0., 0.), 1)).unwrap(),
    ];
    let mut tree = Octree::empty(vec3(0., 0., 0.), fx(1.));
    build_tree(&store, &mut tree);
    let answer = branch(
        vec3(-2., 0., 0.),
        4.,
        com(0., 0., 0., 2),
        vec![
            Octree::leaf_unchecked(vec3(-2., 0., 0.), fx(2.), entities[1]),
            branch(
                vec3(0., 0., 0.),
                2.,
                com(1., 0., 0., 1),
                vec![
                    Octree::empty(vec3(0., 0., 0.), fx(1.)),
                    Octree::leaf_unchecked(vec3(1., 0., 0.), fx(1.), entities[0]),
                    Octree::empty(vec3(0., 1., 0.), fx(1.)),
                    Octree::empty(vec3(1., 1., 0.), fx(1.)),
                    Octree::empty(vec3(0., 0., 1.), fx(1.)),
                    Octree::empty(vec3(1., 0., 1.), fx(1.)),
                    Octree::empty(vec3(0., 1., 1.), fx(1.)),
                    Octree::empty(splat(1.), fx(1.)),
                ],
            ),
            Octree::empty(vec3(-2., 2., 0.), fx(2.)),
            Octree::empty(vec3(0., 2., 0.), fx(2.)),
            Octree::empty(vec3(-2., 0., 2.), fx(2.)),
            Octree::empty(vec3(0., 0., 2.), fx(2.)),
            Octree::empty(vec3(-2., 2., 2.), fx(2.)),
            Octree::empty(vec3(0., 2., 2.), fx(2.)),
        ],
    );
    assert_eq!(tree, answer);
}
