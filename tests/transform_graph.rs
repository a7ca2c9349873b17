use nalgebra::{Matrix4, Rotation3, Vector3};
use wtvr3d::transform::{GraphError, Transform, TransformGraph, TransformId};

fn local(t: Vector3<f32>, r: Vector3<f32>, s: Vector3<f32>) -> Matrix4<f32> {
    Matrix4::new_translation(&t)
        * Rotation3::from_euler_angles(r.x, r.y, r.z).to_homogeneous()
        * Matrix4::new_nonuniform_scaling(&s)
}

fn compose(p: Matrix4<f32>, t: Vector3<f32>, r: Vector3<f32>, s: Vector3<f32>) -> Matrix4<f32> {
    p * local(t, r, s)
}

fn zero() -> Vector3<f32> {
    Vector3::new(0.0, 0.0, 0.0)
}

fn one() -> Vector3<f32> {
    Vector3::new(1.0, 1.0, 1.0)
}

fn graph() -> TransformGraph<Vector3<f32>, Matrix4<f32>, fn(Matrix4<f32>, Vector3<f32>, Vector3<f32>, Vector3<f32>) -> Matrix4<f32>> {
    TransformGraph::new(Matrix4::identity(), compose as fn(_, _, _, _) -> _)
}

#[test]
fn new_transform_keeps_values_and_is_detached() {
    let t: Transform<Vector3<f32>, Matrix4<f32>> =
        Transform::new(Vector3::new(1.0, 2.0, 3.0), Vector3::new(0.5, 0.0, 0.0), Vector3::new(2.0, 2.0, 2.0));
    assert_eq!(*t.get_position(), Vector3::new(1.0, 2.0, 3.0));
    assert_eq!(*t.get_rotation(), Vector3::new(0.5, 0.0, 0.0));
    assert_eq!(*t.get_scale(), Vector3::new(2.0, 2.0, 2.0));
    assert!(t.parent.is_none());
    assert!(t.first_child.is_none());
    assert!(t.last_child.is_none());
    assert!(t.next_sibling.is_none());
    assert!(t.previous_sibling.is_none());
}

#[test]
fn mutable_getters_edit_the_node() {
    let mut t: Transform<Vector3<f32>, Matrix4<f32>> = Transform::new(zero(), zero(), one());
    *t.get_position_mut() = Vector3::new(4.0, 5.0, 6.0);
    *t.get_rotation_mut() = Vector3::new(0.0, 1.0, 0.0);
    *t.get_scale_mut() = Vector3::new(3.0, 3.0, 3.0);
    assert_eq!(*t.get_position(), Vector3::new(4.0, 5.0, 6.0));
    assert_eq!(*t.get_rotation(), Vector3::new(0.0, 1.0, 0.0));
    assert_eq!(*t.get_scale(), Vector3::new(3.0, 3.0, 3.0));
    assert!(t.is_dirty());
}

#[test]
fn reading_cleans_and_detach_kills_only_the_node() {
    let mut g = graph();
    let p = g.create(zero(), zero(), one());
    let a = g.create(zero(), zero(), one());
    let b = g.create(zero(), zero(), one());
    g.attach(a, p).unwrap();
    g.attach(b, a).unwrap();
    g.get_world_matrix(b);
    assert!(!g.get(b).is_dirty() && !g.get(a).is_dirty() && !g.get(p).is_dirty());
    g.detach(a);
    assert!(g.get(a).is_dead());
    assert!(!g.get(b).is_dead() && !g.get(p).is_dead());
    assert!(g.get(b).is_dirty() && g.get(a).is_dirty());
    assert_eq!(g.attach(a, p), Ok(()));
    assert!(!g.get(a).is_dead());
}

#[test]
fn children_form_a_doubly_linked_list_in_attach_order() {
    let mut g = graph();
    let p = g.create(zero(), zero(), one());
    let a = g.create(zero(), zero(), one());
    let b = g.create(zero(), zero(), one());
    let c = g.create(zero(), zero(), one());
    assert_eq!(g.attach(a, p), Ok(()));
    assert_eq!(g.attach(b, p), Ok(()));
    assert_eq!(g.attach(c, p), Ok(()));
    let mut seen = Vec::new();
    let mut cur = g.get(p).first_child;
    while let Some(id) = cur {
        seen.push(id);
        assert_eq!(g.get(id).parent, Some(p));
        cur = g.get(id).next_sibling;
    }
    assert!(seen == vec![a, b, c]);
    assert!(g.children(p) == vec![a, b, c]);
    assert!(g.children(a).is_empty());
    assert!(g.get(p).last_child == Some(c));
    assert!(g.get(a).previous_sibling.is_none());
    assert!(g.get(b).previous_sibling == Some(a));
    assert!(g.get(c).previous_sibling == Some(b));
}

#[test]
fn attach_refuses_bad_requests() {
    let mut g = graph();
    let p = g.create(zero(), zero(), one());
    let a = g.create(zero(), zero(), one());
    let b = g.create(zero(), zero(), one());
    assert_eq!(g.attach(a, TransformId { index: 9 }), Err(GraphError::UnknownNode));
    assert_eq!(g.attach(a, p), Ok(()));
    assert_eq!(g.attach(a, b), Err(GraphError::AlreadyAttached));
    assert_eq!(g.attach(p, a), Err(GraphError::WouldCycle));
    assert_eq!(g.attach(b, b), Err(GraphError::WouldCycle));
}

#[test]
fn detach_patches_neighbours_and_parent() {
    let mut g = graph();
    let p = g.create(zero(), zero(), one());
    let a = g.create(zero(), zero(), one());
    let b = g.create(zero(), zero(), one());
    let c = g.create(zero(), zero(), one());
    g.attach(a, p).unwrap();
    g.attach(b, p).unwrap();
    g.attach(c, p).unwrap();
    g.detach(b);
    assert!(g.children(p) == vec![a, c]);
    assert!(g.get(a).next_sibling == Some(c));
    assert!(g.get(c).previous_sibling == Some(a));
    assert!(g.get(b).parent.is_none());
    g.detach(a);
    assert!(g.get(p).first_child == Some(c));
    g.detach(c);
    assert!(g.get(p).first_child.is_none());
    assert!(g.get(p).last_child.is_none());
    assert!(g.children(p).is_empty());
    assert_eq!(g.attach(b, p), Ok(()));
    assert!(g.get(p).first_child == Some(b));
    assert!(g.children(p) == vec![b]);
}

#[test]
fn world_matrix_is_parent_times_local() {
    let mut g = graph();
    let p = g.create(Vector3::new(1.0, 0.0, 0.0), zero(), Vector3::new(2.0, 2.0, 2.0));
    let c = g.create(Vector3::new(0.0, 3.0, 0.0), zero(), one());
    g.attach(c, p).unwrap();
    let wc = g.get_world_matrix(c);
    let wp = g.get_world_matrix(p);
    assert_eq!(wp, local(Vector3::new(1.0, 0.0, 0.0), zero(), Vector3::new(2.0, 2.0, 2.0)));
    assert_eq!(wc, wp * local(Vector3::new(0.0, 3.0, 0.0), zero(), one()));
    let origin = wc.transform_point(&nalgebra::Point3::new(0.0, 0.0, 0.0));
    assert_eq!(origin, nalgebra::Point3::new(1.0, 6.0, 0.0));
}

#[test]
fn editing_an_ancestor_reaches_every_descendant() {
    let mut g = graph();
    let root = g.create(zero(), zero(), one());
    let mid = g.create(zero(), zero(), one());
    let leaf = g.create(Vector3::new(1.0, 0.0, 0.0), zero(), one());
    g.attach(mid, root).unwrap();
    g.attach(leaf, mid).unwrap();
    let before = g.get_world_matrix(leaf);
    assert_eq!(before.transform_point(&nalgebra::Point3::origin()), nalgebra::Point3::new(1.0, 0.0, 0.0));
    g.set_translation(root, Vector3::new(0.0, 0.0, 5.0));
    let after = g.get_world_matrix(leaf);
    assert_eq!(after.transform_point(&nalgebra::Point3::origin()), nalgebra::Point3::new(1.0, 0.0, 5.0));
    g.set_scale(mid, Vector3::new(2.0, 2.0, 2.0));
    let scaled = g.get_world_matrix(leaf);
    assert_eq!(scaled.transform_point(&nalgebra::Point3::origin()), nalgebra::Point3::new(2.0, 0.0, 5.0));
    g.mark_dirty(root);
    assert_eq!(g.get_world_matrix(leaf), scaled);
}
