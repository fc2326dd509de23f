use cgmath::{Angle, Quaternion, Rad, Rotation3, Vector3};
use scene_core::entity_instance::EntityInstance;
use scene_core::entity_manager::EntityManager;
use scene_core::transform::{QuatBits, Vec3Bits};
use scene_core::transform_system::TransformSystem;

fn vec3_bits(v: Vector3<f32>) -> Vec3Bits {
    Vec3Bits::new(v.x.to_bits(), v.y.to_bits(), v.z.to_bits())
}

fn bits_vec3(b: Vec3Bits) -> Vector3<f32> {
    Vector3::new(f32::from_bits(b.x), f32::from_bits(b.y), f32::from_bits(b.z))
}

fn quat_bits(q: Quaternion<f32>) -> QuatBits {
    QuatBits::new(q.s.to_bits(), q.v.x.to_bits(), q.v.y.to_bits(), q.v.z.to_bits())
}

fn bits_quat(b: QuatBits) -> Quaternion<f32> {
    Quaternion::new(
        f32::from_bits(b.s),
        f32::from_bits(b.x),
        f32::from_bits(b.y),
        f32::from_bits(b.z),
    )
}

/// Recomputes the world transforms of `inst` and its whole subtree from
/// the stored local values, parents before children.
fn refresh_world(tr: &mut TransformSystem, inst: EntityInstance) {
    let mut order = vec![inst];
    order.extend(tr.get_descendants(inst));
    for i in order {
        let parent = tr.get_parent(i);
        let (pp, pr, ps) = if parent.is_valid() {
            (
                bits_vec3(tr.get_world_position(parent)),
                bits_quat(tr.get_world_rotation(parent)),
                f32::from_bits(tr.get_world_scale(parent)),
            )
        } else {
            (Vector3::new(0.0, 0.0, 0.0), Quaternion::new(1.0, 0.0, 0.0, 0.0), 1.0)
        };
        let lp = bits_vec3(tr.get_local_position(i));
        let lr = bits_quat(tr.get_local_rotation(i));
        let ls = f32::from_bits(tr.get_local_scale(i));
        let wp = pp + (pr * lp) * ps;
        let wr = pr * lr;
        let ws = ps * ls;
        tr.set_world_position(i, vec3_bits(wp));
        tr.set_world_rotation(i, quat_bits(wr));
        tr.set_world_scale(i, ws.to_bits());
    }
}

fn close(a: Vector3<f32>, b: Vector3<f32>) -> bool {
    (a.x - b.x).abs() < 1e-5 && (a.y - b.y).abs() < 1e-5 && (a.z - b.z).abs() < 1e-5
}

fn collect_children(tr: &TransformSystem, parent: EntityInstance) -> Vec<EntityInstance> {
    let mut out = Vec::new();
    let mut it = tr.iter_children(parent);
    while let Some(c) = it.next() {
        out.push(c);
    }
    out
}

#[test]
fn iter_children_test() {
    let mut em = EntityManager::new();
    let mut tr = TransformSystem::new();

    let e1 = em.create();
    let e2 = em.create();
    let e3 = em.create();
    let i1 = tr.create(e1);
    let i2 = tr.create(e2);
    let i3 = tr.create(e3);
    tr.set_parent(i1, i2);
    tr.set_parent(i3, i2);

    let children: Vec<EntityInstance> = collect_children(&tr, i2);
    assert_eq!(children, vec![i3, i1]);
    let children: Vec<EntityInstance> = collect_children(&tr, i1);
    assert_eq!(children, Vec::new());

    for inst in tr.get_children(i2) {
        tr.set_local_position(inst, vec3_bits(Vector3::new(1.0, 2.0, 3.0)));
        refresh_world(&mut tr, inst);
    }

    assert_eq!(tr.get_child_entities(i2), vec![e3, e1]);
}

#[test]
fn set_local_test() {
    let mut em = EntityManager::new();
    let mut tr = TransformSystem::new();

    let e1 = em.create();
    let e2 = em.create();
    let i1 = tr.create(e1);
    let i2 = tr.create(e2);

    tr.set_parent(i2, i1);
    tr.set_local_position(i1, vec3_bits(Vector3::new(1.0, 0.0, 1.0)));
    refresh_world(&mut tr, i1);
    tr.set_local_rotation(i1, quat_bits(Quaternion::from_angle_y(Rad::turn_div_4())));
    refresh_world(&mut tr, i1);
    tr.set_local_position(i2, vec3_bits(Vector3::new(0.0, 0.0, -1.0)));
    refresh_world(&mut tr, i2);
    assert!(close(bits_vec3(tr.get_world_position(i2)), Vector3::new(0.0, 0.0, 1.0)));

    tr.set_local_scale(i1, 2.0f32.to_bits());
    refresh_world(&mut tr, i1);
    assert!(close(bits_vec3(tr.get_world_position(i2)), Vector3::new(-1.0, 0.0, 1.0)));
}

#[test]
fn create_defaults_and_lookup() {
    let mut em = EntityManager::new();
    let mut tr = TransformSystem::new();
    let e = em.create();
    assert!(!tr.has_component(e));
    assert!(!tr.get_instance(e).is_valid());

    let i = tr.create(e);
    assert!(tr.has_component(e));
    assert_eq!(tr.get_instance(e), i);
    assert_eq!(tr.count(), 1);
    assert_eq!(bits_vec3(tr.get_local_position(i)), Vector3::new(0.0, 0.0, 0.0));
    assert_eq!(bits_quat(tr.get_local_rotation(i)), Quaternion::new(1.0, 0.0, 0.0, 0.0));
    assert_eq!(f32::from_bits(tr.get_local_scale(i)), 1.0);
    assert_eq!(bits_vec3(tr.get_world_position(i)), Vector3::new(0.0, 0.0, 0.0));
    assert_eq!(f32::from_bits(tr.get_world_scale(i)), 1.0);
    assert!(!tr.get_parent(i).is_valid());
    assert!(!tr.get_first_child(i).is_valid());
    assert!(!tr.get_next_sibling(i).is_valid());
    assert!(!tr.get_prev_sibling(i).is_valid());

    assert_eq!(tr.create_or_get_instance(e), i);
    assert_eq!(tr.count(), 1);
}

#[test]
fn destroy_compacts_and_remaps() {
    let mut em = EntityManager::new();
    let mut tr = TransformSystem::new();
    let e1 = em.create();
    let e2 = em.create();
    let e3 = em.create();
    let i1 = tr.create(e1);
    let _i2 = tr.create(e2);
    let _i3 = tr.create(e3);
    tr.set_local_scale(tr.get_instance(e3), 3.0f32.to_bits());

    tr.destroy(e1);
    assert!(!tr.has_component(e1));
    assert!(tr.has_component(e2));
    assert!(tr.has_component(e3));
    assert_eq!(tr.count(), 2);
    // The last row moved into the freed slot, and the map follows it.
    assert_eq!(tr.get_instance(e3), i1);
    assert_eq!(f32::from_bits(tr.get_local_scale(tr.get_instance(e3))), 3.0);
}

#[test]
fn destroy_removes_descendants() {
    let mut em = EntityManager::new();
    let mut tr = TransformSystem::new();
    let root = em.create();
    let child = em.create();
    let grandchild = em.create();
    let other = em.create();
    let ir = tr.create(root);
    let ic = tr.create(child);
    let ig = tr.create(grandchild);
    let _io = tr.create(other);
    tr.set_parent(ic, ir);
    tr.set_parent(ig, ic);

    tr.destroy(root);
    assert!(!tr.has_component(root));
    assert!(!tr.has_component(child));
    assert!(!tr.has_component(grandchild));
    assert!(tr.has_component(other));
    assert_eq!(tr.count(), 1);
}

#[test]
fn handle_destroyed_reacts_to_entity_deaths() {
    let mut em = EntityManager::new();
    let mut tr = TransformSystem::new();
    let a = em.create();
    let b = em.create();
    tr.create(a);
    tr.create(b);

    em.destroy(a);
    let dead: Vec<_> = em.poll_destroyed().to_vec();
    tr.handle_destroyed(&dead);
    em.clear_destroyed();

    assert!(!tr.has_component(a));
    assert!(tr.has_component(b));
    assert_eq!(tr.count(), 1);
}

#[test]
fn handle_destroyed_is_idempotent() {
    let mut em = EntityManager::new();
    let mut tr = TransformSystem::new();
    let a = em.create();
    let b = em.create();
    let ia = tr.create(a);
    let _ib = tr.create(b);
    let child = em.create();
    let ic = tr.create(child);
    tr.set_parent(ic, ia);

    // An empty list changes nothing.
    tr.handle_destroyed(&[]);
    assert_eq!(tr.count(), 3);

    // The first pass removes a and its subtree; the second finds nothing.
    tr.handle_destroyed(&[a]);
    assert_eq!(tr.count(), 1);
    assert!(!tr.has_component(a));
    assert!(!tr.has_component(child));
    tr.handle_destroyed(&[a]);
    assert_eq!(tr.count(), 1);
    assert!(tr.has_component(b));
}

#[test]
fn descendants_come_parent_first() {
    let mut em = EntityManager::new();
    let mut tr = TransformSystem::new();
    let r = em.create();
    let a = em.create();
    let b = em.create();
    let c = em.create();
    let ir = tr.create(r);
    let ia = tr.create(a);
    let ib = tr.create(b);
    let ic = tr.create(c);
    tr.set_parent(ia, ir);
    tr.set_parent(ib, ir);
    tr.set_parent(ic, ia);

    // Children are walked most recently attached first, each followed by
    // its own subtree.
    assert_eq!(tr.get_descendants(ir), vec![ib, ia, ic]);
}
