use scene_core::entity::Entity;
use scene_core::entity_manager::{EntityManager, MINIMUM_FREE_INDICES};

//This test is used to ensure that a scene compilation assumption is upheld.
//The assumption is: From an empty EntityManager, sequential create() calls
//result in Entities with sequential ids starting from 0.
#[test]
fn sequential_test() {
    let mut manager = EntityManager::new();
    for i in 0..2 * MINIMUM_FREE_INDICES {
        let en = manager.create();
        assert_eq!(en.id, i as u32);
    }
}

#[test]
fn entity_packs_index_and_generation() {
    let e = Entity::new(7, 3);
    assert_eq!(e.index(), 7);
    assert_eq!(e.generation(), 3);
    assert_eq!(e.id, (3u32 << 24) | 7);

    let top = Entity::new(0xFFFFFF, 0xFE);
    assert_eq!(top.index(), 0xFFFFFF);
    assert_eq!(top.generation(), 0xFE);
    assert_ne!(top.id, u32::MAX);
}

#[test]
fn destroy_kills_handle_and_records_it() {
    let mut manager = EntityManager::new();
    let a = manager.create();
    let b = manager.create();
    assert!(manager.alive(a));
    assert!(manager.alive(b));

    manager.destroy(a);
    assert!(!manager.alive(a));
    assert!(manager.alive(b));
    assert_eq!(manager.poll_destroyed(), &[a]);

    manager.clear_destroyed();
    assert_eq!(manager.poll_destroyed().len(), 0);
}

#[test]
fn slot_reuse_bumps_generation() {
    let mut manager = EntityManager::new();
    // Fill and free enough slots to push the queue past the reuse threshold.
    let mut made = Vec::new();
    for _ in 0..(MINIMUM_FREE_INDICES + 1) {
        made.push(manager.create());
    }
    for e in &made {
        manager.destroy(*e);
    }
    // The queue now holds more than the threshold, so the oldest freed slot
    // is recycled with its bumped generation.
    let recycled = manager.create();
    assert_eq!(recycled.index(), made[0].index());
    assert_eq!(recycled.generation(), made[0].generation() + 1);
    assert!(recycled.generation() > made[0].generation());
    assert!(manager.alive(recycled));
    assert!(!manager.alive(made[0]));
}

#[test]
fn below_threshold_slots_are_not_reused() {
    let mut manager = EntityManager::new();
    let a = manager.create();
    manager.destroy(a);
    // One waiting slot is below the threshold: a fresh slot is used instead.
    let b = manager.create();
    assert_eq!(b.index(), 1);
    assert_eq!(b.generation(), 0);
}
