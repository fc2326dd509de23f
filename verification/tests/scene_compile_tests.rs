use rustc_serialize::json::Json;
use scene_core::compile::{compile_scene, emit_compiled_scene, get_compiled_extension, CompileError, ComponentRecord, SceneRecord};
use scene_core::entity::Entity;
use scene_core::entity_manager::EntityManager;
use scene_core::scene::{Scene, SceneLoadError};
use scene_core::transform::{QuatBits, Vec3Bits};
use scene_core::transform_system::TransformSystem;
use scene_core::wire::LoadError;

fn parse_vector3(text: &str) -> Vec3Bits {
    let comps: Vec<&str> = text.split(' ').collect();
    assert!(comps.len() == 3);
    Vec3Bits::new(
        comps[0].parse::<f32>().unwrap().to_bits(),
        comps[1].parse::<f32>().unwrap().to_bits(),
        comps[2].parse::<f32>().unwrap().to_bits(),
    )
}

/// Authored rotations carry x, y, z, w components; the store keeps the
/// scalar part first.
fn parse_quaternion(text: &str) -> QuatBits {
    let comps: Vec<&str> = text.split(' ').collect();
    assert!(comps.len() == 4);
    QuatBits::new(
        comps[3].parse::<f32>().unwrap().to_bits(),
        comps[0].parse::<f32>().unwrap().to_bits(),
        comps[1].parse::<f32>().unwrap().to_bits(),
        comps[2].parse::<f32>().unwrap().to_bits(),
    )
}

fn records_from_json(text: &str) -> Vec<SceneRecord> {
    let root = Json::from_str(text).unwrap();
    let entities = root["entities"].as_array().unwrap();
    let mut records = Vec::new();
    for entity in entities.iter() {
        let id = entity["id"].as_string().unwrap().to_string();
        let mut components = Vec::new();
        for comp in entity["components"].as_array().unwrap().iter() {
            components.push(ComponentRecord {
                kind: comp["type"].as_string().unwrap().to_string(),
                position: parse_vector3(comp["position"].as_string().unwrap()),
                rotation: parse_quaternion(comp["rotation"].as_string().unwrap()),
                scale: (comp["scale"].as_f64().unwrap() as f32).to_bits(),
            });
        }
        records.push(SceneRecord { id, components });
    }
    records
}

/// Derives the world transforms of every root row from its local values,
/// as the runtime does after a local write.
fn refresh_root_worlds(tr: &mut TransformSystem) {
    for idx in 0..tr.count() {
        let i = scene_core::entity_instance::EntityInstance::new(idx);
        if !tr.get_parent(i).is_valid() {
            tr.set_world_position(i, tr.get_local_position(i));
            tr.set_world_rotation(i, tr.get_local_rotation(i));
            tr.set_world_scale(i, tr.get_local_scale(i));
        }
    }
}

fn words_to_bytes(ws: &[u32]) -> Vec<u8> {
    let mut out = Vec::new();
    for w in ws {
        out.extend_from_slice(&w.to_le_bytes());
    }
    out
}

#[test]
fn scene_compile_test() {
    let input = "{
        \"version\": 0,
        \"entities\": [
            {
                \"id\": \"da356da1-228f-40c8-ab48-3510a160c49f\",
                \"components\": [
                    {
                        \"type\": \"transform\",
                        \"position\": \"0 0 0\",
                        \"rotation\": \"0 0 0 1\",
                        \"scale\": 1
                    }
                ]
            },
            {
                \"id\": \"6b255092-90b5-42fe-a751-144b27d9870d\",
                \"components\": [
                    {
                        \"type\": \"transform\",
                        \"position\": \"0 4 0\",
                        \"rotation\": \"0 0 1 0\",
                        \"scale\": 2
                    }
                ]
            },
            {
                \"id\": \"fc5f1c7d-d18b-422a-8cc8-316875176953\",
                \"components\": [
                    {
                        \"type\": \"transform\",
                        \"position\": \"4 0 0\",
                        \"rotation\": \"0 1 0 0\",
                        \"scale\": 3
                    }
                ]
            }
        ]
    }";

    let records = records_from_json(input);
    let mut compiled = compile_scene(&records).unwrap();
    refresh_root_worlds(&mut compiled.transform_system);
    let output = emit_compiled_scene(&compiled);

    let mut scene = Scene::new();
    assert!(scene.load(&output).is_ok());

    assert!(scene.transform_system.has_component(Entity::new(0, 0)));
    assert!(scene.transform_system.has_component(Entity::new(1, 0)));
    assert!(scene.transform_system.has_component(Entity::new(2, 0)));
    let tr_inst2 = scene.transform_system.get_instance(Entity::new(1, 0));
    let p = scene.transform_system.get_local_position(tr_inst2);
    assert_eq!(f32::from_bits(p.x), 0.0);
    assert_eq!(f32::from_bits(p.y), 4.0);
    assert_eq!(f32::from_bits(p.z), 0.0);
    let s = scene.transform_system.get_local_scale(tr_inst2);
    assert_eq!(f32::from_bits(s), 2.0);
}

#[test]
fn compile_positions_land_in_author_order() {
    let records = vec![
        SceneRecord {
            id: "da356da1-228f-40c8-ab48-3510a160c49f".to_string(),
            components: vec![ComponentRecord {
                kind: "transform".to_string(),
                position: parse_vector3("0 0 0"),
                rotation: parse_quaternion("0 0 0 1"),
                scale: 1.0f32.to_bits(),
            }],
        },
        SceneRecord {
            id: "6b255092-90b5-42fe-a751-144b27d9870d".to_string(),
            components: vec![ComponentRecord {
                kind: "transform".to_string(),
                position: parse_vector3("0 4 0"),
                rotation: parse_quaternion("0 0 1 0"),
                scale: 2.0f32.to_bits(),
            }],
        },
        SceneRecord {
            id: "fc5f1c7d-d18b-422a-8cc8-316875176953".to_string(),
            components: vec![ComponentRecord {
                kind: "transform".to_string(),
                position: parse_vector3("4 0 0"),
                rotation: parse_quaternion("0 1 0 0"),
                scale: 3.0f32.to_bits(),
            }],
        },
    ];
    let scene = compile_scene(&records).unwrap();
    let tr = &scene.transform_system;
    assert_eq!(tr.count(), 3);
    for (idx, expected) in [(0usize, (0.0, 0.0, 0.0, 1.0)), (1, (0.0, 4.0, 0.0, 2.0)), (2, (4.0, 0.0, 0.0, 3.0))] {
        let inst = tr.get_instance(Entity::new(idx as u32, 0));
        assert_eq!(inst.index, idx);
        let p = tr.get_local_position(inst);
        assert_eq!(f32::from_bits(p.x), expected.0);
        assert_eq!(f32::from_bits(p.y), expected.1);
        assert_eq!(f32::from_bits(p.z), expected.2);
        assert_eq!(f32::from_bits(tr.get_local_scale(inst)), expected.3);
    }
}

#[test]
fn compile_rejects_bad_uuid() {
    let records = vec![SceneRecord { id: "not-a-uuid".to_string(), components: vec![] }];
    assert_eq!(compile_scene(&records).err().unwrap(), CompileError::InvalidId);
}

#[test]
fn compile_rejects_duplicate_ids() {
    // Two spellings of one UUID name one identifier, so they collide.
    let records = vec![
        SceneRecord { id: "da356da1-228f-40c8-ab48-3510a160c49f".to_string(), components: vec![] },
        SceneRecord { id: "DA356DA1-228F-40C8-AB48-3510A160C49F".to_string(), components: vec![] },
    ];
    assert_eq!(compile_scene(&records).err().unwrap(), CompileError::DuplicateId);
}

#[test]
fn compile_rejects_unknown_component() {
    let records = vec![SceneRecord {
        id: "da356da1-228f-40c8-ab48-3510a160c49f".to_string(),
        components: vec![ComponentRecord {
            kind: "rigidbody".to_string(),
            position: parse_vector3("0 0 0"),
            rotation: parse_quaternion("0 0 0 1"),
            scale: 1.0f32.to_bits(),
        }],
    }];
    assert_eq!(compile_scene(&records).err().unwrap(), CompileError::UnknownComponentType);
}

#[test]
fn compiled_extension_is_only_for_scenes() {
    assert_eq!(get_compiled_extension("scene"), "cscene");
    assert_eq!(get_compiled_extension("png"), "");
}

#[test]
fn save_load_round_trip_preserves_everything() {
    let mut em = EntityManager::new();
    let mut tr = TransformSystem::new();
    let e0 = em.create();
    let e1 = em.create();
    let e2 = em.create();
    let i0 = tr.create(e0);
    let i1 = tr.create(e1);
    let i2 = tr.create(e2);
    tr.set_parent(i1, i0);
    tr.set_parent(i2, i0);
    tr.set_local_position(i0, Vec3Bits::new(1.0f32.to_bits(), 2.0f32.to_bits(), 3.0f32.to_bits()));
    tr.set_local_scale(i1, 0.5f32.to_bits());
    tr.set_world_position(i2, Vec3Bits::new(9.0f32.to_bits(), 8.0f32.to_bits(), 7.0f32.to_bits()));

    let bytes = tr.save();

    let mut em2 = EntityManager::new();
    let table = [em2.create(), em2.create(), em2.create()];
    let mut tr2 = TransformSystem::new();
    assert!(tr2.load(&bytes, &table).is_ok());

    assert_eq!(tr2.count(), tr.count());
    for e in [e0, e1, e2] {
        assert_eq!(tr2.get_instance(e), tr.get_instance(e));
        let a = tr2.get_instance(e);
        assert_eq!(tr2.get_local_position(a), tr.get_local_position(a));
        assert_eq!(tr2.get_local_rotation(a), tr.get_local_rotation(a));
        assert_eq!(tr2.get_local_scale(a), tr.get_local_scale(a));
        assert_eq!(tr2.get_world_position(a), tr.get_world_position(a));
        assert_eq!(tr2.get_world_rotation(a), tr.get_world_rotation(a));
        assert_eq!(tr2.get_world_scale(a), tr.get_world_scale(a));
        assert_eq!(tr2.get_parent(a), tr.get_parent(a));
        assert_eq!(tr2.get_first_child(a), tr.get_first_child(a));
        assert_eq!(tr2.get_next_sibling(a), tr.get_next_sibling(a));
        assert_eq!(tr2.get_prev_sibling(a), tr.get_prev_sibling(a));
        assert_eq!(tr2.get_children(tr2.get_instance(e)), tr.get_children(tr.get_instance(e)));
    }
}

#[test]
fn load_rejects_truncated_stream() {
    let mut tr = TransformSystem::new();
    let bytes = words_to_bytes(&[1]);
    assert_eq!(tr.load(&bytes, &[]).err().unwrap(), LoadError::UnexpectedEnd);
    assert_eq!(tr.count(), 0);
}

#[test]
fn load_rejects_unknown_entity_id() {
    let mut em = EntityManager::new();
    let table = [em.create()];
    // One row whose stored id does not index the table.
    let mut ws = vec![0u32; 22];
    ws[0] = 1;
    ws[1] = 5;
    let mut tr = TransformSystem::new();
    assert_eq!(tr.load(&words_to_bytes(&ws), &table).err().unwrap(), LoadError::UnknownEntity);
}

#[test]
fn load_rejects_duplicate_entities() {
    let mut em = EntityManager::new();
    let table = [em.create(), em.create()];
    // Two rows resolving to the same entity.
    let mut ws = vec![0u32; 43];
    ws[0] = 2;
    ws[1] = 0;
    ws[2] = 0;
    // Keep the link sections at the sentinel so only the duplicate is wrong.
    for k in 1 + 17 * 2..43 {
        ws[k] = u32::MAX;
    }
    let mut tr = TransformSystem::new();
    assert_eq!(tr.load(&words_to_bytes(&ws), &table).err().unwrap(), LoadError::DuplicateEntity);
}

#[test]
fn load_rejects_out_of_range_link() {
    let mut em = EntityManager::new();
    let table = [em.create()];
    let mut ws = vec![0u32; 22];
    ws[0] = 1;
    ws[1] = 0;
    for k in 1 + 17..22 {
        ws[k] = u32::MAX;
    }
    // One parent link beyond the single stored row.
    ws[1 + 17] = 7;
    let mut tr = TransformSystem::new();
    assert_eq!(tr.load(&words_to_bytes(&ws), &table).err().unwrap(), LoadError::InvalidLink);
}

#[test]
fn load_accepts_empty_table() {
    let mut tr = TransformSystem::new();
    let bytes = words_to_bytes(&[0]);
    assert!(tr.load(&bytes, &[]).is_ok());
    assert_eq!(tr.count(), 0);
}

#[test]
fn scene_save_writes_only_the_transform_table() {
    let mut scene = Scene::new();
    let e = scene.entity_manager.create();
    scene.transform_system.create(e);
    // The count header is the compiler's to write; save emits the table
    // alone, so it starts with the table's own row count.
    assert_eq!(scene.save(), scene.transform_system.save());
    let with_header = emit_compiled_scene(&scene);
    assert_eq!(&with_header[..4], 1u32.to_le_bytes());
    assert_eq!(&with_header[4..], &scene.save()[..]);
}

#[test]
fn load_ignores_trailing_bytes() {
    let mut em = EntityManager::new();
    let table = [em.create()];
    let mut ws = vec![0u32; 22];
    ws[0] = 1;
    ws[1] = 0;
    for k in 1 + 17..22 {
        ws[k] = u32::MAX;
    }
    let mut bytes = words_to_bytes(&ws);
    bytes.push(0xAB);
    let mut tr = TransformSystem::new();
    assert!(tr.load(&bytes, &table).is_ok());
    assert_eq!(tr.count(), 1);
}

#[test]
fn scene_load_rejects_oversized_entity_count() {
    let mut scene = Scene::new();
    let bytes = words_to_bytes(&[0x1000001]);
    assert_eq!(scene.load(&bytes).err().unwrap(), SceneLoadError::CapacityExceeded);
}
