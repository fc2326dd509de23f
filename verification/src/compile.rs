use vstd::prelude::*;
use std::collections::HashMap;
use crate::entity::{Entity, spec_pack};
use crate::entity_manager::{ManagerView, spec_create_n, lemma_sequential_allocation};
use crate::scene::Scene;
use crate::transform::{Vec3Bits, QuatBits};
use crate::transform_system::{
    TransformView, spec_ts_create, lemma_create_wf, lemma_wf_same_structure,
};
use crate::persist::{spec_save_bytes, spec_load_result, lemma_save_load_roundtrip};
use crate::scene::{spec_scene_table, spec_scene_bytes};
use crate::wire::push_u32;
use crate::persist::spec_load_n;
use vstd::bytes::lemma_auto_spec_u32_to_from_le_bytes;

verus! {

broadcast use vstd::std_specs::hash::group_hash_axioms;

/// Why an authored scene was rejected during compilation.
#[derive(Clone, Copy, PartialEq, Eq, Structural, Debug)]
pub enum CompileError {
    /// More entities than the 24-bit index space can hold.
    TooManyEntities,
    /// An entity's external identifier is not a well-formed UUID.
    InvalidId,
    /// Two entities carry the same external identifier.
    DuplicateId,
    /// A component of a kind this compiler does not know.
    UnknownComponentType,
}

/// One authored component: its kind, and for a transform the local
/// position, rotation and uniform scale, each component already reduced to
/// its 32-bit pattern by the front end that parsed the numeric text.
pub struct ComponentRecord {
    pub kind: String,
    pub position: Vec3Bits,
    pub rotation: QuatBits,
    pub scale: u32,
}

/// One authored entity: its stable external identifier and its components.
pub struct SceneRecord {
    pub id: String,
    pub components: Vec<ComponentRecord>,
}

/// What uuid's parser yields for a string: the 128-bit value, or nothing
/// for text that is not a UUID. The outcome depends on the characters
/// alone.
pub uninterp spec fn uuid_parse_of(s: Seq<char>) -> Option<u128>;

/// Relies on uuid::Uuid::parse_str (and as_u128 to read the result out):
/// whether a string parses as a UUID, and as which value, is a function of
/// the characters alone.
#[verifier::external_body]
fn parse_uuid(s: &str) -> (r: Option<u128>)
    ensures
        r == uuid_parse_of(s@),
{
    match uuid::Uuid::parse_str(s) {
        Ok(u) => Some(u.as_u128()),
        Err(_) => None,
    }
}

/// Whether every record's external identifier parses as a UUID.
pub open spec fn spec_ids_parse(records: Seq<SceneRecord>) -> bool {
    forall|k: int| 0 <= k < records.len() ==> uuid_parse_of((#[trigger] records[k]).id@).is_some()
}

/// Whether the records' external identifiers are pairwise distinct, as
/// the values uuid's parser assigns them — so two spellings of one UUID
/// collide.
pub open spec fn spec_ids_distinct(records: Seq<SceneRecord>) -> bool {
    forall|k: int, j: int|
        0 <= k < j < records.len() ==> uuid_parse_of((#[trigger] records[k]).id@) != uuid_parse_of(
            (#[trigger] records[j]).id@,
        )
}

/// Whether every authored component is of a kind the compiler knows.
pub open spec fn spec_kinds_known(records: Seq<SceneRecord>) -> bool {
    forall|k: int, j: int|
        0 <= k < records.len() && 0 <= j < records[k].components.len() ==> (#[trigger] records[k].components@[j]).kind@
            =~= "transform"@
}

/// One authored component applied to the store: the entity's component is
/// created on first sight, then its local values are overwritten.
pub open spec fn spec_apply_component(tv: TransformView, e: Entity, c: ComponentRecord)
    -> TransformView {
    let tv1 = if tv.contains(e.id) {
        tv
    } else {
        spec_ts_create(tv, e)
    };
    let i = tv1.map[e.id].index as int;
    TransformView {
        local_positions: tv1.local_positions.update(i, c.position),
        local_rotations: tv1.local_rotations.update(i, c.rotation),
        local_scales: tv1.local_scales.update(i, c.scale),
        ..tv1
    }
}

/// The first `k` components of one record applied in order.
pub open spec fn spec_apply_components(
    tv: TransformView,
    e: Entity,
    comps: Seq<ComponentRecord>,
    k: int,
) -> TransformView
    decreases k,
{
    if k <= 0 {
        tv
    } else {
        spec_apply_component(spec_apply_components(tv, e, comps, k - 1), e, comps[k - 1])
    }
}

/// The transform store after compiling the first `k` records: record `i`
/// populates the entity with packed id `i`.
pub open spec fn spec_compile_ts(records: Seq<SceneRecord>, k: int) -> TransformView
    decreases k,
{
    if k <= 0 {
        TransformView::empty()
    } else {
        let idx = k - 1;
        spec_apply_components(
            spec_compile_ts(records, idx),
            Entity { id: spec_pack(idx as u32, 0) },
            records[idx].components@,
            records[idx].components@.len() as int,
        )
    }
}

/// Compiles authored records into a scene: one entity per record, in
/// author order — so record `i` owns the entity with packed id `i` — with
/// each transform component's local values stored. The caller derives the
/// world transforms and serializes the scene.
///
/// Rejects more records than the entity index space holds, an external
/// identifier that is not a UUID, two records carrying one identifier,
/// and a component kind it does not know.
pub fn compile_scene(records: &Vec<SceneRecord>) -> (r: Result<Scene, CompileError>)
    ensures
        r.is_ok() <==> (records@.len() <= 0x1000000 && spec_ids_parse(records@)
            && spec_ids_distinct(records@) && spec_kinds_known(records@)),
        records@.len() > 0x1000000 ==> r == Err::<Scene, CompileError>(
            CompileError::TooManyEntities,
        ),
        records@.len() <= 0x1000000 && !spec_ids_parse(records@) ==> r == Err::<
            Scene,
            CompileError,
        >(CompileError::InvalidId),
        records@.len() <= 0x1000000 && spec_ids_parse(records@) && !spec_ids_distinct(records@)
            ==> r == Err::<Scene, CompileError>(CompileError::DuplicateId),
        records@.len() <= 0x1000000 && spec_ids_parse(records@) && spec_ids_distinct(records@)
            && !spec_kinds_known(records@) ==> r == Err::<Scene, CompileError>(
            CompileError::UnknownComponentType,
        ),
        r.is_ok() ==> ({
            let scene = r.unwrap();
            &&& scene.entity_manager@ == spec_create_n(
                ManagerView::empty(),
                records@.len(),
            ).0
            &&& scene.entity_manager@.wf()
            &&& scene.transform_system@ == spec_compile_ts(records@, records@.len() as int)
            &&& scene.transform_system@.wf()
        }),
{
    let n = records.len();
    if n > 0x1000000 {
        return Err(CompileError::TooManyEntities);
    }
    let mut scene = Scene::new();

    // First pass: check that every external identifier is a UUID, keeping
    // the parsed values.
    let mut ids: Vec<u128> = Vec::new();
    let mut k: usize = 0;
    while k < n
        invariant
            n == records@.len(),
            n <= 0x1000000,
            k <= n,
            ids@.len() == k,
            forall|k2: int| 0 <= k2 < k ==> uuid_parse_of((#[trigger] records@[k2]).id@) == Some(
                ids@[k2],
            ),
        decreases n - k,
    {
        match parse_uuid(records[k].id.as_str()) {
            Some(value) => {
                ids.push(value);
            },
            None => {
                proof {
                    assert(!spec_ids_parse(records@));
                }
                return Err(CompileError::InvalidId);
            },
        }
        k += 1;
    }
    proof {
        assert(spec_ids_parse(records@));
    }

    // Second pass: reject identifiers that collide, and create the
    // entities in author order, so their packed ids run 0, 1, 2, ...
    let mut seen: HashMap<u128, u32> = HashMap::new();
    k = 0;
    while k < n
        invariant
            n == records@.len(),
            n <= 0x1000000,
            k <= n,
            ids@.len() == n,
            forall|k2: int| 0 <= k2 < n ==> uuid_parse_of((#[trigger] records@[k2]).id@) == Some(
                ids@[k2],
            ),
            forall|k2: int| 0 <= k2 < k ==> seen@.contains_key(#[trigger] ids@[k2]),
            forall|x: u128|
                seen@.contains_key(x) ==> exists|k2: int| 0 <= k2 < k && #[trigger] ids@[k2] == x,
            forall|k2: int, j2: int|
                0 <= k2 < j2 < k ==> #[trigger] ids@[k2] != #[trigger] ids@[j2],
            scene.entity_manager@ == spec_create_n(ManagerView::empty(), k as nat).0,
            scene.transform_system@ == TransformView::empty(),
            scene.transform_system@.wf(),
        decreases n - k,
    {
        let value = ids[k];
        if seen.contains_key(&value) {
            proof {
                let k2 = choose|k2: int| 0 <= k2 < k && #[trigger] ids@[k2] == value;
                assert(uuid_parse_of(records@[k2].id@) == uuid_parse_of(records@[k as int].id@));
                assert(!spec_ids_distinct(records@));
            }
            return Err(CompileError::DuplicateId);
        }
        let ghost seen_pre = seen@;
        seen.insert(value, k as u32);
        proof {
            assert forall|k2: int, j2: int|
                0 <= k2 < j2 < k + 1 implies #[trigger] ids@[k2] != #[trigger] ids@[j2] by {
                if j2 == k as int && ids@[k2] == ids@[j2] {
                    assert(seen_pre.contains_key(ids@[k2]));
                }
            }
            lemma_sequential_allocation(k as nat);
        }
        let _e = scene.entity_manager.create();
        k += 1;
    }
    proof {
        assert forall|k2: int, j2: int|
            0 <= k2 < j2 < records@.len() implies uuid_parse_of((#[trigger] records@[k2]).id@)
            != uuid_parse_of((#[trigger] records@[j2]).id@) by {
            assert(ids@[k2] != ids@[j2]);
        }
        assert(spec_ids_distinct(records@));
    }

    // Third pass: populate the components, record by record.
    let transform_kind: String = "transform".to_owned();
    let mut idx: usize = 0;
    while idx < n
        invariant
            n == records@.len(),
            n <= 0x1000000,
            idx <= n,
            spec_ids_parse(records@),
            spec_ids_distinct(records@),
            transform_kind@ == "transform"@,
            scene.entity_manager@ == spec_create_n(ManagerView::empty(), n as nat).0,
            scene.transform_system@ == spec_compile_ts(records@, idx as int),
            scene.transform_system@.wf(),
            scene.transform_system@.len() <= idx,
            forall|k2: int, j2: int|
                0 <= k2 < idx && 0 <= j2 < records@[k2].components@.len() ==> (
                #[trigger] records@[k2].components@[j2]).kind@ =~= "transform"@,
        decreases n - idx,
    {
        let e = Entity::new(idx as u32, 0);
        proof {
            assert(spec_pack(idx as u32, 0) == idx as u32) by (nonlinear_arith);
        }
        let ghost base = spec_compile_ts(records@, idx as int);
        let clen = records[idx].components.len();
        let mut j: usize = 0;
        while j < clen
            invariant
                n == records@.len(),
                n <= 0x1000000,
                idx < n,
                clen == records@[idx as int].components@.len(),
                j <= clen,
                e.id == idx as u32,
                spec_ids_parse(records@),
                spec_ids_distinct(records@),
                scene.entity_manager@ == spec_create_n(ManagerView::empty(), n as nat).0,
                transform_kind@ == "transform"@,
                base == spec_compile_ts(records@, idx as int),
                scene.transform_system@ == spec_apply_components(
                    base,
                    e,
                    records@[idx as int].components@,
                    j as int,
                ),
                scene.transform_system@.wf(),
                scene.transform_system@.len() <= idx + 1,
                scene.transform_system@.len() > idx ==> scene.transform_system@.contains(e.id),
                base.len() <= idx,
                forall|k2: int, j2: int|
                    0 <= k2 < idx && 0 <= j2 < records@[k2].components@.len() ==> (
                    #[trigger] records@[k2].components@[j2]).kind@ =~= "transform"@,
                forall|j2: int|
                    0 <= j2 < j ==> (#[trigger] records@[idx as int].components@[j2]).kind@
                        =~= "transform"@,
            decreases clen - j,
        {
            let c = &records[idx].components[j];
            if !(c.kind == transform_kind) {
                proof {
                    assert(records@[idx as int].components@[j as int].kind@ !~= "transform"@);
                    assert(!spec_kinds_known(records@));
                }
                return Err(CompileError::UnknownComponentType);
            }
            let inst = scene.transform_system.create_or_get_instance(e);
            scene.transform_system.set_local_position(inst, c.position);
            scene.transform_system.set_local_rotation(inst, c.rotation);
            scene.transform_system.set_local_scale(inst, c.scale);
            proof {
                let stepped = spec_apply_component(
                    spec_apply_components(base, e, records@[idx as int].components@, j as int),
                    e,
                    records@[idx as int].components@[j as int],
                );
                assert(scene.transform_system@ =~= stepped);
            }
            j += 1;
        }
        idx += 1;
    }
    proof {
        assert(spec_kinds_known(records@));
        lemma_sequential_allocation(n as nat);
    }
    Ok(scene)
}

/// The on-disk extension of the compiled form of an asset, by the source
/// extension; empty for a kind that is not compiled.
pub fn get_compiled_extension(ext: &str) -> (r: &'static str)
    ensures
        ext@ =~= "scene"@ ==> r@ =~= "cscene"@,
        !(ext@ =~= "scene"@) ==> r@ =~= ""@,
{
    let source: String = "scene".to_owned();
    if ext.to_owned() == source {
        "cscene"
    } else {
        ""
    }
}

/// Serializes a compiled scene as the asset compiler writes it to disk:
/// the number of entities the loader must recreate, then each system's
/// table. This writes the count header that [`crate::scene::Scene::load`]
/// reads first and that [`crate::scene::Scene::save`] itself does not
/// emit.
pub fn emit_compiled_scene(scene: &Scene) -> (out: Vec<u8>)
    requires
        scene.entity_manager@.wf(),
        scene.transform_system@.wf(),
    ensures
        out@ == spec_scene_bytes(
            scene.entity_manager@.generations.len() as int,
            scene.transform_system@,
        ),
{
    let mut out: Vec<u8> = Vec::new();
    let slots = scene.entity_manager.slot_count();
    push_u32(&mut out, slots as u32);
    let mut table = scene.transform_system.save();
    out.append(&mut table);
    out
}

/// Applying one component keeps the store well-formed; the entity column
/// either stays or grows by exactly the entity's own row.
proof fn lemma_apply_component_wf(tv: TransformView, e: Entity, c: ComponentRecord)
    requires
        tv.wf(),
        tv.len() + 1 < 0xFFFFFFFF,
    ensures
        spec_apply_component(tv, e, c).wf(),
        spec_apply_component(tv, e, c).entities == tv.entities || spec_apply_component(
            tv,
            e,
            c,
        ).entities == tv.entities.push(e),
        tv.contains(e.id) ==> spec_apply_component(tv, e, c).entities == tv.entities,
{
    let tv1 = if tv.contains(e.id) {
        tv
    } else {
        spec_ts_create(tv, e)
    };
    if !tv.contains(e.id) {
        lemma_create_wf(tv, tv1, e);
    }
    let i = tv1.map[e.id].index as int;
    assert(0 <= i < tv1.len());
    let r = spec_apply_component(tv, e, c);
    assert(r.local_positions.len() == tv1.local_positions.len());
    assert(r.local_rotations.len() == tv1.local_rotations.len());
    assert(r.local_scales.len() == tv1.local_scales.len());
    lemma_wf_same_structure(tv1, r);
}

/// Applying a record's components keeps the store well-formed and grows
/// the entity column by at most the record's own entity.
proof fn lemma_apply_components_wf(
    tv: TransformView,
    e: Entity,
    comps: Seq<ComponentRecord>,
    k: int,
)
    requires
        tv.wf(),
        tv.len() + 2 < 0xFFFFFFFF,
    ensures
        spec_apply_components(tv, e, comps, k).wf(),
        spec_apply_components(tv, e, comps, k).entities == tv.entities || spec_apply_components(
            tv,
            e,
            comps,
            k,
        ).entities == tv.entities.push(e),
    decreases k,
{
    if k <= 0 {
    } else {
        lemma_apply_components_wf(tv, e, comps, k - 1);
        let prev = spec_apply_components(tv, e, comps, k - 1);
        if prev.entities == tv.entities.push(e) {
            assert(prev.map.contains_key(prev.entities[prev.len() - 1].id));
            assert(prev.contains(e.id));
        }
        lemma_apply_component_wf(prev, e, comps[k - 1]);
    }
}

/// The compiled store is well-formed, holds at most one row per record,
/// and every row's entity id is the index of the record that authored it.
proof fn lemma_compile_ts_bounds(records: Seq<SceneRecord>, k: int)
    requires
        0 <= k <= records.len(),
        records.len() <= 0x1000000,
    ensures
        spec_compile_ts(records, k).wf(),
        spec_compile_ts(records, k).len() <= k,
        forall|i: int|
            0 <= i < spec_compile_ts(records, k).len() ==> ((#[trigger] spec_compile_ts(
                records,
                k,
            ).entities[i]).id as int) < k,
    decreases k,
{
    if k <= 0 {
    } else {
        lemma_compile_ts_bounds(records, k - 1);
        let prev = spec_compile_ts(records, k - 1);
        let idx = k - 1;
        let e = Entity { id: spec_pack(idx as u32, 0) };
        assert(spec_pack(idx as u32, 0) == idx as u32) by (nonlinear_arith)
            requires
                0 <= idx < 0x1000000,
        ;
        lemma_apply_components_wf(
            prev,
            e,
            records[idx].components@,
            records[idx].components@.len() as int,
        );
        let v = spec_compile_ts(records, k);
        assert forall|i: int| 0 <= i < v.len() implies ((#[trigger] v.entities[i]).id as int)
            < k by {
            if v.entities == prev.entities.push(e) && i == v.len() - 1 {
                assert(v.entities[i] == e);
            } else {
                assert(v.entities[i] == prev.entities[i]);
            }
        }
    }
}

/// End to end: the bytes saved from a compiled scene load back to exactly
/// the compiled transform state, against the id table the loader rebuilds
/// from a fresh entity manager.
pub proof fn lemma_compile_roundtrip(records: Seq<SceneRecord>)
    requires
        records.len() <= 0x1000000,
    ensures
        ({
            let v = spec_compile_ts(records, records.len() as int);
            let table = spec_scene_table(records.len() as int);
            &&& v.wf()
            &&& spec_load_result(spec_save_bytes(v), table) == Some(v)
        }),
{
    let n = records.len() as int;
    let v = spec_compile_ts(records, n);
    let table = spec_scene_table(n);
    lemma_compile_ts_bounds(records, n);
    lemma_sequential_allocation(n as nat);
    assert forall|i: int|
        0 <= i < v.len() implies ((#[trigger] v.entities[i]).id as int) < table.len()
        && table[v.entities[i].id as int] == v.entities[i] by {
        let id = v.entities[i].id as int;
        assert(table[id].id == id);
    }
    lemma_save_load_roundtrip(v, table);
}

/// The bytes [`emit_compiled_scene`] writes for a compiled scene — the
/// count header, then the transform table — meet every condition
/// [`crate::scene::Scene::load`] checks: the leading word announces the
/// record count, and the table behind it loads — back to the compiled
/// state — against the id table the loader rebuilds.
pub proof fn lemma_compiled_scene_loads(records: Seq<SceneRecord>)
    requires
        records.len() <= 0x1000000,
    ensures
        ({
            let v = spec_compile_ts(records, records.len() as int);
            let bytes = spec_scene_bytes(records.len() as int, v);
            &&& bytes.len() >= 4
            &&& spec_load_n(bytes) == records.len()
            &&& spec_load_result(bytes.skip(4), spec_scene_table(records.len() as int)) == Some(v)
        }),
{
    let n = records.len() as int;
    let v = spec_compile_ts(records, n);
    let bytes = spec_scene_bytes(n, v);
    lemma_auto_spec_u32_to_from_le_bytes();
    assert(bytes.subrange(0, 4) =~= vstd::bytes::spec_u32_to_le_bytes(n as u32));
    assert(vstd::bytes::spec_u32_from_le_bytes(bytes.subrange(0, 4)) == n as u32);
    assert(bytes.skip(4) =~= spec_save_bytes(v));
    lemma_compile_roundtrip(records);
}

} // verus!
