use vstd::prelude::*;
use vstd::bytes::spec_u32_to_le_bytes;
use vstd::slice::slice_subrange;
use crate::entity::Entity;
use crate::entity_manager::{EntityManager, ManagerView, spec_create_n, lemma_sequential_allocation};
use crate::transform_system::TransformSystem;
use crate::persist::{spec_save_bytes, spec_load_result};
use crate::wire::{read_u32_at, LoadError};

verus! {

/// Why a persisted scene was rejected on load.
#[derive(Clone, Copy, PartialEq, Eq, Structural, Debug)]
pub enum SceneLoadError {
    /// The announced entity count does not fit the 24-bit index space.
    CapacityExceeded,
    /// The transform table was rejected.
    Transform(LoadError),
}

/// The persisted bytes of a scene: the entity count, then each system's
/// table — for now only the transform system's.
pub open spec fn spec_scene_bytes(slots: int, tv: crate::transform_system::TransformView) -> Seq<
    u8,
> {
    spec_u32_to_le_bytes(slots as u32) + spec_save_bytes(tv)
}

/// The id table a scene rebuilds on load: the entities a fresh manager
/// hands out, in order.
pub open spec fn spec_scene_table(count: int) -> Seq<Entity> {
    spec_create_n(ManagerView::empty(), count as nat).1
}

/// A scene: the entity identity allocator together with the systems that
/// store component data for those entities.
pub struct Scene {
    pub entity_manager: EntityManager,
    pub transform_system: TransformSystem,
}

impl Scene {
    /// A scene with no entities and no components.
    pub fn new() -> (r: Scene)
        ensures
            r.entity_manager@ == ManagerView::empty(),
            r.entity_manager@.wf(),
            r.transform_system@ == crate::transform_system::TransformView::empty(),
            r.transform_system@.wf(),
    {
        Scene { entity_manager: EntityManager::new(), transform_system: TransformSystem::new() }
    }

    /// Serializes each system's table — for now only the transform
    /// system's. No entity-manager state is written: the leading
    /// entity-count word that [`Self::load`] reads first describes the
    /// allocation to recreate, and writing it is the asset compiler's job
    /// (see [`crate::compile::emit_compiled_scene`]), so this function
    /// alone is not `load`'s inverse.
    pub fn save(&self) -> (out: Vec<u8>)
        requires
            self.transform_system@.wf(),
        ensures
            out@ == spec_save_bytes(self.transform_system@),
    {
        self.transform_system.save()
    }

    /// Rebuilds a scene from `input` into this freshly created scene: the
    /// announced number of entities is recreated in order on the entity
    /// manager, and the transform table is loaded against them. Succeeds
    /// exactly when the count is present and within the index space and the
    /// table loads against the recreated entities; a rejected table leaves
    /// the transform system untouched, though the entities named by the
    /// count have by then been created.
    pub fn load(&mut self, input: &[u8]) -> (r: Result<(), SceneLoadError>)
        requires
            old(self).entity_manager@ == ManagerView::empty(),
        ensures
            r.is_ok() <==> (input@.len() >= 4 && crate::persist::spec_load_n(input@) <= 0x1000000
                && spec_load_result(
                input@.skip(4),
                spec_scene_table(crate::persist::spec_load_n(input@)),
            ).is_some()),
            r.is_ok() ==> ({
                let count = crate::persist::spec_load_n(input@);
                &&& final(self).transform_system@ == spec_load_result(
                    input@.skip(4),
                    spec_scene_table(count),
                ).unwrap()
                &&& final(self).transform_system@.wf()
            }),
            !r.is_ok() ==> final(self).transform_system@ == old(self).transform_system@,
            input@.len() < 4 ==> r == Err::<(), SceneLoadError>(
                SceneLoadError::Transform(LoadError::UnexpectedEnd),
            ) && final(self).entity_manager@ == old(self).entity_manager@,
            input@.len() >= 4 && crate::persist::spec_load_n(input@) > 0x1000000 ==> r == Err::<
                (),
                SceneLoadError,
            >(SceneLoadError::CapacityExceeded) && final(self).entity_manager@
                == old(self).entity_manager@,
            input@.len() >= 4 && crate::persist::spec_load_n(input@) <= 0x1000000
                ==> final(self).entity_manager@ == spec_create_n(
                ManagerView::empty(),
                crate::persist::spec_load_n(input@) as nat,
            ).0 && final(self).entity_manager@.wf(),
    {
        let il = input.len();
        if il < 4 {
            return Err(SceneLoadError::Transform(LoadError::UnexpectedEnd));
        }
        let c32 = read_u32_at(input, 0);
        proof {
            let z: int = 0;
            assert(input@.subrange(0, 4) =~= input@.subrange(4 * z, 4 * z + 4));
        }
        if c32 > 0x1000000 {
            return Err(SceneLoadError::CapacityExceeded);
        }
        let count = c32 as usize;
        let mut table: Vec<Entity> = Vec::new();
        let mut i: usize = 0;
        while i < count
            invariant
                count <= 0x1000000,
                i <= count,
                self.entity_manager@ == spec_create_n(ManagerView::empty(), i as nat).0,
                table@ == spec_create_n(ManagerView::empty(), i as nat).1,
                self.transform_system@ == old(self).transform_system@,
            decreases count - i,
        {
            proof {
                lemma_sequential_allocation(i as nat);
            }
            let e = self.entity_manager.create();
            table.push(e);
            i += 1;
        }
        proof {
            lemma_sequential_allocation(count as nat);
            assert(count as int == crate::persist::spec_load_n(input@));
        }
        let rest = slice_subrange(input, 4, il);
        proof {
            assert(rest@ =~= input@.skip(4));
        }
        match self.transform_system.load(rest, table.as_slice()) {
            Ok(()) => Ok(()),
            Err(e) => Err(SceneLoadError::Transform(e)),
        }
    }
}

} // verus!
