use vstd::prelude::*;
use std::collections::VecDeque;
use crate::entity::{Entity, ENTITY_INDEX_MASK, spec_pack, spec_index, spec_generation};
use crate::entity::lemma_pack_parts;

verus! {

/// Freed slot indices are only reused once more than this many of them are
/// waiting, which delays reuse and so reduces collisions with stale handles
/// that other systems may still hold for a few frames.
pub const MINIMUM_FREE_INDICES: usize = 1024;

/// The abstract state of an [`EntityManager`].
pub struct ManagerView {
    /// Per-slot generation counters; the length is the high-water mark of
    /// ever-allocated slots.
    pub generations: Seq<u8>,
    /// Slot indices waiting to be reused, oldest first.
    pub free_indices: Seq<u32>,
    /// Entities destroyed since the last clear.
    pub destroyed: Seq<Entity>,
}

impl ManagerView {
    /// The state of a freshly constructed manager.
    pub open spec fn empty() -> ManagerView {
        ManagerView {
            generations: Seq::empty(),
            free_indices: Seq::empty(),
            destroyed: Seq::empty(),
        }
    }

    /// Structural invariant: every queued free index refers to an allocated
    /// slot, and the slot count stays within the 24-bit index space.
    pub open spec fn wf(self) -> bool {
        &&& self.generations.len() <= 0x1000000
        &&& forall|k: int|
            0 <= k < self.free_indices.len() ==> (self.free_indices[k]
                as int) < self.generations.len()
    }
}

/// Whether `e` is currently alive: its slot's generation still matches.
pub open spec fn spec_alive(v: ManagerView, e: Entity) -> bool {
    &&& (spec_index(e.id) as int) < v.generations.len()
    &&& v.generations[spec_index(e.id) as int] == spec_generation(e.id)
}

/// Whether a creation can succeed from state `v`: the handle it would hand
/// out neither leaves the 24-bit index space nor collides with the reserved
/// all-ones id.
pub open spec fn spec_can_create(v: ManagerView) -> bool {
    if v.free_indices.len() > MINIMUM_FREE_INDICES {
        !(v.free_indices[0] == ENTITY_INDEX_MASK && v.generations[v.free_indices[0] as int]
            == 0xFF)
    } else {
        v.generations.len() < 0x1000000
    }
}

/// The state transition and result of one creation.
pub open spec fn spec_create(v: ManagerView) -> (ManagerView, Entity) {
    if v.free_indices.len() > MINIMUM_FREE_INDICES {
        let idx = v.free_indices[0];
        (
            ManagerView { free_indices: v.free_indices.drop_first(), ..v },
            Entity { id: spec_pack(idx, v.generations[idx as int]) },
        )
    } else {
        (
            ManagerView { generations: v.generations.push(0), ..v },
            Entity { id: spec_pack(v.generations.len() as u32, 0) },
        )
    }
}

/// The state transition of destroying `e`.
pub open spec fn spec_destroy(v: ManagerView, e: Entity) -> ManagerView {
    let idx = spec_index(e.id) as int;
    ManagerView {
        generations: v.generations.update(idx, (v.generations[idx] + 1) as u8),
        free_indices: v.free_indices.push(spec_index(e.id)),
        destroyed: v.destroyed.push(e),
    }
}

/// Allocates and recycles [`Entity`] handles, tracks liveness through
/// per-slot generations, and records destroyed entities for systems to poll
/// once per frame.
pub struct EntityManager {
    generation: Vec<u8>,
    free_indices: VecDeque<u32>,
    destroyed: Vec<Entity>,
}

impl View for EntityManager {
    type V = ManagerView;

    closed spec fn view(&self) -> ManagerView {
        ManagerView {
            generations: self.generation@,
            free_indices: self.free_indices@,
            destroyed: self.destroyed@,
        }
    }
}

impl EntityManager {
    /// A manager with no slots allocated.
    pub fn new() -> (r: EntityManager)
        ensures
            r@ == ManagerView::empty(),
            r@.wf(),
    {
        let r = EntityManager {
            generation: Vec::new(),
            free_indices: VecDeque::new(),
            destroyed: Vec::new(),
        };
        proof {
            assert(r@.generations =~= Seq::<u8>::empty());
            assert(r@.free_indices =~= Seq::<u32>::empty());
            assert(r@.destroyed =~= Seq::<Entity>::empty());
            assert(r@ =~= ManagerView::empty());
        }
        r
    }

    /// Whether `entity`'s slot still carries its generation.
    pub fn alive(&self, entity: Entity) -> (r: bool)
        requires
            (spec_index(entity.id) as int) < self@.generations.len(),
        ensures
            r == spec_alive(self@, entity),
    {
        self.generation[entity.index() as usize] == entity.generation()
    }

    /// Hands out a fresh or recycled entity; the result is immediately alive.
    ///
    /// A slot is recycled, paired with its current generation, only once the
    /// free queue has grown past [`MINIMUM_FREE_INDICES`]; otherwise a new
    /// slot is appended, so creations from a fresh manager yield the packed
    /// ids 0, 1, 2, ... in order (see [`lemma_sequential_allocation`]).
    pub fn create(&mut self) -> (r: Entity)
        requires
            old(self)@.wf(),
            spec_can_create(old(self)@),
        ensures
            final(self)@ == spec_create(old(self)@).0,
            r == spec_create(old(self)@).1,
            final(self)@.wf(),
            spec_alive(final(self)@, r),
            r.id != 0xFFFFFFFFu32,
    {
        let index: u32;
        if self.free_indices.len() > MINIMUM_FREE_INDICES {
            index = self.free_indices.pop_front().unwrap();
        } else {
            self.generation.push(0);
            index = (self.generation.len() - 1) as u32;
        }
        let g = self.generation[index as usize];
        proof {
            lemma_pack_parts(index, g);
        }
        Entity::new(index, g)
    }

    /// Retires `entity`: bumps its slot's generation, queues the slot for
    /// reuse, and records the entity in the destroyed buffer. The handle is
    /// dead as soon as this returns.
    ///
    /// The caller must hand in a live handle — destroying twice is a caller
    /// error — and a slot's generation cannot be bumped past its 8-bit
    /// range, which bounds how often one slot can be recycled.
    pub fn destroy(&mut self, entity: Entity)
        requires
            old(self)@.wf(),
            spec_alive(old(self)@, entity),
            spec_generation(entity.id) < 0xFF,
        ensures
            final(self)@ == spec_destroy(old(self)@, entity),
            final(self)@.wf(),
            !spec_alive(final(self)@, entity),
    {
        let index = entity.index();
        let g = self.generation[index as usize];
        self.generation.set(index as usize, g + 1);
        self.free_indices.push_back(index);
        self.destroyed.push(entity);
        proof {
            let v2 = final(self)@;
            assert forall|k: int|
                0 <= k < v2.free_indices.len() implies (v2.free_indices[k]
                as int) < v2.generations.len() by {
                if k < old(self)@.free_indices.len() {
                } else {
                    assert(v2.free_indices[k] == spec_index(entity.id));
                }
            }
        }
    }

    /// The number of slots ever allocated: the high-water mark of entity
    /// indices handed out so far.
    pub fn slot_count(&self) -> (r: usize)
        ensures
            r == self@.generations.len(),
    {
        self.generation.len()
    }

    /// The entities destroyed since the last [`Self::clear_destroyed`].
    pub fn poll_destroyed(&self) -> (r: &[Entity])
        ensures
            r@ == self@.destroyed,
    {
        self.destroyed.as_slice()
    }

    /// Empties the destroyed buffer; the frame driver calls this once all
    /// systems have polled.
    pub fn clear_destroyed(&mut self)
        ensures
            final(self)@ == (ManagerView { destroyed: Seq::empty(), ..old(self)@ }),
    {
        self.destroyed.clear();
    }
}

/// Sequential allocation: from a fresh manager, `n` consecutive creations
/// hand out entities whose packed ids are exactly 0, 1, ..., n-1, and no
/// slot is ever recycled along the way.
pub open spec fn spec_create_n(v: ManagerView, n: nat) -> (ManagerView, Seq<Entity>)
    decreases n,
{
    if n == 0 {
        (v, Seq::empty())
    } else {
        let (v1, es) = spec_create_n(v, (n - 1) as nat);
        let (v2, e) = spec_create(v1);
        (v2, es.push(e))
    }
}

pub proof fn lemma_sequential_allocation(n: nat)
    requires
        n <= 0x1000000,
    ensures
        ({
            let (v, es) = spec_create_n(ManagerView::empty(), n);
            &&& es.len() == n
            &&& forall|k: int| 0 <= k < n ==> (#[trigger] es[k]).id == k
            &&& v.generations.len() == n
            &&& v.free_indices.len() == 0
            &&& v.wf()
            &&& spec_can_create(v) == (n < 0x1000000)
        }),
    decreases n,
{
    if n == 0 {
    } else {
        lemma_sequential_allocation((n - 1) as nat);
        let (v1, es) = spec_create_n(ManagerView::empty(), (n - 1) as nat);
        let (v2, e) = spec_create(v1);
        assert(v1.free_indices.len() == 0);
        assert(e.id == spec_pack(v1.generations.len() as u32, 0));
        assert(spec_pack((n - 1) as u32, 0) == n - 1) by (nonlinear_arith)
            requires
                n >= 1,
                n <= 0x1000000,
        ;
    }
}

/// Liveness after destroy: the destroyed handle is dead, and its slot's
/// generation has grown by exactly one.
pub proof fn lemma_destroyed_not_alive(v: ManagerView, e: Entity)
    requires
        v.wf(),
        spec_alive(v, e),
        spec_generation(e.id) < 0xFF,
    ensures
        !spec_alive(spec_destroy(v, e), e),
        spec_destroy(v, e).generations[spec_index(e.id) as int] == spec_generation(e.id) + 1,
{
}

/// A later creation that reuses a destroyed handle's slot carries a strictly
/// greater generation, and the new handle is alive. `v2` is any later state
/// in which the slot's generation has grown past `e`'s, as
/// [`spec_destroy`] leaves it.
pub proof fn lemma_recreate_strictly_newer(v2: ManagerView, e: Entity)
    requires
        v2.wf(),
        spec_can_create(v2),
        (spec_index(e.id) as int) < v2.generations.len(),
        v2.generations[spec_index(e.id) as int] > spec_generation(e.id),
    ensures
        ({
            let (v3, r) = spec_create(v2);
            &&& spec_alive(v3, r)
            &&& (spec_index(r.id) == spec_index(e.id) ==> spec_generation(r.id)
                > spec_generation(e.id))
        }),
{
    let (v3, r) = spec_create(v2);
    if v2.free_indices.len() > MINIMUM_FREE_INDICES {
        let idx = v2.free_indices[0];
        lemma_pack_parts(idx, v2.generations[idx as int]);
    } else {
        lemma_pack_parts(v2.generations.len() as u32, 0);
    }
}

/// Slot recycling: once the free queue has grown past the threshold, a
/// creation pops the queue's oldest slot and pairs it with that slot's
/// current generation — for a slot last destroyed while its handle had
/// generation g, that is g + 1 — and the new handle is alive.
pub proof fn lemma_recycled_handle(v: ManagerView)
    requires
        v.wf(),
        v.free_indices.len() > MINIMUM_FREE_INDICES,
        spec_can_create(v),
    ensures
        ({
            let (v2, r) = spec_create(v);
            &&& spec_index(r.id) == v.free_indices[0]
            &&& spec_generation(r.id) == v.generations[v.free_indices[0] as int]
            &&& v2.generations == v.generations
            &&& v2.free_indices == v.free_indices.drop_first()
            &&& v2.destroyed == v.destroyed
            &&& spec_alive(v2, r)
        }),
{
    let idx = v.free_indices[0];
    lemma_pack_parts(idx, v.generations[idx as int]);
}

} // verus!
