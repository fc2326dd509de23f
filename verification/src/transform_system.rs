use vstd::prelude::*;
use std::collections::HashMap;
use crate::entity::Entity;
use crate::entity_instance::{EntityInstance, INSTANCE_NONE, spec_instance_none};
use crate::transform::{Vec3Bits, QuatBits, F32_ONE_BITS, spec_vec3_zero, spec_quat_identity};
use crate::persist::{
    spec_word_at, spec_ts_words, spec_save_bytes, spec_link_word, spec_word_link, spec_vec3_comp,
    spec_quat_comp, lemma_div3, lemma_div4, spec_load_n, spec_load_truncated, spec_load_ids_ok,
    spec_load_unique, spec_load_links_ok, spec_load_result, spec_ids_in_table, spec_ids_unique,
    spec_decoded_entities, spec_decoded_view, spec_links_valid, spec_map_of, lemma_map_of_props,
    lemma_decoded_wf,
};
use crate::wire::{spec_words_bytes, spec_bytes_words, lemma_words_bytes_snoc, push_u32, read_u32_at, LoadError};

verus! {

broadcast use vstd::std_specs::hash::group_hash_axioms;

/// The abstract state of a [`TransformSystem`]: one record per transform
/// component, stored in index-parallel sequences, plus the entity-to-index
/// map.
pub struct TransformView {
    /// Forward lookup from packed entity id to dense index.
    pub map: Map<u32, EntityInstance>,
    /// Reverse lookup from dense index to entity.
    pub entities: Seq<Entity>,
    pub local_positions: Seq<Vec3Bits>,
    pub local_rotations: Seq<QuatBits>,
    pub local_scales: Seq<u32>,
    pub world_positions: Seq<Vec3Bits>,
    pub world_rotations: Seq<QuatBits>,
    pub world_scales: Seq<u32>,
    pub parents: Seq<EntityInstance>,
    pub first_children: Seq<EntityInstance>,
    pub next_siblings: Seq<EntityInstance>,
    pub prev_siblings: Seq<EntityInstance>,
}

/// A link is either the sentinel or a dense index below `n`.
pub open spec fn link_ok(l: EntityInstance, n: int) -> bool {
    l.index == INSTANCE_NONE || (l.index as int) < n
}

impl TransformView {
    /// Number of stored components.
    pub open spec fn len(self) -> int {
        self.entities.len() as int
    }

    /// Whether `id` has a component.
    pub open spec fn contains(self, id: u32) -> bool {
        self.map.contains_key(id)
    }

    /// Structural invariant: the parallel arrays have one row per component,
    /// the map and the entity column are inverse to each other, and every
    /// tree link is the sentinel or in range.
    pub open spec fn wf(self) -> bool {
        let n = self.len();
        &&& n < 0xFFFFFFFF
        &&& self.local_positions.len() == n
        &&& self.local_rotations.len() == n
        &&& self.local_scales.len() == n
        &&& self.world_positions.len() == n
        &&& self.world_rotations.len() == n
        &&& self.world_scales.len() == n
        &&& self.parents.len() == n
        &&& self.first_children.len() == n
        &&& self.next_siblings.len() == n
        &&& self.prev_siblings.len() == n
        &&& forall|i: int|
            0 <= i < n ==> self.map.contains_key((#[trigger] self.entities[i]).id)
                && self.map[self.entities[i].id] == (EntityInstance { index: i as usize })
        &&& forall|id: u32|
            self.map.contains_key(id) ==> ((#[trigger] self.map[id]).index as int) < n
                && self.entities[self.map[id].index as int].id == id
        &&& forall|i: int| 0 <= i < n ==> #[trigger] self.links_ok_at(i)
    }

    /// All four links of row `i` are the sentinel or in range.
    pub open spec fn links_ok_at(self, i: int) -> bool {
        let n = self.len();
        &&& link_ok(self.parents[i], n)
        &&& link_ok(self.first_children[i], n)
        &&& link_ok(self.next_siblings[i], n)
        &&& link_ok(self.prev_siblings[i], n)
    }

    /// The state with no components.
    pub open spec fn empty() -> TransformView {
        TransformView {
            map: Map::empty(),
            entities: Seq::empty(),
            local_positions: Seq::empty(),
            local_rotations: Seq::empty(),
            local_scales: Seq::empty(),
            world_positions: Seq::empty(),
            world_rotations: Seq::empty(),
            world_scales: Seq::empty(),
            parents: Seq::empty(),
            first_children: Seq::empty(),
            next_siblings: Seq::empty(),
            prev_siblings: Seq::empty(),
        }
    }
}

/// The state after adding a default component for `e`: every column grows by
/// one row, all links start at the sentinel, position zero, rotation
/// identity, scale one.
pub open spec fn spec_ts_create(v: TransformView, e: Entity) -> TransformView {
    TransformView {
        map: v.map.insert(e.id, EntityInstance { index: v.entities.len() as usize }),
        entities: v.entities.push(e),
        local_positions: v.local_positions.push(spec_vec3_zero()),
        local_rotations: v.local_rotations.push(spec_quat_identity()),
        local_scales: v.local_scales.push(F32_ONE_BITS),
        world_positions: v.world_positions.push(spec_vec3_zero()),
        world_rotations: v.world_rotations.push(spec_quat_identity()),
        world_scales: v.world_scales.push(F32_ONE_BITS),
        parents: v.parents.push(spec_instance_none()),
        first_children: v.first_children.push(spec_instance_none()),
        next_siblings: v.next_siblings.push(spec_instance_none()),
        prev_siblings: v.prev_siblings.push(spec_instance_none()),
    }
}

/// The state after linking `c` as the new head of `p`'s child list.
pub open spec fn spec_set_parent(v: TransformView, c: int, p: int) -> TransformView {
    let old_first = v.first_children[p];
    TransformView {
        parents: v.parents.update(c, EntityInstance { index: p as usize }),
        first_children: v.first_children.update(p, EntityInstance { index: c as usize }),
        next_siblings: v.next_siblings.update(c, old_first),
        prev_siblings: if old_first.index != INSTANCE_NONE {
            v.prev_siblings.update(old_first.index as int, EntityInstance { index: c as usize })
        } else {
            v.prev_siblings
        },
        ..v
    }
}

/// The instances reached from `cur` by following `next` links, cut off
/// after `fuel` steps; an intact sibling list ends at the sentinel well
/// within one step per stored component.
pub open spec fn spec_chain(next: Seq<EntityInstance>, cur: EntityInstance, fuel: nat) -> Seq<
    EntityInstance,
>
    decreases fuel,
{
    if fuel == 0 || cur.index == INSTANCE_NONE || (cur.index as int) >= next.len() {
        Seq::empty()
    } else {
        seq![cur] + spec_chain(next, next[cur.index as int], (fuel - 1) as nat)
    }
}

/// The children of `p`, most recently attached first.
pub open spec fn spec_children(v: TransformView, p: int) -> Seq<EntityInstance> {
    spec_chain(v.next_siblings, v.first_children[p], v.next_siblings.len())
}

/// Every instance on a sibling chain indexes a stored row.
pub proof fn lemma_chain_in_range(next: Seq<EntityInstance>, cur: EntityInstance, fuel: nat)
    ensures
        forall|k: int|
            0 <= k < spec_chain(next, cur, fuel).len() ==> ((#[trigger] spec_chain(
                next,
                cur,
                fuel,
            )[k]).index as int) < next.len(),
    decreases fuel,
{
    if fuel == 0 || cur.index == INSTANCE_NONE || (cur.index as int) >= next.len() {
    } else {
        let rest = spec_chain(next, next[cur.index as int], (fuel - 1) as nat);
        lemma_chain_in_range(next, next[cur.index as int], (fuel - 1) as nat);
        assert forall|k: int|
            0 <= k < spec_chain(next, cur, fuel).len() implies ((#[trigger] spec_chain(
            next,
            cur,
            fuel,
        )[k]).index as int) < next.len() by {
            if k > 0 {
                assert(spec_chain(next, cur, fuel)[k] == rest[k - 1]);
            }
        }
    }
}

/// `s` with every link to row `from` replaced by `to`.
pub open spec fn spec_subst(s: Seq<EntityInstance>, from: usize, to: EntityInstance) -> Seq<
    EntityInstance,
> {
    Seq::new(
        s.len(),
        |j: int|
            if s[j].index == from {
                to
            } else {
                s[j]
            },
    )
}

/// Length and pointwise value of a link substitution.
pub proof fn lemma_subst_props(s: Seq<EntityInstance>, from: usize, to: EntityInstance)
    ensures
        spec_subst(s, from, to).len() == s.len(),
        forall|j: int|
            0 <= j < s.len() ==> #[trigger] spec_subst(s, from, to)[j] == (if s[j].index == from {
                to
            } else {
                s[j]
            }),
{
}

/// The link state after detaching row `i` from the tree: its parent's
/// first-child link and its siblings' links are spliced around it, and any
/// remaining link to it becomes the sentinel.
pub open spec fn spec_unlink(v: TransformView, i: int) -> TransformView {
    let me = EntityInstance { index: i as usize };
    let par = v.parents[i];
    let prev = v.prev_siblings[i];
    let next = v.next_siblings[i];
    let fc1 = if par.index != INSTANCE_NONE && v.first_children[par.index as int] == me {
        v.first_children.update(par.index as int, next)
    } else {
        v.first_children
    };
    let ns1 = if prev.index != INSTANCE_NONE {
        v.next_siblings.update(prev.index as int, next)
    } else {
        v.next_siblings
    };
    let ps1 = if next.index != INSTANCE_NONE {
        v.prev_siblings.update(next.index as int, prev)
    } else {
        v.prev_siblings
    };
    TransformView {
        parents: spec_subst(v.parents, i as usize, spec_instance_none()),
        first_children: spec_subst(fc1, i as usize, spec_instance_none()),
        next_siblings: spec_subst(ns1, i as usize, spec_instance_none()),
        prev_siblings: spec_subst(ps1, i as usize, spec_instance_none()),
        ..v
    }
}

/// The state after copying row `src` over row `dst` and redirecting every
/// link to `src` onto `dst`.
pub open spec fn spec_move(v: TransformView, src: int, dst: int) -> TransformView {
    let to = EntityInstance { index: dst as usize };
    TransformView {
        map: v.map,
        entities: v.entities.update(dst, v.entities[src]),
        local_positions: v.local_positions.update(dst, v.local_positions[src]),
        local_rotations: v.local_rotations.update(dst, v.local_rotations[src]),
        local_scales: v.local_scales.update(dst, v.local_scales[src]),
        world_positions: v.world_positions.update(dst, v.world_positions[src]),
        world_rotations: v.world_rotations.update(dst, v.world_rotations[src]),
        world_scales: v.world_scales.update(dst, v.world_scales[src]),
        parents: spec_subst(v.parents.update(dst, v.parents[src]), src as usize, to),
        first_children: spec_subst(v.first_children.update(dst, v.first_children[src]), src as usize, to),
        next_siblings: spec_subst(v.next_siblings.update(dst, v.next_siblings[src]), src as usize, to),
        prev_siblings: spec_subst(v.prev_siblings.update(dst, v.prev_siblings[src]), src as usize, to),
    }
}

/// The state after removing row `i`: the row is detached from the tree, the
/// last row is swap-compacted into its place, every column shrinks by one,
/// and the map follows the moved entity and forgets the removed one.
pub open spec fn spec_remove(v: TransformView, i: int) -> TransformView {
    let last = v.len() - 1;
    let removed_id = v.entities[i].id;
    let last_id = v.entities[last].id;
    let v2 = spec_move(spec_unlink(v, i), last, i);
    TransformView {
        map: v.map.insert(last_id, EntityInstance { index: i as usize }).remove(removed_id),
        entities: v2.entities.drop_last(),
        local_positions: v2.local_positions.drop_last(),
        local_rotations: v2.local_rotations.drop_last(),
        local_scales: v2.local_scales.drop_last(),
        world_positions: v2.world_positions.drop_last(),
        world_rotations: v2.world_rotations.drop_last(),
        world_scales: v2.world_scales.drop_last(),
        parents: v2.parents.drop_last(),
        first_children: v2.first_children.drop_last(),
        next_siblings: v2.next_siblings.drop_last(),
        prev_siblings: v2.prev_siblings.drop_last(),
    }
}

/// The component data stored for entity `id`, wherever its row sits.
pub open spec fn spec_payload(v: TransformView, id: u32) -> (
    Vec3Bits,
    QuatBits,
    u32,
    Vec3Bits,
    QuatBits,
    u32,
) {
    let i = v.map[id].index as int;
    (
        v.local_positions[i],
        v.local_rotations[i],
        v.local_scales[i],
        v.world_positions[i],
        v.world_rotations[i],
        v.world_scales[i],
    )
}

/// Depth-first pre-order over a stack of pending instances: the top of the
/// stack is yielded, then its children (most recently attached first) are
/// laid on top. The walk is cut off after `fuel` emissions; an intact tree
/// is exhausted well within one step per stored component.
pub open spec fn spec_dfs(v: TransformView, stack: Seq<EntityInstance>, fuel: nat) -> Seq<
    EntityInstance,
>
    decreases fuel,
{
    if fuel == 0 || stack.len() == 0 {
        Seq::empty()
    } else {
        let cur = stack.last();
        if cur.index == INSTANCE_NONE || (cur.index as int) >= v.len() {
            spec_dfs(v, stack.drop_last(), (fuel - 1) as nat)
        } else {
            seq![cur] + spec_dfs(
                v,
                stack.drop_last() + spec_children(v, cur.index as int).reverse(),
                (fuel - 1) as nat,
            )
        }
    }
}

/// The subtree below `start` in depth-first pre-order: each instance comes
/// before everything below it, children most recently attached first.
pub open spec fn spec_descendants(v: TransformView, start: int) -> Seq<EntityInstance> {
    spec_dfs(v, spec_children(v, start).reverse(), v.len() as nat)
}

/// Owns the transform component data of a scene: local and derived world
/// position/rotation/scale per entity in dense parallel arrays, the
/// parent/child/sibling tree over dense indices, and the binary
/// save/load of its own state.
pub struct TransformSystem {
    map: HashMap<u32, EntityInstance>,
    entities: Vec<Entity>,
    local_positions: Vec<Vec3Bits>,
    local_rotations: Vec<QuatBits>,
    local_scales: Vec<u32>,
    world_positions: Vec<Vec3Bits>,
    world_rotations: Vec<QuatBits>,
    world_scales: Vec<u32>,
    parents: Vec<EntityInstance>,
    first_children: Vec<EntityInstance>,
    next_siblings: Vec<EntityInstance>,
    prev_siblings: Vec<EntityInstance>,
}

impl View for TransformSystem {
    type V = TransformView;

    closed spec fn view(&self) -> TransformView {
        TransformView {
            map: self.map@,
            entities: self.entities@,
            local_positions: self.local_positions@,
            local_rotations: self.local_rotations@,
            local_scales: self.local_scales@,
            world_positions: self.world_positions@,
            world_rotations: self.world_rotations@,
            world_scales: self.world_scales@,
            parents: self.parents@,
            first_children: self.first_children@,
            next_siblings: self.next_siblings@,
            prev_siblings: self.prev_siblings@,
        }
    }
}

impl TransformSystem {
    /// A system with no components.
    pub fn new() -> (r: TransformSystem)
        ensures
            r@ == TransformView::empty(),
            r@.wf(),
    {
        let r = TransformSystem {
            map: HashMap::new(),
            entities: Vec::new(),
            local_positions: Vec::new(),
            local_rotations: Vec::new(),
            local_scales: Vec::new(),
            world_positions: Vec::new(),
            world_rotations: Vec::new(),
            world_scales: Vec::new(),
            parents: Vec::new(),
            first_children: Vec::new(),
            next_siblings: Vec::new(),
            prev_siblings: Vec::new(),
        };
        proof {
            assert(r@ =~= TransformView::empty());
        }
        r
    }

    /// Whether `entity` has a transform component.
    pub fn has_component(&self, entity: Entity) -> (r: bool)
        ensures
            r == self@.contains(entity.id),
    {
        self.map.contains_key(&entity.id)
    }

    /// Number of stored components.
    pub fn count(&self) -> (r: usize)
        ensures
            r as int == self@.len(),
    {
        self.entities.len()
    }

    /// Adds a default transform component for `entity` and returns its
    /// dense index. The entity must not already have one: callers check
    /// [`Self::has_component`] first, or use [`Self::create_or_get_instance`].
    pub fn create(&mut self, entity: Entity) -> (r: EntityInstance)
        requires
            old(self)@.wf(),
            !old(self)@.contains(entity.id),
            old(self)@.len() + 1 < 0xFFFFFFFF,
        ensures
            final(self)@ == spec_ts_create(old(self)@, entity),
            final(self)@.wf(),
            r == (EntityInstance { index: old(self)@.len() as usize }),
    {
        let index = self.local_positions.len();

        self.entities.push(entity);

        self.local_positions.push(Vec3Bits::zero());
        self.local_rotations.push(QuatBits::identity());
        self.local_scales.push(F32_ONE_BITS);

        self.world_positions.push(Vec3Bits::zero());
        self.world_rotations.push(QuatBits::identity());
        self.world_scales.push(F32_ONE_BITS);

        self.parents.push(EntityInstance::none());
        self.first_children.push(EntityInstance::none());
        self.next_siblings.push(EntityInstance::none());
        self.prev_siblings.push(EntityInstance::none());

        let instance = EntityInstance::new(index);
        self.map.insert(entity.id, instance);

        proof {
            lemma_create_wf(old(self)@, final(self)@, entity);
        }
        instance
    }

    /// The existing instance for `entity`, or a freshly created component's.
    pub fn create_or_get_instance(&mut self, en: Entity) -> (r: EntityInstance)
        requires
            old(self)@.wf(),
            old(self)@.len() + 1 < 0xFFFFFFFF,
        ensures
            old(self)@.contains(en.id) ==> final(self)@ == old(self)@ && r == old(self)@.map[en.id],
            !old(self)@.contains(en.id) ==> final(self)@ == spec_ts_create(old(self)@, en) && r == (
            EntityInstance { index: old(self)@.len() as usize }),
            final(self)@.wf(),
    {
        if self.has_component(en) {
            self.get_instance(en)
        } else {
            self.create(en)
        }
    }

    /// The dense index of `entity`'s component, or the sentinel if it has
    /// none.
    pub fn get_instance(&self, entity: Entity) -> (r: EntityInstance)
        ensures
            r == if self@.contains(entity.id) {
                self@.map[entity.id]
            } else {
                spec_instance_none()
            },
    {
        match self.map.get(&entity.id) {
            Some(instance) => *instance,
            None => EntityInstance::none(),
        }
    }

    /// The entity whose component sits at `instance`.
    fn get_entity(&self, instance: EntityInstance) -> (r: Entity)
        requires
            (instance.index as int) < self@.len(),
        ensures
            r == self@.entities[instance.index as int],
    {
        self.entities[instance.index]
    }

    /// The stored local position of `instance`.
    pub fn get_local_position(&self, instance: EntityInstance) -> (r: Vec3Bits)
        requires
            (instance.index as int) < self@.len(),
            self@.local_positions.len() == self@.len(),
        ensures
            r == self@.local_positions[instance.index as int],
    {
        self.local_positions[instance.index]
    }

    /// Stores the local position of `instance`.
    ///
    /// Only the stored value changes: the caller recomputes the world
    /// transforms of `instance` and its descendants (see
    /// [`Self::get_descendants`]), since composing transforms is numeric
    /// work outside this crate.
    pub fn set_local_position(&mut self, instance: EntityInstance, position: Vec3Bits)
        requires
            (instance.index as int) < old(self)@.len(),
            old(self)@.local_positions.len() == old(self)@.len(),
        ensures
            final(self)@ == (TransformView {
                local_positions: old(self)@.local_positions.update(
                    instance.index as int,
                    position,
                ),
                ..old(self)@
            }),
            old(self)@.wf() ==> final(self)@.wf(),
    {
        self.local_positions.set(instance.index, position);
        proof {
            if old(self)@.wf() {
                lemma_wf_same_structure(old(self)@, final(self)@);
            }
        }
    }

    /// The stored local rotation of `instance`.
    pub fn get_local_rotation(&self, instance: EntityInstance) -> (r: QuatBits)
        requires
            (instance.index as int) < self@.len(),
            self@.local_rotations.len() == self@.len(),
        ensures
            r == self@.local_rotations[instance.index as int],
    {
        self.local_rotations[instance.index]
    }

    /// Stores the local rotation of `instance`; see
    /// [`Self::set_local_position`] on world recomputation.
    pub fn set_local_rotation(&mut self, instance: EntityInstance, rotation: QuatBits)
        requires
            (instance.index as int) < old(self)@.len(),
            old(self)@.local_rotations.len() == old(self)@.len(),
        ensures
            final(self)@ == (TransformView {
                local_rotations: old(self)@.local_rotations.update(
                    instance.index as int,
                    rotation,
                ),
                ..old(self)@
            }),
            old(self)@.wf() ==> final(self)@.wf(),
    {
        self.local_rotations.set(instance.index, rotation);
        proof {
            if old(self)@.wf() {
                lemma_wf_same_structure(old(self)@, final(self)@);
            }
        }
    }

    /// The stored local scale of `instance`.
    pub fn get_local_scale(&self, instance: EntityInstance) -> (r: u32)
        requires
            (instance.index as int) < self@.len(),
            self@.local_scales.len() == self@.len(),
        ensures
            r == self@.local_scales[instance.index as int],
    {
        self.local_scales[instance.index]
    }

    /// Stores the local scale of `instance`; see
    /// [`Self::set_local_position`] on world recomputation.
    pub fn set_local_scale(&mut self, instance: EntityInstance, scale: u32)
        requires
            (instance.index as int) < old(self)@.len(),
            old(self)@.local_scales.len() == old(self)@.len(),
        ensures
            final(self)@ == (TransformView {
                local_scales: old(self)@.local_scales.update(instance.index as int, scale),
                ..old(self)@
            }),
            old(self)@.wf() ==> final(self)@.wf(),
    {
        self.local_scales.set(instance.index, scale);
        proof {
            if old(self)@.wf() {
                lemma_wf_same_structure(old(self)@, final(self)@);
            }
        }
    }

    /// The cached world position of `instance`.
    pub fn get_world_position(&self, instance: EntityInstance) -> (r: Vec3Bits)
        requires
            (instance.index as int) < self@.len(),
            self@.world_positions.len() == self@.len(),
        ensures
            r == self@.world_positions[instance.index as int],
    {
        self.world_positions[instance.index]
    }

    /// Writes the cached world position of `instance` without touching
    /// local values or children.
    pub fn set_world_position(&mut self, instance: EntityInstance, position: Vec3Bits)
        requires
            (instance.index as int) < old(self)@.len(),
            old(self)@.world_positions.len() == old(self)@.len(),
        ensures
            final(self)@ == (TransformView {
                world_positions: old(self)@.world_positions.update(
                    instance.index as int,
                    position,
                ),
                ..old(self)@
            }),
            old(self)@.wf() ==> final(self)@.wf(),
    {
        self.world_positions.set(instance.index, position);
        proof {
            if old(self)@.wf() {
                lemma_wf_same_structure(old(self)@, final(self)@);
            }
        }
    }

    /// The cached world rotation of `instance`.
    pub fn get_world_rotation(&self, instance: EntityInstance) -> (r: QuatBits)
        requires
            (instance.index as int) < self@.len(),
            self@.world_rotations.len() == self@.len(),
        ensures
            r == self@.world_rotations[instance.index as int],
    {
        self.world_rotations[instance.index]
    }

    /// Writes the cached world rotation of `instance` without touching
    /// local values or children.
    pub fn set_world_rotation(&mut self, instance: EntityInstance, rotation: QuatBits)
        requires
            (instance.index as int) < old(self)@.len(),
            old(self)@.world_rotations.len() == old(self)@.len(),
        ensures
            final(self)@ == (TransformView {
                world_rotations: old(self)@.world_rotations.update(
                    instance.index as int,
                    rotation,
                ),
                ..old(self)@
            }),
            old(self)@.wf() ==> final(self)@.wf(),
    {
        self.world_rotations.set(instance.index, rotation);
        proof {
            if old(self)@.wf() {
                lemma_wf_same_structure(old(self)@, final(self)@);
            }
        }
    }

    /// The cached world scale of `instance`.
    pub fn get_world_scale(&self, instance: EntityInstance) -> (r: u32)
        requires
            (instance.index as int) < self@.len(),
            self@.world_scales.len() == self@.len(),
        ensures
            r == self@.world_scales[instance.index as int],
    {
        self.world_scales[instance.index]
    }

    /// Writes the cached world scale of `instance` without touching local
    /// values or children.
    pub fn set_world_scale(&mut self, instance: EntityInstance, scale: u32)
        requires
            (instance.index as int) < old(self)@.len(),
            old(self)@.world_scales.len() == old(self)@.len(),
        ensures
            final(self)@ == (TransformView {
                world_scales: old(self)@.world_scales.update(instance.index as int, scale),
                ..old(self)@
            }),
            old(self)@.wf() ==> final(self)@.wf(),
    {
        self.world_scales.set(instance.index, scale);
        proof {
            if old(self)@.wf() {
                lemma_wf_same_structure(old(self)@, final(self)@);
            }
        }
    }

    /// The parent link of `instance`.
    pub fn get_parent(&self, instance: EntityInstance) -> (r: EntityInstance)
        requires
            (instance.index as int) < self@.len(),
            self@.parents.len() == self@.len(),
        ensures
            r == self@.parents[instance.index as int],
    {
        self.parents[instance.index]
    }

    /// Links `child` to the head of `parent`'s child list; on an intact
    /// list the parent's child walk afterwards yields the new child first,
    /// then the old sequence unchanged (see [`lemma_set_parent_children`]).
    ///
    /// The child must not already have a parent: re-parenting would have to
    /// unlink it from the old sibling list first, so it is rejected here
    /// rather than left half-done.
    pub fn set_parent(&mut self, child: EntityInstance, parent: EntityInstance)
        requires
            old(self)@.wf(),
            (child.index as int) < old(self)@.len(),
            (parent.index as int) < old(self)@.len(),
            child.index != parent.index,
            old(self)@.parents[child.index as int].index == INSTANCE_NONE,
        ensures
            final(self)@ == spec_set_parent(old(self)@, child.index as int, parent.index as int),
            final(self)@.wf(),
    {
        proof {
            assert(old(self)@.links_ok_at(parent.index as int));
        }
        self.parents.set(child.index, parent);

        let old_child = self.first_children[parent.index];
        self.first_children.set(parent.index, child);
        self.next_siblings.set(child.index, old_child);
        if old_child.is_valid() {
            self.prev_siblings.set(old_child.index, child);
        }
        proof {
            lemma_set_parent_wf(old(self)@, child.index as int, parent.index as int);
        }
    }

    /// The first-child link of `instance`.
    pub fn get_first_child(&self, instance: EntityInstance) -> (r: EntityInstance)
        requires
            (instance.index as int) < self@.len(),
            self@.first_children.len() == self@.len(),
        ensures
            r == self@.first_children[instance.index as int],
    {
        self.first_children[instance.index]
    }

    /// The next-sibling link of `instance`.
    pub fn get_next_sibling(&self, instance: EntityInstance) -> (r: EntityInstance)
        requires
            (instance.index as int) < self@.len(),
            self@.next_siblings.len() == self@.len(),
        ensures
            r == self@.next_siblings[instance.index as int],
    {
        self.next_siblings[instance.index]
    }

    /// The previous-sibling link of `instance`.
    pub fn get_prev_sibling(&self, instance: EntityInstance) -> (r: EntityInstance)
        requires
            (instance.index as int) < self@.len(),
            self@.prev_siblings.len() == self@.len(),
        ensures
            r == self@.prev_siblings[instance.index as int],
    {
        self.prev_siblings[instance.index]
    }
}

/// A view that differs from a well-formed one only in the per-row data
/// columns (same lengths) keeps the structural invariant.
pub proof fn lemma_wf_same_structure(v: TransformView, v2: TransformView)
    requires
        v.wf(),
        v2.map == v.map,
        v2.entities == v.entities,
        v2.parents == v.parents,
        v2.first_children == v.first_children,
        v2.next_siblings == v.next_siblings,
        v2.prev_siblings == v.prev_siblings,
        v2.local_positions.len() == v.local_positions.len(),
        v2.local_rotations.len() == v.local_rotations.len(),
        v2.local_scales.len() == v.local_scales.len(),
        v2.world_positions.len() == v.world_positions.len(),
        v2.world_rotations.len() == v.world_rotations.len(),
        v2.world_scales.len() == v.world_scales.len(),
    ensures
        v2.wf(),
{
    assert forall|i: int| 0 <= i < v2.len() implies #[trigger] v2.links_ok_at(i) by {
        assert(v.links_ok_at(i));
    }
}

/// Re-linking a child preserves the structural invariant.
proof fn lemma_set_parent_wf(v: TransformView, c: int, p: int)
    requires
        v.wf(),
        0 <= c < v.len(),
        0 <= p < v.len(),
        c != p,
    ensures
        spec_set_parent(v, c, p).wf(),
{
    let n = v.len();
    let v2 = spec_set_parent(v, c, p);
    assert(v2.entities == v.entities);
    assert(v2.map == v.map);
    assert(v.links_ok_at(p));
    assert forall|i: int| 0 <= i < n implies #[trigger] v2.links_ok_at(i) by {
        assert(v.links_ok_at(i));
    }
}

/// Adding a component preserves the structural invariant.
pub proof fn lemma_create_wf(v: TransformView, v2: TransformView, e: Entity)
    requires
        v.wf(),
        !v.contains(e.id),
        v.len() + 1 < 0xFFFFFFFF,
        v2 == spec_ts_create(v, e),
    ensures
        v2.wf(),
{
    let n = v.len();
    assert forall|i: int|
        0 <= i < v2.len() implies v2.map.contains_key((#[trigger] v2.entities[i]).id)
        && v2.map[v2.entities[i].id] == (EntityInstance { index: i as usize }) by {
        if i < n {
            assert(v2.entities[i] == v.entities[i]);
            assert(v.map.contains_key(v.entities[i].id));
            assert(v.entities[i].id != e.id);
        } else {
            assert(v2.entities[i] == e);
        }
    }
    assert forall|id: u32|
        v2.map.contains_key(id) implies ((#[trigger] v2.map[id]).index as int) < v2.len()
        && v2.entities[v2.map[id].index as int].id == id by {
        if id == e.id {
            assert(v2.map[id] == (EntityInstance { index: n as usize }));
            assert(v2.entities[n] == e);
        } else {
            assert(v.map.contains_key(id));
            assert(v2.entities[v.map[id].index as int] == v.entities[v.map[id].index as int]);
        }
    }
    assert forall|i: int| 0 <= i < v2.len() implies #[trigger] v2.links_ok_at(i) by {
        if i < n {
            assert(v.links_ok_at(i));
        }
    }
}

impl TransformSystem {
    /// A restartable walk over `parent`'s child list, most recently
    /// attached first.
    pub fn iter_children<'a>(&'a self, parent: EntityInstance) -> (r: ChildIterator<'a>)
        requires
            (parent.index as int) < self@.len(),
            self@.first_children.len() == self@.len(),
        ensures
            r.spec_links() == self@.next_siblings,
            r.spec_current() == self@.first_children[parent.index as int],
    {
        ChildIterator {
            next_siblings: &self.next_siblings,
            current: self.first_children[parent.index],
        }
    }

    /// The instances of `parent`'s children, most recently attached first.
    pub fn get_children(&self, parent: EntityInstance) -> (r: Vec<EntityInstance>)
        requires
            (parent.index as int) < self@.len(),
            self@.first_children.len() == self@.len(),
        ensures
            r@ == spec_children(self@, parent.index as int),
    {
        let ghost links = self@.next_siblings;
        let ghost first = self@.first_children[parent.index as int];
        let n = self.next_siblings.len();
        let mut result: Vec<EntityInstance> = Vec::new();
        let mut it = self.iter_children(parent);
        loop
            invariant
                it.spec_links() == links,
                n == links.len(),
                result@.len() <= n,
                spec_chain(links, first, n as nat) == result@ + spec_chain(
                    links,
                    it.spec_current(),
                    (n - result@.len()) as nat,
                ),
            ensures
                it.spec_links() == links,
                result@.len() <= n,
                spec_chain(links, first, n as nat) == result@ + spec_chain(
                    links,
                    it.spec_current(),
                    (n - result@.len()) as nat,
                ),
                result@.len() == n || !it.spec_has_current(),
            decreases n - result@.len(),
        {
            if result.len() >= n {
                break ;
            }
            let ghost cur = it.spec_current();
            let ghost left = (n - result@.len()) as nat;
            match it.next() {
                Some(c) => {
                    proof {
                        assert(spec_chain(links, cur, left) == seq![c] + spec_chain(
                            links,
                            links[c.index as int],
                            (left - 1) as nat,
                        ));
                        assert((result@ + seq![c]) + spec_chain(
                            links,
                            links[c.index as int],
                            (left - 1) as nat,
                        ) =~= result@ + spec_chain(links, cur, left));
                    }
                    result.push(c);
                },
                None => {
                    break ;
                },
            }
        }
        proof {
            assert(spec_chain(links, it.spec_current(), (n - result@.len()) as nat) =~= Seq::<
                EntityInstance,
            >::empty());
            assert(result@ =~= spec_chain(links, first, n as nat));
        }
        result
    }

    /// The entities of `parent`'s children, most recently attached first.
    pub fn get_child_entities(&self, parent: EntityInstance) -> (r: Vec<Entity>)
        requires
            self@.wf(),
            (parent.index as int) < self@.len(),
        ensures
            r@.len() == spec_children(self@, parent.index as int).len(),
            forall|k: int|
                0 <= k < r@.len() ==> r@[k] == self@.entities[(#[trigger] spec_children(
                    self@,
                    parent.index as int,
                )[k]).index as int],
    {
        let children = self.get_children(parent);
        proof {
            lemma_chain_in_range(
                self@.next_siblings,
                self@.first_children[parent.index as int],
                self@.next_siblings.len() as nat,
            );
        }
        let mut result: Vec<Entity> = Vec::new();
        let mut i: usize = 0;
        while i < children.len()
            invariant
                self@.wf(),
                children@ == spec_children(self@, parent.index as int),
                forall|k: int|
                    0 <= k < children@.len() ==> ((#[trigger] children@[k]).index as int)
                        < self@.len(),
                i <= children.len(),
                result@.len() == i,
                forall|k: int|
                    0 <= k < i ==> result@[k] == self@.entities[(#[trigger] children@[k]).index
                        as int],
            decreases children.len() - i,
        {
            result.push(self.get_entity(children[i]));
            i += 1;
        }
        result
    }

    /// The subtree below `instance` in depth-first pre-order: every
    /// instance is listed before its own descendants, so walking the result
    /// in order always meets a parent before its children. Used by callers
    /// that recompute world transforms after a local change.
    pub fn get_descendants(&self, instance: EntityInstance) -> (r: Vec<EntityInstance>)
        requires
            self@.wf(),
            (instance.index as int) < self@.len(),
        ensures
            r@ == spec_descendants(self@, instance.index as int),
    {
        let mut result: Vec<EntityInstance> = Vec::new();
        let mut stack: Vec<EntityInstance> = Vec::new();
        let children = self.get_children(instance);
        push_reversed(&mut stack, &children);
        proof {
            assert(stack@ =~= spec_children(self@, instance.index as int).reverse());
        }
        let mut fuel = self.count();
        loop
            invariant
                self@.wf(),
                fuel as int <= self@.len(),
                spec_descendants(self@, instance.index as int) == result@ + spec_dfs(
                    self@,
                    stack@,
                    fuel as nat,
                ),
            ensures
                spec_descendants(self@, instance.index as int) == result@ + spec_dfs(
                    self@,
                    stack@,
                    fuel as nat,
                ),
                fuel == 0 || stack@.len() == 0,
            decreases fuel,
        {
            if fuel == 0 || stack.len() == 0 {
                break ;
            }
            fuel = fuel - 1;
            let ghost pre = stack@;
            let cur = stack.pop().unwrap();
            proof {
                assert(cur == pre.last());
                assert(stack@ == pre.drop_last());
            }
            if cur.index != INSTANCE_NONE && cur.index < self.entities.len() {
                result.push(cur);
                let cc = self.get_children(cur);
                push_reversed(&mut stack, &cc);
                proof {
                    assert(stack@ =~= pre.drop_last() + spec_children(
                        self@,
                        cur.index as int,
                    ).reverse());
                }
            }
        }
        proof {
            assert(spec_dfs(self@, stack@, fuel as nat) =~= Seq::<EntityInstance>::empty());
            assert(result@ =~= spec_descendants(self@, instance.index as int));
        }
        result
    }
}

/// Appends the elements of `items` to `stack` in reverse order.
fn push_reversed(stack: &mut Vec<EntityInstance>, items: &Vec<EntityInstance>)
    ensures
        final(stack)@ == old(stack)@ + items@.reverse(),
{
    let mut j: usize = 0;
    while j < items.len()
        invariant
            j <= items.len(),
            stack@.len() == old(stack)@.len() + j,
            forall|k: int| 0 <= k < old(stack)@.len() ==> stack@[k] == old(stack)@[k],
            forall|k: int|
                0 <= k < j ==> #[trigger] stack@[old(stack)@.len() + k] == items@[items@.len() - 1
                    - k],
        decreases items.len() - j,
    {
        let idx = items.len() - 1 - j;
        stack.push(items[idx]);
        j += 1;
    }
    proof {
        let target = old(stack)@ + items@.reverse();
        assert(stack@.len() == target.len());
        assert forall|k: int| 0 <= k < stack@.len() implies stack@[k] == target[k] by {
            if k >= old(stack)@.len() {
                let j = k - old(stack)@.len();
                assert(stack@[old(stack)@.len() + j] == items@[items@.len() - 1 - j]);
                assert(items@.reverse()[j] == items@[items@.len() - 1 - j]);
            }
        }
        assert(stack@ =~= target);
    }
}

/// A walk along one sibling list; yields the current instance and advances
/// along `next_siblings` until the sentinel.
pub struct ChildIterator<'a> {
    next_siblings: &'a Vec<EntityInstance>,
    current: EntityInstance,
}

impl<'a> ChildIterator<'a> {
    /// The sibling links the iterator walks over.
    pub closed spec fn spec_links(self) -> Seq<EntityInstance> {
        self.next_siblings@
    }

    /// The instance the iterator would yield next.
    pub closed spec fn spec_current(self) -> EntityInstance {
        self.current
    }

    /// Whether the walk still stands on a yieldable instance.
    pub open spec fn spec_has_current(self) -> bool {
        self.spec_current().index != INSTANCE_NONE && (self.spec_current().index as int)
            < self.spec_links().len()
    }

    /// Yields the current instance and advances to its next sibling, or
    /// yields nothing once the chain has ended.
    pub fn next(&mut self) -> (r: Option<EntityInstance>)
        ensures
            final(self).spec_links() == old(self).spec_links(),
            r == (if old(self).spec_has_current() {
                Some(old(self).spec_current())
            } else {
                None::<EntityInstance>
            }),
            final(self).spec_current() == (if old(self).spec_has_current() {
                old(self).spec_links()[old(self).spec_current().index as int]
            } else {
                old(self).spec_current()
            }),
    {
        if self.current.index != INSTANCE_NONE && self.current.index < self.next_siblings.len() {
            let output = self.current;
            self.current = self.next_siblings[output.index];
            Some(output)
        } else {
            None
        }
    }
}

/// Replaces every link to row `from` with `to`.
fn replace_links(links: &mut Vec<EntityInstance>, from: usize, to: EntityInstance)
    ensures
        final(links)@ == spec_subst(old(links)@, from, to),
{
    let ghost target = spec_subst(old(links)@, from, to);
    proof {
        lemma_subst_props(old(links)@, from, to);
    }
    let n = links.len();
    let mut k: usize = 0;
    while k < n
        invariant
            target == spec_subst(old(links)@, from, to),
            target.len() == n,
            n == links@.len(),
            n == old(links)@.len(),
            k <= n,
            forall|j: int| 0 <= j < k ==> #[trigger] links@[j] == target[j],
            forall|j: int| k <= j < n ==> #[trigger] links@[j] == old(links)@[j],
        decreases n - k,
    {
        let ghost pre = links@;
        let cur = links[k];
        if cur.index == from {
            links.set(k, to);
        }
        proof {
            assert(target.len() == n);
            assert(pre[k as int] == old(links)@[k as int]);
            if pre[k as int].index == from {
                assert(links@ == pre.update(k as int, to));
                assert(links@[k as int] == to);
                assert(target[k as int] == to);
            } else {
                assert(links@ == pre);
                assert(target[k as int] == pre[k as int]);
            }
            assert forall|j: int| 0 <= j < k + 1 implies #[trigger] links@[j] == target[j] by {
                if j < k {
                    assert(pre[j] == target[j]);
                    assert(links@[j] == pre[j]);
                }
            }
        }
        k += 1;
    }
    proof {
        assert(links@ =~= target);
    }
}

/// All link substitutions taken during a removal keep the column lengths.
proof fn proof_subst_lengths(v: TransformView, i: int)
    requires
        v.wf(),
        0 <= i < v.len(),
    ensures
        spec_unlink(v, i).parents.len() == v.len(),
        spec_unlink(v, i).first_children.len() == v.len(),
        spec_unlink(v, i).next_siblings.len() == v.len(),
        spec_unlink(v, i).prev_siblings.len() == v.len(),
        spec_move(spec_unlink(v, i), v.len() - 1, i).parents.len() == v.len(),
        spec_move(spec_unlink(v, i), v.len() - 1, i).first_children.len() == v.len(),
        spec_move(spec_unlink(v, i), v.len() - 1, i).next_siblings.len() == v.len(),
        spec_move(spec_unlink(v, i), v.len() - 1, i).prev_siblings.len() == v.len(),
{
    let me = EntityInstance { index: i as usize };
    let par = v.parents[i];
    let prev = v.prev_siblings[i];
    let next = v.next_siblings[i];
    let fc1 = if par.index != INSTANCE_NONE && v.first_children[par.index as int] == me {
        v.first_children.update(par.index as int, next)
    } else {
        v.first_children
    };
    let ns1 = if prev.index != INSTANCE_NONE {
        v.next_siblings.update(prev.index as int, next)
    } else {
        v.next_siblings
    };
    let ps1 = if next.index != INSTANCE_NONE {
        v.prev_siblings.update(next.index as int, prev)
    } else {
        v.prev_siblings
    };
    lemma_subst_props(v.parents, i as usize, spec_instance_none());
    lemma_subst_props(fc1, i as usize, spec_instance_none());
    lemma_subst_props(ns1, i as usize, spec_instance_none());
    lemma_subst_props(ps1, i as usize, spec_instance_none());
    assert(v.links_ok_at(i));
    if par.index != INSTANCE_NONE && v.first_children[par.index as int] == me {
        assert(v.first_children.update(par.index as int, next).len() == v.first_children.len());
    }
    if prev.index != INSTANCE_NONE {
        assert(v.next_siblings.update(prev.index as int, next).len() == v.next_siblings.len());
    }
    if next.index != INSTANCE_NONE {
        assert(v.prev_siblings.update(next.index as int, prev).len() == v.prev_siblings.len());
    }
    assert(fc1.len() == v.first_children.len());
    assert(ns1.len() == v.next_siblings.len());
    assert(ps1.len() == v.prev_siblings.len());
    let vu = spec_unlink(v, i);
    let last = v.len() - 1;
    let to = EntityInstance { index: i as usize };
    lemma_subst_props(vu.parents.update(i, vu.parents[last]), last as usize, to);
    lemma_subst_props(vu.first_children.update(i, vu.first_children[last]), last as usize, to);
    lemma_subst_props(vu.next_siblings.update(i, vu.next_siblings[last]), last as usize, to);
    lemma_subst_props(vu.prev_siblings.update(i, vu.prev_siblings[last]), last as usize, to);
}

/// Removing a row preserves the structural invariant, keeps every other
/// entity's data, and shrinks the map by exactly the removed entity.
proof fn lemma_remove_ok(v: TransformView, i: int)
    requires
        v.wf(),
        0 <= i < v.len(),
    ensures
        spec_remove(v, i).wf(),
        spec_remove(v, i).len() == v.len() - 1,
        forall|id: u32|
            #[trigger] spec_remove(v, i).contains(id) <==> v.contains(id) && id != v.entities[i].id,
        forall|id: u32|
            #[trigger] spec_remove(v, i).contains(id) ==> spec_payload(spec_remove(v, i), id)
                == spec_payload(v, id),
{
    let n = v.len();
    let last = n - 1;
    let rid = v.entities[i].id;
    let lid = v.entities[last].id;
    let v2 = spec_remove(v, i);
    let vu = spec_unlink(v, i);
    let vm = spec_move(vu, last, i);
    proof_subst_lengths(v, i);

    // The map and entity column stay inverse to each other.
    assert(v.map.contains_key(rid) && v.map[rid] == (EntityInstance { index: i as usize }));
    assert(v.map.contains_key(lid) && v.map[lid] == (EntityInstance { index: last as usize }));
    assert(i == last ==> rid == lid);
    assert(i != last ==> rid != lid);

    assert forall|id: u32| #[trigger] v2.contains(id) implies v.contains(id) && id != rid by {}
    assert forall|id: u32| v.contains(id) && id != rid implies #[trigger] v2.contains(id) by {}

    assert forall|k: int|
        0 <= k < v2.len() implies v2.map.contains_key((#[trigger] v2.entities[k]).id)
        && v2.map[v2.entities[k].id] == (EntityInstance { index: k as usize }) by {
        if k == i {
            assert(v2.entities[k] == v.entities[last]);
        } else {
            assert(v2.entities[k] == v.entities[k]);
            assert(v.entities[k].id != rid) by {
                assert(v.map[v.entities[k].id] == (EntityInstance { index: k as usize }));
            }
            assert(v.entities[k].id != lid) by {
                assert(v.map[v.entities[k].id] == (EntityInstance { index: k as usize }));
            }
        }
    }
    assert forall|id: u32|
        v2.map.contains_key(id) implies ((#[trigger] v2.map[id]).index as int) < v2.len()
        && v2.entities[v2.map[id].index as int].id == id by {
        if id == lid {
            assert(i < n);
            assert(v2.entities[i] == v.entities[last]);
        } else {
            assert(v2.map[id] == v.map[id]);
            let k = v.map[id].index as int;
            assert(v.entities[k].id == id);
            assert(k != last) by {
                if k == last {
                    assert(id == lid);
                }
            }
            assert(k != i) by {
                if k == i {
                    assert(id == rid);
                }
            }
            assert(v2.entities[k] == v.entities[k]);
        }
    }

    // Every link still lands on a surviving row.
    assert forall|k: int| 0 <= k < v2.len() implies #[trigger] v2.links_ok_at(k) by {
        assert(v.links_ok_at(k));
        assert(v.links_ok_at(i));
        assert(v.links_ok_at(last));
        assert forall|f: int| 0 <= f < n implies link_ok(#[trigger] vu.parents[f], n) && link_ok(
            vu.first_children[f],
            n,
        ) && link_ok(vu.next_siblings[f], n) && link_ok(vu.prev_siblings[f], n) by {
            assert(v.links_ok_at(f));
            if v.parents[i].index != INSTANCE_NONE {
                assert(v.links_ok_at(v.parents[i].index as int));
            }
            if v.prev_siblings[i].index != INSTANCE_NONE {
                assert(v.links_ok_at(v.prev_siblings[i].index as int));
            }
            if v.next_siblings[i].index != INSTANCE_NONE {
                assert(v.links_ok_at(v.next_siblings[i].index as int));
            }
        }
        assert(link_ok(vm.parents[k], n - 1) && link_ok(vm.first_children[k], n - 1) && link_ok(
            vm.next_siblings[k],
            n - 1,
        ) && link_ok(vm.prev_siblings[k], n - 1)) by {
            assert(link_ok(vu.parents[k], n) && link_ok(vu.first_children[k], n) && link_ok(
                vu.next_siblings[k],
                n,
            ) && link_ok(vu.prev_siblings[k], n));
            assert(link_ok(vu.parents[last], n) && link_ok(vu.first_children[last], n) && link_ok(
                vu.next_siblings[last],
                n,
            ) && link_ok(vu.prev_siblings[last], n));
            // after the unlink pass no link names row i, and the move pass
            // renames every link to the old last row
            assert(vu.parents[k].index != i && vu.first_children[k].index != i
                && vu.next_siblings[k].index != i && vu.prev_siblings[k].index != i) by {
                assert(i as usize != INSTANCE_NONE);
            }
            assert(vu.parents[last].index != i && vu.first_children[last].index != i
                && vu.next_siblings[last].index != i && vu.prev_siblings[last].index != i) by {
                assert(i as usize != INSTANCE_NONE);
            }
        }
        assert(v2.parents[k] == vm.parents[k]);
        assert(v2.first_children[k] == vm.first_children[k]);
        assert(v2.next_siblings[k] == vm.next_siblings[k]);
        assert(v2.prev_siblings[k] == vm.prev_siblings[k]);
        assert(v2.len() == n - 1);
    }

    // Every surviving entity keeps its component data.
    assert forall|id: u32|
        #[trigger] v2.contains(id) implies spec_payload(v2, id) == spec_payload(v, id) by {
        let k0 = v.map[id].index as int;
        if id == lid {
            assert(v2.map[id] == (EntityInstance { index: i as usize }));
            assert(v2.local_positions[i] == v.local_positions[last]);
        } else {
            assert(v2.map[id] == v.map[id]);
            assert(k0 != i && k0 != last);
            assert(v2.local_positions[k0] == v.local_positions[k0]);
        }
    }
}

/// The row a destroy pass removes next, starting from `cur`: follow
/// first-child links downward, one step per stored row at most, to a row
/// without children.
pub open spec fn spec_descend(v: TransformView, cur: int, steps: nat) -> int
    decreases steps,
{
    if steps == 0 {
        cur
    } else {
        let fcl = v.first_children[cur];
        if fcl.index == INSTANCE_NONE || (fcl.index as int) >= v.len() {
            cur
        } else {
            spec_descend(v, fcl.index as int, (steps - 1) as nat)
        }
    }
}

/// The row one destroy step removes: the deepest first-child descendant of
/// `id`'s row, or — should the walk be cut short by cyclic links — the row
/// of `id` itself.
pub open spec fn spec_destroy_row(v: TransformView, id: u32) -> int {
    let t = v.map[id].index as int;
    let leaf = spec_descend(v, t, v.len() as nat);
    let fcl = v.first_children[leaf];
    if fcl.index != INSTANCE_NONE && (fcl.index as int) < v.len() {
        t
    } else {
        leaf
    }
}

/// The state after destroying `id`'s component and its whole subtree:
/// rows are removed one at a time, deepest first, each by
/// [`spec_remove`]'s swap-compaction, until `id` itself is gone. Each step
/// removes one row, so one step of fuel per stored row always suffices;
/// [`TransformSystem::destroy`] passes exactly that.
pub open spec fn spec_destroy_ts(v: TransformView, id: u32, fuel: nat) -> TransformView
    decreases fuel,
{
    if fuel == 0 || !v.wf() || !v.contains(id) {
        v
    } else {
        spec_destroy_ts(spec_remove(v, spec_destroy_row(v, id)), id, (fuel - 1) as nat)
    }
}

/// The state after reacting to a list of destroyed entities: the first `k`
/// listed entities that still have a component are destroyed in order,
/// subtree and all.
pub open spec fn spec_handle_destroyed(v: TransformView, entities: Seq<Entity>, k: int)
    -> TransformView
    decreases k,
{
    if k <= 0 {
        v
    } else {
        let v1 = spec_handle_destroyed(v, entities, k - 1);
        if v1.wf() && v1.contains(entities[k - 1].id) {
            spec_destroy_ts(v1, entities[k - 1].id, v1.len() as nat)
        } else {
            v1
        }
    }
}

impl TransformSystem {
    /// Removes the component row at `index`: detaches it from the tree,
    /// swap-compacts the last row into its place, and updates the map.
    /// Any child of the removed row becomes a root.
    fn remove_component(&mut self, index: usize)
        requires
            old(self)@.wf(),
            (index as int) < old(self)@.len(),
        ensures
            final(self)@ == spec_remove(old(self)@, index as int),
            final(self)@.wf(),
            final(self)@.len() == old(self)@.len() - 1,
            forall|id: u32|
                #[trigger] final(self)@.contains(id) <==> old(self)@.contains(id) && id != old(
                    self,
                )@.entities[index as int].id,
            forall|id: u32|
                #[trigger] final(self)@.contains(id) ==> spec_payload(final(self)@, id)
                    == spec_payload(old(self)@, id),
    {
        proof {
            lemma_remove_ok(old(self)@, index as int);
            proof_subst_lengths(old(self)@, index as int);
            assert(old(self)@.links_ok_at(index as int));
        }
        let last = self.entities.len() - 1;
        let last_entity = self.entities[last];
        let removed_entity = self.entities[index];
        let me = EntityInstance::new(index);

        // Detach the removed row from its parent and siblings.
        let par = self.parents[index];
        let prev = self.prev_siblings[index];
        let next = self.next_siblings[index];
        if par.is_valid() && self.first_children[par.index] == me {
            self.first_children.set(par.index, next);
        }
        if prev.is_valid() {
            self.next_siblings.set(prev.index, next);
        }
        if next.is_valid() {
            self.prev_siblings.set(next.index, prev);
        }
        // Null out any remaining link to the removed row.
        replace_links(&mut self.parents, index, EntityInstance::none());
        replace_links(&mut self.first_children, index, EntityInstance::none());
        replace_links(&mut self.next_siblings, index, EntityInstance::none());
        replace_links(&mut self.prev_siblings, index, EntityInstance::none());
        proof {
            let vu = spec_unlink(old(self)@, index as int);
            assert(self@.parents =~= vu.parents);
            assert(self@.first_children =~= vu.first_children);
            assert(self@.next_siblings =~= vu.next_siblings);
            assert(self@.prev_siblings =~= vu.prev_siblings);
        }

        // Copy the last row into the freed slot.
        self.entities.set(index, last_entity);
        let d0 = self.local_positions[last];
        self.local_positions.set(index, d0);
        let d1 = self.local_rotations[last];
        self.local_rotations.set(index, d1);
        let d2 = self.local_scales[last];
        self.local_scales.set(index, d2);
        let d3 = self.world_positions[last];
        self.world_positions.set(index, d3);
        let d4 = self.world_rotations[last];
        self.world_rotations.set(index, d4);
        let d5 = self.world_scales[last];
        self.world_scales.set(index, d5);
        let l0 = self.parents[last];
        self.parents.set(index, l0);
        let l1 = self.first_children[last];
        self.first_children.set(index, l1);
        let l2 = self.next_siblings[last];
        self.next_siblings.set(index, l2);
        let l3 = self.prev_siblings[last];
        self.prev_siblings.set(index, l3);
        // Redirect every link to the old last row onto its new slot.
        replace_links(&mut self.parents, last, me);
        replace_links(&mut self.first_children, last, me);
        replace_links(&mut self.next_siblings, last, me);
        replace_links(&mut self.prev_siblings, last, me);
        proof {
            let vu = spec_unlink(old(self)@, index as int);
            let vm = spec_move(vu, old(self)@.len() - 1, index as int);
            assert(self@.entities =~= vm.entities);
            assert(self@.local_positions =~= vm.local_positions);
            assert(self@.local_rotations =~= vm.local_rotations);
            assert(self@.local_scales =~= vm.local_scales);
            assert(self@.world_positions =~= vm.world_positions);
            assert(self@.world_rotations =~= vm.world_rotations);
            assert(self@.world_scales =~= vm.world_scales);
            assert(self@.parents =~= vm.parents);
            assert(self@.first_children =~= vm.first_children);
            assert(self@.next_siblings =~= vm.next_siblings);
            assert(self@.prev_siblings =~= vm.prev_siblings);
        }

        // Shrink every column by one.
        self.entities.pop();
        self.local_positions.pop();
        self.local_rotations.pop();
        self.local_scales.pop();
        self.world_positions.pop();
        self.world_rotations.pop();
        self.world_scales.pop();
        self.parents.pop();
        self.first_children.pop();
        self.next_siblings.pop();
        self.prev_siblings.pop();

        // The map follows the moved entity and forgets the removed one.
        self.map.insert(last_entity.id, me);
        self.map.remove(&removed_entity.id);
        proof {
            let v2 = spec_remove(old(self)@, index as int);
            assert(self@.map =~= v2.map);
            assert(self@.entities =~= v2.entities);
            assert(self@.local_positions =~= v2.local_positions);
            assert(self@.local_rotations =~= v2.local_rotations);
            assert(self@.local_scales =~= v2.local_scales);
            assert(self@.world_positions =~= v2.world_positions);
            assert(self@.world_rotations =~= v2.world_rotations);
            assert(self@.world_scales =~= v2.world_scales);
            assert(self@.parents =~= v2.parents);
            assert(self@.first_children =~= v2.first_children);
            assert(self@.next_siblings =~= v2.next_siblings);
            assert(self@.prev_siblings =~= v2.prev_siblings);
            assert(self@ =~= v2);
        }
    }

    /// Removes `entity`'s component together with its whole subtree, as
    /// [`spec_destroy_ts`] states: descendants are removed first, deepest
    /// first, so the tree stays consistent throughout; the dense arrays are
    /// swap-compacted at every step, so any instance the caller still holds
    /// is stale afterwards. Every surviving entity keeps its component
    /// data.
    pub fn destroy(&mut self, entity: Entity)
        requires
            old(self)@.wf(),
            old(self)@.contains(entity.id),
        ensures
            final(self)@ == spec_destroy_ts(old(self)@, entity.id, old(self)@.len() as nat),
            final(self)@.wf(),
            !final(self)@.contains(entity.id),
            final(self)@.len() < old(self)@.len(),
            forall|id: u32|
                #[trigger] final(self)@.contains(id) ==> old(self)@.contains(id) && id
                    != entity.id,
            forall|id: u32|
                #[trigger] final(self)@.contains(id) ==> spec_payload(final(self)@, id)
                    == spec_payload(old(self)@, id),
    {
        loop
            invariant_except_break
                self@.contains(entity.id),
            invariant
                self@.wf(),
                self@.len() <= old(self)@.len(),
                spec_destroy_ts(old(self)@, entity.id, old(self)@.len() as nat)
                    == spec_destroy_ts(self@, entity.id, self@.len() as nat),
                forall|id: u32| #[trigger] self@.contains(id) ==> old(self)@.contains(id),
                forall|id: u32|
                    #[trigger] self@.contains(id) ==> spec_payload(self@, id) == spec_payload(
                        old(self)@,
                        id,
                    ),
            ensures
                self@.wf(),
                !self@.contains(entity.id),
                self@.len() < old(self)@.len(),
                spec_destroy_ts(old(self)@, entity.id, old(self)@.len() as nat)
                    == spec_destroy_ts(self@, entity.id, self@.len() as nat),
                forall|id: u32|
                    #[trigger] self@.contains(id) ==> old(self)@.contains(id) && id != entity.id,
                forall|id: u32|
                    #[trigger] self@.contains(id) ==> spec_payload(self@, id) == spec_payload(
                        old(self)@,
                        id,
                    ),
            decreases self@.len(),
        {
            let inst = self.get_instance(entity);
            let n = self.count();
            // Descend along first-child links to a row without children.
            let mut cur: usize = inst.index;
            let mut steps: usize = 0;
            while steps < n
                invariant
                    self@.wf(),
                    n == self@.len(),
                    (inst.index as int) < self@.len(),
                    (cur as int) < self@.len(),
                    steps <= n,
                    spec_descend(self@, inst.index as int, n as nat) == spec_descend(
                        self@,
                        cur as int,
                        (n - steps) as nat,
                    ),
                ensures
                    self@.wf(),
                    n == self@.len(),
                    (cur as int) < self@.len(),
                    spec_descend(self@, inst.index as int, n as nat) == cur as int,
                decreases n - steps,
            {
                let fc = self.get_first_child(EntityInstance::new(cur));
                if !fc.is_valid() {
                    proof {
                        assert(spec_descend(self@, cur as int, (n - steps) as nat) == cur as int);
                    }
                    break ;
                }
                proof {
                    assert(self@.links_ok_at(cur as int));
                    assert(spec_descend(self@, cur as int, (n - steps) as nat) == spec_descend(
                        self@,
                        fc.index as int,
                        (n - steps - 1) as nat,
                    ));
                }
                cur = fc.index;
                steps += 1;
            }
            // If the guard cut the walk short the links are cyclic; remove
            // the target row itself then, orphaning its children.
            let ghost leaf = cur as int;
            let fc2 = self.get_first_child(EntityInstance::new(cur));
            if fc2.is_valid() {
                cur = inst.index;
            }
            proof {
                assert(self@.links_ok_at(leaf));
                assert(spec_destroy_row(self@, entity.id) == cur as int);
            }
            let ghost pre = self@;
            let ghost removed_id = self@.entities[cur as int].id;
            let hit_target = cur == inst.index;
            proof {
                if !hit_target {
                    // a different row holds a different entity
                    assert(pre.map[pre.entities[cur as int].id] == (EntityInstance {
                        index: cur,
                    }));
                    assert(pre.map[entity.id] == (EntityInstance { index: inst.index }));
                    assert(removed_id != entity.id);
                } else {
                    assert(pre.map[pre.entities[cur as int].id] == (EntityInstance {
                        index: cur,
                    }));
                    assert(removed_id == entity.id);
                }
            }
            self.remove_component(cur);
            proof {
                assert(pre.len() >= 1);
                assert(spec_destroy_ts(pre, entity.id, pre.len() as nat) == spec_destroy_ts(
                    spec_remove(pre, cur as int),
                    entity.id,
                    (pre.len() - 1) as nat,
                ));
                assert(self@ == spec_remove(pre, cur as int));
                assert(self@.len() == pre.len() - 1);
            }
            if hit_target {
                proof {
                    assert(!self@.contains(entity.id));
                    assert(spec_destroy_ts(self@, entity.id, self@.len() as nat) == self@);
                }
                break ;
            }
        }
    }

    /// Removes the components of every listed entity that still has one,
    /// subtree and all, in list order — [`spec_handle_destroyed`] states the
    /// exact result; a listed entity without a component changes nothing,
    /// so a second pass over the same list is a no-op (see
    /// [`lemma_handle_destroyed_idempotent`]). Lets this system react to
    /// entities destroyed elsewhere.
    pub fn handle_destroyed(&mut self, entities: &[Entity])
        requires
            old(self)@.wf(),
        ensures
            final(self)@ == spec_handle_destroyed(old(self)@, entities@, entities@.len() as int),
            final(self)@.wf(),
            forall|k: int| 0 <= k < entities@.len() ==> !final(self)@.contains(
                (#[trigger] entities@[k]).id,
            ),
            forall|id: u32| #[trigger] final(self)@.contains(id) ==> old(self)@.contains(id),
            forall|id: u32|
                #[trigger] final(self)@.contains(id) ==> spec_payload(final(self)@, id)
                    == spec_payload(old(self)@, id),
    {
        let mut k: usize = 0;
        while k < entities.len()
            invariant
                self@.wf(),
                k <= entities@.len(),
                self@ == spec_handle_destroyed(old(self)@, entities@, k as int),
                forall|j: int| 0 <= j < k ==> !self@.contains((#[trigger] entities@[j]).id),
                forall|id: u32| #[trigger] self@.contains(id) ==> old(self)@.contains(id),
                forall|id: u32|
                    #[trigger] self@.contains(id) ==> spec_payload(self@, id) == spec_payload(
                        old(self)@,
                        id,
                    ),
            decreases entities@.len() - k,
        {
            let ghost before = self@;
            let entity = *vstd::slice::slice_index_get(entities, k);
            if self.has_component(entity) {
                self.destroy(entity);
            }
            proof {
                assert(self@ == spec_handle_destroyed(old(self)@, entities@, k as int + 1)) by {
                    assert(spec_handle_destroyed(old(self)@, entities@, k as int) == before);
                    if before.contains(entities@[k as int].id) {
                        assert(self@ == spec_destroy_ts(
                            before,
                            entities@[k as int].id,
                            before.len() as nat,
                        ));
                    }
                }
            }
            k += 1;
        }
    }
}

impl TransformSystem {
    /// Serializes this system's whole state into the fixed little-endian
    /// table format: a row count, then per section the entity ids, local
    /// and world transform values, and the four link columns. Tree links
    /// are stored as dense row positions, so the bytes only resolve against
    /// a loader that rebuilds the same row order.
    pub fn save(&self) -> (out: Vec<u8>)
        requires
            self@.wf(),
        ensures
            out@ == spec_save_bytes(self@),
    {
        let n = self.entities.len();
        let ghost nn = n as int;
        let ghost all = spec_ts_words(self@);
        let mut words: Vec<u32> = Vec::new();
        words.push(n as u32);
        proof {
            assert(all.take(1) =~= words@);
        }
        let mut i: usize = 0;
        while i < n
            invariant
                self@.wf(),
                n == self@.len(),
                nn == n as int,
                all == spec_ts_words(self@),
                i <= n,
                words@.len() == 1 + i,
                words@ == all.take(1 + i as int),
            decreases n - i,
        {
            words.push(self.entities[i].id);
            proof {
                assert(spec_word_at(self@, 1 + i as int) == self@.entities[i as int].id);
                assert(all.take(1 + i as int + 1) =~= all.take(1 + i as int).push(
                    spec_word_at(self@, 1 + i as int),
                ));
            }
            i += 1;
        }
        i = 0;
        while i < n
            invariant
                self@.wf(),
                n == self@.len(),
                nn == n as int,
                all == spec_ts_words(self@),
                i <= n,
                words@.len() == 1 + nn + 3 * i,
                words@ == all.take(1 + nn + 3 * i as int),
            decreases n - i,
        {
            let p = self.local_positions[i];
            words.push(p.x);
            words.push(p.y);
            words.push(p.z);
            proof {
                let base = 1 + nn + 3 * (i as int);
                lemma_div3(i as int, 0);
                lemma_div3(i as int, 1);
                lemma_div3(i as int, 2);
                assert(spec_word_at(self@, base) == p.x);
                assert(spec_word_at(self@, base + 1) == p.y);
                assert(spec_word_at(self@, base + 2) == p.z);
                assert(all.take(base + 3) =~= all.take(base) + seq![
                    spec_word_at(self@, base),
                    spec_word_at(self@, base + 1),
                    spec_word_at(self@, base + 2),
                ]);
            }
            i += 1;
        }
        i = 0;
        while i < n
            invariant
                self@.wf(),
                n == self@.len(),
                nn == n as int,
                all == spec_ts_words(self@),
                i <= n,
                words@.len() == 1 + 4 * nn + 4 * i,
                words@ == all.take(1 + 4 * nn + 4 * i as int),
            decreases n - i,
        {
            let q = self.local_rotations[i];
            words.push(q.s);
            words.push(q.x);
            words.push(q.y);
            words.push(q.z);
            proof {
                let base = 1 + 4 * nn + 4 * (i as int);
                lemma_div4(i as int, 0);
                lemma_div4(i as int, 1);
                lemma_div4(i as int, 2);
                lemma_div4(i as int, 3);
                assert(spec_word_at(self@, base) == q.s);
                assert(spec_word_at(self@, base + 1) == q.x);
                assert(spec_word_at(self@, base + 2) == q.y);
                assert(spec_word_at(self@, base + 3) == q.z);
                assert(all.take(base + 4) =~= all.take(base) + seq![
                    spec_word_at(self@, base),
                    spec_word_at(self@, base + 1),
                    spec_word_at(self@, base + 2),
                    spec_word_at(self@, base + 3),
                ]);
            }
            i += 1;
        }
        i = 0;
        while i < n
            invariant
                self@.wf(),
                n == self@.len(),
                nn == n as int,
                all == spec_ts_words(self@),
                i <= n,
                words@.len() == 1 + 8 * nn + i,
                words@ == all.take(1 + 8 * nn + i as int),
            decreases n - i,
        {
            words.push(self.local_scales[i]);
            proof {
                let base = 1 + 8 * nn + i as int;
                assert(spec_word_at(self@, base) == self@.local_scales[i as int]);
                assert(all.take(base + 1) =~= all.take(base).push(spec_word_at(self@, base)));
            }
            i += 1;
        }
        i = 0;
        while i < n
            invariant
                self@.wf(),
                n == self@.len(),
                nn == n as int,
                all == spec_ts_words(self@),
                i <= n,
                words@.len() == 1 + 9 * nn + 3 * i,
                words@ == all.take(1 + 9 * nn + 3 * i as int),
            decreases n - i,
        {
            let p = self.world_positions[i];
            words.push(p.x);
            words.push(p.y);
            words.push(p.z);
            proof {
                let base = 1 + 9 * nn + 3 * (i as int);
                lemma_div3(i as int, 0);
                lemma_div3(i as int, 1);
                lemma_div3(i as int, 2);
                assert(spec_word_at(self@, base) == p.x);
                assert(spec_word_at(self@, base + 1) == p.y);
                assert(spec_word_at(self@, base + 2) == p.z);
                assert(all.take(base + 3) =~= all.take(base) + seq![
                    spec_word_at(self@, base),
                    spec_word_at(self@, base + 1),
                    spec_word_at(self@, base + 2),
                ]);
            }
            i += 1;
        }
        i = 0;
        while i < n
            invariant
                self@.wf(),
                n == self@.len(),
                nn == n as int,
                all == spec_ts_words(self@),
                i <= n,
                words@.len() == 1 + 12 * nn + 4 * i,
                words@ == all.take(1 + 12 * nn + 4 * i as int),
            decreases n - i,
        {
            let q = self.world_rotations[i];
            words.push(q.s);
            words.push(q.x);
            words.push(q.y);
            words.push(q.z);
            proof {
                let base = 1 + 12 * nn + 4 * (i as int);
                lemma_div4(i as int, 0);
                lemma_div4(i as int, 1);
                lemma_div4(i as int, 2);
                lemma_div4(i as int, 3);
                assert(spec_word_at(self@, base) == q.s);
                assert(spec_word_at(self@, base + 1) == q.x);
                assert(spec_word_at(self@, base + 2) == q.y);
                assert(spec_word_at(self@, base + 3) == q.z);
                assert(all.take(base + 4) =~= all.take(base) + seq![
                    spec_word_at(self@, base),
                    spec_word_at(self@, base + 1),
                    spec_word_at(self@, base + 2),
                    spec_word_at(self@, base + 3),
                ]);
            }
            i += 1;
        }
        i = 0;
        while i < n
            invariant
                self@.wf(),
                n == self@.len(),
                nn == n as int,
                all == spec_ts_words(self@),
                i <= n,
                words@.len() == 1 + 16 * nn + i,
                words@ == all.take(1 + 16 * nn + i as int),
            decreases n - i,
        {
            words.push(self.world_scales[i]);
            proof {
                let base = 1 + 16 * nn + i as int;
                assert(spec_word_at(self@, base) == self@.world_scales[i as int]);
                assert(all.take(base + 1) =~= all.take(base).push(spec_word_at(self@, base)));
            }
            i += 1;
        }
        let mut section: usize = 0;
        proof {
            assert((17 + section as int) * nn == 17 * nn) by (nonlinear_arith)
                requires
                    section == 0,
            ;
        }
        while section < 4
            invariant
                self@.wf(),
                n == self@.len(),
                nn == n as int,
                all == spec_ts_words(self@),
                section <= 4,
                words@.len() == 1 + (17 + section) * nn,
                words@ == all.take(1 + (17 + section as int) * nn),
            decreases 4 - section,
        {
            i = 0;
            while i < n
                invariant
                    self@.wf(),
                    n == self@.len(),
                    nn == n as int,
                    all == spec_ts_words(self@),
                    section < 4,
                    i <= n,
                    words@.len() == 1 + (17 + section) * nn + i,
                    words@ == all.take(1 + (17 + section as int) * nn + i as int),
                decreases n - i,
            {
                let l = if section == 0 {
                    self.parents[i]
                } else if section == 1 {
                    self.first_children[i]
                } else if section == 2 {
                    self.next_siblings[i]
                } else {
                    self.prev_siblings[i]
                };
                proof {
                    assert(self@.links_ok_at(i as int));
                }
                let w = if l.is_valid() {
                    l.index as u32
                } else {
                    0xFFFFFFFFu32
                };
                words.push(w);
                proof {
                    let base = 1 + (17 + section as int) * nn + i as int;
                    assert(w == spec_link_word(l));
                    assert(spec_word_at(self@, base) == w);
                    assert(all.take(base + 1) =~= all.take(base).push(spec_word_at(self@, base)));
                }
                i += 1;
            }
            proof {
                assert((17 + section as int) * nn + nn == (17 + (section + 1) as int) * nn)
                    by (nonlinear_arith);
            }
            section += 1;
        }
        proof {
            assert((17 + 4) * nn == 21 * nn) by (nonlinear_arith);
            assert(words@ =~= all);
        }
        let mut out: Vec<u8> = Vec::new();
        let mut k: usize = 0;
        let total = words.len();
        while k < total
            invariant
                total == words@.len(),
                words@ == all,
                k <= total,
                out@ == spec_words_bytes(words@.take(k as int)),
            decreases total - k,
        {
            let w = words[k];
            push_u32(&mut out, w);
            proof {
                lemma_words_bytes_snoc(words@.take(k as int), w);
                assert(words@.take(k as int + 1) =~= words@.take(k as int).push(w));
            }
            k += 1;
        }
        proof {
            assert(words@.take(total as int) =~= words@);
        }
        out
    }
}

impl TransformSystem {
    /// Replaces this system's state with the table persisted in `input`,
    /// resolving each stored entity id through `id_map` — the table a
    /// fresh entity manager yields when it recreates the entities in saved
    /// order. The table may be longer than the row count: stored ids index
    /// it, and ids need not be dense. Rejects, without touching the current
    /// state, a stream that is truncated or oversized, an id the table does
    /// not cover, two rows naming one entity, and a tree link that is
    /// neither the sentinel nor a stored row.
    pub fn load(&mut self, input: &[u8], id_map: &[Entity]) -> (r: Result<(), LoadError>)
        ensures
            r.is_ok() <==> spec_load_result(input@, id_map@).is_some(),
            r.is_ok() ==> final(self)@ == spec_load_result(input@, id_map@).unwrap(),
            r.is_ok() ==> final(self)@.wf(),
            !r.is_ok() ==> final(self)@ == old(self)@,
            (r == Err::<(), LoadError>(LoadError::UnexpectedEnd)) <==> spec_load_truncated(input@),
            (r == Err::<(), LoadError>(LoadError::UnknownEntity)) <==> (!spec_load_truncated(input@)
                && !spec_load_ids_ok(input@, id_map@)),
            (r == Err::<(), LoadError>(LoadError::DuplicateEntity)) <==> (!spec_load_truncated(
                input@,
            ) && spec_load_ids_ok(input@, id_map@) && !spec_load_unique(input@, id_map@)),
            (r == Err::<(), LoadError>(LoadError::InvalidLink)) <==> (!spec_load_truncated(input@)
                && spec_load_ids_ok(input@, id_map@) && spec_load_unique(input@, id_map@)
                && !spec_load_links_ok(input@)),
    {
        let il = input.len();
        if il < 4 {
            return Err(LoadError::UnexpectedEnd);
        }
        let n32 = read_u32_at(input, 0);
        proof {
            let z: int = 0;
            assert(input@.subrange(0, 4) =~= input@.subrange(4 * z, 4 * z + 4));
            assert(n32 as int == spec_load_n(input@));
        }
        if n32 == 0xFFFFFFFFu32 {
            return Err(LoadError::UnexpectedEnd);
        }
        let n: usize = n32 as usize;
        let ghost nn = n as int;
        if (il as u64) < 4u64 + 84u64 * (n32 as u64) {
            return Err(LoadError::UnexpectedEnd);
        }
        proof {
            assert(!spec_load_truncated(input@));
        }
        let total: usize = 1 + 21 * n;
        let ghost ws = spec_bytes_words(input@, 1 + 21 * nn);

        // Read every word of the table.
        let mut words: Vec<u32> = Vec::new();
        let mut k: usize = 0;
        let mut pos: usize = 0;
        while k < total
            invariant
                il == input@.len(),
                input@.len() >= 4 + 84 * nn,
                nn == n as int,
                n < 0xFFFFFFFF,
                total == 1 + 21 * nn,
                ws == spec_bytes_words(input@, 1 + 21 * nn),
                k <= total,
                pos == 4 * k,
                words@.len() == k,
                forall|j: int| 0 <= j < k ==> #[trigger] words@[j] == ws[j],
            decreases total - k,
        {
            let w = read_u32_at(input, pos);
            words.push(w);
            k += 1;
            pos += 4;
        }
        proof {
            assert(words@ =~= ws);
        }

        // Resolve each stored id through the table.
        let mut entities: Vec<Entity> = Vec::new();
        let mut i: usize = 0;
        while i < n
            invariant
                nn == n as int,
                n < 0xFFFFFFFF,
                nn == spec_load_n(input@),
                !spec_load_truncated(input@),
                ws == spec_bytes_words(input@, 1 + 21 * nn),
                total == 1 + 21 * nn,
                words@ == ws,
                words@.len() == total,
                i <= n,
                entities@.len() == i,
                forall|j: int| 0 <= j < i ==> ((#[trigger] ws[1 + j]) as int) < id_map@.len(),
                forall|j: int| 0 <= j < i ==> #[trigger] entities@[j] == id_map@[ws[1 + j] as int],
            decreases n - i,
        {
            let w = words[1 + i];
            if (w as usize) >= id_map.len() {
                proof {
                    assert(!spec_ids_in_table(ws, nn, id_map@));
                }
                return Err(LoadError::UnknownEntity);
            }
            entities.push(*vstd::slice::slice_index_get(id_map, w as usize));
            i += 1;
        }
        let ghost des = spec_decoded_entities(ws, nn, id_map@);
        proof {
            assert(spec_ids_in_table(ws, nn, id_map@));
            assert(entities@ =~= des);
        }

        // Reject a table in which two rows name one entity.
        let mut map: HashMap<u32, EntityInstance> = HashMap::new();
        i = 0;
        while i < n
            invariant
                nn == n as int,
                n < 0xFFFFFFFF,
                nn == spec_load_n(input@),
                !spec_load_truncated(input@),
                ws == spec_bytes_words(input@, 1 + 21 * nn),
                spec_ids_in_table(ws, nn, id_map@),
                des == spec_decoded_entities(ws, nn, id_map@),
                entities@ == des,
                entities@.len() == nn,
                i <= n,
                map@ == spec_map_of(entities@.take(i as int)),
                spec_ids_unique(entities@.take(i as int)),
            decreases n - i,
        {
            let e = entities[i];
            if map.contains_key(&e.id) {
                proof {
                    let t = entities@.take(i as int);
                    lemma_map_of_props(t);
                    let j = choose|j: int| 0 <= j < t.len() && (#[trigger] t[j]).id == e.id;
                    assert(entities@[j].id == entities@[i as int].id);
                    assert(!spec_ids_unique(entities@));
                }
                return Err(LoadError::DuplicateEntity);
            }
            map.insert(e.id, EntityInstance::new(i));
            proof {
                let t0 = entities@.take(i as int);
                let t1 = entities@.take(i as int + 1);
                assert(t1.drop_last() =~= t0);
                assert(t1.last() == entities@[i as int]);
                assert(map@ =~= spec_map_of(t1));
                lemma_map_of_props(t0);
                assert forall|a: int, b: int|
                    0 <= a < b < t1.len() implies (#[trigger] t1[a]).id != (#[trigger] t1[b]).id by {
                    if b == i as int {
                        assert(t1[a] == t0[a]);
                        if entities@[a].id == e.id {
                            assert(spec_map_of(t0).contains_key(t0[a].id));
                        }
                    } else {
                        assert(t1[a] == t0[a]);
                        assert(t1[b] == t0[b]);
                    }
                }
            }
            i += 1;
        }
        proof {
            assert(entities@.take(nn) =~= entities@);
            assert(spec_ids_unique(des));
            assert(map@ == spec_map_of(des));
        }

        // Read the transform data columns.
        let mut lp: Vec<Vec3Bits> = Vec::new();
        i = 0;
        while i < n
            invariant
                nn == n as int,
                n < 0xFFFFFFFF,
                total == 1 + 21 * nn,
                words@ == ws,
                words@.len() == total,
                i <= n,
                lp@.len() == i,
                forall|j: int|
                    0 <= j < i ==> #[trigger] lp@[j] == (Vec3Bits {
                        x: ws[1 + nn + 3 * j],
                        y: ws[1 + nn + 3 * j + 1],
                        z: ws[1 + nn + 3 * j + 2],
                    }),
            decreases n - i,
        {
            let b = 1 + n + 3 * i;
            lp.push(Vec3Bits::new(words[b], words[b + 1], words[b + 2]));
            i += 1;
        }
        let mut lr: Vec<QuatBits> = Vec::new();
        i = 0;
        while i < n
            invariant
                nn == n as int,
                n < 0xFFFFFFFF,
                total == 1 + 21 * nn,
                words@ == ws,
                words@.len() == total,
                i <= n,
                lr@.len() == i,
                forall|j: int|
                    0 <= j < i ==> #[trigger] lr@[j] == (QuatBits {
                        s: ws[1 + 4 * nn + 4 * j],
                        x: ws[1 + 4 * nn + 4 * j + 1],
                        y: ws[1 + 4 * nn + 4 * j + 2],
                        z: ws[1 + 4 * nn + 4 * j + 3],
                    }),
            decreases n - i,
        {
            let b = 1 + 4 * n + 4 * i;
            lr.push(QuatBits::new(words[b], words[b + 1], words[b + 2], words[b + 3]));
            i += 1;
        }
        let mut ls: Vec<u32> = Vec::new();
        i = 0;
        while i < n
            invariant
                nn == n as int,
                n < 0xFFFFFFFF,
                total == 1 + 21 * nn,
                words@ == ws,
                words@.len() == total,
                i <= n,
                ls@.len() == i,
                forall|j: int| 0 <= j < i ==> #[trigger] ls@[j] == ws[1 + 8 * nn + j],
            decreases n - i,
        {
            ls.push(words[1 + 8 * n + i]);
            i += 1;
        }
        let mut wp: Vec<Vec3Bits> = Vec::new();
        i = 0;
        while i < n
            invariant
                nn == n as int,
                n < 0xFFFFFFFF,
                total == 1 + 21 * nn,
                words@ == ws,
                words@.len() == total,
                i <= n,
                wp@.len() == i,
                forall|j: int|
                    0 <= j < i ==> #[trigger] wp@[j] == (Vec3Bits {
                        x: ws[1 + 9 * nn + 3 * j],
                        y: ws[1 + 9 * nn + 3 * j + 1],
                        z: ws[1 + 9 * nn + 3 * j + 2],
                    }),
            decreases n - i,
        {
            let b = 1 + 9 * n + 3 * i;
            wp.push(Vec3Bits::new(words[b], words[b + 1], words[b + 2]));
            i += 1;
        }
        let mut wr: Vec<QuatBits> = Vec::new();
        i = 0;
        while i < n
            invariant
                nn == n as int,
                n < 0xFFFFFFFF,
                total == 1 + 21 * nn,
                words@ == ws,
                words@.len() == total,
                i <= n,
                wr@.len() == i,
                forall|j: int|
                    0 <= j < i ==> #[trigger] wr@[j] == (QuatBits {
                        s: ws[1 + 12 * nn + 4 * j],
                        x: ws[1 + 12 * nn + 4 * j + 1],
                        y: ws[1 + 12 * nn + 4 * j + 2],
                        z: ws[1 + 12 * nn + 4 * j + 3],
                    }),
            decreases n - i,
        {
            let b = 1 + 12 * n + 4 * i;
            wr.push(QuatBits::new(words[b], words[b + 1], words[b + 2], words[b + 3]));
            i += 1;
        }
        let mut wsc: Vec<u32> = Vec::new();
        i = 0;
        while i < n
            invariant
                nn == n as int,
                n < 0xFFFFFFFF,
                total == 1 + 21 * nn,
                words@ == ws,
                words@.len() == total,
                i <= n,
                wsc@.len() == i,
                forall|j: int| 0 <= j < i ==> #[trigger] wsc@[j] == ws[1 + 16 * nn + j],
            decreases n - i,
        {
            wsc.push(words[1 + 16 * n + i]);
            i += 1;
        }

        // Read and check the four link columns.
        let c_par = match read_link_column(&words, n, 0) {
            Ok(c) => c,
            Err(e) => {
                return Err(e);
            },
        };
        let c_fc = match read_link_column(&words, n, 1) {
            Ok(c) => c,
            Err(e) => {
                return Err(e);
            },
        };
        let c_ns = match read_link_column(&words, n, 2) {
            Ok(c) => c,
            Err(e) => {
                return Err(e);
            },
        };
        let c_ps = match read_link_column(&words, n, 3) {
            Ok(c) => c,
            Err(e) => {
                return Err(e);
            },
        };
        proof {
            assert(spec_links_valid(ws, nn)) by {
                assert forall|k2: int|
                    1 + 17 * nn <= k2 < 1 + 21 * nn implies ((#[trigger] ws[k2]) == 0xFFFFFFFFu32
                    || (ws[k2] as int) < nn) by {
                    if nn > 0 {
                        let off = k2 - (1 + 17 * nn);
                        let sct = off / nn;
                        let j = off % nn;
                        assert(0 <= sct < 4 && 0 <= j < nn && off == sct * nn + j && k2 == 1 + (17
                            + sct) * nn + j) by (nonlinear_arith)
                            requires
                                nn > 0,
                                0 <= off < 4 * nn,
                                sct == off / nn,
                                j == off % nn,
                                k2 == 1 + 17 * nn + off,
                        ;
                        if sct == 0 {
                            assert(ws[1 + (17 + 0) * nn + j] == 0xFFFFFFFFu32 || (ws[1 + (17 + 0)
                                * nn + j] as int) < nn);
                        } else if sct == 1 {
                            assert(ws[1 + (17 + 1) * nn + j] == 0xFFFFFFFFu32 || (ws[1 + (17 + 1)
                                * nn + j] as int) < nn);
                        } else if sct == 2 {
                            assert(ws[1 + (17 + 2) * nn + j] == 0xFFFFFFFFu32 || (ws[1 + (17 + 2)
                                * nn + j] as int) < nn);
                        } else {
                            assert(ws[1 + (17 + 3) * nn + j] == 0xFFFFFFFFu32 || (ws[1 + (17 + 3)
                                * nn + j] as int) < nn);
                        }
                    }
                }
            }
        }

        // Commit the decoded state.
        self.map = map;
        self.entities = entities;
        self.local_positions = lp;
        self.local_rotations = lr;
        self.local_scales = ls;
        self.world_positions = wp;
        self.world_rotations = wr;
        self.world_scales = wsc;
        self.parents = c_par;
        self.first_children = c_fc;
        self.next_siblings = c_ns;
        self.prev_siblings = c_ps;
        proof {
            let d = spec_decoded_view(ws, nn, id_map@);
            assert(final(self)@.entities =~= d.entities);
            assert(final(self)@.map =~= d.map);
            assert(final(self)@.local_positions =~= d.local_positions);
            assert(final(self)@.local_rotations =~= d.local_rotations);
            assert(final(self)@.local_scales =~= d.local_scales);
            assert(final(self)@.world_positions =~= d.world_positions);
            assert(final(self)@.world_rotations =~= d.world_rotations);
            assert(final(self)@.world_scales =~= d.world_scales);
            assert(final(self)@.parents =~= d.parents);
            assert(final(self)@.first_children =~= d.first_children);
            assert(final(self)@.next_siblings =~= d.next_siblings);
            assert(final(self)@.prev_siblings =~= d.prev_siblings);
            assert(final(self)@ =~= d);
            lemma_decoded_wf(ws, nn, id_map@);
            assert(spec_load_result(input@, id_map@) == Some(d));
        }
        Ok(())
    }
}

/// Reads link column `section` (parents, first children, next siblings,
/// previous siblings in that order) out of the word table, rejecting any
/// link that is neither the sentinel nor a stored row.
fn read_link_column(words: &Vec<u32>, n: usize, section: usize) -> (r: Result<
    Vec<EntityInstance>,
    LoadError,
>)
    requires
        (n as int) < 0xFFFFFFFF,
        section < 4,
        words@.len() == 1 + 21 * (n as int),
    ensures
        match r {
            Ok(col) => {
                &&& col@.len() == n as int
                &&& forall|j: int|
                    0 <= j < n as int ==> #[trigger] col@[j] == spec_word_link(
                        words@[1 + (17 + section as int) * (n as int) + j],
                    )
                &&& forall|j: int|
                    0 <= j < n as int ==> ((#[trigger] words@[1 + (17 + section as int) * (n
                        as int) + j]) == 0xFFFFFFFFu32 || (words@[1 + (17 + section as int) * (n
                        as int) + j] as int) < n as int)
            },
            Err(e) => e == LoadError::InvalidLink && !spec_links_valid(words@, n as int),
        },
{
    let ghost nn = n as int;
    let ghost ws = words@;
    let wl = words.len();
    let mut col: Vec<EntityInstance> = Vec::new();
    let mut i: usize = 0;
    while i < n
        invariant
            nn == n as int,
            n < 0xFFFFFFFF,
            section < 4,
            ws == words@,
            wl == words@.len(),
            words@.len() == 1 + 21 * nn,
            i <= n,
            col@.len() == i,
            forall|j: int|
                0 <= j < i ==> #[trigger] col@[j] == spec_word_link(
                    ws[1 + (17 + section as int) * nn + j],
                ),
            forall|j: int|
                0 <= j < i ==> ((#[trigger] ws[1 + (17 + section as int) * nn + j])
                    == 0xFFFFFFFFu32 || (ws[1 + (17 + section as int) * nn + j] as int) < nn),
        decreases n - i,
    {
        proof {
            assert((17 + section as int) * nn + nn <= 21 * nn && (17 + section as int) * nn >= 0)
                by (nonlinear_arith)
                requires
                    0 <= (section as int) < 4,
                    nn >= 0,
            ;
            assert(1 + (17 + section as int) * nn + (i as int) < wl as int);
        }
        let b = 1 + (17 + section) * n + i;
        let w = words[b];
        if w != 0xFFFFFFFFu32 && (w as usize) >= n {
            proof {
                assert(1 + 17 * nn <= (b as int) && (b as int) < 1 + 21 * nn) by (nonlinear_arith)
                    requires
                        (b as int) == 1 + (17 + (section as int)) * nn + (i as int),
                        0 <= (section as int) < 4,
                        0 <= (i as int) < nn,
                ;
                assert(!spec_links_valid(ws, nn));
            }
            return Err(LoadError::InvalidLink);
        }
        col.push(
            if w == 0xFFFFFFFFu32 {
                EntityInstance::none()
            } else {
                EntityInstance::new(w as usize)
            },
        );
        i += 1;
    }
    Ok(col)
}

/// Dense-array consistency: in a well-formed store — and every operation
/// requires and re-establishes well-formedness — each stored entity's
/// instance indexes a row that names that entity again.
pub proof fn lemma_dense_consistency(v: TransformView, e: Entity)
    requires
        v.wf(),
        v.contains(e.id),
    ensures
        (v.map[e.id].index as int) < v.len(),
        v.entities[v.map[e.id].index as int] == e,
{
    assert(v.entities[v.map[e.id].index as int].id == e.id);
}

/// Child iteration order: attaching `a`, then `b`, then `c` under `p`
/// links them so that `p`'s child list is walked c, b, a — each child most
/// recently attached first.
pub proof fn lemma_child_iteration_order(v: TransformView, a: int, b: int, c: int, p: int)
    requires
        v.wf(),
        0 <= a < v.len(),
        0 <= b < v.len(),
        0 <= c < v.len(),
        0 <= p < v.len(),
        a != b,
        a != c,
        a != p,
        b != c,
        b != p,
        c != p,
        v.first_children[p].index == INSTANCE_NONE,
        v.parents[a].index == INSTANCE_NONE,
        v.parents[b].index == INSTANCE_NONE,
        v.parents[c].index == INSTANCE_NONE,
    ensures
        ({
            let v3 = spec_set_parent(spec_set_parent(spec_set_parent(v, a, p), b, p), c, p);
            spec_children(v3, p) == seq![
                EntityInstance { index: c as usize },
                EntityInstance { index: b as usize },
                EntityInstance { index: a as usize },
            ]
        }),
{
    let n = v.len();
    let v1 = spec_set_parent(v, a, p);
    let v2 = spec_set_parent(v1, b, p);
    let v3 = spec_set_parent(v2, c, p);
    let ea = EntityInstance { index: a as usize };
    let eb = EntityInstance { index: b as usize };
    let ec = EntityInstance { index: c as usize };
    let ns = v3.next_siblings;
    assert(ns.len() == n);
    assert(v3.first_children[p] == ec);
    assert(ns[c] == eb);
    assert(ns[b] == ea);
    assert(ns[a].index == INSTANCE_NONE);
    assert(n >= 4) by {
        assert(a < n && b < n && c < n && p < n);
    }
    assert(spec_chain(ns, ec, n as nat) == seq![ec] + spec_chain(ns, eb, (n - 1) as nat));
    assert(spec_chain(ns, eb, (n - 1) as nat) == seq![eb] + spec_chain(ns, ea, (n - 2) as nat));
    assert(spec_chain(ns, ea, (n - 2) as nat) == seq![ea] + spec_chain(
        ns,
        ns[a],
        (n - 3) as nat,
    ));
    assert(spec_chain(ns, ns[a], (n - 3) as nat) =~= Seq::<EntityInstance>::empty());
    assert(spec_children(v3, p) =~= seq![ec, eb, ea]);
}

/// Reacting twice to the same destroyed list changes nothing the second
/// time: every listed entity already lacks a component, so each step of
/// the pass skips.
pub proof fn lemma_handle_destroyed_idempotent(v: TransformView, entities: Seq<Entity>)
    requires
        forall|k: int| 0 <= k < entities.len() ==> !v.contains((#[trigger] entities[k]).id),
    ensures
        spec_handle_destroyed(v, entities, entities.len() as int) == v,
{
    lemma_handle_destroyed_skips(v, entities, entities.len() as int);
}

/// A prefix of a destroyed list none of whose entities has a component
/// leaves the state untouched.
proof fn lemma_handle_destroyed_skips(v: TransformView, entities: Seq<Entity>, k: int)
    requires
        0 <= k <= entities.len(),
        forall|j: int| 0 <= j < k ==> !v.contains((#[trigger] entities[j]).id),
    ensures
        spec_handle_destroyed(v, entities, k) == v,
    decreases k,
{
    if k > 0 {
        lemma_handle_destroyed_skips(v, entities, k - 1);
    }
}

/// A walk that ends within its fuel is unchanged by more fuel.
pub proof fn lemma_chain_fuel(next: Seq<EntityInstance>, cur: EntityInstance, f1: nat, f2: nat)
    requires
        spec_chain(next, cur, f2).len() <= f1 <= f2,
    ensures
        spec_chain(next, cur, f1) == spec_chain(next, cur, f2),
    decreases f2,
{
    if cur.index == INSTANCE_NONE || (cur.index as int) >= next.len() {
    } else if f2 == 0 {
    } else {
        lemma_chain_fuel(next, next[cur.index as int], (f1 - 1) as nat, (f2 - 1) as nat);
    }
}

/// A walk that never visits row `c` is unchanged by rewriting `c`'s link.
pub proof fn lemma_chain_update_elsewhere(
    next: Seq<EntityInstance>,
    cur: EntityInstance,
    fuel: nat,
    c: int,
    val: EntityInstance,
)
    requires
        0 <= c < next.len(),
        !spec_chain(next, cur, fuel).contains(EntityInstance { index: c as usize }),
    ensures
        spec_chain(next.update(c, val), cur, fuel) == spec_chain(next, cur, fuel),
    decreases fuel,
{
    let ec = EntityInstance { index: c as usize };
    let next2 = next.update(c, val);
    assert(next2.len() == next.len());
    if fuel == 0 || cur.index == INSTANCE_NONE || (cur.index as int) >= next.len() {
        assert(spec_chain(next2, cur, fuel) =~= spec_chain(next, cur, fuel));
    } else {
        let rest = spec_chain(next, next[cur.index as int], (fuel - 1) as nat);
        assert(spec_chain(next, cur, fuel)[0] == cur);
        assert(spec_chain(next, cur, fuel).contains(cur));
        assert(cur != ec);
        assert(next2[cur.index as int] == next[cur.index as int]);
        assert(!rest.contains(ec)) by {
            if rest.contains(ec) {
                let i = choose|i: int| 0 <= i < rest.len() && rest[i] == ec;
                assert(spec_chain(next, cur, fuel)[1 + i] == ec);
                assert(spec_chain(next, cur, fuel).contains(ec));
            }
        }
        lemma_chain_update_elsewhere(next, next[cur.index as int], (fuel - 1) as nat, c, val);
    }
}

/// Linking a detached child makes it the head of the parent's child walk:
/// afterwards the walk yields the child first, then the old child sequence
/// unchanged. The two walk-shaped premises hold of every intact child
/// list; a corrupt state whose list already passes through the child — or
/// never ends — is excluded.
pub proof fn lemma_set_parent_children(v: TransformView, c: int, p: int)
    requires
        v.wf(),
        0 <= c < v.len(),
        0 <= p < v.len(),
        c != p,
        v.parents[c].index == INSTANCE_NONE,
        spec_children(v, p).len() < v.len(),
        !spec_children(v, p).contains(EntityInstance { index: c as usize }),
    ensures
        spec_children(spec_set_parent(v, c, p), p) == seq![EntityInstance { index: c as usize }]
            + spec_children(v, p),
{
    let n = v.len();
    let v2 = spec_set_parent(v, c, p);
    let ec = EntityInstance { index: c as usize };
    let old_fc = v.first_children[p];
    let ns = v.next_siblings;
    let ns2 = v2.next_siblings;
    assert(ns2 == ns.update(c, old_fc));
    assert(ns2.len() == n);
    assert(v2.first_children[p] == ec);
    assert(ec.index != INSTANCE_NONE && (ec.index as int) < n);
    assert(ns2[c] == old_fc);
    assert(spec_chain(ns2, ec, n as nat) == seq![ec] + spec_chain(ns2, old_fc, (n - 1) as nat));
    lemma_chain_fuel(ns, old_fc, (n - 1) as nat, n as nat);
    lemma_chain_update_elsewhere(ns, old_fc, (n - 1) as nat, c, old_fc);
    assert(spec_chain(ns2, old_fc, (n - 1) as nat) == spec_children(v, p));
}

/// Destroying an entity whose row has no children removes exactly that
/// row, in one swap-compaction step.
pub proof fn lemma_destroy_childless(v: TransformView, id: u32)
    requires
        v.wf(),
        v.contains(id),
        v.first_children[v.map[id].index as int].index == INSTANCE_NONE,
    ensures
        spec_destroy_ts(v, id, v.len() as nat) == spec_remove(v, v.map[id].index as int),
{
    let t = v.map[id].index as int;
    assert(v.len() >= 1);
    assert(spec_descend(v, t, v.len() as nat) == t);
    assert(spec_destroy_row(v, id) == t);
    let v2 = spec_remove(v, t);
    lemma_remove_ok(v, t);
    assert(!v2.contains(id));
    assert(spec_destroy_ts(v2, id, (v.len() - 1) as nat) == v2);
}

} // verus!
