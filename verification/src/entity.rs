use vstd::prelude::*;

verus! {

/// Number of low bits of an entity id that hold the slot index.
pub const ENTITY_INDEX_BITS: u32 = 24;

/// Mask selecting the slot index out of a packed entity id.
pub const ENTITY_INDEX_MASK: u32 = 0xFFFFFF;

/// Number of bits of an entity id that hold the generation counter.
pub const ENTITY_GENERATION_BITS: u32 = 8;

/// Mask selecting the generation (after shifting) out of a packed entity id.
pub const ENTITY_GENERATION_MASK: u32 = 0xFF;

/// A generational handle for one conceptual scene object.
///
/// The 32-bit id packs a slot index in the low 24 bits and a generation
/// counter in the next 8 bits. The all-ones value is reserved: systems may
/// use it as a "no entity" marker, so no real entity ever carries it.
#[derive(Clone, Copy, PartialEq, Eq, Structural, Hash, Debug)]
pub struct Entity {
    pub id: u32,
}

/// The packed id for a slot index and a generation.
pub open spec fn spec_pack(index: u32, generation: u8) -> u32 {
    (generation * 0x1000000 + index) as u32
}

/// The slot index held in a packed id.
pub open spec fn spec_index(id: u32) -> u32 {
    (id % 0x1000000) as u32
}

/// The generation counter held in a packed id.
pub open spec fn spec_generation(id: u32) -> u8 {
    (id / 0x1000000) as u8
}

/// Packing a slot index and a generation is reversible.
pub proof fn lemma_pack_parts(index: u32, generation: u8)
    requires
        index <= ENTITY_INDEX_MASK,
    ensures
        spec_index(spec_pack(index, generation)) == index,
        spec_generation(spec_pack(index, generation)) == generation,
        spec_pack(index, generation) <= 0xFFFFFFFFu32,
{
    assert(generation * 0x1000000 + index <= 0xFFFFFFFF) by (nonlinear_arith)
        requires
            generation <= 0xFF,
            index <= 0xFFFFFF,
    ;
    assert((generation * 0x1000000 + index) % 0x1000000 == index) by (nonlinear_arith)
        requires
            index < 0x1000000,
    ;
    assert((generation * 0x1000000 + index) / 0x1000000 == generation) by (nonlinear_arith)
        requires
            index < 0x1000000,
    ;
}

/// Two packed ids are equal only if index and generation both match.
pub proof fn lemma_pack_injective(i1: u32, g1: u8, i2: u32, g2: u8)
    requires
        i1 <= ENTITY_INDEX_MASK,
        i2 <= ENTITY_INDEX_MASK,
        spec_pack(i1, g1) == spec_pack(i2, g2),
    ensures
        i1 == i2,
        g1 == g2,
{
    lemma_pack_parts(i1, g1);
    lemma_pack_parts(i2, g2);
}

impl Entity {
    /// Packs a slot index and a generation into a handle.
    ///
    /// The all-ones id is reserved as a "no entity" marker, so the one
    /// index/generation pair that would produce it is excluded.
    pub fn new(index: u32, generation: u8) -> (r: Entity)
        requires
            index <= ENTITY_INDEX_MASK,
            !(index == ENTITY_INDEX_MASK && generation == 0xFF),
        ensures
            r.id == spec_pack(index, generation),
            r.id != 0xFFFFFFFFu32,
    {
        let g: u32 = generation as u32;
        let id = (g << 24) | index;
        assert((g << 24u32) | index == g * 0x1000000 + index) by (bit_vector)
            requires
                g <= 0xFFu32,
                index <= 0xFFFFFFu32,
        ;
        proof {
            lemma_pack_parts(index, generation);
            if id == 0xFFFFFFFFu32 {
                assert(0xFFFFFFFFu32 % 0x1000000 == 0xFFFFFFu32) by (nonlinear_arith);
                assert(0xFFFFFFFFu32 / 0x1000000 == 0xFFu32) by (nonlinear_arith);
            }
        }
        Entity { id }
    }

    /// The slot index in the low 24 bits.
    pub fn index(self) -> (r: u32)
        ensures
            r == spec_index(self.id),
            r <= ENTITY_INDEX_MASK,
    {
        let id = self.id;
        assert(id & 0xFFFFFF == id % 0x1000000 && id % 0x1000000 <= 0xFFFFFFu32) by (bit_vector);
        id & ENTITY_INDEX_MASK
    }

    /// The generation counter in the next 8 bits.
    pub fn generation(self) -> (r: u8)
        ensures
            r == spec_generation(self.id),
    {
        let id = self.id;
        assert((id >> 24) & 0xFF == id / 0x1000000 && id / 0x1000000 <= 0xFFu32) by (bit_vector);
        ((id >> 24) & ENTITY_GENERATION_MASK) as u8
    }
}

} // verus!
