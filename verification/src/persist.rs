use vstd::prelude::*;
use vstd::bytes::spec_u32_from_le_bytes;
use crate::entity::Entity;
use crate::entity_instance::{EntityInstance, INSTANCE_NONE, spec_instance_none};
use crate::transform::{Vec3Bits, QuatBits};
use crate::transform_system::TransformView;
use crate::wire::{spec_words_bytes, spec_bytes_words, lemma_words_bytes_extract};

verus! {

/// The wire word for a tree link: the dense index, or all-ones for the
/// sentinel.
pub open spec fn spec_link_word(l: EntityInstance) -> u32 {
    if l.index == INSTANCE_NONE {
        0xFFFFFFFFu32
    } else {
        l.index as u32
    }
}

/// The link a wire word stands for.
pub open spec fn spec_word_link(w: u32) -> EntityInstance {
    if w == 0xFFFFFFFFu32 {
        spec_instance_none()
    } else {
        EntityInstance { index: w as usize }
    }
}

/// Component `j` of a vector, in x, y, z order.
pub open spec fn spec_vec3_comp(p: Vec3Bits, j: int) -> u32 {
    if j == 0 {
        p.x
    } else if j == 1 {
        p.y
    } else {
        p.z
    }
}

/// Component `j` of a quaternion, scalar part first.
pub open spec fn spec_quat_comp(q: QuatBits, j: int) -> u32 {
    if j == 0 {
        q.s
    } else if j == 1 {
        q.x
    } else if j == 2 {
        q.y
    } else {
        q.z
    }
}

/// The `k`-th 32-bit word of the persisted transform table: the row count,
/// then per section the entity ids, local position/rotation/scale, world
/// position/rotation/scale, and the four link columns, each in row order.
pub open spec fn spec_word_at(v: TransformView, k: int) -> u32 {
    let n = v.len();
    if k == 0 {
        n as u32
    } else if k < 1 + n {
        v.entities[k - 1].id
    } else if k < 1 + 4 * n {
        let j = k - (1 + n);
        spec_vec3_comp(v.local_positions[j / 3], j % 3)
    } else if k < 1 + 8 * n {
        let j = k - (1 + 4 * n);
        spec_quat_comp(v.local_rotations[j / 4], j % 4)
    } else if k < 1 + 9 * n {
        v.local_scales[k - (1 + 8 * n)]
    } else if k < 1 + 12 * n {
        let j = k - (1 + 9 * n);
        spec_vec3_comp(v.world_positions[j / 3], j % 3)
    } else if k < 1 + 16 * n {
        let j = k - (1 + 12 * n);
        spec_quat_comp(v.world_rotations[j / 4], j % 4)
    } else if k < 1 + 17 * n {
        v.world_scales[k - (1 + 16 * n)]
    } else if k < 1 + 18 * n {
        spec_link_word(v.parents[k - (1 + 17 * n)])
    } else if k < 1 + 19 * n {
        spec_link_word(v.first_children[k - (1 + 18 * n)])
    } else if k < 1 + 20 * n {
        spec_link_word(v.next_siblings[k - (1 + 19 * n)])
    } else {
        spec_link_word(v.prev_siblings[k - (1 + 20 * n)])
    }
}

/// All words of the persisted table of `v`.
pub open spec fn spec_ts_words(v: TransformView) -> Seq<u32> {
    Seq::new((1 + 21 * v.len()) as nat, |k: int| spec_word_at(v, k))
}

/// The persisted bytes of `v`: its words, little-endian.
pub open spec fn spec_save_bytes(v: TransformView) -> Seq<u8> {
    spec_words_bytes(spec_ts_words(v))
}

/// The row map induced by an entity column, later rows winning.
pub open spec fn spec_map_of(es: Seq<Entity>) -> Map<u32, EntityInstance>
    decreases es.len(),
{
    if es.len() == 0 {
        Map::empty()
    } else {
        spec_map_of(es.drop_last()).insert(
            es.last().id,
            EntityInstance { index: (es.len() - 1) as usize },
        )
    }
}

/// Whether the ids of an entity column are pairwise distinct.
pub open spec fn spec_ids_unique(es: Seq<Entity>) -> bool {
    forall|i: int, j: int| 0 <= i < j < es.len() ==> (#[trigger] es[i]).id != (#[trigger] es[j]).id
}

/// The induced row map contains exactly the column's ids; with distinct ids
/// each id maps to its own row.
pub proof fn lemma_map_of_props(es: Seq<Entity>)
    requires
        spec_ids_unique(es),
    ensures
        forall|i: int|
            0 <= i < es.len() ==> spec_map_of(es).contains_key((#[trigger] es[i]).id)
                && spec_map_of(es)[es[i].id] == (EntityInstance { index: i as usize }),
        forall|id: u32|
            spec_map_of(es).contains_key(id) ==> exists|i: int|
                0 <= i < es.len() && (#[trigger] es[i]).id == id,
    decreases es.len(),
{
    if es.len() == 0 {
    } else {
        let head = es.drop_last();
        assert(spec_ids_unique(head)) by {
            assert forall|i: int, j: int|
                0 <= i < j < head.len() implies (#[trigger] head[i]).id != (#[trigger] head[j]).id by {
                assert(es[i].id != es[j].id);
            }
        }
        lemma_map_of_props(head);
        assert forall|i: int|
            0 <= i < es.len() implies spec_map_of(es).contains_key((#[trigger] es[i]).id)
            && spec_map_of(es)[es[i].id] == (EntityInstance { index: i as usize }) by {
            if i < es.len() - 1 {
                assert(head[i] == es[i]);
                assert(es[i].id != es.last().id);
            }
        }
        assert forall|id: u32|
            spec_map_of(es).contains_key(id) implies exists|i: int|
            0 <= i < es.len() && (#[trigger] es[i]).id == id by {
            if id == es.last().id {
                assert(es[es.len() - 1].id == id);
            } else {
                assert(spec_map_of(head).contains_key(id));
                let i = choose|i: int| 0 <= i < head.len() && (#[trigger] head[i]).id == id;
                assert(es[i].id == id);
            }
        }
    }
}

/// The row count a byte stream announces.
pub open spec fn spec_load_n(bytes: Seq<u8>) -> int {
    spec_u32_from_le_bytes(bytes.subrange(0, 4)) as int
}

/// Whether a byte stream is too short for the table it announces, or
/// announces a table too large to address (row indices must stay clear of
/// the all-ones sentinel word).
pub open spec fn spec_load_truncated(bytes: Seq<u8>) -> bool {
    ||| bytes.len() < 4
    ||| spec_load_n(bytes) >= 0xFFFFFFFF
    ||| bytes.len() < 4 + 84 * spec_load_n(bytes)
}

/// Whether every stored entity id indexes the supplied table.
pub open spec fn spec_ids_in_table(ws: Seq<u32>, n: int, table: Seq<Entity>) -> bool {
    forall|i: int| 0 <= i < n ==> ((#[trigger] ws[1 + i]) as int) < table.len()
}

/// The entity column a word stream resolves to through the id table.
pub open spec fn spec_decoded_entities(ws: Seq<u32>, n: int, table: Seq<Entity>) -> Seq<Entity> {
    Seq::new(n as nat, |i: int| table[ws[1 + i] as int])
}

/// Whether every stored link word is the sentinel or a stored row.
pub open spec fn spec_links_valid(ws: Seq<u32>, n: int) -> bool {
    forall|k: int|
        1 + 17 * n <= k < 1 + 21 * n ==> ((#[trigger] ws[k]) == 0xFFFFFFFFu32 || (ws[k] as int) < n)
}

/// The view a word stream decodes to against an id table.
pub open spec fn spec_decoded_view(ws: Seq<u32>, n: int, table: Seq<Entity>) -> TransformView {
    let entities = spec_decoded_entities(ws, n, table);
    TransformView {
        map: spec_map_of(entities),
        entities,
        local_positions: Seq::new(
            n as nat,
            |i: int|
                Vec3Bits {
                    x: ws[1 + n + 3 * i],
                    y: ws[1 + n + 3 * i + 1],
                    z: ws[1 + n + 3 * i + 2],
                },
        ),
        local_rotations: Seq::new(
            n as nat,
            |i: int|
                QuatBits {
                    s: ws[1 + 4 * n + 4 * i],
                    x: ws[1 + 4 * n + 4 * i + 1],
                    y: ws[1 + 4 * n + 4 * i + 2],
                    z: ws[1 + 4 * n + 4 * i + 3],
                },
        ),
        local_scales: Seq::new(n as nat, |i: int| ws[1 + 8 * n + i]),
        world_positions: Seq::new(
            n as nat,
            |i: int|
                Vec3Bits {
                    x: ws[1 + 9 * n + 3 * i],
                    y: ws[1 + 9 * n + 3 * i + 1],
                    z: ws[1 + 9 * n + 3 * i + 2],
                },
        ),
        world_rotations: Seq::new(
            n as nat,
            |i: int|
                QuatBits {
                    s: ws[1 + 12 * n + 4 * i],
                    x: ws[1 + 12 * n + 4 * i + 1],
                    y: ws[1 + 12 * n + 4 * i + 2],
                    z: ws[1 + 12 * n + 4 * i + 3],
                },
        ),
        world_scales: Seq::new(n as nat, |i: int| ws[1 + 16 * n + i]),
        parents: Seq::new(n as nat, |i: int| spec_word_link(ws[1 + 17 * n + i])),
        first_children: Seq::new(n as nat, |i: int| spec_word_link(ws[1 + 18 * n + i])),
        next_siblings: Seq::new(n as nat, |i: int| spec_word_link(ws[1 + 19 * n + i])),
        prev_siblings: Seq::new(n as nat, |i: int| spec_word_link(ws[1 + 20 * n + i])),
    }
}

/// Whether every stored entity id of `bytes` indexes `table`.
pub open spec fn spec_load_ids_ok(bytes: Seq<u8>, table: Seq<Entity>) -> bool {
    let n = spec_load_n(bytes);
    spec_ids_in_table(spec_bytes_words(bytes, 1 + 21 * n), n, table)
}

/// Whether the rows of `bytes` resolve to pairwise distinct entities.
pub open spec fn spec_load_unique(bytes: Seq<u8>, table: Seq<Entity>) -> bool {
    let n = spec_load_n(bytes);
    spec_ids_unique(spec_decoded_entities(spec_bytes_words(bytes, 1 + 21 * n), n, table))
}

/// Whether every stored link of `bytes` is the sentinel or a stored row.
pub open spec fn spec_load_links_ok(bytes: Seq<u8>) -> bool {
    let n = spec_load_n(bytes);
    spec_links_valid(spec_bytes_words(bytes, 1 + 21 * n), n)
}

/// What loading `bytes` against `table` yields: the decoded view, or
/// nothing when the stream is truncated, an id misses the table, two rows
/// share an entity, or a link is out of range.
pub open spec fn spec_load_result(bytes: Seq<u8>, table: Seq<Entity>) -> Option<TransformView> {
    if spec_load_truncated(bytes) {
        None
    } else if !spec_load_ids_ok(bytes, table) {
        None
    } else if !spec_load_unique(bytes, table) {
        None
    } else if !spec_load_links_ok(bytes) {
        None
    } else {
        let n = spec_load_n(bytes);
        Some(spec_decoded_view(spec_bytes_words(bytes, 1 + 21 * n), n, table))
    }
}

/// A decoded view satisfies the structural invariant.
pub proof fn lemma_decoded_wf(ws: Seq<u32>, n: int, table: Seq<Entity>)
    requires
        0 <= n < 0xFFFFFFFF,
        spec_ids_in_table(ws, n, table),
        spec_ids_unique(spec_decoded_entities(ws, n, table)),
        spec_links_valid(ws, n),
    ensures
        spec_decoded_view(ws, n, table).wf(),
{
    let v = spec_decoded_view(ws, n, table);
    let es = spec_decoded_entities(ws, n, table);
    lemma_map_of_props(es);
    assert forall|id: u32|
        v.map.contains_key(id) implies ((#[trigger] v.map[id]).index as int) < n
        && v.entities[v.map[id].index as int].id == id by {
        let i = choose|i: int| 0 <= i < es.len() && (#[trigger] es[i]).id == id;
        assert(v.map[id] == (EntityInstance { index: i as usize }));
    }
    assert forall|i: int| 0 <= i < n implies #[trigger] v.links_ok_at(i) by {
        assert(ws[1 + 17 * n + i] == 0xFFFFFFFFu32 || (ws[1 + 17 * n + i] as int) < n);
        assert(ws[1 + 18 * n + i] == 0xFFFFFFFFu32 || (ws[1 + 18 * n + i] as int) < n);
        assert(ws[1 + 19 * n + i] == 0xFFFFFFFFu32 || (ws[1 + 19 * n + i] as int) < n);
        assert(ws[1 + 20 * n + i] == 0xFFFFFFFFu32 || (ws[1 + 20 * n + i] as int) < n);
    }
}

/// Division facts for three words per row.
pub proof fn lemma_div3(i: int, j: int)
    requires
        0 <= i,
        0 <= j < 3,
    ensures
        (3 * i + j) / 3 == i,
        (3 * i + j) % 3 == j,
{
    assert((3 * i + j) / 3 == i && (3 * i + j) % 3 == j) by (nonlinear_arith)
        requires
            0 <= i,
            0 <= j < 3,
    ;
}

/// Division facts for four words per row.
pub proof fn lemma_div4(i: int, j: int)
    requires
        0 <= i,
        0 <= j < 4,
    ensures
        (4 * i + j) / 4 == i,
        (4 * i + j) % 4 == j,
{
    assert((4 * i + j) / 4 == i && (4 * i + j) % 4 == j) by (nonlinear_arith)
        requires
            0 <= i,
            0 <= j < 4,
    ;
}

/// Round trip: the bytes saved from any well-formed transform state load
/// back to exactly that state, against any id table that maps each stored
/// entity's id back to that entity — as a fresh entity manager that hands
/// the ids out in the saved order does.
pub proof fn lemma_save_load_roundtrip(v: TransformView, table: Seq<Entity>)
    requires
        v.wf(),
        forall|i: int|
            0 <= i < v.len() ==> ((#[trigger] v.entities[i]).id as int) < table.len()
                && table[v.entities[i].id as int] == v.entities[i],
    ensures
        spec_load_result(spec_save_bytes(v), table) == Some(v),
{
    let n = v.len();
    let ws0 = spec_ts_words(v);
    let bytes = spec_save_bytes(v);
    lemma_words_bytes_extract(ws0);
    assert(bytes.len() == 4 * (1 + 21 * n));

    // The announced count is the row count.
    assert(spec_u32_from_le_bytes(bytes.subrange(0, 4)) == ws0[0]) by {
        let k0: int = 0;
        assert(bytes.subrange(0, 4) =~= bytes.subrange(4 * k0, 4 * k0 + 4));
    }
    assert(ws0[0] == n as u32);
    assert(spec_load_n(bytes) == n);
    assert(!spec_load_truncated(bytes));

    // The words read back are the words written.
    let ws = spec_bytes_words(bytes, 1 + 21 * n);
    assert(ws =~= ws0);

    // Each id resolves through the table to the entity it came from.
    assert forall|i: int| 0 <= i < n implies ((#[trigger] ws[1 + i]) as int) < table.len() by {
        assert(ws[1 + i] == spec_word_at(v, 1 + i));
        assert(spec_word_at(v, 1 + i) == v.entities[i].id);
    }
    let es = spec_decoded_entities(ws, n, table);
    assert(es =~= v.entities);
    assert(spec_ids_unique(es)) by {
        assert forall|i: int, j: int|
            0 <= i < j < es.len() implies (#[trigger] es[i]).id != (#[trigger] es[j]).id by {
            assert(v.map[v.entities[i].id] == (EntityInstance { index: i as usize }));
            assert(v.map[v.entities[j].id] == (EntityInstance { index: j as usize }));
        }
    }

    // Every link word is in range again.
    assert(spec_links_valid(ws, n)) by {
        assert forall|k: int|
            1 + 17 * n <= k < 1 + 21 * n implies ((#[trigger] ws[k]) == 0xFFFFFFFFu32 || (ws[k]
            as int) < n) by {
            assert(ws[k] == spec_word_at(v, k));
            if k < 1 + 18 * n {
                assert(v.links_ok_at(k - (1 + 17 * n)));
            } else if k < 1 + 19 * n {
                assert(v.links_ok_at(k - (1 + 18 * n)));
            } else if k < 1 + 20 * n {
                assert(v.links_ok_at(k - (1 + 19 * n)));
            } else {
                assert(v.links_ok_at(k - (1 + 20 * n)));
            }
        }
    }

    // The decoded view is the saved view, column by column.
    let d = spec_decoded_view(ws, n, table);
    assert(d.entities =~= v.entities);
    assert(d.map =~= v.map) by {
        lemma_map_of_props(es);
        assert forall|id: u32| d.map.contains_key(id) implies v.map.contains_key(id) && v.map[id]
            == d.map[id] by {
            let i = choose|i: int| 0 <= i < es.len() && (#[trigger] es[i]).id == id;
            assert(v.map[v.entities[i].id] == (EntityInstance { index: i as usize }));
        }
        assert forall|id: u32| v.map.contains_key(id) implies d.map.contains_key(id) by {
            let i = v.map[id].index as int;
            assert(v.entities[i].id == id);
            assert(es[i].id == id);
        }
    }
    assert(d.local_positions =~= v.local_positions) by {
        assert forall|i: int| 0 <= i < n implies #[trigger] d.local_positions[i]
            == v.local_positions[i] by {
            lemma_div3(i, 0);
            lemma_div3(i, 1);
            lemma_div3(i, 2);
            assert(ws[1 + n + 3 * i] == spec_word_at(v, 1 + n + 3 * i));
            assert(ws[1 + n + 3 * i + 1] == spec_word_at(v, 1 + n + 3 * i + 1));
            assert(ws[1 + n + 3 * i + 2] == spec_word_at(v, 1 + n + 3 * i + 2));
        }
    }
    assert(d.local_rotations =~= v.local_rotations) by {
        assert forall|i: int| 0 <= i < n implies #[trigger] d.local_rotations[i]
            == v.local_rotations[i] by {
            lemma_div4(i, 0);
            lemma_div4(i, 1);
            lemma_div4(i, 2);
            lemma_div4(i, 3);
            assert(ws[1 + 4 * n + 4 * i] == spec_word_at(v, 1 + 4 * n + 4 * i));
            assert(ws[1 + 4 * n + 4 * i + 1] == spec_word_at(v, 1 + 4 * n + 4 * i + 1));
            assert(ws[1 + 4 * n + 4 * i + 2] == spec_word_at(v, 1 + 4 * n + 4 * i + 2));
            assert(ws[1 + 4 * n + 4 * i + 3] == spec_word_at(v, 1 + 4 * n + 4 * i + 3));
        }
    }
    assert(d.local_scales =~= v.local_scales) by {
        assert forall|i: int| 0 <= i < n implies #[trigger] d.local_scales[i]
            == v.local_scales[i] by {
            assert(ws[1 + 8 * n + i] == spec_word_at(v, 1 + 8 * n + i));
        }
    }
    assert(d.world_positions =~= v.world_positions) by {
        assert forall|i: int| 0 <= i < n implies #[trigger] d.world_positions[i]
            == v.world_positions[i] by {
            lemma_div3(i, 0);
            lemma_div3(i, 1);
            lemma_div3(i, 2);
            assert(ws[1 + 9 * n + 3 * i] == spec_word_at(v, 1 + 9 * n + 3 * i));
            assert(ws[1 + 9 * n + 3 * i + 1] == spec_word_at(v, 1 + 9 * n + 3 * i + 1));
            assert(ws[1 + 9 * n + 3 * i + 2] == spec_word_at(v, 1 + 9 * n + 3 * i + 2));
        }
    }
    assert(d.world_rotations =~= v.world_rotations) by {
        assert forall|i: int| 0 <= i < n implies #[trigger] d.world_rotations[i]
            == v.world_rotations[i] by {
            lemma_div4(i, 0);
            lemma_div4(i, 1);
            lemma_div4(i, 2);
            lemma_div4(i, 3);
            assert(ws[1 + 12 * n + 4 * i] == spec_word_at(v, 1 + 12 * n + 4 * i));
            assert(ws[1 + 12 * n + 4 * i + 1] == spec_word_at(v, 1 + 12 * n + 4 * i + 1));
            assert(ws[1 + 12 * n + 4 * i + 2] == spec_word_at(v, 1 + 12 * n + 4 * i + 2));
            assert(ws[1 + 12 * n + 4 * i + 3] == spec_word_at(v, 1 + 12 * n + 4 * i + 3));
        }
    }
    assert(d.world_scales =~= v.world_scales) by {
        assert forall|i: int| 0 <= i < n implies #[trigger] d.world_scales[i]
            == v.world_scales[i] by {
            assert(ws[1 + 16 * n + i] == spec_word_at(v, 1 + 16 * n + i));
        }
    }
    assert(d.parents =~= v.parents) by {
        assert forall|i: int| 0 <= i < n implies #[trigger] d.parents[i] == v.parents[i] by {
            assert(ws[1 + 17 * n + i] == spec_word_at(v, 1 + 17 * n + i));
            assert(v.links_ok_at(i));
        }
    }
    assert(d.first_children =~= v.first_children) by {
        assert forall|i: int| 0 <= i < n implies #[trigger] d.first_children[i]
            == v.first_children[i] by {
            assert(ws[1 + 18 * n + i] == spec_word_at(v, 1 + 18 * n + i));
            assert(v.links_ok_at(i));
        }
    }
    assert(d.next_siblings =~= v.next_siblings) by {
        assert forall|i: int| 0 <= i < n implies #[trigger] d.next_siblings[i]
            == v.next_siblings[i] by {
            assert(ws[1 + 19 * n + i] == spec_word_at(v, 1 + 19 * n + i));
            assert(v.links_ok_at(i));
        }
    }
    assert(d.prev_siblings =~= v.prev_siblings) by {
        assert forall|i: int| 0 <= i < n implies #[trigger] d.prev_siblings[i]
            == v.prev_siblings[i] by {
            assert(ws[1 + 20 * n + i] == spec_word_at(v, 1 + 20 * n + i));
            assert(v.links_ok_at(i));
        }
    }
    assert(d =~= v);
}

} // verus!
