use vstd::prelude::*;
use vstd::bytes::{
    spec_u32_to_le_bytes, spec_u32_from_le_bytes, lemma_auto_spec_u32_to_from_le_bytes,
    u32_from_le_bytes, u32_to_le_bytes,
};
use vstd::slice::slice_subrange;

verus! {

/// Why a persisted transform table was rejected on load.
#[derive(Clone, Copy, PartialEq, Eq, Structural, Debug)]
pub enum LoadError {
    /// The byte stream ends before the table it announces, or announces a
    /// table too large to address.
    UnexpectedEnd,
    /// A stored entity id does not index the supplied id table.
    UnknownEntity,
    /// Two rows resolve to the same entity.
    DuplicateEntity,
    /// A tree link is neither the sentinel nor a stored row.
    InvalidLink,
}

/// The little-endian bytes of a sequence of 32-bit words.
pub open spec fn spec_words_bytes(ws: Seq<u32>) -> Seq<u8>
    decreases ws.len(),
{
    if ws.len() == 0 {
        Seq::empty()
    } else {
        spec_u32_to_le_bytes(ws[0]) + spec_words_bytes(ws.drop_first())
    }
}

/// `count` words read back out of a little-endian byte stream.
pub open spec fn spec_bytes_words(bytes: Seq<u8>, count: int) -> Seq<u32> {
    Seq::new(count as nat, |k: int| spec_u32_from_le_bytes(bytes.subrange(4 * k, 4 * k + 4)))
}

/// A word stream takes four bytes per word, and each word reads back from
/// its own four bytes.
pub proof fn lemma_words_bytes_extract(ws: Seq<u32>)
    ensures
        spec_words_bytes(ws).len() == 4 * ws.len(),
        forall|k: int|
            0 <= k < ws.len() ==> spec_u32_from_le_bytes(
                #[trigger] spec_words_bytes(ws).subrange(4 * k, 4 * k + 4),
            ) == ws[k],
    decreases ws.len(),
{
    lemma_auto_spec_u32_to_from_le_bytes();
    if ws.len() == 0 {
    } else {
        let head = spec_u32_to_le_bytes(ws[0]);
        let rest = spec_words_bytes(ws.drop_first());
        lemma_words_bytes_extract(ws.drop_first());
        assert forall|k: int|
            0 <= k < ws.len() implies spec_u32_from_le_bytes(
            #[trigger] spec_words_bytes(ws).subrange(4 * k, 4 * k + 4),
        ) == ws[k] by {
            if k == 0 {
                assert(spec_words_bytes(ws).subrange(0, 4) =~= head);
            } else {
                assert(spec_words_bytes(ws).subrange(4 * k, 4 * k + 4) =~= rest.subrange(
                    4 * (k - 1),
                    4 * (k - 1) + 4,
                ));
                assert(ws[k] == ws.drop_first()[k - 1]);
            }
        }
    }
}

/// Appending a word appends its four bytes.
pub proof fn lemma_words_bytes_snoc(ws: Seq<u32>, w: u32)
    ensures
        spec_words_bytes(ws.push(w)) == spec_words_bytes(ws) + spec_u32_to_le_bytes(w),
    decreases ws.len(),
{
    lemma_auto_spec_u32_to_from_le_bytes();
    if ws.len() == 0 {
        assert(ws.push(w)[0] == w);
        assert(ws =~= Seq::<u32>::empty());
        assert(ws.push(w).drop_first() =~= Seq::<u32>::empty());
        assert(spec_words_bytes(Seq::<u32>::empty()) == Seq::<u8>::empty());
        assert(spec_words_bytes(ws.push(w)) == spec_u32_to_le_bytes(w) + Seq::<u8>::empty());
        assert(spec_words_bytes(ws.push(w)) =~= spec_words_bytes(ws) + spec_u32_to_le_bytes(w));
    } else {
        lemma_words_bytes_snoc(ws.drop_first(), w);
        assert(ws.push(w)[0] == ws[0]);
        assert(ws.push(w).drop_first() =~= ws.drop_first().push(w));
        assert(spec_words_bytes(ws.push(w)) =~= spec_words_bytes(ws) + spec_u32_to_le_bytes(w));
    }
}

/// Appends one word, little-endian.
pub fn push_u32(out: &mut Vec<u8>, x: u32)
    ensures
        final(out)@ == old(out)@ + spec_u32_to_le_bytes(x),
{
    let mut b = u32_to_le_bytes(x);
    out.append(&mut b);
}

/// Reads the word at byte offset `pos`.
pub fn read_u32_at(bytes: &[u8], pos: usize) -> (r: u32)
    requires
        pos + 4 <= bytes@.len(),
    ensures
        r == spec_u32_from_le_bytes(bytes@.subrange(pos as int, pos as int + 4)),
{
    let total = bytes.len();
    let s = slice_subrange(bytes, pos, pos + 4);
    u32_from_le_bytes(s)
}

} // verus!
