//! The binary bias arena: each op of a step owns one slot, into which its
//! controller's allowed-token mask is copied.
use vstd::prelude::*;

verus! {

/// Byte `i` of the little-endian encoding of the words `w`.
pub open spec fn le_byte(w: Seq<u32>, i: int) -> u8 {
    ((w[i / 4] >> (8 * (i % 4)) as u32) & 0xffu32) as u8
}

/// Why a mask cannot be written.
#[derive(Clone, Copy, Debug, PartialEq, Eq, Structural)]
pub enum BiasError {
    /// The mask has more bytes than the slot.
    MaskTooLarge,
}

/// Copies `mask`, little-endian, to the start of the slot of `slot_len`
/// bytes at `slot_offset`, and returns that offset; no byte outside the
/// written part of the slot changes.
pub fn return_logit_bias(arena: &mut Vec<u8>, slot_offset: usize, slot_len: usize, mask: &[u32]) -> (r: Result<
    usize,
    BiasError,
>)
    requires
        slot_offset + slot_len <= old(arena)@.len(),
    ensures
        final(arena)@.len() == old(arena)@.len(),
        4 * mask@.len() > slot_len ==> r == Err::<usize, BiasError>(BiasError::MaskTooLarge) && final(arena)@
            == old(arena)@,
        4 * mask@.len() <= slot_len ==> r == Ok::<usize, BiasError>(slot_offset) && forall|i: int|
            0 <= i < final(arena)@.len() ==> #[trigger] final(arena)@[i] == if slot_offset <= i < slot_offset + 4
                * mask@.len() {
                le_byte(mask@, i - slot_offset)
            } else {
                old(arena)@[i]
            },
{
    if mask.len() > slot_len / 4 {
        return Err(BiasError::MaskTooLarge);
    }
    let arena_len = arena.len();
    assert(old(arena)@.len() == arena_len);
    let mut k: usize = 0;
    while k < mask.len()
        invariant
            slot_offset + slot_len <= old(arena)@.len(),
            old(arena)@.len() <= usize::MAX,
            4 * mask@.len() <= slot_len,
            arena@.len() == old(arena)@.len(),
            0 <= k <= mask@.len(),
            forall|i: int|
                0 <= i < arena@.len() ==> #[trigger] arena@[i] == if slot_offset <= i < slot_offset + 4 * k {
                    le_byte(mask@, i - slot_offset)
                } else {
                    old(arena)@[i]
                },
        decreases mask@.len() - k,
    {
        let x = mask[k];
        let mut j: usize = 0;
        while j < 4
            invariant
                slot_offset + slot_len <= old(arena)@.len(),
                old(arena)@.len() <= usize::MAX,
                4 * mask@.len() <= slot_len,
                arena@.len() == old(arena)@.len(),
                0 <= k < mask@.len(),
                x == mask@[k as int],
                0 <= j <= 4,
                forall|i: int|
                    0 <= i < arena@.len() ==> #[trigger] arena@[i] == if slot_offset <= i < slot_offset + 4 * k + j {
                        le_byte(mask@, i - slot_offset)
                    } else {
                        old(arena)@[i]
                    },
            decreases 4 - j,
        {
            let pos = slot_offset + 4 * k + j;
            let b = (#[verifier::truncate] (((x >> ((8 * j) as u32)) & 0xffu32) as u8));
            arena.set(pos, b);
            proof {
                let i = pos as int - slot_offset;
                assert(i / 4 == k as int && i % 4 == j as int);
            }
            j = j + 1;
        }
        k = k + 1;
    }
    Ok(slot_offset)
}

} // verus!
