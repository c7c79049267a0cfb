//! Nibble packing: a flat per-voxel byte array is halved into a packed byte
//! array holding two 4-bit voxel values per byte. Even linear indices occupy
//! the low nibble of their byte, odd indices the high nibble.

use vstd::prelude::*;

use crate::{FULL, PACKED};

verus! {

/// The low 4 bits of a byte: the voxel value of an even linear index.
pub open spec fn lo_nibble(b: u8) -> u8 {
    b & 0x0f
}

/// The high 4 bits of a byte: the voxel value of an odd linear index.
pub open spec fn hi_nibble(b: u8) -> u8 {
    b >> 4
}

/// The voxel value stored at parity `p` (linear index mod 2) of a packed byte.
pub open spec fn nibble(b: u8, p: int) -> u8 {
    if p == 0 {
        lo_nibble(b)
    } else {
        hi_nibble(b)
    }
}

/// One packed byte holding voxel `a` in its low nibble and voxel `b` in its
/// high nibble; only the low 4 bits of each input are kept.
pub open spec fn packed_byte(a: u8, b: u8) -> u8 {
    (a & 0x0f) | ((b & 0x0f) << 4)
}

/// The nibble packing of a raw voxel array: two consecutive voxels per byte.
pub open spec fn packed_bytes(data: Seq<u8>) -> Seq<u8> {
    Seq::new(data.len() / 2, |i: int| packed_byte(data[2 * i], data[2 * i + 1]))
}

/// The voxel values a packed byte sequence stands for.
pub open spec fn voxels_of(bytes: Seq<u8>) -> Seq<u8> {
    Seq::new(bytes.len() * 2, |i: int| nibble(bytes[i / 2], i % 2))
}

/// The low 4 bits of every byte of a raw voxel array.
pub open spec fn low_nibbles(data: Seq<u8>) -> Seq<u8> {
    Seq::new(data.len(), |i: int| data[i] & 0x0f)
}

/// Every nibble is a value in [0, 16).
pub proof fn lemma_nibble_bound(b: u8)
    ensures
        lo_nibble(b) < 16,
        hi_nibble(b) < 16,
{
    assert(b & 0x0f < 16) by (bit_vector);
    assert(b >> 4 < 16) by (bit_vector);
}

/// Every value of a voxel view is in [0, 16).
pub proof fn lemma_voxels_bounded(bytes: Seq<u8>)
    ensures
        forall|i: int| 0 <= i < voxels_of(bytes).len() ==> voxels_of(bytes)[i] < 16,
{
    assert forall|i: int| 0 <= i < voxels_of(bytes).len() implies voxels_of(bytes)[i] < 16 by {
        lemma_nibble_bound(bytes[i / 2]);
    }
}

/// A packed byte hands each of its two nibbles back unchanged.
pub proof fn lemma_packed_byte_nibbles(a: u8, b: u8)
    ensures
        lo_nibble(packed_byte(a, b)) == (a & 0x0f),
        hi_nibble(packed_byte(a, b)) == (b & 0x0f),
{
    assert(((a & 0x0f) | ((b & 0x0f) << 4)) & 0x0f == (a & 0x0f)) by (bit_vector);
    assert(((a & 0x0f) | ((b & 0x0f) << 4)) >> 4 == (b & 0x0f)) by (bit_vector);
}

/// Packing a raw array of even length and reading the voxel view back gives
/// exactly the low nibbles of the raw array.
pub proof fn lemma_voxels_of_packed(data: Seq<u8>)
    requires
        data.len() % 2 == 0,
    ensures
        voxels_of(packed_bytes(data)) == low_nibbles(data),
{
    let l = voxels_of(packed_bytes(data));
    let r = low_nibbles(data);
    assert forall|i: int| 0 <= i < l.len() implies l[i] == r[i] by {
        lemma_packed_byte_nibbles(data[2 * (i / 2)], data[2 * (i / 2) + 1]);
        if i % 2 == 0 {
            assert(2 * (i / 2) == i);
        } else {
            assert(2 * (i / 2) + 1 == i);
        }
    }
    assert(l =~= r);
}

/// Replacing one packed byte, with the sibling nibble preserved, changes
/// exactly one voxel of the voxel view.
pub proof fn lemma_voxels_update(bytes: Seq<u8>, bi: int, nb: u8, lin: int, v: u8)
    requires
        0 <= lin < bytes.len() * 2,
        bi == lin / 2,
        nibble(nb, lin % 2) == v,
        nibble(nb, 1 - lin % 2) == nibble(bytes[bi], 1 - lin % 2),
    ensures
        voxels_of(bytes.update(bi, nb)) == voxels_of(bytes).update(lin, v),
{
    let l = voxels_of(bytes.update(bi, nb));
    let r = voxels_of(bytes).update(lin, v);
    assert forall|j: int| 0 <= j < l.len() implies l[j] == r[j] by {
        if j / 2 == bi && j != lin {
            assert(2 * (j / 2) + j % 2 == j);
            assert(2 * (lin / 2) + lin % 2 == lin);
            assert(j % 2 == 1 - lin % 2);
        }
    }
    assert(l =~= r);
}

/// Nibble-pack a full raw voxel array into half as many bytes.
pub fn create_bitvec(data: &[u8]) -> (out: Vec<u8>)
    requires
        data@.len() == FULL,
    ensures
        out@ == packed_bytes(data@),
{
    let mut out: Vec<u8> = Vec::new();
    let mut i: usize = 0;
    while i < PACKED
        invariant
            data@.len() == FULL,
            i <= PACKED,
            out@.len() == i,
            forall|k: int| 0 <= k < i ==> out@[k] == packed_byte(data@[2 * k], data@[2 * k + 1]),
        decreases PACKED - i,
    {
        let a = data[2 * i];
        let b = data[2 * i + 1];
        out.push((a & 0x0f) | ((b & 0x0f) << 4));
        i += 1;
    }
    proof {
        assert(out@ =~= packed_bytes(data@));
    }
    out
}

} // verus!
