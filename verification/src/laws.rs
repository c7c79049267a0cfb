//! The general laws of the store, stated over the same views that the
//! executable functions' contracts use, and proved once for all inputs.

use vstd::prelude::*;

use vstd::arithmetic::div_mod::{lemma_fundamental_div_mod, lemma_mod_bound};

use crate::chunk::{chunk_bounds, lemma_linear_index_injective, lemma_linear_index_range,
    linear_index_spec};
use crate::manager::{chunk_coord, local_coord};
use crate::packing::low_nibbles;
use crate::{FULL, WIDTH};

verus! {

/// Round trip: a raw array whose bytes all lie in [0, 15] is reproduced
/// exactly by the voxel view a freshly created chunk exposes, at every one
/// of its positions.
pub proof fn lemma_create_round_trip(data: Seq<u8>)
    requires
        data.len() == FULL,
        forall|j: int| 0 <= j < data.len() ==> data[j] < 16,
    ensures
        low_nibbles(data) == data,
{
    assert forall|j: int| 0 <= j < data.len() implies low_nibbles(data)[j] == data[j] by {
        let b = data[j];
        assert(b < 16 ==> b & 0x0f == b) by (bit_vector);
    }
    assert(low_nibbles(data) =~= data);
}

/// Write-read idempotence: after writing value `v` at an in-bounds
/// coordinate, reading the same coordinate yields `v`.
pub proof fn lemma_write_then_read(vox: Seq<u8>, x: int, y: int, z: int, v: u8)
    requires
        vox.len() == FULL,
        chunk_bounds(x, y, z),
    ensures
        vox.update(linear_index_spec(x, y, z), v)[linear_index_spec(x, y, z)] == v,
{
    lemma_linear_index_range(x, y, z);
}

/// No cross-talk: writing at one in-bounds coordinate never perturbs the
/// value stored at any different in-bounds coordinate.
pub proof fn lemma_no_cross_talk(
    vox: Seq<u8>,
    x1: int,
    y1: int,
    z1: int,
    x2: int,
    y2: int,
    z2: int,
    v: u8,
)
    requires
        vox.len() == FULL,
        chunk_bounds(x1, y1, z1),
        chunk_bounds(x2, y2, z2),
        (x1, y1, z1) != (x2, y2, z2),
    ensures
        vox.update(linear_index_spec(x1, y1, z1), v)[linear_index_spec(x2, y2, z2)]
            == vox[linear_index_spec(x2, y2, z2)],
{
    lemma_linear_index_range(x1, y1, z1);
    lemma_linear_index_range(x2, y2, z2);
    if linear_index_spec(x1, y1, z1) == linear_index_spec(x2, y2, z2) {
        lemma_linear_index_injective(x1, y1, z1, x2, y2, z2);
    }
}

/// Coordinate identity: for every integer g, the chunk coordinate and local
/// coordinate recombine to g, and the local coordinate lies in [0, WIDTH).
pub proof fn lemma_coordinate_identity(g: int)
    ensures
        chunk_coord(g) * (WIDTH as int) + local_coord(g) == g,
        0 <= local_coord(g) < WIDTH as int,
{
    lemma_fundamental_div_mod(g, WIDTH as int);
    lemma_mod_bound(g, WIDTH as int);
}

/// Replace semantics: building a chunk twice at one coordinate leaves the
/// second contents in the map, with nothing of the first observable.
pub proof fn lemma_build_replaces(
    m: Map<(i64, i64), Seq<u8>>,
    c: (i64, i64),
    first: Seq<u8>,
    second: Seq<u8>,
)
    ensures
        m.insert(c, first).insert(c, second) == m.insert(c, second),
        m.insert(c, second)[c] == second,
{
    assert(m.insert(c, first).insert(c, second) =~= m.insert(c, second));
}

/// Replace semantics, read back: after building a chunk twice at one
/// coordinate, with the second contents all in [0, 15], every position of
/// that chunk shows the second contents exactly — nothing of the first
/// remains observable. (A raw byte above 15 keeps only its low 4 bits, so
/// the restriction leaves out exactly the inputs on which a literal
/// reproduction cannot hold.)
pub proof fn lemma_replace_then_read(
    m: Map<(i64, i64), Seq<u8>>,
    c: (i64, i64),
    first: Seq<u8>,
    second: Seq<u8>,
    lin: int,
)
    requires
        second.len() == FULL,
        forall|j: int| 0 <= j < second.len() ==> second[j] < 16,
        0 <= lin < FULL,
    ensures
        m.insert(c, low_nibbles(first)).insert(c, low_nibbles(second))[c][lin] == second[lin],
{
    lemma_create_round_trip(second);
}

} // verus!
