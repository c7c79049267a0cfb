//! A chunk: one packed and RLE-encoded voxel volume of fixed shape. It
//! exposes voxel get/set by local coordinate and whole-volume (re)population;
//! byte-level point updates split or overwrite runs in place.

use vstd::prelude::*;

use crate::packing::{
    create_bitvec, lemma_voxels_of_packed, lemma_voxels_update, low_nibbles, nibble, voxels_of,
};
use crate::rle::{
    covers, create_rle, lemma_covers_unique, lemma_rle_bytes_append, lemma_rle_bytes_singleton,
    lemma_rle_bytes_split, lemma_rle_bytes_take_step, lemma_rle_index_in_run, lemma_rle_splice,
    rle_bytes, run_bytes, runs_maximal,
};
use crate::{ChunkError, FULL, HEIGHT, PACKED, SHIFT, WIDTH};

verus! {

/// Linear index of a local coordinate: y varies fastest, then z (offset by
/// `SHIFT` into a non-negative range), then x.
pub open spec fn linear_index_spec(x: int, y: int, z: int) -> int {
    x * (WIDTH * HEIGHT) as int + (z + SHIFT as int) * WIDTH as int + y
}

/// Whether a local coordinate lies inside the chunk volume.
pub open spec fn chunk_bounds(x: int, y: int, z: int) -> bool {
    &&& 0 <= x < WIDTH
    &&& 0 <= y < WIDTH
    &&& -(SHIFT as int) <= z < (HEIGHT - SHIFT) as int
}

/// Every in-bounds coordinate has a linear index inside the volume.
pub proof fn lemma_linear_index_range(x: int, y: int, z: int)
    requires
        chunk_bounds(x, y, z),
    ensures
        0 <= linear_index_spec(x, y, z) < FULL,
{
    assert(0 <= x * (WIDTH * HEIGHT) as int + (z + SHIFT as int) * WIDTH as int + y
        < (WIDTH * WIDTH * HEIGHT) as int) by (nonlinear_arith)
        requires
            0 <= x < (WIDTH as int),
            0 <= y < (WIDTH as int),
            0 <= z + (SHIFT as int) < (HEIGHT as int),
            WIDTH == 16usize,
            HEIGHT == 384usize,
    ;
}

/// Distinct in-bounds coordinates have distinct linear indices.
pub proof fn lemma_linear_index_injective(x1: int, y1: int, z1: int, x2: int, y2: int, z2: int)
    requires
        chunk_bounds(x1, y1, z1),
        chunk_bounds(x2, y2, z2),
        linear_index_spec(x1, y1, z1) == linear_index_spec(x2, y2, z2),
    ensures
        x1 == x2 && y1 == y2 && z1 == z2,
{
    assert(x1 == x2 && y1 == y2 && z1 == z2) by (nonlinear_arith)
        requires
            0 <= x1 < (WIDTH as int),
            0 <= y1 < (WIDTH as int),
            0 <= z1 + (SHIFT as int) < (HEIGHT as int),
            0 <= x2 < (WIDTH as int),
            0 <= y2 < (WIDTH as int),
            0 <= z2 + (SHIFT as int) < (HEIGHT as int),
            WIDTH == 16usize,
            HEIGHT == 384usize,
            x1 * (WIDTH * HEIGHT) as int + (z1 + SHIFT as int) * WIDTH as int + y1 == x2 * (WIDTH
                * HEIGHT) as int + (z2 + SHIFT as int) * WIDTH as int + y2,
    ;
}

/// One packed and RLE-encoded voxel volume.
pub struct Chunk {
    /// The RLE runs covering the packed volume, in byte order.
    pub data: Vec<(u8, u16)>,
}

impl Chunk {
    /// The packed byte sequence the runs stand for.
    pub open spec fn bytes(self) -> Seq<u8> {
        rle_bytes(self.data@)
    }

    /// Well-formed: the runs cover exactly the packed volume.
    pub open spec fn wf(self) -> bool {
        self.bytes().len() == PACKED
    }

    /// The voxel value at each linear index; every value is in [0, 16).
    pub open spec fn voxels(self) -> Seq<u8> {
        voxels_of(self.bytes())
    }

    /// Build a chunk from a full raw voxel array; only the low 4 bits of
    /// each byte are kept. Fails with `LengthMismatch` on any other length.
    pub fn create(data: &[u8]) -> (r: Result<Chunk, ChunkError>)
        ensures
            data@.len() == FULL ==> (r matches Ok(c) && c.wf() && c.voxels() == low_nibbles(data@)
                && runs_maximal(c.data@)),
            data@.len() != FULL ==> r == Err::<Chunk, ChunkError>(ChunkError::LengthMismatch),
    {
        if data.len() != FULL {
            return Err(ChunkError::LengthMismatch);
        }
        let packed = create_bitvec(data);
        let runs = create_rle(&packed);
        proof {
            lemma_voxels_of_packed(data@);
        }
        Ok(Chunk { data: runs })
    }

    /// Replace this chunk's whole contents from a full raw voxel array,
    /// discarding any prior state. Fails with `LengthMismatch`, leaving the
    /// chunk unchanged, on any other length.
    pub fn populate(&mut self, data: &[u8]) -> (r: Result<(), ChunkError>)
        ensures
            data@.len() == FULL ==> r == Ok::<(), ChunkError>(())
                && final(self).wf()
                && final(self).voxels() == low_nibbles(data@)
                && runs_maximal(final(self).data@),
            data@.len() != FULL ==> r == Err::<(), ChunkError>(ChunkError::LengthMismatch)
                && *final(self) == *old(self),
    {
        if data.len() != FULL {
            return Err(ChunkError::LengthMismatch);
        }
        let packed = create_bitvec(data);
        self.data = create_rle(&packed);
        proof {
            lemma_voxels_of_packed(data@);
        }
        Ok(())
    }

    /// Find the run covering a packed byte offset: its value, its index, its
    /// stored length, and the byte offset at which it starts. The buffer
    /// invariant guarantees that a covering run exists, so a miss — which
    /// would signal a corrupting earlier update — is proved unreachable.
    fn decode_rle(&self, compressed_index: usize) -> (r: (u8, usize, u16, usize))
        requires
            self.wf(),
            compressed_index < PACKED,
        ensures
            ({
                let (value, run_index, run_stored, run_start) = r;
                &&& run_index < self.data@.len()
                &&& self.data@[run_index as int] == (value, run_stored)
                &&& run_start == rle_bytes(self.data@.take(run_index as int)).len()
                &&& run_start <= compressed_index < run_start + run_stored + 1
                &&& self.bytes()[compressed_index as int] == value
            }),
    {
        let n = self.data.len();
        let mut i: usize = 0;
        let mut start: usize = 0;
        proof {
            assert(self.data@.take(0) =~= Seq::<(u8, u16)>::empty());
            if self.data@.len() == 0 {
                assert(self.bytes().len() == 0);
            }
        }
        loop
            invariant
                self.wf(),
                compressed_index < PACKED,
                n == self.data@.len(),
                i < n,
                start == rle_bytes(self.data@.take(i as int)).len(),
                start <= compressed_index,
            decreases self.data@.len() - i,
        {
            let (value, stored) = self.data[i];
            let length: usize = stored as usize + 1;
            proof {
                lemma_rle_bytes_take_step(self.data@, i as int);
                lemma_rle_bytes_split(self.data@, i as int + 1);
            }
            if compressed_index < start + length {
                proof {
                    lemma_rle_index_in_run(self.data@, i as int, compressed_index as int);
                }
                return (value, i, stored, start);
            }
            proof {
                if i + 1 == n {
                    assert(self.data@.take(i as int + 1) =~= self.data@);
                }
            }
            start = start + length;
            i = i + 1;
        }
    }

    /// Point-update one packed byte: a no-op when the covering run already
    /// holds the value, an in-place overwrite when that run is a single byte,
    /// and otherwise a split of the run, with empty remainder runs dropped so
    /// the covered length stays exact. Adjacent equal-value runs that a
    /// split leaves behind are not re-coalesced — a deliberate trade-off:
    /// scattered writes progressively fragment a chunk, and no periodic
    /// recompaction is performed.
    fn update_rle(&mut self, index: usize, new_value: u8)
        requires
            old(self).wf(),
            index < PACKED,
        ensures
            final(self).wf(),
            final(self).bytes() == old(self).bytes().update(index as int, new_value),
            old(self).bytes()[index as int] == new_value ==> final(self).data@ == old(
                self,
            ).data@,
            final(self).data@.len() <= old(self).data@.len() + 2,
            forall|i: int|
                0 <= i < old(self).data@.len() && covers(old(self).data@, i, index as int) && old(
                    self,
                ).data@[i].1 == 0 ==> final(self).data@.len() == old(self).data@.len(),
    {
        let (value, run_index, run_stored, run_start) = self.decode_rle(index);
        let ghost runs = old(self).data@;
        let ghost idx = run_index as int;
        proof {
            assert(self.data@.len() == self.data.len());
        }
        if value == new_value {
            proof {
                assert(old(self).bytes().update(index as int, new_value) =~= old(self).bytes());
            }
            return;
        }
        let x: usize = index - run_start;
        if run_stored == 0 {
            self.data[run_index] = (new_value, 0);
            proof {
                let mid = seq![(new_value, 0u16)];
                assert(self.data@ =~= runs.take(idx) + mid + runs.skip(idx + 1));
                lemma_rle_bytes_singleton((new_value, 0u16));
                assert(rle_bytes(mid) =~= run_bytes(runs[idx]).update(0, new_value));
                lemma_rle_splice(runs, idx, mid, 0, new_value);
            }
            return;
        }
        proof {
            // The decoded run is the one covering run; no single-byte run
            // also covers this offset, so the overwrite clause is settled.
            assert(covers(runs, idx, index as int));
            assert forall|i2: int|
                0 <= i2 < runs.len() && covers(runs, i2, index as int) && runs[i2].1
                    == 0 implies false by {
                lemma_covers_unique(runs, i2, idx, index as int);
            }
        }
        if x == 0 {
            self.data[run_index] = (new_value, 0);
            self.data.insert(run_index + 1, (value, run_stored - 1));
            proof {
                let mid = seq![(new_value, 0u16), (value, (run_stored - 1) as u16)];
                assert(self.data@ =~= runs.take(idx) + mid + runs.skip(idx + 1));
                assert(mid =~= seq![(new_value, 0u16)] + seq![(value, (run_stored - 1) as u16)]);
                lemma_rle_bytes_append(
                    seq![(new_value, 0u16)],
                    seq![(value, (run_stored - 1) as u16)],
                );
                lemma_rle_bytes_singleton((new_value, 0u16));
                lemma_rle_bytes_singleton((value, (run_stored - 1) as u16));
                assert(rle_bytes(mid) =~= run_bytes(runs[idx]).update(0, new_value));
                lemma_rle_splice(runs, idx, mid, 0, new_value);
            }
        } else if x == run_stored as usize {
            self.data[run_index] = (value, run_stored - 1);
            self.data.insert(run_index + 1, (new_value, 0));
            proof {
                let mid = seq![(value, (run_stored - 1) as u16), (new_value, 0u16)];
                assert(self.data@ =~= runs.take(idx) + mid + runs.skip(idx + 1));
                assert(mid =~= seq![(value, (run_stored - 1) as u16)] + seq![(new_value, 0u16)]);
                lemma_rle_bytes_append(
                    seq![(value, (run_stored - 1) as u16)],
                    seq![(new_value, 0u16)],
                );
                lemma_rle_bytes_singleton((value, (run_stored - 1) as u16));
                lemma_rle_bytes_singleton((new_value, 0u16));
                assert(rle_bytes(mid) =~= run_bytes(runs[idx]).update(x as int, new_value));
                lemma_rle_splice(runs, idx, mid, x as int, new_value);
            }
        } else {
            self.data[run_index] = (value, (x - 1) as u16);
            self.data.insert(run_index + 1, (new_value, 0));
            proof {
                assert(self.data@.len() == self.data.len());
            }
            self.data.insert(run_index + 2, (value, run_stored - (x as u16) - 1));
            proof {
                let left = (value, (x - 1) as u16);
                let right = (value, (run_stored - x - 1) as u16);
                let mid = seq![left, (new_value, 0u16), right];
                assert(self.data@ =~= runs.take(idx) + mid + runs.skip(idx + 1));
                assert(mid =~= (seq![left] + seq![(new_value, 0u16)]) + seq![right]);
                lemma_rle_bytes_append(seq![left] + seq![(new_value, 0u16)], seq![right]);
                lemma_rle_bytes_append(seq![left], seq![(new_value, 0u16)]);
                lemma_rle_bytes_singleton(left);
                lemma_rle_bytes_singleton((new_value, 0u16));
                lemma_rle_bytes_singleton(right);
                assert(rle_bytes(mid) =~= run_bytes(runs[idx]).update(x as int, new_value));
                lemma_rle_splice(runs, idx, mid, x as int, new_value);
            }
        }
    }

    /// Compute the linear index of an in-bounds local coordinate.
    pub fn calc_index(x: usize, y: usize, z: isize) -> (r: usize)
        requires
            chunk_bounds(x as int, y as int, z as int),
        ensures
            r as int == linear_index_spec(x as int, y as int, z as int),
            r < FULL,
    {
        proof {
            assert((WIDTH * HEIGHT) as int == 6144) by (nonlinear_arith)
                requires
                    WIDTH == 16usize,
                    HEIGHT == 384usize,
            ;
        }
        let zz = (z + SHIFT as isize) as usize;
        (x * 6144) + (zz * 16) + y
    }

    /// Read the voxel at a local coordinate: the covering run is decoded and
    /// the addressed nibble extracted. Fails with `OutOfBounds` when the
    /// coordinate lies outside the chunk volume.
    pub fn get(&self, x: usize, y: usize, z: isize) -> (r: Result<u8, ChunkError>)
        requires
            self.wf(),
        ensures
            chunk_bounds(x as int, y as int, z as int) ==> r == Ok::<u8, ChunkError>(
                self.voxels()[linear_index_spec(x as int, y as int, z as int)],
            ),
            !chunk_bounds(x as int, y as int, z as int) ==> r == Err::<u8, ChunkError>(
                ChunkError::OutOfBounds,
            ),
    {
        if !(x < WIDTH && y < WIDTH && z < (HEIGHT - SHIFT) as isize && z >= -(SHIFT as isize)) {
            return Err(ChunkError::OutOfBounds);
        }
        let index = Chunk::calc_index(x, y, z);
        let byte_index = index / 2;
        let decoded = self.decode_rle(byte_index);
        let value_byte = decoded.0;
        let value = if index % 2 == 0 {
            value_byte & 0x0f
        } else {
            value_byte >> 4
        };
        proof {
            let lin = linear_index_spec(x as int, y as int, z as int);
            assert(self.voxels()[lin] == nibble(self.bytes()[lin / 2], lin % 2));
        }
        Ok(value)
    }

    /// Write the voxel at a local coordinate, preserving the sibling nibble
    /// that shares its packed byte. Fails with `OutOfBounds`, leaving the
    /// chunk unchanged, when the coordinate lies outside the chunk volume.
    pub fn set(&mut self, x: usize, y: usize, z: isize, value: u8) -> (r: Result<(), ChunkError>)
        requires
            old(self).wf(),
            value < 16,
        ensures
            final(self).wf(),
            chunk_bounds(x as int, y as int, z as int) ==> r == Ok::<(), ChunkError>(())
                && final(self).voxels() == old(self).voxels().update(
                    linear_index_spec(x as int, y as int, z as int),
                    value,
                ),
            !chunk_bounds(x as int, y as int, z as int) ==> r == Err::<(), ChunkError>(
                ChunkError::OutOfBounds,
            ) && *final(self) == *old(self),
            chunk_bounds(x as int, y as int, z as int) && old(self).voxels()[linear_index_spec(
                x as int,
                y as int,
                z as int,
            )] == value ==> final(self).data@ == old(self).data@,
            final(self).data@.len() <= old(self).data@.len() + 2,
    {
        if !(x < WIDTH && y < WIDTH && z < (HEIGHT - SHIFT) as isize && z >= -(SHIFT as isize)) {
            return Err(ChunkError::OutOfBounds);
        }
        let index = Chunk::calc_index(x, y, z);
        let byte_index = index / 2;
        let decoded = self.decode_rle(byte_index);
        let old_byte = decoded.0;
        let new_byte = if index % 2 == 0 {
            (old_byte & 0xf0) | value
        } else {
            (old_byte & 0x0f) | (value << 4)
        };
        proof {
            let lin = linear_index_spec(x as int, y as int, z as int);
            if index % 2 == 0 {
                assert(((old_byte & 0xf0) | value) & 0x0f == value) by (bit_vector)
                    requires
                        value < 16,
                ;
                assert(((old_byte & 0xf0) | value) >> 4 == old_byte >> 4) by (bit_vector)
                    requires
                        value < 16,
                ;
                if old(self).voxels()[lin] == value {
                    assert(((old_byte & 0xf0) | value) == old_byte) by (bit_vector)
                        requires
                            value == old_byte & 0x0f,
                    ;
                }
            } else {
                assert(((old_byte & 0x0f) | (value << 4)) >> 4 == value) by (bit_vector)
                    requires
                        value < 16,
                ;
                assert(((old_byte & 0x0f) | (value << 4)) & 0x0f == old_byte & 0x0f) by (
                bit_vector);
                if old(self).voxels()[lin] == value {
                    assert(((old_byte & 0x0f) | (value << 4)) == old_byte) by (bit_vector)
                        requires
                            value == old_byte >> 4,
                    ;
                }
            }
        }
        self.update_rle(byte_index, new_byte);
        proof {
            let lin = linear_index_spec(x as int, y as int, z as int);
            lemma_voxels_update(old(self).bytes(), byte_index as int, new_byte, lin, value);
        }
        Ok(())
    }
}

} // verus!
