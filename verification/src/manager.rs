//! The chunk manager: owns the mapping from chunk coordinate to chunk,
//! translates unbounded global voxel coordinates into chunk and local
//! coordinates, and exposes build/remove/get/set together with a pluggable
//! "resident chunk missing" hook (a stub that declines every request).
//!
//! Resident chunks are kept as a vector of coordinate/chunk entries with
//! unique coordinates; the map they stand for is the manager's view.

use vstd::prelude::*;

use vstd::arithmetic::div_mod::{
    lemma_fundamental_div_mod, lemma_fundamental_div_mod_converse, lemma_mod_bound,
};

use crate::chunk::{chunk_bounds, linear_index_spec, Chunk};
use crate::packing::lemma_voxels_bounded;
use crate::{ChunkError, FULL, WIDTH};

verus! {

/// The chunk coordinate containing a global coordinate: the floor of
/// `g / WIDTH` (Euclidean division, which for a positive divisor rounds
/// toward minus infinity, never toward zero).
pub open spec fn chunk_coord(g: int) -> int {
    g / (WIDTH as int)
}

/// The local coordinate of a global coordinate inside its chunk: the
/// Euclidean remainder `g % WIDTH`, always in [0, WIDTH).
pub open spec fn local_coord(g: int) -> int {
    g % (WIDTH as int)
}

/// The chunk coordinate pair addressed by global x and y.
pub open spec fn coords_of(x: isize, y: isize) -> (i64, i64) {
    (chunk_coord(x as int) as i64, chunk_coord(y as int) as i64)
}

/// Whether some entry of `s` holds coordinate `c`.
pub open spec fn has_key(s: Seq<((i64, i64), Chunk)>, c: (i64, i64)) -> bool {
    exists|i: int| 0 <= i < s.len() && s[i].0 == c
}

/// The chunk stored under coordinate `c`.
pub open spec fn chunk_at(s: Seq<((i64, i64), Chunk)>, c: (i64, i64)) -> Chunk {
    s[choose|i: int| 0 <= i < s.len() && s[i].0 == c].1
}

/// No two entries of `s` share a coordinate.
pub open spec fn unique_keys(s: Seq<((i64, i64), Chunk)>) -> bool {
    forall|i: int, j: int| 0 <= i < j < s.len() ==> s[i].0 != s[j].0
}

/// With unique keys, the entry found at any index holding `c` is the one
/// `chunk_at` denotes.
proof fn lemma_chunk_at_found(s: Seq<((i64, i64), Chunk)>, c: (i64, i64), i: int)
    requires
        unique_keys(s),
        0 <= i < s.len(),
        s[i].0 == c,
    ensures
        has_key(s, c),
        chunk_at(s, c) == s[i].1,
{
    assert(has_key(s, c));
    let j = choose|j: int| 0 <= j < s.len() && s[j].0 == c;
    assert(0 <= j < s.len() && s[j].0 == c);
    if i < j {
        assert(s[i].0 != s[j].0);
    } else if j < i {
        assert(s[j].0 != s[i].0);
    }
}

/// Removing entry `i` and appending an entry with the same coordinate keeps
/// the keys unique and changes only that coordinate's chunk.
proof fn lemma_remove_push(s: Seq<((i64, i64), Chunk)>, i: int, e: ((i64, i64), Chunk))
    requires
        unique_keys(s),
        0 <= i < s.len(),
        s[i].0 == e.0,
    ensures
        unique_keys(s.remove(i).push(e)),
        forall|j: int|
            0 <= j < s.len() - 1 ==> s.remove(i).push(e)[j] == (if j < i {
                s[j]
            } else {
                s[j + 1]
            }),
        s.remove(i).push(e)[s.len() - 1] == e,
        s.remove(i).push(e).len() == s.len(),
        forall|c: (i64, i64)|
            c != e.0 ==> has_key(s.remove(i).push(e), c) == has_key(s, c),
        forall|c: (i64, i64)|
            c != e.0 && has_key(s, c) ==> chunk_at(s.remove(i).push(e), c) == chunk_at(s, c),
        has_key(s.remove(i).push(e), e.0),
        chunk_at(s.remove(i).push(e), e.0) == e.1,
{
    let t = s.remove(i).push(e);
    let n = s.len() as int;
    assert(t.len() == n);
    assert forall|j: int| 0 <= j < n - 1 implies t[j] == (if j < i {
        s[j]
    } else {
        s[j + 1]
    }) by {}
    assert(t[n - 1] == e);
    assert forall|a: int, b: int| 0 <= a < b < n implies t[a].0 != t[b].0 by {
        if b < n - 1 {
            let a0 = if a < i {
                a
            } else {
                a + 1
            };
            let b0 = if b < i {
                b
            } else {
                b + 1
            };
            assert(t[a] == s[a0] && t[b] == s[b0]);
            assert(a0 < b0);
        } else {
            let a0 = if a < i {
                a
            } else {
                a + 1
            };
            assert(t[a] == s[a0]);
            assert(a0 != i);
            if a0 < i {
                assert(s[a0].0 != s[i].0);
            } else {
                assert(s[i].0 != s[a0].0);
            }
        }
    }
    assert forall|c: (i64, i64)| c != e.0 implies has_key(t, c) == has_key(s, c) by {
        if has_key(t, c) {
            let j = choose|j: int| 0 <= j < t.len() && t[j].0 == c;
            assert(j < n - 1);
            let j0 = if j < i {
                j
            } else {
                j + 1
            };
            assert(s[j0].0 == c);
            assert(has_key(s, c));
        }
        if has_key(s, c) {
            let j0 = choose|j0: int| 0 <= j0 < s.len() && s[j0].0 == c;
            assert(j0 != i);
            let j = if j0 < i {
                j0
            } else {
                j0 - 1
            };
            assert(t[j].0 == c);
            assert(has_key(t, c));
        }
    }
    assert forall|c: (i64, i64)| c != e.0 && has_key(s, c) implies chunk_at(t, c) == chunk_at(
        s,
        c,
    ) by {
        let j0 = choose|j0: int| 0 <= j0 < s.len() && s[j0].0 == c;
        lemma_chunk_at_found(s, c, j0);
        let j = if j0 < i {
            j0
        } else {
            j0 - 1
        };
        assert(t[j] == s[j0]);
        lemma_chunk_at_found(t, c, j);
    }
    lemma_chunk_at_found(t, e.0, n - 1);
}

/// Appending an entry under a fresh coordinate keeps the keys unique, adds
/// that coordinate, and leaves every other coordinate's chunk unchanged.
proof fn lemma_push_new(s: Seq<((i64, i64), Chunk)>, e: ((i64, i64), Chunk))
    requires
        unique_keys(s),
        !has_key(s, e.0),
    ensures
        unique_keys(s.push(e)),
        forall|j: int| 0 <= j < s.len() ==> s.push(e)[j] == s[j],
        s.push(e)[s.len() as int] == e,
        forall|c: (i64, i64)| c != e.0 ==> has_key(s.push(e), c) == has_key(s, c),
        forall|c: (i64, i64)|
            c != e.0 && has_key(s, c) ==> chunk_at(s.push(e), c) == chunk_at(s, c),
        has_key(s.push(e), e.0),
        chunk_at(s.push(e), e.0) == e.1,
{
    let t = s.push(e);
    let n = s.len() as int;
    assert forall|a: int, b: int| 0 <= a < b < t.len() implies t[a].0 != t[b].0 by {
        if b == n {
            assert(t[a] == s[a]);
            if t[a].0 == e.0 {
                assert(has_key(s, e.0));
            }
        }
    }
    assert forall|c: (i64, i64)| c != e.0 implies has_key(t, c) == has_key(s, c) by {
        if has_key(t, c) {
            let j = choose|j: int| 0 <= j < t.len() && t[j].0 == c;
            assert(j < n);
            assert(s[j].0 == c);
            assert(has_key(s, c));
        }
        if has_key(s, c) {
            let j = choose|j: int| 0 <= j < s.len() && s[j].0 == c;
            assert(t[j].0 == c);
            assert(has_key(t, c));
        }
    }
    assert forall|c: (i64, i64)| c != e.0 && has_key(s, c) implies chunk_at(t, c) == chunk_at(
        s,
        c,
    ) by {
        let j = choose|j: int| 0 <= j < s.len() && s[j].0 == c;
        lemma_chunk_at_found(s, c, j);
        lemma_chunk_at_found(t, c, j);
    }
    lemma_chunk_at_found(t, e.0, n);
}

/// Removing entry `i` keeps the keys unique, drops its coordinate, and
/// leaves every other coordinate's chunk unchanged.
proof fn lemma_remove_entry(s: Seq<((i64, i64), Chunk)>, i: int)
    requires
        unique_keys(s),
        0 <= i < s.len(),
    ensures
        unique_keys(s.remove(i)),
        s.remove(i).len() == s.len() - 1,
        forall|j: int|
            0 <= j < s.len() - 1 ==> s.remove(i)[j] == (if j < i {
                s[j]
            } else {
                s[j + 1]
            }),
        !has_key(s.remove(i), s[i].0),
        forall|c: (i64, i64)| c != s[i].0 ==> has_key(s.remove(i), c) == has_key(s, c),
        forall|c: (i64, i64)|
            c != s[i].0 && has_key(s, c) ==> chunk_at(s.remove(i), c) == chunk_at(s, c),
{
    let t = s.remove(i);
    let n = s.len() as int;
    assert forall|j: int| 0 <= j < n - 1 implies t[j] == (if j < i {
        s[j]
    } else {
        s[j + 1]
    }) by {}
    assert forall|a: int, b: int| 0 <= a < b < t.len() implies t[a].0 != t[b].0 by {
        let a0 = if a < i {
            a
        } else {
            a + 1
        };
        let b0 = if b < i {
            b
        } else {
            b + 1
        };
        assert(t[a] == s[a0] && t[b] == s[b0]);
        assert(a0 < b0);
    }
    if has_key(t, s[i].0) {
        let j = choose|j: int| 0 <= j < t.len() && t[j].0 == s[i].0;
        let j0 = if j < i {
            j
        } else {
            j + 1
        };
        assert(s[j0].0 == s[i].0);
        assert(j0 != i);
        if j0 < i {
            assert(s[j0].0 != s[i].0);
        } else {
            assert(s[i].0 != s[j0].0);
        }
    }
    assert forall|c: (i64, i64)| c != s[i].0 implies has_key(t, c) == has_key(s, c) by {
        if has_key(t, c) {
            let j = choose|j: int| 0 <= j < t.len() && t[j].0 == c;
            let j0 = if j < i {
                j
            } else {
                j + 1
            };
            assert(s[j0].0 == c);
            assert(has_key(s, c));
        }
        if has_key(s, c) {
            let j0 = choose|j0: int| 0 <= j0 < s.len() && s[j0].0 == c;
            assert(j0 != i);
            let j = if j0 < i {
                j0
            } else {
                j0 - 1
            };
            assert(t[j].0 == c);
            assert(has_key(t, c));
        }
    }
    assert forall|c: (i64, i64)| c != s[i].0 && has_key(s, c) implies chunk_at(t, c) == chunk_at(
        s,
        c,
    ) by {
        let j0 = choose|j0: int| 0 <= j0 < s.len() && s[j0].0 == c;
        lemma_chunk_at_found(s, c, j0);
        let j = if j0 < i {
            j0
        } else {
            j0 - 1
        };
        assert(t[j] == s[j0]);
        lemma_chunk_at_found(t, c, j);
    }
}

/// Maps unbounded global voxel coordinates onto resident chunks; the map
/// exclusively owns its chunks.
pub struct ChunkManager {
    chunks: Vec<((i64, i64), Chunk)>,
}

impl ChunkManager {
    /// Well-formed: chunk coordinates are unique and every resident chunk
    /// covers its full packed volume.
    pub closed spec fn wf(self) -> bool {
        &&& unique_keys(self.chunks@)
        &&& forall|i: int| 0 <= i < self.chunks@.len() ==> (#[trigger] self.chunks@[i].1).wf()
    }

    /// The voxel contents of every resident chunk, by chunk coordinate.
    pub closed spec fn chunk_map(self) -> Map<(i64, i64), Seq<u8>> {
        Map::new(
            |c: (i64, i64)| has_key(self.chunks@, c),
            |c: (i64, i64)| chunk_at(self.chunks@, c).voxels(),
        )
    }

    /// What the map view guarantees of every resident chunk of a
    /// well-formed manager: exactly `FULL` voxel values, each in [0, 16).
    pub proof fn lemma_resident_contents(self, c: (i64, i64))
        requires
            self.wf(),
            self.chunk_map().contains_key(c),
        ensures
            self.chunk_map()[c].len() == FULL,
            forall|i: int| 0 <= i < FULL ==> self.chunk_map()[c][i] < 16,
    {
        let j = choose|j: int| 0 <= j < self.chunks@.len() && self.chunks@[j].0 == c;
        lemma_chunk_at_found(self.chunks@, c, j);
        assert(self.chunks@[j].1.wf());
        lemma_voxels_bounded(chunk_at(self.chunks@, c).bytes());
    }

    /// Create an empty manager with no resident chunks.
    pub fn create() -> (r: ChunkManager)
        ensures
            r.wf(),
            r.chunk_map() == Map::<(i64, i64), Seq<u8>>::empty(),
    {
        let r = ChunkManager { chunks: Vec::new() };
        proof {
            assert(r.chunk_map() =~= Map::<(i64, i64), Seq<u8>>::empty());
        }
        r
    }

    /// Index of the entry holding `coords`, if that chunk is resident.
    fn find(&self, coords: (i64, i64)) -> (r: Option<usize>)
        ensures
            match r {
                Some(i) => i < self.chunks@.len() && self.chunks@[i as int].0 == coords,
                None => !has_key(self.chunks@, coords),
            },
    {
        let n = self.chunks.len();
        let mut i: usize = 0;
        while i < n
            invariant
                n == self.chunks@.len(),
                i <= n,
                forall|k: int| 0 <= k < i ==> self.chunks@[k].0 != coords,
            decreases n - i,
        {
            let c = self.chunks[i].0;
            if c.0 == coords.0 && c.1 == coords.1 {
                return Some(i);
            }
            i += 1;
        }
        None
    }

    /// Chunk coordinate of one global axis value: floor division by `WIDTH`,
    /// so negative coordinates map to the chunk that actually contains them.
    pub fn proc_c(num: isize) -> (r: i64)
        ensures
            r as int == chunk_coord(num as int),
    {
        if num >= 0 {
            let q = (num as u128) / (WIDTH as u128);
            proof {
                assert(q as int == (num as int) / (WIDTH as int));
            }
            q as i64
        } else {
            let m = (-(num as i128)) as u128;
            let q = (m + (WIDTH as u128 - 1)) / (WIDTH as u128);
            proof {
                let w = WIDTH as int;
                let mi = m as int;
                lemma_fundamental_div_mod(mi + (w - 1), w);
                lemma_mod_bound(mi + (w - 1), w);
                let qi = (mi + (w - 1)) / w;
                let s = (mi + (w - 1)) % w;
                assert(num as int == (-qi) * w + ((w - 1) - s));
                lemma_fundamental_div_mod_converse(num as int, w, -qi, (w - 1) - s);
            }
            -(q as i64)
        }
    }

    /// Local coordinate of one global axis value: the Euclidean remainder by
    /// `WIDTH`, normalized into [0, WIDTH), never negative.
    pub fn proc_p(num: isize) -> (r: usize)
        ensures
            r as int == local_coord(num as int),
            r < WIDTH,
    {
        if num >= 0 {
            let r = (num as u128) % (WIDTH as u128);
            proof {
                assert(r as int == (num as int) % (WIDTH as int));
            }
            r as usize
        } else {
            let m = (-(num as i128)) as u128;
            let s = m % (WIDTH as u128);
            let r = ((WIDTH as u128) - s) % (WIDTH as u128);
            proof {
                let w = WIDTH as int;
                let mi = m as int;
                lemma_fundamental_div_mod(mi, w);
                lemma_mod_bound(mi, w);
                let qm = mi / w;
                let si = mi % w;
                if si == 0 {
                    lemma_fundamental_div_mod_converse(num as int, w, -qm, 0);
                } else {
                    lemma_fundamental_div_mod_converse(num as int, w, -qm - 1, w - si);
                }
            }
            r as usize
        }
    }

    /// The "resident chunk missing" hook: an external collaborator reports
    /// whether the chunk is now available. This stub always declines, so a
    /// miss is reported to the caller instead of being repaired here.
    fn request_chunk(&self, _coords: (i64, i64)) -> (r: bool)
        ensures
            !r,
    {
        false
    }

    /// Read the voxel at a global coordinate and shift it into the external
    /// range: stored 0 reads as -1 ("empty"), stored v as palette id v - 1.
    /// On a miss the load hook is consulted once; the stub declines, so the
    /// read fails with `ChunkMissing`.
    pub fn get(&self, x: isize, y: isize, z: isize) -> (r: Result<i8, ChunkError>)
        requires
            self.wf(),
        ensures
            !self.chunk_map().contains_key(coords_of(x, y)) ==> r == Err::<i8, ChunkError>(
                ChunkError::ChunkMissing,
            ),
            self.chunk_map().contains_key(coords_of(x, y)) && !chunk_bounds(
                local_coord(x as int),
                local_coord(y as int),
                z as int,
            ) ==> r == Err::<i8, ChunkError>(ChunkError::OutOfBounds),
            self.chunk_map().contains_key(coords_of(x, y)) && chunk_bounds(
                local_coord(x as int),
                local_coord(y as int),
                z as int,
            ) ==> (r matches Ok(v) && v as int == self.chunk_map()[coords_of(x, y)][linear_index_spec(
                local_coord(x as int),
                local_coord(y as int),
                z as int,
            )] - 1),
            r matches Ok(v) ==> -1 <= v <= 14,
    {
        let coords = (Self::proc_c(x), Self::proc_c(y));
        match self.find(coords) {
            None => {
                // Consult the load hook once per miss before failing.
                let _loaded = self.request_chunk(coords);
                Err(ChunkError::ChunkMissing)
            },
            Some(i) => {
                proof {
                    lemma_chunk_at_found(self.chunks@, coords, i as int);
                }
                let px = Self::proc_p(x);
                let py = Self::proc_p(y);
                let entry = &self.chunks[i];
                match entry.1.get(px, py, z) {
                    Ok(v) => {
                        proof {
                            lemma_voxels_bounded(chunk_at(self.chunks@, coords).bytes());
                            crate::chunk::lemma_linear_index_range(
                                local_coord(x as int),
                                local_coord(y as int),
                                z as int,
                            );
                        }
                        Ok(v as i8 - 1)
                    },
                    Err(e) => Err(e),
                }
            },
        }
    }

    /// Write the voxel at a global coordinate, shifting the external value
    /// into storage: value v is stored as v + 1, so -1 ("empty") stores 0.
    /// Writing needs a resident chunk: a miss fails with `ChunkMissing`
    /// without consulting the load hook.
    pub fn set(&mut self, x: isize, y: isize, z: isize, value: i8) -> (r: Result<(), ChunkError>)
        requires
            old(self).wf(),
            -1 <= value <= 14,
        ensures
            final(self).wf(),
            !old(self).chunk_map().contains_key(coords_of(x, y)) ==> r == Err::<(), ChunkError>(
                ChunkError::ChunkMissing,
            ) && final(self).chunk_map() == old(self).chunk_map(),
            old(self).chunk_map().contains_key(coords_of(x, y)) && !chunk_bounds(
                local_coord(x as int),
                local_coord(y as int),
                z as int,
            ) ==> r == Err::<(), ChunkError>(ChunkError::OutOfBounds) && final(self).chunk_map()
                == old(self).chunk_map(),
            old(self).chunk_map().contains_key(coords_of(x, y)) && chunk_bounds(
                local_coord(x as int),
                local_coord(y as int),
                z as int,
            ) ==> r == Ok::<(), ChunkError>(()) && final(self).chunk_map()
                == old(self).chunk_map().insert(
                coords_of(x, y),
                old(self).chunk_map()[coords_of(x, y)].update(
                    linear_index_spec(local_coord(x as int), local_coord(y as int), z as int),
                    (value + 1) as u8,
                ),
            ),
    {
        let coords = (Self::proc_c(x), Self::proc_c(y));
        match self.find(coords) {
            None => Err(ChunkError::ChunkMissing),
            Some(i) => {
                proof {
                    lemma_chunk_at_found(old(self).chunks@, coords, i as int);
                }
                let px = Self::proc_p(x);
                let py = Self::proc_p(y);
                let mut entry = self.chunks.remove(i);
                let res = entry.1.set(px, py, z, (value + 1) as u8);
                let ghost e = entry;
                self.chunks.push(entry);
                proof {
                    lemma_remove_push(old(self).chunks@, i as int, e);
                    assert forall|j: int| 0 <= j < self.chunks@.len() implies (
                    #[trigger] self.chunks@[j].1).wf() by {
                        lemma_remove_push(old(self).chunks@, i as int, e);
                    }
                    if res is Ok {
                        assert(final(self).chunk_map() =~= old(self).chunk_map().insert(
                            coords_of(x, y),
                            old(self).chunk_map()[coords_of(x, y)].update(
                                linear_index_spec(
                                    local_coord(x as int),
                                    local_coord(y as int),
                                    z as int,
                                ),
                                (value + 1) as u8,
                            ),
                        ));
                    } else {
                        assert(final(self).chunk_map() =~= old(self).chunk_map());
                    }
                }
                res
            },
        }
    }

    /// Create the chunk at `coords` from a full raw voxel array, or wholly
    /// replace its contents when it is already resident (no merge: nothing
    /// of the previous contents survives). Fails with `LengthMismatch`,
    /// changing nothing, when the array is not exactly `FULL` bytes.
    pub fn build(&mut self, coords: (i64, i64), data: &[u8]) -> (r: Result<(), ChunkError>)
        requires
            old(self).wf(),
        ensures
            final(self).wf(),
            data@.len() != FULL ==> r == Err::<(), ChunkError>(ChunkError::LengthMismatch)
                && final(self).chunk_map() == old(self).chunk_map(),
            data@.len() == FULL ==> r == Ok::<(), ChunkError>(())
                && final(self).chunk_map() == old(self).chunk_map().insert(
                    coords,
                    crate::packing::low_nibbles(data@),
                ),
    {
        if data.len() != FULL {
            return Err(ChunkError::LengthMismatch);
        }
        match self.find(coords) {
            Some(i) => {
                let mut entry = self.chunks.remove(i);
                let res = entry.1.populate(data);
                let ghost e = entry;
                self.chunks.push(entry);
                proof {
                    lemma_chunk_at_found(old(self).chunks@, coords, i as int);
                    lemma_remove_push(old(self).chunks@, i as int, e);
                    assert forall|j: int| 0 <= j < self.chunks@.len() implies (
                    #[trigger] self.chunks@[j].1).wf() by {
                        lemma_remove_push(old(self).chunks@, i as int, e);
                    }
                    assert(final(self).chunk_map() =~= old(self).chunk_map().insert(
                        coords,
                        crate::packing::low_nibbles(data@),
                    ));
                }
                match res {
                    Ok(()) => Ok(()),
                    Err(e) => Err(e),
                }
            },
            None => {
                match Chunk::create(data) {
                    Ok(chunk) => {
                        let ghost e = (coords, chunk);
                        self.chunks.push((coords, chunk));
                        proof {
                            lemma_push_new(old(self).chunks@, e);
                            assert forall|j: int| 0 <= j < self.chunks@.len() implies (
                            #[trigger] self.chunks@[j].1).wf() by {
                                lemma_push_new(old(self).chunks@, e);
                            }
                            assert(final(self).chunk_map() =~= old(self).chunk_map().insert(
                                coords,
                                crate::packing::low_nibbles(data@),
                            ));
                        }
                        Ok(())
                    },
                    Err(e) => Err(e),
                }
            },
        }
    }

    /// Evict the chunk at `coords`; absent coordinates are left as they are.
    /// A later access to this coordinate needs the load hook to succeed.
    pub fn remove(&mut self, coords: (i64, i64))
        requires
            old(self).wf(),
        ensures
            final(self).wf(),
            final(self).chunk_map() == old(self).chunk_map().remove(coords),
    {
        match self.find(coords) {
            None => {
                proof {
                    assert(final(self).chunk_map() =~= old(self).chunk_map().remove(coords));
                }
            },
            Some(i) => {
                self.chunks.remove(i);
                proof {
                    lemma_remove_entry(old(self).chunks@, i as int);
                    assert forall|j: int| 0 <= j < self.chunks@.len() implies (
                    #[trigger] self.chunks@[j].1).wf() by {
                        lemma_remove_entry(old(self).chunks@, i as int);
                    }
                    assert(final(self).chunk_map() =~= old(self).chunk_map().remove(coords));
                }
            },
        }
    }
}

} // verus!
