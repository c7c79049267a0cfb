use voxelstore::chunk::Chunk;
use voxelstore::{ChunkError, FULL, HEIGHT, SHIFT, WIDTH};

fn banded_data() -> Vec<u8> {
    // Sixteen long bands, one per palette value, so every value round-trips.
    let mut data = vec![0u8; FULL];
    for (i, b) in data.iter_mut().enumerate() {
        *b = ((i / (FULL / 16)) % 16) as u8;
    }
    data
}

#[test]
fn round_trip_full_volume() {
    let data = banded_data();
    let chunk = Chunk::create(&data).unwrap();
    for x in 0..WIDTH {
        for y in 0..WIDTH {
            for z in -(SHIFT as isize)..(HEIGHT - SHIFT) as isize {
                let expected = data[Chunk::calc_index(x, y, z)];
                assert_eq!(chunk.get(x, y, z), Ok(expected));
            }
        }
    }
}

#[test]
fn write_read_idempotence() {
    let data = vec![0u8; FULL];
    let mut chunk = Chunk::create(&data).unwrap();
    for v in 0..16u8 {
        for &(x, y, z) in &[(0, 0, -64isize), (15, 15, 319), (7, 3, 0), (1, 2, 3)] {
            assert_eq!(chunk.set(x, y, z, v), Ok(()));
            assert_eq!(chunk.get(x, y, z), Ok(v));
        }
    }
}

#[test]
fn no_cross_talk() {
    let data = vec![0u8; FULL];
    let mut chunk = Chunk::create(&data).unwrap();
    let writes = [
        (0usize, 0usize, -64isize, 1u8),
        (0, 1, -64, 2),
        (15, 15, 319, 3),
        (8, 8, 100, 4),
        (8, 9, 100, 5),
        (3, 3, -1, 6),
    ];
    for (i, &(x, y, z, v)) in writes.iter().enumerate() {
        assert_eq!(chunk.set(x, y, z, v), Ok(()));
        // Nothing written earlier may have been perturbed.
        for &(px, py, pz, pv) in &writes[..=i] {
            assert_eq!(chunk.get(px, py, pz), Ok(pv));
        }
    }
    // An untouched coordinate still reads its original value.
    assert_eq!(chunk.get(5, 5, 5), Ok(0));
}

#[test]
fn set_same_value_is_noop() {
    let data = vec![3u8; FULL];
    let mut chunk = Chunk::create(&data).unwrap();
    assert_eq!(chunk.set(4, 4, 4, 3), Ok(()));
    assert_eq!(chunk.get(4, 4, 4), Ok(3));
    assert_eq!(chunk.get(4, 5, 4), Ok(3));
}

#[test]
fn set_at_run_edges() {
    // One long uniform run: writes at its first byte, its last byte, and in
    // the middle exercise every split shape.
    let data = vec![0u8; FULL];
    let mut chunk = Chunk::create(&data).unwrap();
    assert_eq!(chunk.set(0, 0, -64, 9), Ok(()));
    assert_eq!(chunk.set(15, 15, 319, 8), Ok(()));
    assert_eq!(chunk.set(7, 7, 7, 7), Ok(()));
    assert_eq!(chunk.get(0, 0, -64), Ok(9));
    assert_eq!(chunk.get(15, 15, 319), Ok(8));
    assert_eq!(chunk.get(7, 7, 7), Ok(7));
    // Overwrite a byte that an earlier split isolated into a one-byte run.
    assert_eq!(chunk.set(0, 0, -64, 5), Ok(()));
    assert_eq!(chunk.get(0, 0, -64), Ok(5));
    // The sibling nibble sharing that packed byte is preserved.
    assert_eq!(chunk.set(0, 1, -64, 12), Ok(()));
    assert_eq!(chunk.get(0, 0, -64), Ok(5));
    assert_eq!(chunk.get(0, 1, -64), Ok(12));
}

#[test]
fn boundary_admission() {
    let data = vec![0u8; FULL];
    let mut chunk = Chunk::create(&data).unwrap();
    assert_eq!(chunk.get(0, 0, -64), Ok(0));
    assert_eq!(chunk.get(0, 0, 319), Ok(0));
    assert_eq!(chunk.get(0, 0, -65), Err(ChunkError::OutOfBounds));
    assert_eq!(chunk.get(0, 0, 320), Err(ChunkError::OutOfBounds));
    assert_eq!(chunk.set(0, 0, -64, 1), Ok(()));
    assert_eq!(chunk.set(0, 0, 319, 1), Ok(()));
    assert_eq!(chunk.set(0, 0, -65, 1), Err(ChunkError::OutOfBounds));
    assert_eq!(chunk.set(0, 0, 320, 1), Err(ChunkError::OutOfBounds));
    assert_eq!(chunk.get(16, 0, 0), Err(ChunkError::OutOfBounds));
    assert_eq!(chunk.get(0, 16, 0), Err(ChunkError::OutOfBounds));
}

#[test]
fn create_length_mismatch() {
    assert!(matches!(
        Chunk::create(&vec![0u8; 5]),
        Err(ChunkError::LengthMismatch)
    ));
    assert!(matches!(
        Chunk::create(&vec![0u8; FULL + 1]),
        Err(ChunkError::LengthMismatch)
    ));
}

#[test]
fn populate_replaces_contents() {
    let first = vec![1u8; FULL];
    let mut second = vec![2u8; FULL];
    second[Chunk::calc_index(3, 4, 5)] = 11;
    let mut chunk = Chunk::create(&first).unwrap();
    assert_eq!(chunk.get(3, 4, 5), Ok(1));
    assert_eq!(chunk.populate(&second), Ok(()));
    assert_eq!(chunk.get(3, 4, 5), Ok(11));
    assert_eq!(chunk.get(0, 0, 0), Ok(2));
    assert_eq!(
        chunk.populate(&vec![0u8; 3]),
        Err(ChunkError::LengthMismatch)
    );
    // A failed populate leaves the contents untouched.
    assert_eq!(chunk.get(3, 4, 5), Ok(11));
}

#[test]
fn high_bits_of_raw_data_are_ignored() {
    let mut data = vec![0u8; FULL];
    data[Chunk::calc_index(2, 2, 2)] = 0xf7;
    let chunk = Chunk::create(&data).unwrap();
    assert_eq!(chunk.get(2, 2, 2), Ok(7));
}
