use voxelstore::chunk::Chunk;
use voxelstore::manager::ChunkManager;
use voxelstore::{ChunkError, FULL, HEIGHT, SHIFT, WIDTH};

#[test]
fn coordinate_identity() {
    for g in -33isize..=33 {
        let c = ChunkManager::proc_c(g);
        let l = ChunkManager::proc_p(g);
        assert!(l < WIDTH);
        assert_eq!(c * WIDTH as i64 + l as i64, g as i64);
    }
    // Floor division, not truncation toward zero.
    assert_eq!(ChunkManager::proc_c(-1), -1);
    assert_eq!(ChunkManager::proc_c(-16), -1);
    assert_eq!(ChunkManager::proc_c(-17), -2);
    assert_eq!(ChunkManager::proc_c(15), 0);
    assert_eq!(ChunkManager::proc_c(16), 1);
    assert_eq!(ChunkManager::proc_p(-1), 15);
    assert_eq!(ChunkManager::proc_p(-16), 0);
    assert_eq!(ChunkManager::proc_p(17), 1);
}

#[test]
fn missing_chunk_errors() {
    let mut manager = ChunkManager::create();
    assert_eq!(manager.get(0, 0, 0), Err(ChunkError::ChunkMissing));
    assert_eq!(manager.set(0, 0, 0, 3), Err(ChunkError::ChunkMissing));
    assert_eq!(manager.get(-100, 250, 10), Err(ChunkError::ChunkMissing));
}

#[test]
fn build_get_set_roundtrip() {
    let mut manager = ChunkManager::create();
    let data = vec![0u8; FULL];
    assert_eq!(manager.build((0, 0), &data), Ok(()));
    // Stored 0 reads as "empty": -1 externally.
    assert_eq!(manager.get(0, 0, 0), Ok(-1));
    for v in -1i8..=14 {
        assert_eq!(manager.set(5, 6, 7, v), Ok(()));
        assert_eq!(manager.get(5, 6, 7), Ok(v));
    }
}

#[test]
fn build_length_mismatch() {
    let mut manager = ChunkManager::create();
    assert_eq!(
        manager.build((0, 0), &vec![0u8; 7]),
        Err(ChunkError::LengthMismatch)
    );
    // Nothing was inserted by the failed build.
    assert_eq!(manager.get(0, 0, 0), Err(ChunkError::ChunkMissing));
}

#[test]
fn build_replaces_whole_chunk() {
    let mut manager = ChunkManager::create();
    let data_a = vec![5u8; FULL];
    let mut data_b = vec![2u8; FULL];
    data_b[Chunk::calc_index(1, 1, 1)] = 9;
    assert_eq!(manager.build((0, 0), &data_a), Ok(()));
    assert_eq!(manager.get(3, 3, 3), Ok(4));
    assert_eq!(manager.build((0, 0), &data_b), Ok(()));
    // Every coordinate of the chunk now shows the second contents; nothing
    // of the first is observable.
    for x in 0..WIDTH as isize {
        for y in 0..WIDTH as isize {
            for z in -(SHIFT as isize)..(HEIGHT - SHIFT) as isize {
                let expected =
                    data_b[Chunk::calc_index(x as usize, y as usize, z)] as i8 - 1;
                assert_eq!(manager.get(x, y, z), Ok(expected));
            }
        }
    }
}

#[test]
fn remove_evicts_chunk() {
    let mut manager = ChunkManager::create();
    let data = vec![1u8; FULL];
    assert_eq!(manager.build((0, 0), &data), Ok(()));
    assert_eq!(manager.get(0, 0, 0), Ok(0));
    manager.remove((0, 0));
    assert_eq!(manager.get(0, 0, 0), Err(ChunkError::ChunkMissing));
    // Removing an absent coordinate changes nothing.
    manager.remove((42, -42));
    assert_eq!(manager.get(0, 0, 0), Err(ChunkError::ChunkMissing));
}

#[test]
fn distinct_chunks_do_not_interfere() {
    let mut manager = ChunkManager::create();
    let zeros = vec![0u8; FULL];
    assert_eq!(manager.build((0, 0), &zeros), Ok(()));
    assert_eq!(manager.build((-1, 0), &zeros), Ok(()));
    assert_eq!(manager.set(0, 0, 0, 7), Ok(()));
    assert_eq!(manager.set(-1, 0, 0, 3), Ok(()));
    assert_eq!(manager.get(0, 0, 0), Ok(7));
    assert_eq!(manager.get(-1, 0, 0), Ok(3));
    assert_eq!(manager.get(-16, 0, 0), Ok(-1));
    assert_eq!(manager.get(1, 0, 0), Ok(-1));
}

#[test]
fn negative_coordinates_reach_their_chunk() {
    let mut manager = ChunkManager::create();
    let mut data = vec![0u8; FULL];
    // Global (-1, -1) lives in chunk (-1, -1) at local (15, 15).
    data[Chunk::calc_index(15, 15, 0)] = 8;
    assert_eq!(manager.build((-1, -1), &data), Ok(()));
    assert_eq!(manager.get(-1, -1, 0), Ok(7));
}

#[test]
fn manager_out_of_bounds() {
    let mut manager = ChunkManager::create();
    let data = vec![0u8; FULL];
    assert_eq!(manager.build((0, 0), &data), Ok(()));
    assert_eq!(manager.get(0, 0, -64), Ok(-1));
    assert_eq!(manager.get(0, 0, 319), Ok(-1));
    assert_eq!(manager.get(0, 0, -65), Err(ChunkError::OutOfBounds));
    assert_eq!(manager.get(0, 0, 320), Err(ChunkError::OutOfBounds));
    assert_eq!(manager.set(0, 0, -65, 0), Err(ChunkError::OutOfBounds));
    assert_eq!(manager.set(0, 0, 320, 0), Err(ChunkError::OutOfBounds));
}

#[test]
fn concrete_scenario() {
    // Build an all-zero array, place value 7 at linear_index(1, 2, 3) before
    // encoding, and read it back at every level of the stack.
    let mut data = vec![0u8; FULL];
    data[Chunk::calc_index(1, 2, 3)] = 7;
    let chunk = Chunk::create(&data).unwrap();
    assert_eq!(chunk.get(1, 2, 3), Ok(7));

    let mut manager = ChunkManager::create();
    assert_eq!(manager.build((0, 0), &data), Ok(()));
    assert_eq!(manager.get(1, 2, 3), Ok(6));

    assert_eq!(manager.set(1, 2, 3, 9), Ok(()));
    assert_eq!(manager.get(1, 2, 3), Ok(9));
}
