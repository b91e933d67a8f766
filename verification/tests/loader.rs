use sim3dview::loader::{grid_len, TerrainData, TileKey, NO_DATA, WHOLE_FILE_MAX_LEVEL, WHOLE_TILE};

const KEY: TileKey = (30, 120);

/// A synthetic terrain: `rows` x `cols` one-degree tiles from (`min_lat`, `min_lon`), level 0 filled
/// with `height`, levels of 6, 12 and 24 cells per degree split 2 x 2 into chunks, no finer grid yet.
fn synthetic(min_lat: i32, min_lon: i32, rows: i32, cols: i32, height: i16) -> TerrainData {
    synthetic_with_levels(min_lat, min_lon, rows, cols, vec![6, 12, 24], 2, height)
}

fn synthetic_with_levels(
    min_lat: i32,
    min_lon: i32,
    rows: i32,
    cols: i32,
    tile_levels: Vec<u32>,
    chunks_per_tile: u32,
    height: i16,
) -> TerrainData {
    let cells0 = tile_levels[0] as usize;
    let mut keys = Vec::new();
    let mut base = Vec::new();
    for lat in min_lat..min_lat + rows {
        for lon in min_lon..min_lon + cols {
            for _ in 0..(cells0 + 1) * (cells0 + 1) {
                base.push(height);
            }
            keys.push((lat, lon));
        }
    }
    assert!(TerrainData::can_build(
        &tile_levels,
        chunks_per_tile,
        min_lat,
        min_lon,
        rows,
        cols,
        &keys,
        base.len()
    ));
    TerrainData::new(
        tile_levels,
        chunks_per_tile,
        min_lat,
        min_lon,
        rows,
        cols,
        "http://test".to_string(),
        &keys,
        base,
    )
}

fn one_tile(height: i16) -> TerrainData {
    synthetic(30, 120, 1, 1, height)
}

#[test]
fn tile_lookup_uses_bounds() {
    let data = synthetic(30, 120, 2, 3, 0);
    assert_eq!(data.tiles().len(), 6);
    assert!(data.tile((31, 122)).is_some());
    assert!(data.tile((32, 120)).is_none());
    assert!(data.tile((29, 120)).is_none());
    assert!(data.tile((30, 123)).is_none());
}

#[test]
fn insert_chunk_grid_ignores_bad_arguments() {
    let mut data = one_tile(0);
    let nodes = data.chunk_cells(1) + 1;
    data.insert_chunk_grid(KEY, 1, 0, vec![0; nodes * nodes - 1]);
    data.insert_chunk_grid(KEY, 0, 0, vec![0; nodes * nodes]);
    let count = data.chunk_count();
    data.insert_chunk_grid(KEY, 1, count, vec![0; nodes * nodes]);
    let levels = data.num_levels();
    data.insert_chunk_grid(KEY, levels, 0, vec![0; nodes * nodes]);
    data.insert_chunk_grid((0, 0), 1, 0, vec![0; nodes * nodes]);
    assert_eq!(data.cached_bytes(), 0);
    assert!(!data.has_chunk_grid(KEY, 1, 0));
    assert!(data.chunk_grid(KEY, 0, 0).is_none());
    assert!(!data.has_chunk_grid(KEY, 0, 0));
    assert!(!data.has_chunk_grid(KEY, 1, data.chunk_count()));
}

#[test]
fn insert_tile_level_splits_records_per_chunk() {
    let mut data = one_tile(0);
    let nodes = data.chunk_cells(1) + 1;
    let record = nodes * nodes;
    let mut all = Vec::new();
    for chunk in 0..data.chunk_count() {
        all.extend(std::iter::repeat_n(chunk as i16 + 1, record));
    }
    data.insert_tile_level(KEY, 1, &all);
    for chunk in 0..data.chunk_count() {
        assert_eq!(data.chunk_grid(KEY, 1, chunk).unwrap()[0], chunk as i16 + 1);
    }
    assert_eq!(data.cached_bytes(), data.chunk_count() * record * 2);
    assert_eq!(data.best_cached_level(KEY, 0, 2), 1);
    assert_eq!(data.best_cached_level(KEY, 0, 0), 0);
}

#[test]
fn evict_unused_drops_oldest_first_and_respects_keep() {
    let mut data = one_tile(0);
    let nodes = data.chunk_cells(1) + 1;
    let one = nodes * nodes * 2;
    for chunk in 0..3 {
        data.insert_chunk_grid(KEY, 1, chunk, vec![0; nodes * nodes]);
    }
    assert_eq!(data.cached_bytes(), 3 * one);
    data.chunk_grid(KEY, 1, 0);

    data.evict_unused(|_, _, _| false, 3 * one);
    assert_eq!(data.cached_bytes(), 3 * one);

    data.evict_unused(|_, _, _| false, 2 * one);
    assert!(!data.has_chunk_grid(KEY, 1, 1));
    assert!(data.has_chunk_grid(KEY, 1, 0) && data.has_chunk_grid(KEY, 1, 2));

    data.evict_unused(|_, chunk, _| chunk == 2, 0);
    assert!(data.has_chunk_grid(KEY, 1, 2));
    assert!(!data.has_chunk_grid(KEY, 1, 0));
    assert_eq!(data.cached_bytes(), one);
}

#[test]
fn stored_grid_reads_back_until_replaced() {
    let mut data = one_tile(7);
    let nodes = data.chunk_cells(2) + 1;
    let grid: Vec<i16> = (0..(nodes * nodes) as i16).collect();
    data.insert_chunk_grid(KEY, 2, 3, grid.clone());
    assert!(data.has_chunk_grid(KEY, 2, 3));
    assert_eq!(data.peek_chunk_grid(KEY, 2, 3).unwrap(), grid.as_slice());
    assert_eq!(*data.chunk_grid(KEY, 2, 3).unwrap(), grid);
    // Storing again over the same chunk keeps the total.
    let before = data.cached_bytes();
    data.insert_chunk_grid(KEY, 2, 3, vec![1; nodes * nodes]);
    assert_eq!(data.cached_bytes(), before);
    assert_eq!(data.peek_chunk_grid(KEY, 2, 3).unwrap()[5], 1);
    // Other chunks and levels are untouched.
    assert!(!data.has_chunk_grid(KEY, 1, 3));
    assert!(!data.has_chunk_grid(KEY, 2, 2));
}

#[test]
fn sizes_follow_the_level_definition() {
    let data = synthetic_with_levels(35, 138, 1, 2, vec![60, 180, 600, 1800, 3600], 6, 0);
    assert_eq!(data.num_levels(), 5);
    assert_eq!(data.max_level(), 4);
    assert_eq!(data.chunks_per_tile(), 6);
    assert_eq!(data.chunk_count(), 36);
    assert_eq!(data.level_cells(3), 1800);
    assert_eq!(data.chunk_cells(3), 300);
    assert_eq!(grid_len(60), 61 * 61);
    assert_eq!(data.whole_grid((35, 139)).unwrap().len(), 61 * 61);
    assert!(data.whole_grid((36, 139)).is_none());
    assert_eq!(data.base_url, "http://test");
}

#[test]
fn whole_grid_is_the_tiles_part_of_the_base_file() {
    let levels = vec![2u32, 4];
    let keys: Vec<TileKey> = vec![(10, 20), (10, 21)];
    let mut base = vec![1i16; 9];
    base.extend(vec![2i16; 9]);
    assert!(TerrainData::can_build(&levels, 2, 10, 20, 1, 2, &keys, base.len()));
    let data = TerrainData::new(levels, 2, 10, 20, 1, 2, String::new(), &keys, base);
    assert_eq!(data.whole_grid((10, 20)).unwrap(), &[1i16; 9][..]);
    assert_eq!(data.whole_grid((10, 21)).unwrap(), &[2i16; 9][..]);
    assert_eq!(data.tile((10, 21)).unwrap().key, (10, 21));
}

#[test]
fn shown_levels_are_kept_per_chunk() {
    let mut data = synthetic(30, 120, 1, 2, 0);
    assert_eq!(data.chunk_level(KEY, 1), 0);
    data.set_chunk_level(KEY, 1, 2);
    assert_eq!(data.chunk_level(KEY, 1), 2);
    assert_eq!(data.chunk_level(KEY, 0), 0);
    assert_eq!(data.chunk_level((30, 121), 1), 0);
    // Stored as a byte.
    data.set_chunk_level(KEY, 0, 258);
    assert_eq!(data.chunk_level(KEY, 0), 2);
    // No such chunk or tile: nothing changes.
    data.set_chunk_level(KEY, 4, 1);
    data.set_chunk_level((0, 0), 0, 1);
    assert_eq!(data.chunk_level(KEY, 4), 0);
    data.set_whole_tile(KEY);
    assert_eq!(data.chunk_level(KEY, 0), 0);
    assert_eq!(data.chunk_level(KEY, 1), 0);
}

#[test]
fn best_cached_level_takes_the_finest_up_to_the_limit() {
    let mut data = one_tile(0);
    let n1 = data.chunk_cells(1) + 1;
    let n2 = data.chunk_cells(2) + 1;
    data.insert_chunk_grid(KEY, 2, 1, vec![0; n2 * n2]);
    assert_eq!(data.best_cached_level(KEY, 1, 9), 2);
    assert_eq!(data.best_cached_level(KEY, 1, 1), 0);
    data.insert_chunk_grid(KEY, 1, 1, vec![0; n1 * n1]);
    assert_eq!(data.best_cached_level(KEY, 1, 1), 1);
    assert_eq!(data.best_cached_level(KEY, 0, 9), 0);
    assert_eq!(data.best_cached_level((5, 5), 1, 9), 0);
}

#[test]
fn eviction_frees_only_what_the_limit_needs() {
    let mut data = one_tile(0);
    let n1 = data.chunk_cells(1) + 1;
    let n2 = data.chunk_cells(2) + 1;
    let small = n1 * n1 * 2;
    let big = n2 * n2 * 2;
    data.insert_chunk_grid(KEY, 2, 0, vec![0; n2 * n2]);
    data.insert_chunk_grid(KEY, 1, 0, vec![0; n1 * n1]);
    data.insert_chunk_grid(KEY, 1, 1, vec![0; n1 * n1]);
    assert_eq!(data.cached_bytes(), big + 2 * small);
    // The oldest (level 2) alone brings the total under the limit.
    data.evict_unused(|_, _, _| false, 2 * small);
    assert!(!data.has_chunk_grid(KEY, 2, 0));
    assert!(data.has_chunk_grid(KEY, 1, 0) && data.has_chunk_grid(KEY, 1, 1));
    assert_eq!(data.cached_bytes(), 2 * small);
    // Everything that may go, goes, when the limit cannot be met.
    data.evict_unused(|_, chunk, level| chunk == 1 && level == 1, 0);
    assert!(!data.has_chunk_grid(KEY, 1, 0));
    assert!(data.has_chunk_grid(KEY, 1, 1));
    assert_eq!(data.cached_bytes(), small);
}

#[test]
fn tile_level_outside_of_the_tile_changes_nothing() {
    let mut data = one_tile(0);
    let n1 = data.chunk_cells(1) + 1;
    data.insert_tile_level((1, 1), 1, &vec![3; 4 * n1 * n1]);
    data.insert_tile_level(KEY, 0, &vec![3; 4 * n1 * n1]);
    assert_eq!(data.cached_bytes(), 0);
    // A record cut short is not stored.
    data.insert_tile_level(KEY, 1, &vec![3; 2 * n1 * n1 + 1]);
    assert!(data.has_chunk_grid(KEY, 1, 0) && data.has_chunk_grid(KEY, 1, 1));
    assert!(!data.has_chunk_grid(KEY, 1, 2));
    assert_eq!(data.cached_bytes(), 2 * n1 * n1 * 2);
}

#[test]
fn constants_of_the_file_layout() {
    assert_eq!(WHOLE_TILE, u8::MAX);
    assert_eq!(NO_DATA, i16::MIN);
    assert_eq!(WHOLE_FILE_MAX_LEVEL, 2);
}

#[test]
fn can_build_refuses_inconsistent_parts() {
    let keys: Vec<TileKey> = vec![(0, 0)];
    assert!(TerrainData::can_build(&vec![2, 4], 2, 0, 0, 1, 1, &keys, 9));
    // A wrong base length, an empty level definition, a key whose offset overflows.
    assert!(!TerrainData::can_build(&vec![2, 4], 2, 0, 0, 1, 1, &keys, 8));
    assert!(!TerrainData::can_build(&vec![], 2, 0, 0, 1, 1, &keys, 9));
    assert!(!TerrainData::can_build(&vec![2, 4], 2, i32::MIN, 0, 1, 1, &vec![(1, 0)], 9));
    // A grid too large for memory, a bounding box whose cell count overflows.
    assert!(!TerrainData::can_build(&vec![2, u32::MAX], 2, 0, 0, 1, 1, &keys, 9));
    assert!(!TerrainData::can_build(&vec![2, 4], 2, 0, 0, 65536, 65536, &keys, 9));
}

#[test]
fn can_build_accepts_what_the_loader_accepts() {
    let keys: Vec<TileKey> = vec![(0, 0)];
    // One level only; a finer level that the chunk split does not divide; no chunk split.
    assert!(TerrainData::can_build(&vec![2], 2, 0, 0, 1, 1, &keys, 9));
    assert!(TerrainData::can_build(&vec![2, 5], 2, 0, 0, 1, 1, &keys, 9));
    assert!(TerrainData::can_build(&vec![2, 4], 0, 0, 0, 1, 1, &keys, 9));
}

#[test]
fn one_level_terrain_has_only_whole_tiles() {
    let mut data = synthetic_with_levels(30, 120, 1, 2, vec![6], 2, 5);
    assert_eq!(data.num_levels(), 1);
    assert_eq!(data.chunk_count(), 4);
    assert_eq!(data.tiles().len(), 2);
    assert_eq!(data.level_cells(0), 6);
    assert_eq!(data.whole_grid((30, 121)).unwrap().len(), grid_len(6));
    assert!(!data.has_chunk_grid(KEY, 1, 0));
    assert!(data.chunk_grid(KEY, 1, 0).is_none());
    assert_eq!(data.best_cached_level(KEY, 0, 5), 0);
    let (level, grid) = data.height_grid(KEY, 0).unwrap();
    assert_eq!(level, 0);
    assert_eq!(grid.len(), grid_len(6));
    assert_eq!(grid[0], 5);
    assert_eq!(data.cached_bytes(), 0);
}

#[test]
fn new_terrain_caches_nothing_and_shows_level_zero() {
    let data = synthetic(30, 120, 2, 2, 3);
    for key in [(30, 120), (30, 121), (31, 120), (31, 121)] {
        for chunk in 0..data.chunk_count() {
            assert_eq!(data.chunk_level(key, chunk), 0);
            for level in 1..data.num_levels() {
                assert!(!data.has_chunk_grid(key, level, chunk));
            }
        }
    }
    assert_eq!(data.cached_bytes(), 0);
}

#[test]
fn height_grid_reads_the_level_on_screen() {
    let mut data = one_tile(4);
    let nodes = data.chunk_cells(2) + 1;
    data.insert_chunk_grid(KEY, 2, 1, vec![9; nodes * nodes]);
    // Level 0 is shown: the whole tile is read although a finer grid is cached.
    let (level, grid) = data.height_grid(KEY, 1).unwrap();
    assert_eq!((level, grid[0], grid.len()), (0, 4, grid_len(6)));
    // The finer level is shown and cached: its grid is read.
    data.set_chunk_level(KEY, 1, 2);
    let (level, grid) = data.height_grid(KEY, 1).unwrap();
    assert_eq!((level, grid[0], grid.len()), (2, 9, nodes * nodes));
    // A level is shown whose grid is not cached: level 0 is read.
    data.set_chunk_level(KEY, 0, 1);
    let (level, grid) = data.height_grid(KEY, 0).unwrap();
    assert_eq!((level, grid[0]), (0, 4));
    // No such tile.
    assert!(data.height_grid((0, 0), 0).is_none());
}

#[test]
fn insert_tile_level_stamps_chunks_in_order() {
    let mut data = one_tile(0);
    let nodes = data.chunk_cells(1) + 1;
    let one = nodes * nodes * 2;
    let before = data.stamp();
    data.insert_tile_level(KEY, 1, &vec![0; data.chunk_count() * nodes * nodes]);
    assert_eq!(data.stamp(), before + data.chunk_count() as u64);
    // Chunk 0 was stored first, so it is the first to go.
    data.evict_unused(|_, _, _| false, 3 * one);
    assert!(!data.has_chunk_grid(KEY, 1, 0));
    assert!(data.has_chunk_grid(KEY, 1, 1) && data.has_chunk_grid(KEY, 1, 3));
    data.evict_unused(|_, _, _| false, 2 * one);
    assert!(!data.has_chunk_grid(KEY, 1, 1));
    assert!(data.has_chunk_grid(KEY, 1, 2));
}
