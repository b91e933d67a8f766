use sim3dview::fetch::{
    base_bin_len, check_terrain_files, chunk_byte_range, chunk_grid_from_bytes,
    chunk_record_bytes, decode_i16_le, select_range, tile_level_bytes, tile_level_from_bytes,
    tile_level_url, tile_name, TerrainLoadProgress,
};
use sim3dview::loader::{TerrainData, TileKey};

fn small_terrain() -> TerrainData {
    let keys: Vec<TileKey> = vec![(35, 138)];
    TerrainData::new(vec![2, 4, 8], 2, 35, 138, 1, 1, "http://h/terrain".to_string(), &keys, vec![0; 9])
}

#[test]
fn tile_name_uses_hemisphere_letters() {
    assert_eq!(tile_name((35, 138)), "N035E138");
    assert_eq!(tile_name((-1, -5)), "S001W005");
    assert_eq!(tile_name((0, 0)), "N000E000");
}

#[test]
fn decode_reads_little_endian_i16() {
    assert_eq!(
        decode_i16_le(&[0x34, 0x12, 0xff, 0xff, 0x00, 0x80]),
        vec![0x1234, -1, i16::MIN]
    );
    assert_eq!(decode_i16_le(&[1, 0, 9]), vec![1]);
}

#[test]
fn tile_name_keeps_digits_beyond_three() {
    assert_eq!(tile_name((1234, -179)), "N1234W179");
    assert_eq!(tile_name((-90, 180)), "S090E180");
}

#[test]
fn tile_level_url_names_level_and_tile() {
    assert_eq!(
        tile_level_url("http://localhost:9001/terrain", (35, 138), 3),
        "http://localhost:9001/terrain/tiles/L3/N035E138.bin"
    );
    assert_eq!(tile_level_url("", (-1, 0), 12), "/tiles/L12/S001E000.bin");
}

#[test]
fn decode_covers_the_whole_range() {
    assert_eq!(decode_i16_le(&[]), Vec::<i16>::new());
    assert_eq!(decode_i16_le(&[0xff, 0x7f, 0x01, 0x80]), vec![i16::MAX, -32767]);
}

#[test]
fn base_bin_len_counts_level_zero_grids() {
    assert_eq!(base_bin_len(&[60, 180], 390), Some(390 * 61 * 61 * 2));
    assert_eq!(base_bin_len(&[], 5), None);
    assert_eq!(base_bin_len(&[0], 3), Some(6));
}

#[test]
fn start_files_are_checked_levels_first() {
    assert_eq!(check_terrain_files(&vec![2, 4], 2, 1, 18), Ok(()));
    let levels_error = "metadata.json: tile_levels needs 2+ levels, and levels 1+ must be divisible by chunks_per_tile";
    assert_eq!(check_terrain_files(&vec![2], 2, 1, 18), Err(levels_error.to_string()));
    assert_eq!(check_terrain_files(&vec![2, 5], 2, 1, 18), Err(levels_error.to_string()));
    assert_eq!(check_terrain_files(&vec![2, 4], 0, 1, 0), Err(levels_error.to_string()));
    assert_eq!(
        check_terrain_files(&vec![2, 4], 2, 2, 18),
        Err("base.bin size mismatch: got 18 bytes, expected 36".to_string())
    );
}

#[test]
fn tile_level_sizes_and_ranges() {
    let t = small_terrain();
    // Level 1: 4 cells per tile, 2 per chunk: 9 nodes per chunk, 4 chunks.
    assert_eq!(chunk_record_bytes(&t, 1), 18);
    assert_eq!(tile_level_bytes(&t, 1), 72);
    assert_eq!(chunk_byte_range(&t, 2, 0), (0, 49));
    assert_eq!(chunk_byte_range(&t, 2, 3), (150, 199));
}

#[test]
fn fetched_files_are_size_checked() {
    let t = small_terrain();
    let url = "http://h/terrain/tiles/L1/N035E138.bin";
    let ok = tile_level_from_bytes(&t, url, 1, &[1u8; 72]).unwrap();
    assert_eq!(ok.len(), 36);
    assert_eq!(ok[0], 0x0101);
    assert_eq!(
        tile_level_from_bytes(&t, url, 1, &[0u8; 70]),
        Err(format!("{url} size mismatch: got 70 bytes, expected 72"))
    );
    assert_eq!(chunk_grid_from_bytes(&t, url, 2, 3, &[2u8; 50]).unwrap(), vec![0x0202; 25]);
    assert_eq!(
        chunk_grid_from_bytes(&t, url, 2, 3, &[2u8; 49]),
        Err(format!("{url} chunk 3 size mismatch: got 49 bytes, expected 50"))
    );
}

#[test]
fn ranges_are_cut_from_a_whole_response() {
    let body: Vec<u8> = (0..10).collect();
    assert_eq!(select_range("u", body.clone(), Some((2, 4)), 200), Ok(vec![2, 3, 4]));
    assert_eq!(select_range("u", body.clone(), Some((2, 4)), 206), Ok(body.clone()));
    assert_eq!(select_range("u", body.clone(), None, 200), Ok(body.clone()));
    assert_eq!(
        select_range("u", body.clone(), Some((5, 10)), 200),
        Err("u: range 5-10 is out of the response body".to_string())
    );
    assert_eq!(select_range("u", body.clone(), Some((10, 9)), 200), Ok(vec![]));
}

#[test]
fn progress_starts_without_a_total() {
    let p = TerrainLoadProgress::default();
    assert_eq!(p.received_bytes, 0);
    assert_eq!(p.total_bytes, None);
    let q = TerrainLoadProgress { received_bytes: 5, total_bytes: Some(10) };
    assert_eq!(q, q.clone());
}

#[test]
fn different_tiles_get_different_names() {
    let keys: [TileKey; 6] = [(1, 10), (11, 0), (-1, 10), (1, -10), (100, 0), (10, 0)];
    for i in 0..keys.len() {
        for j in i + 1..keys.len() {
            assert_ne!(tile_name(keys[i]), tile_name(keys[j]));
        }
    }
}
