use sim3dview::loader::TerrainData;
use sim3dview::lod_driver::{
    chunks_ready, fetch_key, next_chunk_level, plan_chunk_steps, retry_backoff_ms, ChunkStep,
    FetchStart, FetchState,
    DETAIL_CACHE_LIMIT_BYTES, MAX_CONCURRENT_TILE_FETCHES, MAX_FETCH_RETRIES,
    RETRY_BACKOFF_INITIAL_MS, RETRY_BACKOFF_MAX_MS,
};

#[test]
fn backoff_doubles_each_attempt_and_caps_at_the_max() {
    assert_eq!(retry_backoff_ms(1), RETRY_BACKOFF_INITIAL_MS);
    assert_eq!(retry_backoff_ms(2), RETRY_BACKOFF_INITIAL_MS * 2);
    assert_eq!(retry_backoff_ms(3), RETRY_BACKOFF_INITIAL_MS * 4);
    assert_eq!(retry_backoff_ms(20), RETRY_BACKOFF_MAX_MS);
}

#[test]
fn backoff_never_exceeds_the_max_even_for_attempt_zero() {
    assert_eq!(retry_backoff_ms(0), RETRY_BACKOFF_INITIAL_MS);
}

#[test]
fn backoff_values() {
    assert_eq!(retry_backoff_ms(4), 4000);
    assert_eq!(retry_backoff_ms(5), 4000);
    assert_eq!(retry_backoff_ms(255), 4000);
    assert_eq!(DETAIL_CACHE_LIMIT_BYTES, 300 * 1024 * 1024);
}

#[test]
fn small_levels_share_one_file_per_tile() {
    assert_eq!(fetch_key((35, 138), 1, 7), ((35, 138), 1, None));
    assert_eq!(fetch_key((35, 138), 2, 7), ((35, 138), 2, None));
    assert_eq!(fetch_key((35, 138), 3, 7), ((35, 138), 3, Some(7)));
}

#[test]
fn chunk_levels_move_towards_the_cached_target() {
    // Nothing finer cached: stays.
    assert_eq!(next_chunk_level(3, 1, 0), 1);
    // Coarser target: down to the cached level.
    assert_eq!(next_chunk_level(1, 3, 1), 1);
    // Finer target: up to the cached level, never down.
    assert_eq!(next_chunk_level(4, 2, 3), 3);
    assert_eq!(next_chunk_level(4, 3, 2), 3);
}

#[test]
fn requests_are_not_repeated_while_loading() {
    let mut s = FetchState::new();
    assert_eq!(s.request((1, 2), 3, 0, 0), FetchStart::Started(((1, 2), 3, Some(0))));
    assert_eq!(s.request((1, 2), 3, 0, 0), FetchStart::Skipped);
    // Levels up to 2 come as one file: another chunk is the same fetch.
    assert_eq!(s.request((1, 2), 1, 0, 0), FetchStart::Started(((1, 2), 1, None)));
    assert_eq!(s.request((1, 2), 1, 3, 0), FetchStart::Skipped);
    assert!(s.is_loading(&((1, 2), 1, None)));
    assert_eq!(s.loading_len(), 2);
}

#[test]
fn concurrent_fetches_are_capped() {
    let mut s = FetchState::new();
    for c in 0..MAX_CONCURRENT_TILE_FETCHES {
        assert!(matches!(s.request((0, 0), 5, c, 0), FetchStart::Started(_)));
    }
    assert_eq!(s.request((0, 0), 5, 99, 0), FetchStart::Deferred);
    assert_eq!(s.finish(((0, 0), 5, Some(0)), true, 0), None);
    assert_eq!(s.request((0, 0), 5, 99, 0), FetchStart::Started(((0, 0), 5, Some(99))));
}

#[test]
fn failures_back_off_then_give_up() {
    let mut s = FetchState::new();
    let k = ((3, 4), 4, Some(1));
    let mut now = 1000u64;
    for attempt in 1..=MAX_FETCH_RETRIES {
        assert_eq!(s.request((3, 4), 4, 1, now), FetchStart::Started(k));
        let wait = s.finish(k, false, now).unwrap();
        assert_eq!(wait, retry_backoff_ms(attempt));
        assert_eq!(s.retry_at(&k), Some(now + wait as u64));
        // Still waiting just before the time.
        assert_eq!(s.request((3, 4), 4, 1, now + wait as u64 - 1), FetchStart::Skipped);
        now += wait as u64;
    }
    assert_eq!(s.request((3, 4), 4, 1, now), FetchStart::Started(k));
    assert_eq!(s.finish(k, false, now), None);
    assert!(s.is_failed(&k));
    assert_eq!(s.retry_at(&k), None);
    assert_eq!(s.request((3, 4), 4, 1, now + 100_000), FetchStart::Skipped);
}

#[test]
fn success_clears_the_retry_state() {
    let mut s = FetchState::new();
    let k = ((3, 4), 1, None);
    assert_eq!(s.request((3, 4), 1, 0, 0), FetchStart::Started(k));
    assert_eq!(s.finish(k, false, 0), Some(500));
    assert_eq!(s.request((3, 4), 1, 0, 500), FetchStart::Started(k));
    assert_eq!(s.finish(k, true, 600), None);
    assert_eq!(s.retry_at(&k), None);
    assert!(!s.is_loading(&k));
    assert!(!s.is_failed(&k));
}

fn one_tile() -> TerrainData {
    let keys = vec![(30, 120)];
    TerrainData::new(vec![6, 12, 24], 2, 30, 120, 1, 1, String::new(), &keys, vec![0; 49])
}

#[test]
fn chunk_steps_use_the_cached_levels() {
    let mut t = one_tile();
    let n1 = t.chunk_cells(1) + 1;
    let n2 = t.chunk_cells(2) + 1;
    t.insert_chunk_grid((30, 120), 1, 0, vec![0; n1 * n1]);
    t.insert_chunk_grid((30, 120), 2, 1, vec![0; n2 * n2]);
    let steps = plan_chunk_steps(&t, (30, 120), &[2, 2, 1, 0], &[0, 0, 0, 0]);
    assert_eq!(
        steps,
        vec![
            ChunkStep { next: 1, fetch: true },
            ChunkStep { next: 2, fetch: false },
            ChunkStep { next: 0, fetch: true },
            ChunkStep { next: 0, fetch: true },
        ]
    );
    // Going back down to a cached coarser level.
    let steps = plan_chunk_steps(&t, (30, 120), &[1, 1, 1, 1], &[2, 2, 2, 2]);
    assert_eq!(steps[0], ChunkStep { next: 1, fetch: false });
    assert_eq!(steps[1], ChunkStep { next: 2, fetch: true });
    assert!(!chunks_ready(&t, (30, 120), &[2, 2, 1, 1]));
    t.insert_chunk_grid((30, 120), 1, 2, vec![0; n1 * n1]);
    t.insert_chunk_grid((30, 120), 1, 3, vec![0; n1 * n1]);
    assert!(chunks_ready(&t, (30, 120), &[2, 2, 1, 1]));
}
