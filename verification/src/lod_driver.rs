//! The decisions of the level-of-detail updates about fetching: which file a grid comes from,
//! whether a fetch may start (never twice at once, never after giving up, not during the
//! back-off of a retry, at most `MAX_CONCURRENT_TILE_FETCHES` at a time), what a finished fetch
//! changes (a failure is retried after a back-off that doubles up to a cap; after
//! `MAX_FETCH_RETRIES` retries the grid is given up), and which level a chunk moves to.
//!
//! The caller runs the timers and the requests, and hands times in over as whole milliseconds.
use vstd::prelude::*;
use crate::loader::{TerrainData, TileKey, WHOLE_FILE_MAX_LEVEL};

verus! {

/// A grid to fetch: (tile, level, chunk). Without a chunk it is the whole file of the tile at
/// that level (levels up to `WHOLE_FILE_MAX_LEVEL`).
pub type FetchKey = (TileKey, usize, Option<usize>);

/// At most this many fetches run at once.
pub const MAX_CONCURRENT_TILE_FETCHES: usize = 16;

/// A grid whose fetch failed is retried this many times, then given up.
pub const MAX_FETCH_RETRIES: u8 = 3;

/// The wait before the first retry, in milliseconds; it doubles with every failure.
pub const RETRY_BACKOFF_INITIAL_MS: u32 = 500;

/// The longest wait before a retry, in milliseconds.
pub const RETRY_BACKOFF_MAX_MS: u32 = 4000;

/// Finer grids are freed once they take more than this many bytes.
pub const DETAIL_CACHE_LIMIT_BYTES: usize = 300 * 1024 * 1024;

/// The wait, in milliseconds, after the failure number `attempt` (counted from 1): 500, 1000,
/// 2000, 4000, and 4000 from then on; 500 for 0 as well.
pub open spec fn backoff_spec(attempt: int) -> int {
    let shift = if attempt <= 1 {
        0
    } else if attempt - 1 >= 4 {
        4
    } else {
        attempt - 1
    };
    let wait = RETRY_BACKOFF_INITIAL_MS * vstd::arithmetic::power2::pow2(shift as nat);
    if wait < RETRY_BACKOFF_MAX_MS {
        wait
    } else {
        RETRY_BACKOFF_MAX_MS as int
    }
}

/// The wait before the next retry after failure number `attempt` (counted from 1), in
/// milliseconds: doubled with every failure, capped at `RETRY_BACKOFF_MAX_MS`.
pub fn retry_backoff_ms(attempt: u8) -> (ms: u32)
    ensures
        ms == backoff_spec(attempt as int),
{
    let shift: u32 = if attempt == 0 {
        0
    } else if attempt - 1 > 4 {
        4
    } else {
        (attempt - 1) as u32
    };
    let factor: u32 = 1u32 << shift;
    proof {
        vstd::arithmetic::power2::lemma2_to64();
        assert(factor == (if shift == 0 {
            1u32
        } else if shift == 1 {
            2u32
        } else if shift == 2 {
            4u32
        } else if shift == 3 {
            8u32
        } else {
            16u32
        })) by (bit_vector)
            requires
                factor == 1u32 << shift,
                shift <= 4,
        ;
    }
    let wait = RETRY_BACKOFF_INITIAL_MS * factor;
    if wait < RETRY_BACKOFF_MAX_MS {
        wait
    } else {
        RETRY_BACKOFF_MAX_MS
    }
}

/// The wait never shrinks from one failure to the next and never exceeds the cap.
pub proof fn lemma_backoff_monotone(a: int, b: int)
    requires
        a <= b,
    ensures
        backoff_spec(a) <= backoff_spec(b),
        RETRY_BACKOFF_INITIAL_MS <= backoff_spec(a) <= RETRY_BACKOFF_MAX_MS,
{
    vstd::arithmetic::power2::lemma2_to64();
}

/// The grid to fetch for (`key`, `level`, `chunk`).
pub open spec fn fetch_key_spec(key: TileKey, level: usize, chunk: usize) -> FetchKey {
    if level <= WHOLE_FILE_MAX_LEVEL {
        (key, level, None)
    } else {
        (key, level, Some(chunk))
    }
}

/// The grid to fetch for chunk `chunk` of `key` at `level`: the levels up to
/// `WHOLE_FILE_MAX_LEVEL` come as one file per tile, so their chunks share one fetch.
pub fn fetch_key(key: TileKey, level: usize, chunk: usize) -> (k: FetchKey)
    ensures
        k == fetch_key_spec(key, level, chunk),
{
    if level <= WHOLE_FILE_MAX_LEVEL {
        (key, level, None)
    } else {
        (key, level, Some(chunk))
    }
}

/// The level a chunk moves to, given the level wanted, the level shown and the finest cached
/// level up to the one wanted (0 if none): without a cached finer grid it stays; when the
/// wanted level is coarser than the shown one it goes down to the cached level; otherwise it
/// goes up to the cached level but never down.
pub open spec fn next_level_spec(want: usize, have: usize, now: usize) -> usize {
    if now == 0 {
        have
    } else if want < have {
        now
    } else if now < have {
        have
    } else {
        now
    }
}

/// The level a chunk moves to (see `next_level_spec`).
pub fn next_chunk_level(want: usize, have: usize, now: usize) -> (l: usize)
    ensures
        l == next_level_spec(want, have, now),
{
    if now == 0 {
        have
    } else if want < have {
        now
    } else if now < have {
        have
    } else {
        now
    }
}

/// The finest cached level of chunk `c` of `key` up to the wanted level `want` (0 if none).
pub open spec fn available_spec(terrain: TerrainData, key: TileKey, c: int, want: int) -> int {
    terrain.best_level(
        key,
        c,
        if want < terrain.nl() - 1 {
            want
        } else {
            terrain.nl() - 1
        },
    )
}

/// How a chunk steps, for every wanted level `want` and shown level `have`: it moves only to a
/// level whose grid is cached, no finer than the level wanted nor than the finest level there is;
/// when the wanted level is not coarser than the shown one it never moves down; and when the
/// wanted level is coarser and some grid at or below it is cached, it moves to the finest of
/// those grids (never staying above the wanted level).
pub proof fn lemma_chunk_step(terrain: TerrainData, key: TileKey, c: int, want: usize, have: usize)
    requires
        terrain.wf(),
    ensures
        ({
            let next = next_level_spec(
                want,
                have,
                available_spec(terrain, key, c, want as int) as usize,
            );
            &&& next == have || (1 <= next <= want && next < terrain.nl() && terrain.cached(
                key,
                next as int,
                c,
            ) is Some)
            &&& want >= have ==> next >= have
            &&& (want < have && exists|l: int|
                1 <= l <= want && l < terrain.nl() && #[trigger] terrain.cached(key, l, c) is Some)
                ==> {
                &&& next <= want
                &&& terrain.cached(key, next as int, c) is Some
                &&& forall|l: int|
                    next < l <= want && l < terrain.nl() ==> #[trigger] terrain.cached(key, l, c)
                        is None
            }
            &&& (want >= have && exists|l: int|
                have < l <= want && l < terrain.nl() && #[trigger] terrain.cached(key, l, c)
                    is Some) ==> {
                &&& have < next <= want
                &&& terrain.cached(key, next as int, c) is Some
                &&& forall|l: int|
                    next < l <= want && l < terrain.nl() ==> #[trigger] terrain.cached(key, l, c)
                        is None
            }
        }),
{
    terrain.lemma_counts();
    let top = if want < terrain.nl() - 1 {
        want as int
    } else {
        terrain.nl() - 1
    };
    terrain.lemma_best_level(key, c, top);
    let now = available_spec(terrain, key, c, want as int);
    assert(now == terrain.best_level(key, c, top));
    assert(0 <= now <= top);
    if want < have && exists|l: int|
        1 <= l <= want && l < terrain.nl() && #[trigger] terrain.cached(key, l, c) is Some {
        let l = choose|l: int|
            1 <= l <= want && l < terrain.nl() && #[trigger] terrain.cached(key, l, c) is Some;
        assert(l <= top);
        assert(now >= 1);
    }
    if want >= have && exists|l: int|
        have < l <= want && l < terrain.nl() && #[trigger] terrain.cached(key, l, c) is Some {
        let l = choose|l: int|
            have < l <= want && l < terrain.nl() && #[trigger] terrain.cached(key, l, c) is Some;
        assert(l <= top);
        assert(now >= l);
    }
}

/// A chunk has a cached grid to show at or below its wanted level exactly when some level from 1
/// up to the wanted one (and below the number of levels) has its grid cached.
pub proof fn lemma_available(terrain: TerrainData, key: TileKey, c: int, want: int)
    requires
        terrain.wf(),
    ensures
        (available_spec(terrain, key, c, want) != 0) == (exists|l: int|
            1 <= l <= want && l < terrain.nl() && #[trigger] terrain.cached(key, l, c) is Some),
        0 <= available_spec(terrain, key, c, want),
        available_spec(terrain, key, c, want) <= want || available_spec(terrain, key, c, want) == 0,
{
    terrain.lemma_counts();
    let top = if want < terrain.nl() - 1 {
        want
    } else {
        terrain.nl() - 1
    };
    terrain.lemma_best_level(key, c, top);
    let now = available_spec(terrain, key, c, want);
    if now != 0 {
        assert(terrain.cached(key, now, c) is Some);
    }
    if exists|l: int| 1 <= l <= want && l < terrain.nl() && #[trigger] terrain.cached(key, l, c) is Some {
        let l = choose|l: int|
            1 <= l <= want && l < terrain.nl() && #[trigger] terrain.cached(key, l, c) is Some;
        assert(l <= top);
    }
}

/// The step of one chunk of a tile shown in chunks.
#[derive(Clone, Copy, Debug, PartialEq, Eq)]
pub struct ChunkStep {
    /// The level the chunk moves to (the level it shows when it does not move).
    pub next: usize,
    /// Whether the grid of the wanted level has to be fetched.
    pub fetch: bool,
}

/// For every chunk of the tile of `key`, given the wanted levels `targets` and the levels shown
/// `levels`: the level it moves to (`next_level_spec` with the finest cached level up to the
/// wanted one) and whether its wanted grid is missing.
pub fn plan_chunk_steps(terrain: &TerrainData, key: TileKey, targets: &[u8], levels: &[u8]) -> (r:
    Vec<ChunkStep>)
    requires
        terrain.wf(),
        terrain.key_fits(key),
        targets@.len() == terrain.cc(),
        levels@.len() == terrain.cc(),
    ensures
        r@.len() == terrain.cc(),
        forall|c: int|
            0 <= c < terrain.cc() ==> #[trigger] r@[c] == (ChunkStep {
                next: next_level_spec(
                    targets@[c] as usize,
                    levels@[c] as usize,
                    available_spec(*terrain, key, c, targets@[c] as int) as usize,
                ),
                fetch: terrain.cached(key, targets@[c] as int, c) is None,
            }),
{
    let count = terrain.chunk_count();
    let mut r: Vec<ChunkStep> = Vec::new();
    let mut c: usize = 0;
    while c < count
        invariant
            terrain.wf(),
            terrain.key_fits(key),
            count == terrain.cc(),
            targets@.len() == count,
            levels@.len() == count,
            c <= count,
            r@.len() == c,
            forall|x: int|
                0 <= x < c ==> #[trigger] r@[x] == (ChunkStep {
                    next: next_level_spec(
                        targets@[x] as usize,
                        levels@[x] as usize,
                        available_spec(*terrain, key, x, targets@[x] as int) as usize,
                    ),
                    fetch: terrain.cached(key, targets@[x] as int, x) is None,
                }),
        decreases count - c,
    {
        let want = targets[c] as usize;
        let have = levels[c] as usize;
        let now = terrain.best_cached_level(key, c, want);
        let fetch = !terrain.has_chunk_grid(key, want, c);
        r.push(ChunkStep { next: next_chunk_level(want, have, now), fetch });
        c = c + 1;
    }
    r
}

/// Whether every chunk of the tile of `key` has a cached grid up to its wanted level, so that the
/// whole tile can switch to chunks.
pub fn chunks_ready(terrain: &TerrainData, key: TileKey, targets: &[u8]) -> (b: bool)
    requires
        terrain.wf(),
        terrain.key_fits(key),
        targets@.len() == terrain.cc(),
    ensures
        b == forall|c: int|
            0 <= c < terrain.cc() ==> #[trigger] available_spec(*terrain, key, c, targets@[c] as int)
                != 0,
{
    let count = terrain.chunk_count();
    let mut c: usize = 0;
    while c < count
        invariant
            terrain.wf(),
            terrain.key_fits(key),
            count == terrain.cc(),
            targets@.len() == count,
            c <= count,
            forall|x: int|
                0 <= x < c ==> #[trigger] available_spec(*terrain, key, x, targets@[x] as int) != 0,
        decreases count - c,
    {
        if terrain.best_cached_level(key, c, targets[c] as usize) == 0 {
            assert(available_spec(*terrain, key, c as int, targets@[c as int] as int) == 0);
            return false;
        }
        c = c + 1;
    }
    true
}

/// What a request to fetch a grid led to.
#[derive(Clone, Copy, Debug, PartialEq, Eq)]
pub enum FetchStart {
    /// Nothing to do: the grid is being fetched, was given up, or waits for its retry.
    Skipped,
    /// The limit of concurrent fetches is reached; the request is to be made again later.
    Deferred,
    /// The fetch of this grid is to start now.
    Started(FetchKey),
}

/// A grid waiting to be retried: its key, how often its fetch failed, and the time (ms) from
/// which it may be retried.
#[derive(Clone, Copy, Debug)]
struct Retry {
    key: FetchKey,
    attempts: u8,
    retry_at_ms: u64,
}

/// The fetches in flight, the grids given up, and the grids waiting for a retry.
pub struct FetchState {
    loading: Vec<FetchKey>,
    failed: Vec<FetchKey>,
    retries: Vec<Retry>,
}

/// Whether the keys of the retries in `s` are distinct.
spec fn distinct_keys(s: Seq<Retry>) -> bool {
    forall|i: int, j: int| 0 <= i < s.len() && 0 <= j < s.len() && i != j ==> #[trigger] s[i].key
        != #[trigger] s[j].key
}

/// The retries in `s` as a map from key to (failures, time from which to retry).
spec fn retry_view(s: Seq<Retry>) -> Map<FetchKey, (u8, u64)> {
    Map::new(
        |k: FetchKey| exists|i: int| 0 <= i < s.len() && s[i].key == k,
        |k: FetchKey|
            {
                let i = choose|i: int| 0 <= i < s.len() && s[i].key == k;
                (s[i].attempts, s[i].retry_at_ms)
            },
    )
}

/// `retry_view` of a sequence with distinct keys at the key of entry `i`.
proof fn lemma_retry_at(s: Seq<Retry>, i: int)
    requires
        distinct_keys(s),
        0 <= i < s.len(),
    ensures
        retry_view(s).contains_key(s[i].key),
        retry_view(s)[s[i].key] == (s[i].attempts, s[i].retry_at_ms),
{
    let k = s[i].key;
    assert(exists|j: int| 0 <= j < s.len() && s[j].key == k);
    let j = choose|j: int| 0 <= j < s.len() && s[j].key == k;
    assert(j == i);
}

/// Removing a key from a sequence without duplicates.
proof fn lemma_remove_key(s: Seq<FetchKey>, i: int)
    requires
        s.no_duplicates(),
        0 <= i < s.len(),
    ensures
        s.remove(i).no_duplicates(),
        s.remove(i).to_set() == s.to_set().remove(s[i]),
        s.remove(i).len() == s.len() - 1,
{
    let r = s.remove(i);
    s.remove_ensures(i);
    assert forall|a: int, b: int| 0 <= a < r.len() && 0 <= b < r.len() && a != b implies r[a]
        != r[b] by {
        let a2 = if a < i {
            a
        } else {
            a + 1
        };
        let b2 = if b < i {
            b
        } else {
            b + 1
        };
        assert(r[a] == s[a2]);
        assert(r[b] == s[b2]);
    }
    assert forall|x: FetchKey| r.to_set().contains(x) <==> s.to_set().remove(s[i]).contains(x) by {
        if r.contains(x) {
            let a = choose|a: int| 0 <= a < r.len() && r[a] == x;
            let a2 = if a < i {
                a
            } else {
                a + 1
            };
            assert(s[a2] == x);
        }
        if s.contains(x) && x != s[i] {
            let a = choose|a: int| 0 <= a < s.len() && s[a] == x;
            if a < i {
                assert(r[a] == x);
            } else {
                assert(r[a - 1] == x);
            }
        }
    }
    assert(r.to_set() =~= s.to_set().remove(s[i]));
}

/// Adding a key that a sequence without duplicates does not hold.
proof fn lemma_push_key(s: Seq<FetchKey>, k: FetchKey)
    requires
        s.no_duplicates(),
        !s.contains(k),
    ensures
        s.push(k).no_duplicates(),
        s.push(k).to_set() == s.to_set().insert(k),
{
    let r = s.push(k);
    assert forall|x: FetchKey| r.to_set().contains(x) <==> s.to_set().insert(k).contains(x) by {
        if r.contains(x) {
            let a = choose|a: int| 0 <= a < r.len() && r[a] == x;
            if a < s.len() {
                assert(s[a] == x);
            }
        }
        if s.contains(x) {
            let a = choose|a: int| 0 <= a < s.len() && s[a] == x;
            assert(r[a] == x);
        }
        if x == k {
            assert(r[s.len() as int] == x);
        }
    }
    assert(r.to_set() =~= s.to_set().insert(k));
}

/// Whether `a` and `b` are the same grid.
fn same_key(a: &FetchKey, b: &FetchKey) -> (r: bool)
    ensures
        r == (*a == *b),
{
    let same_chunk = match (a.2, b.2) {
        (Some(x), Some(y)) => x == y,
        (None, None) => true,
        _ => false,
    };
    a.0.0 == b.0.0 && a.0.1 == b.0.1 && a.1 == b.1 && same_chunk
}

/// The position of `k` in `v`, if any.
fn position(v: &Vec<FetchKey>, k: &FetchKey) -> (r: Option<usize>)
    ensures
        r matches Some(i) ==> i < v@.len() && v@[i as int] == *k,
        r is None ==> !v@.contains(*k),
{
    let mut i: usize = 0;
    while i < v.len()
        invariant
            i <= v@.len(),
            forall|j: int| 0 <= j < i ==> v@[j] != *k,
        decreases v@.len() - i,
    {
        if same_key(&v[i], k) {
            return Some(i);
        }
        i = i + 1;
    }
    None
}

/// The position of the retry of `k` in `v`, if any.
fn retry_position(v: &Vec<Retry>, k: &FetchKey) -> (r: Option<usize>)
    ensures
        r matches Some(i) ==> i < v@.len() && v@[i as int].key == *k,
        r is None ==> forall|j: int| 0 <= j < v@.len() ==> v@[j].key != *k,
{
    let mut i: usize = 0;
    while i < v.len()
        invariant
            i <= v@.len(),
            forall|j: int| 0 <= j < i ==> v@[j].key != *k,
        decreases v@.len() - i,
    {
        if same_key(&v[i].key, k) {
            return Some(i);
        }
        i = i + 1;
    }
    None
}

impl FetchState {
    /// The grids being fetched.
    pub closed spec fn loading_set(&self) -> Set<FetchKey> {
        self.loading@.to_set()
    }

    /// Number of fetches in flight.
    pub closed spec fn loading_count(&self) -> nat {
        self.loading@.len()
    }

    /// The grids given up.
    pub closed spec fn failed_set(&self) -> Set<FetchKey> {
        self.failed@.to_set()
    }

    /// The grids waiting for a retry: failures so far and the time from which to retry.
    pub closed spec fn retry_map(&self) -> Map<FetchKey, (u8, u64)> {
        retry_view(self.retries@)
    }

    /// Failures so far of `k` (0 when it waits for no retry).
    pub open spec fn attempts(&self, k: FetchKey) -> int {
        if self.retry_map().contains_key(k) {
            self.retry_map()[k].0 as int
        } else {
            0
        }
    }

    /// The invariant: no grid twice in a list, at most `MAX_CONCURRENT_TILE_FETCHES` in flight,
    /// and a grid waiting for a retry has failed between 1 and `MAX_FETCH_RETRIES` times.
    pub closed spec fn wf(&self) -> bool {
        &&& self.loading@.no_duplicates()
        &&& self.loading@.len() <= MAX_CONCURRENT_TILE_FETCHES
        &&& self.failed@.no_duplicates()
        &&& distinct_keys(self.retries@)
        &&& forall|i: int|
            0 <= i < self.retries@.len() ==> 1 <= (#[trigger] self.retries@[i]).attempts
                <= MAX_FETCH_RETRIES
    }

    /// What the invariant gives to callers.
    pub proof fn lemma_wf(&self)
        requires
            self.wf(),
        ensures
            self.loading_count() <= MAX_CONCURRENT_TILE_FETCHES,
            self.loading_set().len() == self.loading_count(),
            self.loading_set().finite(),
            forall|k: FetchKey| 0 <= #[trigger] self.attempts(k) <= MAX_FETCH_RETRIES,
    {
        self.loading@.unique_seq_to_set();
        assert forall|k: FetchKey| 0 <= #[trigger] self.attempts(k) <= MAX_FETCH_RETRIES by {
            if self.retry_map().contains_key(k) {
                let i = choose|i: int| 0 <= i < self.retries@.len() && self.retries@[i].key == k;
                lemma_retry_at(self.retries@, i);
            }
        }
    }

    /// Nothing fetched, given up or waiting.
    pub fn new() -> (s: Self)
        ensures
            s.wf(),
            s.loading_set() == Set::<FetchKey>::empty(),
            s.loading_count() == 0,
            s.failed_set() == Set::<FetchKey>::empty(),
            s.retry_map() == Map::<FetchKey, (u8, u64)>::empty(),
    {
        let s = FetchState { loading: Vec::new(), failed: Vec::new(), retries: Vec::new() };
        proof {
            assert(s.loading@.to_set() =~= Set::<FetchKey>::empty());
            assert(s.failed@.to_set() =~= Set::<FetchKey>::empty());
            assert(retry_view(s.retries@) =~= Map::<FetchKey, (u8, u64)>::empty());
        }
        s
    }

    /// Whether the grid `k` is being fetched.
    pub fn is_loading(&self, k: &FetchKey) -> (b: bool)
        ensures
            b == self.loading_set().contains(*k),
    {
        position(&self.loading, k).is_some()
    }

    /// Whether the grid `k` was given up.
    pub fn is_failed(&self, k: &FetchKey) -> (b: bool)
        ensures
            b == self.failed_set().contains(*k),
    {
        position(&self.failed, k).is_some()
    }

    /// Number of fetches in flight.
    pub fn loading_len(&self) -> (n: usize)
        ensures
            n == self.loading_count(),
    {
        self.loading.len()
    }

    /// The time (ms) from which `k` may be retried, if it waits for a retry.
    pub fn retry_at(&self, k: &FetchKey) -> (t: Option<u64>)
        requires
            self.wf(),
        ensures
            t matches Some(x) ==> self.retry_map().contains_key(*k) && self.retry_map()[*k].1
                == x,
            t is None ==> !self.retry_map().contains_key(*k),
    {
        match retry_position(&self.retries, k) {
            Some(i) => {
                proof {
                    lemma_retry_at(self.retries@, i as int);
                }
                Some(self.retries[i].retry_at_ms)
            },
            None => None,
        }
    }

    /// A request to fetch chunk `chunk` of `key` at `level` at time `now_ms`. The grid's fetch
    /// starts unless it is in flight, was given up, or waits for a retry later than `now_ms`;
    /// when `MAX_CONCURRENT_TILE_FETCHES` fetches are in flight it is deferred instead.
    pub fn request(&mut self, key: TileKey, level: usize, chunk: usize, now_ms: u64) -> (r:
        FetchStart)
        requires
            old(self).wf(),
        ensures
            final(self).wf(),
            ({
                let k = fetch_key_spec(key, level, chunk);
                let waiting = old(self).retry_map().contains_key(k) && now_ms < old(
                    self,
                ).retry_map()[k].1;
                if old(self).failed_set().contains(k) || old(self).loading_set().contains(k)
                    || waiting {
                    r == FetchStart::Skipped && *final(self) == *old(self)
                } else if old(self).loading_count() >= MAX_CONCURRENT_TILE_FETCHES {
                    r == FetchStart::Deferred && *final(self) == *old(self)
                } else {
                    &&& r == FetchStart::Started(k)
                    &&& final(self).loading_set() == old(self).loading_set().insert(k)
                    &&& final(self).loading_count() == old(self).loading_count() + 1
                    &&& final(self).failed_set() == old(self).failed_set()
                    &&& final(self).retry_map() == old(self).retry_map()
                }
            }),
    {
        let k = fetch_key(key, level, chunk);
        if self.is_failed(&k) || self.is_loading(&k) {
            return FetchStart::Skipped;
        }
        match self.retry_at(&k) {
            Some(at) => {
                if now_ms < at {
                    return FetchStart::Skipped;
                }
            },
            None => {},
        }
        if self.loading.len() >= MAX_CONCURRENT_TILE_FETCHES {
            return FetchStart::Deferred;
        }
        proof {
            lemma_push_key(self.loading@, k);
        }
        self.loading.push(k);
        FetchStart::Started(k)
    }

    /// The fetch of `k` ended at `now_ms`, successfully or not. It is no longer in flight. On
    /// success its retry state is cleared. On failure the failures are counted: after
    /// `MAX_FETCH_RETRIES` retries the grid is given up; otherwise it may be retried after
    /// `retry_backoff_ms(failures)`, which is returned.
    pub fn finish(&mut self, k: FetchKey, ok: bool, now_ms: u64) -> (r: Option<u32>)
        requires
            old(self).wf(),
            now_ms + RETRY_BACKOFF_MAX_MS <= u64::MAX,
        ensures
            final(self).wf(),
            final(self).loading_set() == old(self).loading_set().remove(k),
            ({
                let a = old(self).attempts(k) + 1;
                if ok {
                    &&& r is None
                    &&& final(self).failed_set() == old(self).failed_set()
                    &&& final(self).retry_map() == old(self).retry_map().remove(k)
                } else if a > MAX_FETCH_RETRIES {
                    &&& r is None
                    &&& final(self).failed_set() == old(self).failed_set().insert(k)
                    &&& final(self).retry_map() == old(self).retry_map().remove(k)
                } else {
                    &&& r == Some(backoff_spec(a) as u32)
                    &&& final(self).failed_set() == old(self).failed_set()
                    &&& final(self).retry_map() == old(self).retry_map().insert(
                        k,
                        (a as u8, (now_ms + backoff_spec(a)) as u64),
                    )
                }
            }),
    {
        match position(&self.loading, &k) {
            Some(i) => {
                proof {
                    lemma_remove_key(self.loading@, i as int);
                }
                self.loading.remove(i);
            },
            None => {
                proof {
                    assert(self.loading@.to_set() =~= self.loading@.to_set().remove(k));
                }
            },
        }
        let pos = retry_position(&self.retries, &k);
        let ghost before = self.retries@;
        let attempts: u8 = match pos {
            Some(i) => self.retries[i].attempts,
            None => 0,
        };
        proof {
            if let Some(i) = pos {
                lemma_retry_at(before, i as int);
            } else {
                assert(!retry_view(before).contains_key(k));
            }
            assert(attempts == self.attempts(k));
        }
        if ok {
            self.clear_retry(pos, &k);
            return None;
        }
        let a = attempts + 1;
        if a > MAX_FETCH_RETRIES {
            self.clear_retry(pos, &k);
            if position(&self.failed, &k).is_none() {
                proof {
                    lemma_push_key(self.failed@, k);
                }
                self.failed.push(k);
            } else {
                proof {
                    assert(self.failed@.to_set() =~= self.failed@.to_set().insert(k));
                }
            }
            return None;
        }
        let backoff = retry_backoff_ms(a);
        proof {
            lemma_backoff_monotone(a as int, a as int);
        }
        let entry = Retry { key: k, attempts: a, retry_at_ms: now_ms + backoff as u64 };
        match pos {
            Some(i) => {
                self.retries.set(i, entry);
                proof {
                    let s = self.retries@;
                    assert(distinct_keys(s)) by {
                        assert forall|x: int, y: int|
                            0 <= x < s.len() && 0 <= y < s.len() && x != y implies #[trigger] s[x].key
                            != #[trigger] s[y].key by {
                            assert(x != i ==> s[x] == before[x]);
                            assert(y != i ==> s[y] == before[y]);
                        }
                    }
                    self.lemma_retry_update(before, i as int, entry);
                }
            },
            None => {
                self.retries.push(entry);
                proof {
                    let s = self.retries@;
                    assert(distinct_keys(s)) by {
                        assert forall|x: int, y: int|
                            0 <= x < s.len() && 0 <= y < s.len() && x != y implies #[trigger] s[x].key
                            != #[trigger] s[y].key by {
                            if x < before.len() && y < before.len() {
                                assert(s[x] == before[x] && s[y] == before[y]);
                            } else if x < before.len() {
                                assert(s[x] == before[x]);
                            } else if y < before.len() {
                                assert(s[y] == before[y]);
                            }
                        }
                    }
                    self.lemma_retry_push(before, entry);
                }
            },
        }
        Some(backoff)
    }

    /// The map after the entry `i` of `before` was replaced by `e` with the same key.
    proof fn lemma_retry_update(&self, before: Seq<Retry>, i: int, e: Retry)
        requires
            distinct_keys(before),
            distinct_keys(self.retries@),
            0 <= i < before.len(),
            before[i].key == e.key,
            self.retries@ == before.update(i, e),
        ensures
            retry_view(self.retries@) == retry_view(before).insert(e.key, (e.attempts, e.retry_at_ms)),
    {
        let s = self.retries@;
        let m = retry_view(before).insert(e.key, (e.attempts, e.retry_at_ms));
        assert forall|x: FetchKey| retry_view(s).contains_key(x) <==> m.contains_key(x) by {
            if retry_view(s).contains_key(x) {
                let j = choose|j: int| 0 <= j < s.len() && s[j].key == x;
                if j != i {
                    assert(before[j].key == x);
                }
            }
            if retry_view(before).contains_key(x) {
                let j = choose|j: int| 0 <= j < before.len() && before[j].key == x;
                if j != i {
                    assert(s[j].key == x);
                } else {
                    assert(s[i].key == x);
                }
            }
            if x == e.key {
                assert(s[i].key == x);
            }
        }
        assert forall|x: FetchKey| #[trigger] retry_view(s).contains_key(x) implies retry_view(s)[x]
            == m[x] by {
            let j = choose|j: int| 0 <= j < s.len() && s[j].key == x;
            lemma_retry_at(s, j);
            if j != i {
                assert(before[j] == s[j]);
                lemma_retry_at(before, j);
            }
        }
        assert(retry_view(s) =~= m);
    }

    /// The map after `e`, whose key `before` does not hold, was appended.
    proof fn lemma_retry_push(&self, before: Seq<Retry>, e: Retry)
        requires
            distinct_keys(before),
            distinct_keys(self.retries@),
            forall|j: int| 0 <= j < before.len() ==> before[j].key != e.key,
            self.retries@ == before.push(e),
        ensures
            retry_view(self.retries@) == retry_view(before).insert(e.key, (e.attempts, e.retry_at_ms)),
    {
        let s = self.retries@;
        let m = retry_view(before).insert(e.key, (e.attempts, e.retry_at_ms));
        assert forall|x: FetchKey| retry_view(s).contains_key(x) <==> m.contains_key(x) by {
            if retry_view(s).contains_key(x) {
                let j = choose|j: int| 0 <= j < s.len() && s[j].key == x;
                if j < before.len() {
                    assert(before[j].key == x);
                }
            }
            if retry_view(before).contains_key(x) {
                let j = choose|j: int| 0 <= j < before.len() && before[j].key == x;
                assert(s[j].key == x);
            }
            if x == e.key {
                assert(s[before.len() as int].key == x);
            }
        }
        assert forall|x: FetchKey| #[trigger] retry_view(s).contains_key(x) implies retry_view(s)[x]
            == m[x] by {
            let j = choose|j: int| 0 <= j < s.len() && s[j].key == x;
            lemma_retry_at(s, j);
            if j < before.len() {
                assert(before[j] == s[j]);
                lemma_retry_at(before, j);
            }
        }
        assert(retry_view(s) =~= m);
    }

    /// Drops the retry state of `k`, found at `pos` (or absent).
    fn clear_retry(&mut self, pos: Option<usize>, k: &FetchKey)
        requires
            old(self).wf(),
            pos matches Some(i) ==> i < old(self).retries@.len() && old(self).retries@[i as int].key
                == *k,
            pos is None ==> forall|j: int|
                0 <= j < old(self).retries@.len() ==> old(self).retries@[j].key != *k,
        ensures
            final(self).wf(),
            final(self).loading@ == old(self).loading@,
            final(self).failed@ == old(self).failed@,
            final(self).retry_map() == old(self).retry_map().remove(*k),
    {
        let ghost before = self.retries@;
        match pos {
            Some(i) => {
                self.retries.remove(i);
                proof {
                    let s = self.retries@;
                    before.remove_ensures(i as int);
                    assert forall|x: int| 0 <= x < s.len() implies #[trigger] s[x] == if x < i {
                        before[x]
                    } else {
                        before[x + 1]
                    } by {}
                    assert(distinct_keys(s)) by {
                        assert forall|x: int, y: int|
                            0 <= x < s.len() && 0 <= y < s.len() && x != y implies #[trigger] s[x].key
                            != #[trigger] s[y].key by {
                            let x2 = if x < i {
                                x
                            } else {
                                x + 1
                            };
                            let y2 = if y < i {
                                y
                            } else {
                                y + 1
                            };
                            assert(s[x] == before[x2] && s[y] == before[y2]);
                        }
                    }
                    assert forall|x: int|
                        0 <= x < s.len() implies 1 <= (#[trigger] s[x]).attempts
                            <= MAX_FETCH_RETRIES by {
                        let x2 = if x < i {
                            x
                        } else {
                            x + 1
                        };
                        assert(s[x] == before[x2]);
                    }
                    let m = retry_view(before).remove(*k);
                    assert forall|x: FetchKey| retry_view(s).contains_key(x) <==> m.contains_key(
                        x,
                    ) by {
                        if retry_view(s).contains_key(x) {
                            let j = choose|j: int| 0 <= j < s.len() && s[j].key == x;
                            let j2 = if j < i {
                                j
                            } else {
                                j + 1
                            };
                            assert(before[j2].key == x);
                            assert(j2 != i);
                        }
                        if m.contains_key(x) {
                            let j = choose|j: int| 0 <= j < before.len() && before[j].key == x;
                            assert(j != i);
                            if j < i {
                                assert(s[j].key == x);
                            } else {
                                assert(s[j - 1].key == x);
                            }
                        }
                    }
                    assert forall|x: FetchKey| #[trigger]
                        retry_view(s).contains_key(x) implies retry_view(s)[x] == m[x] by {
                        let j = choose|j: int| 0 <= j < s.len() && s[j].key == x;
                        lemma_retry_at(s, j);
                        let j2 = if j < i {
                            j
                        } else {
                            j + 1
                        };
                        assert(before[j2] == s[j]);
                        lemma_retry_at(before, j2);
                    }
                    assert(retry_view(s) =~= m);
                }
            },
            None => {
                proof {
                    assert(retry_view(before) =~= retry_view(before).remove(*k));
                }
            },
        }
    }
}

} // verus!
