//! Holding the fetched terrain data: the level-0 grid of every tile, the per-chunk grids of the
//! finer levels (fetched on demand and evicted least-recently-used first), and the level that
//! each chunk currently shows.
//!
//! Grids are `(N+1)x(N+1)` nodes of `i16` metres, rows south to north, columns west to east.
//! Level 0 covers a whole one-degree tile; level `l >= 1` is split into
//! `chunks_per_tile x chunks_per_tile` chunks, each with its own grid.
//!
//! The finer grids live in one flat table: tile `t`, slot `s` is entry `t * dpt + s`, where
//! `dpt = (levels - 1) * chunks` and slot `s = (level - 1) * chunks + chunk`.
use std::rc::Rc;
use vstd::prelude::*;

verus! {

/// A tile: the (latitude, longitude) of its south-west corner, in whole degrees.
pub type TileKey = (i32, i32);

/// A GPU mesh: (tile latitude, tile longitude, chunk). The chunk `WHOLE_TILE` is the level-0
/// mesh of the whole tile.
pub type MeshKey = (i32, i32, u8);

/// The chunk number of `MeshKey` that stands for the whole tile at level 0.
pub const WHOLE_TILE: u8 = 255;

/// The grid value for "no data" (sea).
pub const NO_DATA: i16 = -32768;

/// Levels up to this one are fetched as one file per tile; finer levels chunk by chunk.
pub const WHOLE_FILE_MAX_LEVEL: usize = 2;

/// Number of nodes of a grid that is `cells` cells wide.
pub open spec fn grid_nodes(cells: int) -> int {
    (cells + 1) * (cells + 1)
}

/// Number of nodes of a square grid that is `cells` cells wide: `(cells + 1)^2`.
pub fn grid_len(cells: usize) -> (n: usize)
    requires
        grid_nodes(cells as int) <= usize::MAX,
    ensures
        n == grid_nodes(cells as int),
{
    proof {
        assert(cells + 1 <= grid_nodes(cells as int)) by (nonlinear_arith)
            requires
                cells >= 0,
        ;
    }
    (cells + 1) * (cells + 1)
}

/// A fetched grid of a finer level, and the stamp of its last use (larger is more recent).
pub struct CachedGrid {
    data: Rc<Vec<i16>>,
    last_used: u64,
}

impl CachedGrid {
    /// The grid values.
    pub closed spec fn values(&self) -> Seq<i16> {
        self.data@
    }

    /// The stamp of the last use.
    pub closed spec fn stamp(&self) -> u64 {
        self.last_used
    }

    /// Memory used by the grid values, in bytes.
    pub open spec fn size(&self) -> nat {
        2 * self.values().len()
    }

    /// Memory used by the grid values, in bytes (two per node).
    pub fn bytes(&self) -> (n: usize)
        requires
            self.size() <= usize::MAX,
        ensures
            n == self.size(),
    {
        self.data.len() * 2
    }
}

/// Bytes held by an optional grid.
pub open spec fn entry_bytes(g: Option<CachedGrid>) -> nat {
    match g {
        Some(g) => g.size(),
        None => 0,
    }
}

/// Bytes held by a table of optional grids.
pub open spec fn table_bytes(s: Seq<Option<CachedGrid>>) -> nat
    decreases s.len(),
{
    if s.len() == 0 {
        0
    } else {
        table_bytes(s.drop_last()) + entry_bytes(s.last())
    }
}

proof fn lemma_table_bytes_update(s: Seq<Option<CachedGrid>>, i: int, g: Option<CachedGrid>)
    requires
        0 <= i < s.len(),
    ensures
        table_bytes(s) >= entry_bytes(s[i]),
        table_bytes(s.update(i, g)) == table_bytes(s) - entry_bytes(s[i]) + entry_bytes(g),
    decreases s.len(),
{
    if i == s.len() - 1 {
        assert(s.update(i, g).drop_last() =~= s.drop_last());
    } else {
        lemma_table_bytes_update(s.drop_last(), i, g);
        assert(s.update(i, g).drop_last() =~= s.drop_last().update(i, g));
    }
}

proof fn lemma_table_bytes_zero(s: Seq<Option<CachedGrid>>)
    requires
        forall|g: int| 0 <= g < s.len() ==> (#[trigger] s[g]) is None,
    ensures
        table_bytes(s) == 0,
    decreases s.len(),
{
    if s.len() > 0 {
        lemma_table_bytes_zero(s.drop_last());
    }
}

/// A tile that has data: its key and where its level-0 grid starts in the base table.
pub struct TileEntry {
    /// South-west corner of the tile.
    pub key: TileKey,
    base_offset: usize,
}

impl TileEntry {
    /// The key of the tile.
    pub closed spec fn key_spec(&self) -> TileKey {
        self.key
    }
}

/// The fetched terrain: level 0 of every tile, the finer grids fetched so far, and the level that
/// each chunk currently shows (height queries use the level that is on screen).
pub struct TerrainData {
    /// Base URL from which the finer levels are fetched.
    pub base_url: String,
    tile_levels: Vec<u32>,
    chunks_per_tile: u32,
    min_lat: i32,
    min_lon: i32,
    rows: i32,
    cols: i32,
    base: Vec<i16>,
    tiles: Vec<TileEntry>,
    slots: Vec<Option<usize>>,
    chunk_levels: Vec<u8>,
    detail: Vec<Option<CachedGrid>>,
    stamp: u64,
    cached_bytes: usize,
}

/// The checks made on the level definition of the start files: two or more levels, a non-zero
/// chunk split, and every level from 1 on divisible by the split.
pub open spec fn levels_valid(levels: Seq<u32>, chunks_per_tile: u32) -> bool {
    &&& levels.len() >= 2
    &&& chunks_per_tile > 0
    &&& forall|l: int| 1 <= l < levels.len() ==> #[trigger] levels[l] % chunks_per_tile == 0
}

/// Sizes derived from the level definition fit in memory (machine limits): the level-0 grid,
/// the chunks of all levels, and one tile's grids at any level.
pub open spec fn levels_fit(levels: Seq<u32>, chunks_per_tile: u32) -> bool {
    let k = chunks_per_tile as int;
    &&& k * k * levels.len() <= usize::MAX
    &&& grid_nodes(levels[0] as int) <= usize::MAX
    &&& forall|l: int|
        0 <= l < levels.len() ==> 2 * k * k * grid_nodes(#[trigger] levels[l] as int) <= usize::MAX
}

/// The position of (`row`, `col`) in a row-major table `cols` wide.
pub open spec fn cell_index(row: int, col: int, cols: int) -> int {
    row * cols + col
}

/// `Some(i)` as an integer option.
pub open spec fn opt_int(o: Option<usize>) -> Option<int> {
    match o {
        Some(i) => Some(i as int),
        None => None,
    }
}

/// Whether `o` is a grid with the values `v`.
pub open spec fn grid_is(o: Option<CachedGrid>, v: Seq<i16>) -> bool {
    o matches Some(g) && g.values() == v
}

/// Whether `o` is a grid with the stamp `s`.
pub open spec fn stamped(o: Option<CachedGrid>, s: int) -> bool {
    o matches Some(g) && g.stamp() == s
}

/// Number of records `c < n`, `rec` values each and one after the other, that lie within
/// `len` values.
pub open spec fn records_within(rec: int, len: int, n: int) -> nat
    decreases n,
{
    if n <= 0 {
        0
    } else {
        records_within(rec, len, n - 1) + if n * rec <= len {
            1nat
        } else {
            0nat
        }
    }
}

/// At most `n` records lie within, and all `n` when the last of them does.
proof fn lemma_records_within(rec: int, len: int, n: int)
    requires
        rec >= 0,
        n >= 0,
    ensures
        records_within(rec, len, n) <= n,
        n * rec <= len ==> records_within(rec, len, n) == n,
    decreases n,
{
    if n > 0 {
        lemma_records_within(rec, len, n - 1);
        if n * rec <= len {
            assert((n - 1) * rec <= n * rec) by (nonlinear_arith)
                requires
                    rec >= 0,
            ;
        }
    }
}

/// Whether `key` lies in the rectangle of whole-degree cells that starts at (`min_lat`, `min_lon`)
/// and is `rows` x `cols` cells large.
pub open spec fn in_bounds(key: TileKey, min_lat: i32, min_lon: i32, rows: i32, cols: i32) -> bool {
    &&& 0 <= key.0 - min_lat < rows
    &&& 0 <= key.1 - min_lon < cols
}

/// The last index of the key (`lat`, `lon`) in `keys`, if any.
pub open spec fn last_index(keys: Seq<TileKey>, lat: int, lon: int) -> Option<int>
    decreases keys.len(),
{
    if keys.len() == 0 {
        None
    } else if keys.last().0 == lat && keys.last().1 == lon {
        Some(keys.len() - 1)
    } else {
        last_index(keys.drop_last(), lat, lon)
    }
}

proof fn lemma_last_index_bound(keys: Seq<TileKey>, lat: int, lon: int)
    ensures
        last_index(keys, lat, lon) matches Some(i) ==> 0 <= i < keys.len() && keys[i].0 == lat
            && keys[i].1 == lon,
    decreases keys.len(),
{
    if keys.len() > 0 && !(keys.last().0 == lat && keys.last().1 == lon) {
        lemma_last_index_bound(keys.drop_last(), lat, lon);
    }
}

/// `row * cols + col` determines `row` and `col` when `0 <= col < cols`.
pub proof fn lemma_cell_index_unique(r1: int, c1: int, r2: int, c2: int, cols: int)
    requires
        0 <= c1 < cols,
        0 <= c2 < cols,
        cell_index(r1, c1, cols) == cell_index(r2, c2, cols),
    ensures
        r1 == r2,
        c1 == c2,
{
    let x = cell_index(r1, c1, cols);
    vstd::arithmetic::div_mod::lemma_fundamental_div_mod_converse_div(x, cols, r1, c1);
    vstd::arithmetic::div_mod::lemma_fundamental_div_mod_converse_div(x, cols, r2, c2);
    vstd::arithmetic::div_mod::lemma_fundamental_div_mod_converse_mod(x, cols, r1, c1);
    vstd::arithmetic::div_mod::lemma_fundamental_div_mod_converse_mod(x, cols, r2, c2);
}

proof fn lemma_cell_index_bound(row: int, col: int, rows: int, cols: int)
    requires
        0 <= row < rows,
        0 <= col < cols,
    ensures
        0 <= cell_index(row, col, cols) < rows * cols,
{
    assert(0 <= row * cols + col < rows * cols) by (nonlinear_arith)
        requires
            0 <= row < rows,
            0 <= col < cols,
    ;
}

proof fn lemma_row_below(row: int, col: int, rows: int, cols: int)
    requires
        0 <= row,
        0 <= col < cols,
        cell_index(row, col, cols) < rows * cols,
    ensures
        row < rows,
{
    if row >= rows {
        assert(row * cols + col >= rows * cols) by (nonlinear_arith)
            requires
                row >= rows,
                0 <= col,
                cols > 0,
        ;
    }
}

impl TerrainData {
    /// Number of levels.
    pub closed spec fn nl(&self) -> int {
        self.tile_levels@.len() as int
    }

    /// Chunks along one side of a tile.
    pub closed spec fn k(&self) -> int {
        self.chunks_per_tile as int
    }

    /// Chunks per tile.
    pub open spec fn cc(&self) -> int {
        self.k() * self.k()
    }

    /// Grid slots per tile (levels 1 and up, every chunk).
    pub open spec fn dpt(&self) -> int {
        (self.nl() - 1) * self.cc()
    }

    /// Cells along one side of a tile at `level`.
    pub closed spec fn cells(&self, level: int) -> int {
        self.tile_levels@[level] as int
    }

    /// Cells along one side of a chunk at `level`.
    pub open spec fn chunk_cells_spec(&self, level: int) -> int {
        self.cells(level) / self.k()
    }

    /// The tiles in index order.
    pub closed spec fn tile_seq(&self) -> Seq<TileEntry> {
        self.tiles@
    }

    /// The table of finer grids.
    pub closed spec fn table(&self) -> Seq<Option<CachedGrid>> {
        self.detail@
    }

    /// The level that each chunk shows, tile by tile.
    pub closed spec fn shown(&self) -> Seq<u8> {
        self.chunk_levels@
    }

    /// The use counter.
    pub closed spec fn stamp_value(&self) -> u64 {
        self.stamp
    }

    /// The total that `cached_bytes` reports.
    pub closed spec fn cached_total(&self) -> nat {
        self.cached_bytes as nat
    }

    /// The base URL.
    pub closed spec fn url(&self) -> String {
        self.base_url
    }

    /// The level definition (cells per tile side, level 0 first).
    pub closed spec fn level_seq(&self) -> Seq<u32> {
        self.tile_levels@
    }

    /// The chunk split of a tile side.
    pub closed spec fn split(&self) -> u32 {
        self.chunks_per_tile
    }

    /// The index in the flat table of `tile`'s slot for (`level`, `chunk`).
    pub open spec fn entry_index(&self, tile: int, level: int, chunk: int) -> int {
        tile * self.dpt() + (level - 1) * self.cc() + chunk
    }

    /// The level of the flat table entry `g`.
    pub open spec fn entry_level(&self, g: int) -> int {
        (g % self.dpt()) / self.cc() + 1
    }

    /// The chunk of the flat table entry `g`.
    pub open spec fn entry_chunk(&self, g: int) -> int {
        (g % self.dpt()) % self.cc()
    }

    /// The tile of the flat table entry `g`.
    pub open spec fn entry_tile(&self, g: int) -> int {
        g / self.dpt()
    }

    /// The data bounds: (latitude of the south edge, longitude of the west edge, rows, columns),
    /// in whole degrees.
    pub closed spec fn bounds(&self) -> (i32, i32, i32, i32) {
        (self.min_lat, self.min_lon, self.rows, self.cols)
    }

    /// Whether the `i32` arithmetic of a lookup of `key` stays in range.
    pub closed spec fn key_fits(&self, key: TileKey) -> bool {
        let row = key.0 - self.min_lat;
        let col = key.1 - self.min_lon;
        &&& i32::MIN <= row <= i32::MAX
        &&& i32::MIN <= col <= i32::MAX
        &&& (0 <= row && 0 <= col && col < self.cols) ==> cell_index(row, col, self.cols as int)
            <= i32::MAX
    }

    /// The index of the tile of `key`, if the tile exists and lies in the data bounds.
    pub closed spec fn tile_index(&self, key: TileKey) -> Option<int> {
        let row = key.0 - self.min_lat;
        let col = key.1 - self.min_lon;
        if row < 0 || col < 0 || col >= self.cols {
            None
        } else if cell_index(row, col, self.cols as int) >= self.slots@.len() {
            None
        } else {
            opt_int(self.slots@[cell_index(row, col, self.cols as int)])
        }
    }

    /// The grid cached for (`key`, `level`, `chunk`), if any.
    pub open spec fn cached(&self, key: TileKey, level: int, chunk: int) -> Option<CachedGrid> {
        match self.tile_index(key) {
            Some(t) => if 1 <= level < self.nl() && 0 <= chunk < self.cc() {
                self.table()[self.entry_index(t, level, chunk)]
            } else {
                None
            },
            None => None,
        }
    }

    /// The level that chunk `chunk` of `key` shows (0 when there is no such tile or chunk).
    pub open spec fn shown_level(&self, key: TileKey, chunk: int) -> int {
        match self.tile_index(key) {
            Some(t) => if 0 <= chunk < self.cc() {
                self.shown()[t * self.cc() + chunk] as int
            } else {
                0
            },
            None => 0,
        }
    }

    /// The level-0 grid of tile `t`.
    pub closed spec fn base_grid(&self, t: int) -> Seq<i16> {
        let n = grid_nodes(self.tile_levels@[0] as int);
        self.base@.subrange(t * n, t * n + n)
    }

    /// The invariant of the structure.
    pub closed spec fn wf(&self) -> bool {
        let grid0 = grid_nodes(self.tile_levels@[0] as int);
        &&& self.tile_levels@.len() >= 1
        &&& levels_fit(self.tile_levels@, self.chunks_per_tile)
        &&& (self.rows > 0 && self.cols > 0 ==> self.rows * self.cols <= i32::MAX)
        &&& self.tiles@.len() * self.dpt() <= usize::MAX
        &&& self.tiles@.len() * self.cc() <= usize::MAX
        &&& self.base@.len() == self.tiles@.len() * grid0
        &&& self.chunk_levels@.len() == self.tiles@.len() * self.cc()
        &&& self.detail@.len() == self.tiles@.len() * self.dpt()
        &&& self.slots@.len() == (if self.rows > 0 && self.cols > 0 {
            self.rows * self.cols
        } else {
            0
        })
        &&& forall|i: int|
            0 <= i < self.tiles@.len() ==> (#[trigger] self.tiles@[i]).base_offset == i * grid0
        &&& forall|s: int|
            0 <= s < self.slots@.len() && (#[trigger] self.slots@[s]) is Some ==> self.slots@[s]->0
                < self.tiles@.len()
        &&& forall|row: int, col: int|
            0 <= row && 0 <= col < self.cols && cell_index(row, col, self.cols as int)
                < self.slots@.len() && (#[trigger] self.slots@[cell_index(
                row,
                col,
                self.cols as int,
            )]) is Some ==> self.tiles@[self.slots@[cell_index(
                row,
                col,
                self.cols as int,
            )]->0 as int].key.0 == self.min_lat + row && self.tiles@[self.slots@[cell_index(
                row,
                col,
                self.cols as int,
            )]->0 as int].key.1 == self.min_lon + col
        &&& forall|g: int|
            0 <= g < self.detail@.len() && (#[trigger] self.detail@[g]) is Some ==> {
                &&& self.detail@[g]->0.values().len() == grid_nodes(
                    self.chunk_cells_spec(self.entry_level(g)),
                )
                &&& self.detail@[g]->0.stamp() <= self.stamp
            }
        &&& self.cached_bytes == table_bytes(self.detail@)
    }

    /// Whether `new` can be called with these parts: the level definition is valid, the sizes
    /// derived from it fit in memory, and the tile list, the bounds and the base file agree.
    pub fn can_build(
        tile_levels: &Vec<u32>,
        chunks_per_tile: u32,
        min_lat: i32,
        min_lon: i32,
        rows: i32,
        cols: i32,
        tile_keys: &Vec<TileKey>,
        base_len: usize,
    ) -> (b: bool)
        ensures
            b == (tile_levels@.len() >= 1 && levels_fit(tile_levels@, chunks_per_tile) && (rows
                > 0 && cols > 0 ==> rows * cols <= i32::MAX) && tile_keys@.len() * (chunks_per_tile
                * chunks_per_tile) <= usize::MAX && tile_keys@.len() * ((
            tile_levels@.len() - 1) * (chunks_per_tile * chunks_per_tile)) <= usize::MAX
                && base_len == tile_keys@.len() * grid_nodes(tile_levels@[0] as int) && forall|
                i: int,
            |
                0 <= i < tile_keys@.len() ==> i32::MIN <= #[trigger] tile_keys@[i].0 - min_lat
                    <= i32::MAX && i32::MIN <= tile_keys@[i].1 - min_lon <= i32::MAX),
    {
        if tile_levels.len() < 1 {
            return false;
        }
        let k = chunks_per_tile as u128;
        proof {
            assert(k * k <= 0x1_0000_0000_0000_0000) by (nonlinear_arith)
                requires
                    k <= 0x1_0000_0000,
            ;
        }
        let kk = k * k;
        let nl = tile_levels.len() as u128;
        let max = usize::MAX as u128;
        proof {
            assert(kk == (chunks_per_tile as int) * (chunks_per_tile as int));
        }
        match kk.checked_mul(nl) {
            None => {
                return false;
            },
            Some(x) => {
                if x > max {
                    return false;
                }
            },
        }
        let mut l: usize = 0;
        while l < tile_levels.len()
            invariant
                0 <= l <= tile_levels@.len(),
                kk == (chunks_per_tile as int) * (chunks_per_tile as int),
                max == usize::MAX,
                forall|j: int|
                    0 <= j < l ==> 2 * (chunks_per_tile as int) * (chunks_per_tile as int)
                        * grid_nodes(#[trigger] tile_levels@[j] as int) <= usize::MAX,
            decreases tile_levels@.len() - l,
        {
            let c = tile_levels[l] as u128 + 1;
            proof {
                assert(c * c <= 0x1_0000_0000_0000_0000) by (nonlinear_arith)
                    requires
                        c <= 0x1_0000_0000,
                ;
            }
            let g = c * c;
            proof {
                assert(2 * (chunks_per_tile as int) * (chunks_per_tile as int) * grid_nodes(
                    tile_levels@[l as int] as int,
                ) == (kk * g) * 2) by (nonlinear_arith)
                    requires
                        kk == (chunks_per_tile as int) * (chunks_per_tile as int),
                        g == c * c,
                        c == tile_levels@[l as int] + 1,
                ;
            }
            match kk.checked_mul(g) {
                None => {
                    proof {
                        assert((kk * g) * 2 > usize::MAX) by (nonlinear_arith)
                            requires
                                kk * g > u128::MAX,
                        ;
                    }
                    return false;
                },
                Some(x) => match x.checked_mul(2) {
                    None => {
                        return false;
                    },
                    Some(y) => {
                        if y > max {
                            return false;
                        }
                    },
                },
            }
            l = l + 1;
        }
        if rows > 0 && cols > 0 {
            proof {
                assert((rows as int) * (cols as int) <= 0x4000_0000_0000_0000) by (nonlinear_arith)
                    requires
                        0 < rows <= 0x8000_0000,
                        0 < cols <= 0x8000_0000,
                ;
            }
            if (rows as i64) * (cols as i64) > i32::MAX as i64 {
                return false;
            }
        }
        let n = tile_keys.len() as u128;
        match n.checked_mul(kk) {
            None => {
                return false;
            },
            Some(x) => {
                if x > max {
                    return false;
                }
            },
        }
        proof {
            assert((nl - 1) * kk <= kk * nl) by (nonlinear_arith)
                requires
                    nl >= 1,
                    kk >= 0,
            ;
        }
        let per_tile = (nl - 1) * kk;
        proof {
            assert(per_tile == (tile_levels@.len() - 1) * (chunks_per_tile * chunks_per_tile));
        }
        match n.checked_mul(per_tile) {
            None => {
                return false;
            },
            Some(x) => {
                if x > max {
                    return false;
                }
            },
        }
        let c0 = tile_levels[0] as u128 + 1;
        proof {
            assert(c0 * c0 <= 0x1_0000_0000_0000_0000) by (nonlinear_arith)
                requires
                    c0 <= 0x1_0000_0000,
            ;
        }
        let g0 = c0 * c0;
        proof {
            assert(g0 == grid_nodes(tile_levels@[0] as int));
        }
        if g0 > max {
            return false;
        }
        match n.checked_mul(g0) {
            None => {
                return false;
            },
            Some(x) => {
                if x != base_len as u128 {
                    return false;
                }
            },
        }
        let mut i: usize = 0;
        while i < tile_keys.len()
            invariant
                0 <= i <= tile_keys@.len(),
                forall|j: int|
                    0 <= j < i ==> i32::MIN <= #[trigger] tile_keys@[j].0 - min_lat <= i32::MAX
                        && i32::MIN <= tile_keys@[j].1 - min_lon <= i32::MAX,
            decreases tile_keys@.len() - i,
        {
            let key = tile_keys[i];
            let dr = key.0 as i64 - min_lat as i64;
            let dc = key.1 as i64 - min_lon as i64;
            if dr < i32::MIN as i64 || dr > i32::MAX as i64 || dc < i32::MIN as i64 || dc
                > i32::MAX as i64 {
                return false;
            }
            i = i + 1;
        }
        true
    }

    /// Builds the data from the three fetched files: the level definition, the data bounds in
    /// whole degrees, the tile list (in the order of the base file) and the base file (level 0 of
    /// every tile, in the order of the list). No finer grid is cached yet and every chunk shows
    /// level 0. A tile outside the bounds is kept in the list but cannot be looked up by key.
    pub fn new(
        tile_levels: Vec<u32>,
        chunks_per_tile: u32,
        min_lat: i32,
        min_lon: i32,
        rows: i32,
        cols: i32,
        base_url: String,
        tile_keys: &Vec<TileKey>,
        base: Vec<i16>,
    ) -> (r: Self)
        requires
            tile_levels@.len() >= 1,
            levels_fit(tile_levels@, chunks_per_tile),
            rows > 0 && cols > 0 ==> rows * cols <= i32::MAX,
            tile_keys@.len() * (chunks_per_tile * chunks_per_tile) <= usize::MAX,
            tile_keys@.len() * ((tile_levels@.len() - 1) * (chunks_per_tile * chunks_per_tile))
                <= usize::MAX,
            base@.len() == tile_keys@.len() * grid_nodes(tile_levels@[0] as int),
            forall|i: int|
                0 <= i < tile_keys@.len() ==> i32::MIN <= #[trigger] tile_keys@[i].0 - min_lat
                    <= i32::MAX && i32::MIN <= tile_keys@[i].1 - min_lon <= i32::MAX,
        ensures
            r.wf(),
            r.url() == base_url,
            r.level_seq() == tile_levels@,
            r.split() == chunks_per_tile,
            r.tile_seq().len() == tile_keys@.len(),
            forall|i: int|
                0 <= i < tile_keys@.len() ==> (#[trigger] r.tile_seq()[i]).key_spec()
                    == tile_keys@[i],
            forall|g: int| 0 <= g < r.table().len() ==> (#[trigger] r.table()[g]) is None,
            forall|c: int| 0 <= c < r.shown().len() ==> (#[trigger] r.shown()[c]) == 0,
            r.cached_total() == 0,
            r.stamp_value() == 0,
            r.bounds() == (min_lat, min_lon, rows, cols),
            forall|key: TileKey, l: int, c: int| #[trigger] r.cached(key, l, c) is None,
            forall|key: TileKey, c: int| #[trigger] r.shown_level(key, c) == 0,
            forall|t: int|
                0 <= t < tile_keys@.len() ==> #[trigger] r.base_grid(t) == base@.subrange(
                    t * grid_nodes(tile_levels@[0] as int),
                    t * grid_nodes(tile_levels@[0] as int) + grid_nodes(tile_levels@[0] as int),
                ),
            forall|key: TileKey| #[trigger]
                r.tile_index(key) == if in_bounds(key, min_lat, min_lon, rows, cols) {
                    last_index(tile_keys@, key.0 as int, key.1 as int)
                } else {
                    None
                },
    {
        let k = chunks_per_tile as usize;
        proof {
            let kk = k as int;
            assert(kk * kk <= kk * kk * tile_levels@.len()) by (nonlinear_arith)
                requires
                    tile_levels@.len() >= 1,
                    kk >= 0,
            ;
        }
        let grid0 = grid_len(tile_levels[0] as usize);
        let chunks = k * k;
        let num_detail = tile_levels.len() - 1;
        proof {
            assert(num_detail * chunks <= chunks * tile_levels@.len()) by (nonlinear_arith)
                requires
                    num_detail < tile_levels@.len(),
                    chunks >= 0,
            ;
            assert(chunks * tile_levels@.len() == (k as int) * (k as int) * tile_levels@.len());
        }
        let per_tile = num_detail * chunks;
        let n = tile_keys.len();
        let base_len = base.len();
        assert(n * grid0 == base_len);
        proof {
            assert(n * chunks == tile_keys@.len() * (chunks_per_tile * chunks_per_tile));
            assert(per_tile == (tile_levels@.len() - 1) * (chunks_per_tile * chunks_per_tile));
        }
        let n_slots: usize = if rows > 0 && cols > 0 {
            (rows * cols) as usize
        } else {
            0
        };
        let mut slots: Vec<Option<usize>> = Vec::new();
        while slots.len() < n_slots
            invariant
                slots@.len() <= n_slots,
                forall|s: int| 0 <= s < slots@.len() ==> (#[trigger] slots@[s]) is None,
            decreases n_slots - slots@.len(),
        {
            slots.push(None);
        }
        proof {
            assert(tile_keys@.take(0) =~= Seq::<TileKey>::empty());
            assert forall|row: int, col: int| 0 <= row < rows && 0 <= col < cols implies opt_int(
                #[trigger] slots@[cell_index(row, col, cols as int)],
            ) == last_index(tile_keys@.take(0), min_lat + row, min_lon + col) by {
                lemma_cell_index_bound(row, col, rows as int, cols as int);
            }
        }
        let mut tiles: Vec<TileEntry> = Vec::new();
        let mut chunk_levels: Vec<u8> = Vec::new();
        let mut detail: Vec<Option<CachedGrid>> = Vec::new();
        let mut i: usize = 0;
        while i < n
            invariant
                i <= n,
                n == tile_keys@.len(),
                n * chunks <= usize::MAX,
                n * per_tile <= usize::MAX,
                n * grid0 <= usize::MAX,
                chunks == k * k,
                per_tile == num_detail * chunks,
                num_detail == tile_levels@.len() - 1,
                k == chunks_per_tile,
                grid0 == grid_nodes(tile_levels@[0] as int),
                n_slots == (if rows > 0 && cols > 0 {
                    rows * cols
                } else {
                    0
                }),
                rows > 0 && cols > 0 ==> rows * cols <= i32::MAX,
                forall|j: int|
                    0 <= j < tile_keys@.len() ==> i32::MIN <= #[trigger] tile_keys@[j].0 - min_lat
                        <= i32::MAX && i32::MIN <= tile_keys@[j].1 - min_lon <= i32::MAX,
                slots@.len() == n_slots,
                tiles@.len() == i,
                forall|j: int|
                    0 <= j < i ==> (#[trigger] tiles@[j]).key == tile_keys@[j]
                        && tiles@[j].base_offset == j * grid0,
                chunk_levels@.len() == i * chunks,
                forall|c: int| 0 <= c < chunk_levels@.len() ==> (#[trigger] chunk_levels@[c]) == 0,
                detail@.len() == i * per_tile,
                forall|g: int| 0 <= g < detail@.len() ==> (#[trigger] detail@[g]) is None,
                forall|row: int, col: int|
                    0 <= row < rows && 0 <= col < cols ==> opt_int(
                        #[trigger] slots@[cell_index(row, col, cols as int)],
                    ) == last_index(tile_keys@.take(i as int), min_lat + row, min_lon + col),
            decreases n - i,
        {
            let key = tile_keys[i];
            let row = key.0 - min_lat;
            let col = key.1 - min_lon;
            proof {
                assert(tile_keys@.take(i + 1).drop_last() =~= tile_keys@.take(i as int));
            }
            if row >= 0 && row < rows && col >= 0 && col < cols {
                proof {
                    lemma_cell_index_bound(row as int, col as int, rows as int, cols as int);
                }
                let idx = (row * cols + col) as usize;
                slots.set(idx, Some(i));
                proof {
                    assert forall|r2: int, c2: int| 0 <= r2 < rows && 0 <= c2 < cols implies opt_int(
                        #[trigger] slots@[cell_index(r2, c2, cols as int)],
                    ) == last_index(tile_keys@.take(i + 1), min_lat + r2, min_lon + c2) by {
                        lemma_cell_index_bound(r2, c2, rows as int, cols as int);
                        if cell_index(r2, c2, cols as int) == idx {
                            lemma_cell_index_unique(r2, c2, row as int, col as int, cols as int);
                        } else {
                            if min_lat + r2 == key.0 && min_lon + c2 == key.1 {
                                assert(r2 == row && c2 == col);
                            }
                        }
                    }
                }
            } else {
                proof {
                    assert forall|r2: int, c2: int| 0 <= r2 < rows && 0 <= c2 < cols implies opt_int(
                        #[trigger] slots@[cell_index(r2, c2, cols as int)],
                    ) == last_index(tile_keys@.take(i + 1), min_lat + r2, min_lon + c2) by {
                        assert(!(min_lat + r2 == key.0 && min_lon + c2 == key.1));
                    }
                }
            }
            proof {
                assert(i * grid0 <= n * grid0) by (nonlinear_arith)
                    requires
                        i < n,
                ;
                assert(i * chunks + chunks == (i + 1) * chunks) by (nonlinear_arith);
                assert(i * per_tile + per_tile == (i + 1) * per_tile) by (nonlinear_arith);
                assert((i + 1) * chunks <= n * chunks) by (nonlinear_arith)
                    requires
                        i < n,
                ;
                assert((i + 1) * per_tile <= n * per_tile) by (nonlinear_arith)
                    requires
                        i < n,
                ;
            }
            tiles.push(TileEntry { key, base_offset: i * grid0 });
            let mut c: usize = 0;
            while c < chunks
                invariant
                    c <= chunks,
                    chunk_levels@.len() == i * chunks + c,
                    forall|x: int| 0 <= x < chunk_levels@.len() ==> (#[trigger] chunk_levels@[x]) == 0,
                    (i + 1) * chunks <= usize::MAX,
                    i * chunks + chunks == (i + 1) * chunks,
                decreases chunks - c,
            {
                chunk_levels.push(0);
                c = c + 1;
            }
            let mut d: usize = 0;
            while d < per_tile
                invariant
                    d <= per_tile,
                    detail@.len() == i * per_tile + d,
                    forall|x: int| 0 <= x < detail@.len() ==> (#[trigger] detail@[x]) is None,
                    (i + 1) * per_tile <= usize::MAX,
                    i * per_tile + per_tile == (i + 1) * per_tile,
                decreases per_tile - d,
            {
                detail.push(None);
                d = d + 1;
            }
            i = i + 1;
        }
        proof {
            assert(tile_keys@.take(n as int) =~= tile_keys@);
        }
        let r = TerrainData {
            base_url,
            tile_levels,
            chunks_per_tile,
            min_lat,
            min_lon,
            rows,
            cols,
            base,
            tiles,
            slots,
            chunk_levels,
            detail,
            stamp: 0,
            cached_bytes: 0,
        };
        proof {
            assert(r.dpt() == per_tile);
            assert(r.cc() == chunks);
            assert forall|key: TileKey| #[trigger]
                r.tile_index(key) == if in_bounds(key, min_lat, min_lon, rows, cols) {
                    last_index(tile_keys@, key.0 as int, key.1 as int)
                } else {
                    None
                } by {
                let row = key.0 - min_lat;
                let col = key.1 - min_lon;
                if row >= 0 && col >= 0 && col < cols && cell_index(row, col, cols as int)
                    < r.slots@.len() {
                    lemma_row_below(row, col, rows as int, cols as int);
                } else if in_bounds(key, min_lat, min_lon, rows, cols) {
                    lemma_cell_index_bound(row, col, rows as int, cols as int);
                }
            }
            assert forall|s: int|
                0 <= s < r.slots@.len() && (#[trigger] r.slots@[s]) is Some implies r.slots@[s]->0
                    < r.tiles@.len() by {
                let cl = cols as int;
                let row = s / cl;
                let col = s % cl;
                vstd::arithmetic::div_mod::lemma_fundamental_div_mod(s, cl);
                assert(s == cell_index(row, col, cl)) by (nonlinear_arith)
                    requires
                        s == cl * (s / cl) + s % cl,
                        row == s / cl,
                        col == s % cl,
                ;
                assert(0 <= col < cols);
                assert(row >= 0) by (nonlinear_arith)
                    requires
                        s >= 0,
                        cl > 0,
                        row == s / cl,
                ;
                lemma_row_below(row, col, rows as int, cols as int);
                lemma_last_index_bound(tile_keys@, min_lat + row, min_lon + col);
            }
            assert forall|row: int, col: int|
                0 <= row && 0 <= col < r.cols && cell_index(row, col, r.cols as int)
                    < r.slots@.len() && (#[trigger] r.slots@[cell_index(
                    row,
                    col,
                    r.cols as int,
                )]) is Some implies r.tiles@[r.slots@[cell_index(
                row,
                col,
                r.cols as int,
            )]->0 as int].key.0 == r.min_lat + row && r.tiles@[r.slots@[cell_index(
                row,
                col,
                r.cols as int,
            )]->0 as int].key.1 == r.min_lon + col by {
                lemma_row_below(row, col, rows as int, cols as int);
                lemma_last_index_bound(tile_keys@, min_lat + row, min_lon + col);
            }
            lemma_table_bytes_zero(r.detail@);
            assert forall|key: TileKey, l: int, c: int| #[trigger] r.cached(key, l, c) is None by {
                r.lemma_tile_index(key);
                if r.tile_index(key) is Some && 1 <= l < r.nl() && 0 <= c < r.cc() {
                    r.lemma_entry_index(r.tile_index(key)->0, l, c);
                }
            }
            assert forall|key: TileKey, c: int| #[trigger] r.shown_level(key, c) == 0 by {
                r.lemma_tile_index(key);
                if r.tile_index(key) is Some && 0 <= c < r.cc() {
                    let t = r.tile_index(key)->0;
                    let cc = r.cc();
                    assert(t * cc + c < n * cc) by (nonlinear_arith)
                        requires
                            0 <= t < n,
                            0 <= c < cc,
                    ;
                }
            }
        }
        r
    }

    /// Every key inside the data bounds can be looked up by key.
    pub proof fn lemma_key_fits(&self, key: TileKey)
        requires
            self.wf(),
            in_bounds(key, self.bounds().0, self.bounds().1, self.bounds().2, self.bounds().3),
        ensures
            self.key_fits(key),
    {
        let row = key.0 - self.min_lat;
        let col = key.1 - self.min_lon;
        lemma_cell_index_bound(row, col, self.rows as int, self.cols as int);
    }
}


impl TerrainData {
    /// The finest level in `1..=top` at which chunk `chunk` of `key` has a cached grid, or 0.
    pub open spec fn best_level(&self, key: TileKey, chunk: int, top: int) -> int
        decreases top,
    {
        if top < 1 {
            0
        } else if self.cached(key, top, chunk) is Some {
            top
        } else {
            self.best_level(key, chunk, top - 1)
        }
    }

    /// The level definition as the sizes read it: `cells(l)` is entry `l` of the definition, and
    /// `k` the chunk split.
    pub proof fn lemma_levels(&self)
        ensures
            self.nl() == self.level_seq().len(),
            self.k() == self.split(),
            forall|l: int| 0 <= l < self.nl() ==> #[trigger] self.cells(l) == self.level_seq()[l],
    {
    }

    /// The level that `best_level` picks is cached (or 0), and no finer level up to `top` is.
    pub proof fn lemma_best_level(&self, key: TileKey, chunk: int, top: int)
        ensures
            self.best_level(key, chunk, top) == 0 || (1 <= self.best_level(key, chunk, top) <= top
                && self.cached(key, self.best_level(key, chunk, top), chunk) is Some),
            forall|l: int|
                self.best_level(key, chunk, top) < l <= top ==> #[trigger] self.cached(key, l, chunk)
                    is None,
        decreases top,
    {
        if top >= 1 && self.cached(key, top, chunk) is None {
            self.lemma_best_level(key, chunk, top - 1);
        }
    }

    /// The entry of (`t`, `level`, `chunk`) lies in the table and determines all three back.
    proof fn lemma_entry_index(&self, t: int, level: int, chunk: int)
        requires
            self.wf(),
            0 <= t < self.tiles@.len(),
            1 <= level < self.nl(),
            0 <= chunk < self.cc(),
        ensures
            0 <= self.entry_index(t, level, chunk) < self.detail@.len(),
            self.entry_tile(self.entry_index(t, level, chunk)) == t,
            self.entry_level(self.entry_index(t, level, chunk)) == level,
            self.entry_chunk(self.entry_index(t, level, chunk)) == chunk,
    {
        let k = self.k();
        let cc = self.cc();
        let dpt = self.dpt();
        let nl = self.nl();
        let n = self.tiles@.len() as int;
        let r = (level - 1) * cc + chunk;
        assert(0 <= r < dpt) by (nonlinear_arith)
            requires
                1 <= level < nl,
                0 <= chunk < cc,
                dpt == (nl - 1) * cc,
                r == (level - 1) * cc + chunk,
        ;
        let x = t * dpt + r;
        vstd::arithmetic::div_mod::lemma_fundamental_div_mod_converse(x, dpt, t, r);
        vstd::arithmetic::div_mod::lemma_fundamental_div_mod_converse(r, cc, level - 1, chunk);
        assert(0 <= x < n * dpt) by (nonlinear_arith)
            requires
                0 <= t < n,
                0 <= r < dpt,
                x == t * dpt + r,
        ;
    }

    /// Counts that the code computes fit in `usize`, whatever the chunk split.
    pub proof fn lemma_counts(&self)
        requires
            self.wf(),
        ensures
            self.nl() >= 1,
            self.cc() >= 0,
            self.dpt() >= 0,
            self.cc() <= self.cc() * self.nl() <= usize::MAX,
            self.dpt() <= self.cc() * self.nl(),
            grid_nodes(self.cells(0)) <= usize::MAX,
    {
        let k = self.k();
        let cc = self.cc();
        let nl = self.nl();
        assert(self.tile_levels@[0] as int == self.cells(0));
        assert(cc >= 0) by (nonlinear_arith)
            requires
                cc == k * k,
        ;
        assert(cc <= cc * nl) by (nonlinear_arith)
            requires
                cc >= 0,
                nl >= 1,
        ;
        assert((nl - 1) * cc <= cc * nl) by (nonlinear_arith)
            requires
                cc >= 0,
                nl >= 1,
        ;
        assert((nl - 1) * cc >= 0) by (nonlinear_arith)
            requires
                cc >= 0,
                nl >= 1,
        ;
        assert(cc * nl == k * k * nl) by (nonlinear_arith)
            requires
                cc == k * k,
        ;
    }

    /// Sizes at `level` that the code computes fit in `usize`, for a non-zero chunk split.
    pub proof fn lemma_sizes(&self, level: int)
        requires
            self.wf(),
            0 <= level < self.nl(),
            self.k() >= 1,
        ensures
            self.cc() >= 1,
            self.nl() >= 2 ==> self.dpt() >= self.cc(),
            self.cc() * self.nl() <= usize::MAX,
            0 <= self.chunk_cells_spec(level) <= self.cells(level),
            2 * grid_nodes(self.cells(level)) <= usize::MAX,
            2 * grid_nodes(self.chunk_cells_spec(level)) <= usize::MAX,
            2 * self.cc() * grid_nodes(self.chunk_cells_spec(level)) <= usize::MAX,
    {
        let k = self.k();
        let cc = self.cc();
        let nl = self.nl();
        let dpt = self.dpt();
        let cells = self.cells(level);
        assert(self.tile_levels@[level] as int == cells);
        let g = grid_nodes(cells);
        assert(2 * k * k * g <= usize::MAX);
        assert(cc >= 1) by (nonlinear_arith)
            requires
                k >= 1,
                cc == k * k,
        ;
        assert(nl >= 2 ==> dpt >= cc) by (nonlinear_arith)
            requires
                cc >= 1,
                dpt == (nl - 1) * cc,
        ;
        let cs = cells / k;
        assert(0 <= cs <= cells) by (nonlinear_arith)
            requires
                k >= 1,
                cells >= 0,
                cs == cells / k,
        ;
        let gc = grid_nodes(cs);
        assert(gc <= g) by (nonlinear_arith)
            requires
                0 <= cs <= cells,
                gc == (cs + 1) * (cs + 1),
                g == (cells + 1) * (cells + 1),
        ;
        assert(2 * (k * k) * g == 2 * k * k * g) by (nonlinear_arith);
        assert(2 * cc * gc <= 2 * cc * g) by (nonlinear_arith)
            requires
                gc <= g,
                cc >= 1,
        ;
        assert(2 * gc <= 2 * cc * gc) by (nonlinear_arith)
            requires
                cc >= 1,
                gc >= 0,
        ;
        assert(2 * g <= 2 * cc * g) by (nonlinear_arith)
            requires
                cc >= 1,
                g >= 0,
        ;
    }

    /// The total that `cached_bytes` reports is the memory of the grids in the table.
    pub proof fn lemma_cached_total(&self)
        requires
            self.wf(),
        ensures
            self.cached_total() == table_bytes(self.table()),
    {
    }

    /// Whether a lookup of `key` stays within `i32` (the condition of the lookups by key).
    pub fn key_in_range(&self, key: TileKey) -> (b: bool)
        ensures
            b == self.key_fits(key),
    {
        let row = key.0 as i64 - self.min_lat as i64;
        let col = key.1 as i64 - self.min_lon as i64;
        if row < i32::MIN as i64 || row > i32::MAX as i64 || col < i32::MIN as i64 || col
            > i32::MAX as i64 {
            return false;
        }
        if row >= 0 && col >= 0 && col < self.cols as i64 {
            proof {
                assert(row * (self.cols as int) <= 0x4000_0000_0000_0000) by (nonlinear_arith)
                    requires
                        0 <= row <= 0x8000_0000,
                        0 <= self.cols <= 0x8000_0000,
                ;
                assert(row * (self.cols as int) >= 0) by (nonlinear_arith)
                    requires
                        0 <= row,
                        0 <= self.cols,
                ;
            }
            return row * (self.cols as i64) + col <= i32::MAX as i64;
        }
        true
    }

    /// The tiles that have data, in the order of the tile list.
    pub fn tiles(&self) -> (r: &[TileEntry])
        ensures
            r@ == self.tile_seq(),
    {
        self.tiles.as_slice()
    }

    /// The index of the tile of `key` (bounds checked like the slots table).
    fn lookup(&self, key: TileKey) -> (r: Option<usize>)
        requires
            self.wf(),
            self.key_fits(key),
        ensures
            opt_int(r) == self.tile_index(key),
            r matches Some(i) ==> i < self.tiles@.len() && self.tiles@[i as int].key == key,
    {
        let row = key.0 - self.min_lat;
        let col = key.1 - self.min_lon;
        if row < 0 || col < 0 || col >= self.cols {
            return None;
        }
        let idx = row * self.cols + col;
        if idx as usize >= self.slots.len() {
            return None;
        }
        let r = self.slots[idx as usize];
        proof {
            if r is Some {
                assert(self.slots@[cell_index(row as int, col as int, self.cols as int)] is Some);
            }
        }
        r
    }

    /// The tile whose south-west corner is `key`; `None` outside the data bounds and where the
    /// square has no tile (sea only).
    pub fn tile(&self, key: TileKey) -> (r: Option<&TileEntry>)
        requires
            self.wf(),
            self.key_fits(key),
        ensures
            r is Some == self.tile_index(key) is Some,
            r matches Some(t) ==> *t == self.tile_seq()[self.tile_index(key)->0] && t.key_spec() == key,
    {
        match self.lookup(key) {
            Some(i) => Some(&self.tiles[i]),
            None => None,
        }
    }

    /// Number of levels, level 0 included.
    pub fn num_levels(&self) -> (n: usize)
        requires
            self.wf(),
        ensures
            n == self.nl(),
            n >= 1,
    {
        self.tile_levels.len()
    }

    /// The finest level.
    pub fn max_level(&self) -> (n: usize)
        requires
            self.wf(),
        ensures
            n == self.nl() - 1,
    {
        self.tile_levels.len() - 1
    }

    /// Chunks along one side of a tile.
    pub fn chunks_per_tile(&self) -> (n: usize)
        ensures
            n == self.k(),
    {
        self.chunks_per_tile as usize
    }

    /// Chunks per tile.
    pub fn chunk_count(&self) -> (n: usize)
        requires
            self.wf(),
        ensures
            n == self.cc(),
    {
        proof {
            self.lemma_counts();
        }
        let k = self.chunks_per_tile as usize;
        k * k
    }

    /// Cells along one side of a tile at `level`.
    pub fn level_cells(&self, level: usize) -> (n: usize)
        requires
            self.wf(),
            level < self.nl(),
        ensures
            n == self.cells(level as int),
    {
        self.tile_levels[level] as usize
    }

    /// Cells along one side of a chunk at `level` (the chunk grid has one node more per side).
    pub fn chunk_cells(&self, level: usize) -> (n: usize)
        requires
            self.wf(),
            level < self.nl(),
            self.k() > 0,
        ensures
            n == self.chunk_cells_spec(level as int),
    {
        (self.tile_levels[level] / self.chunks_per_tile) as usize
    }

    /// The level-0 grid of the tile of `key`, `None` where there is no tile.
    pub fn whole_grid(&self, key: TileKey) -> (r: Option<&[i16]>)
        requires
            self.wf(),
            self.key_fits(key),
        ensures
            match self.tile_index(key) {
                Some(t) => r matches Some(s) && s@ == self.base_grid(t),
                None => r is None,
            },
    {
        match self.lookup(key) {
            None => None,
            Some(i) => {
                proof {
                    self.lemma_counts();
                }
                let n = grid_len(self.tile_levels[0] as usize);
                let off = self.tiles[i].base_offset;
                let _ = self.base.len();
                proof {
                    let tl = self.tiles@.len() as int;
                    assert(off + n <= self.base@.len()) by (nonlinear_arith)
                        requires
                            off == i * n,
                            i < tl,
                            self.base@.len() == tl * n,
                    ;
                }
                Some(vstd::slice::slice_subrange(self.base.as_slice(), off, off + n))
            }
        }
    }

    /// The table entry of tile `t` at (`level`, `chunk`); `None` for level 0 (the whole tile
    /// has no chunks) and for a level or chunk out of range.
    fn entry_of(&self, t: usize, level: usize, chunk: usize) -> (r: Option<usize>)
        requires
            self.wf(),
            t < self.tiles@.len(),
        ensures
            match r {
                Some(g) => 1 <= level < self.nl() && chunk < self.cc() && g == self.entry_index(
                    t as int,
                    level as int,
                    chunk as int,
                ),
                None => !(1 <= level < self.nl() && chunk < self.cc()),
            },
            r matches Some(g) ==> g < self.detail@.len(),
    {
        let cc = self.chunk_count();
        if level < 1 || level >= self.tile_levels.len() || chunk >= cc {
            return None;
        }
        proof {
            self.lemma_counts();
            self.lemma_entry_index(t as int, level as int, chunk as int);
            let nl = self.nl();
            assert((nl - 1) * cc <= cc * nl) by (nonlinear_arith)
                requires
                    nl >= 1,
                    cc >= 0,
            ;
            assert(t * self.dpt() <= self.entry_index(t as int, level as int, chunk as int));
            assert((level - 1) * cc <= self.dpt()) by (nonlinear_arith)
                requires
                    1 <= level < nl,
                    cc >= 0,
                    self.dpt() == (nl - 1) * cc,
            ;
        }
        let dpt = (self.tile_levels.len() - 1) * cc;
        Some(t * dpt + (level - 1) * cc + chunk)
    }

    /// The level that chunk `chunk` of `key` shows (0 where there is no such tile or chunk).
    pub fn chunk_level(&self, key: TileKey, chunk: usize) -> (l: usize)
        requires
            self.wf(),
            self.key_fits(key),
        ensures
            l == self.shown_level(key, chunk as int),
    {
        match self.lookup(key) {
            None => 0,
            Some(t) => {
                let cc = self.chunk_count();
                if chunk >= cc {
                    0
                } else {
                    proof {
                        let n = self.tiles@.len() as int;
                        assert(t * cc + chunk < n * cc) by (nonlinear_arith)
                            requires
                                t < n,
                                chunk < cc,
                        ;
                    }
                    self.chunk_levels[t * cc + chunk] as usize
                }
            }
        }
    }

    /// Whether the grid of (`key`, `level`, `chunk`) is cached. Unlike `chunk_grid`, this does
    /// not count as a use.
    pub fn has_chunk_grid(&self, key: TileKey, level: usize, chunk: usize) -> (b: bool)
        requires
            self.wf(),
            self.key_fits(key),
        ensures
            b == self.cached(key, level as int, chunk as int) is Some,
    {
        match self.lookup(key) {
            None => false,
            Some(t) => match self.entry_of(t, level, chunk) {
                None => false,
                Some(g) => self.detail[g].is_some(),
            },
        }
    }

    /// The values of the grid of (`key`, `level`, `chunk`) if cached, without counting a use.
    pub fn peek_chunk_grid(&self, key: TileKey, level: usize, chunk: usize) -> (r: Option<&[i16]>)
        requires
            self.wf(),
            self.key_fits(key),
        ensures
            match self.cached(key, level as int, chunk as int) {
                Some(c) => r matches Some(s) && s@ == c.values(),
                None => r is None,
            },
    {
        match self.lookup(key) {
            None => None,
            Some(t) => match self.entry_of(t, level, chunk) {
                None => None,
                Some(g) => match &self.detail[g] {
                    Some(c) => Some(c.data.as_slice()),
                    None => None,
                },
            },
        }
    }

    /// The grid that a height query in chunk `chunk` of `key` reads, with its level: the grid of
    /// the level that the chunk shows when that grid is cached, else the level-0 grid of the
    /// tile (so heights match what is drawn). `None` where there is no tile.
    pub fn height_grid(&self, key: TileKey, chunk: usize) -> (r: Option<(usize, &[i16])>)
        requires
            self.wf(),
            self.key_fits(key),
        ensures
            match self.tile_index(key) {
                None => r is None,
                Some(t) => {
                    let l = self.shown_level(key, chunk as int);
                    if l > 0 && self.cached(key, l, chunk as int) is Some {
                        r matches Some(x) && x.0 == l && x.1@ == self.cached(
                            key,
                            l,
                            chunk as int,
                        )->0.values()
                    } else {
                        r matches Some(x) && x.0 == 0 && x.1@ == self.base_grid(t)
                    }
                },
            },
    {
        let level = self.chunk_level(key, chunk);
        if level > 0 {
            match self.peek_chunk_grid(key, level, chunk) {
                Some(g) => {
                    return Some((level, g));
                },
                None => {},
            }
        }
        match self.whole_grid(key) {
            Some(g) => Some((0, g)),
            None => None,
        }
    }

    /// The finest level, at most `max_level`, at which chunk `chunk` of `key` has a cached grid;
    /// 0 if there is none.
    pub fn best_cached_level(&self, key: TileKey, chunk: usize, max_level: usize) -> (r: usize)
        requires
            self.wf(),
            self.key_fits(key),
        ensures
            r == self.best_level(
                key,
                chunk as int,
                if max_level < self.nl() - 1 {
                    max_level as int
                } else {
                    self.nl() - 1
                },
            ),
    {
        let top = if max_level < self.tile_levels.len() - 1 {
            max_level
        } else {
            self.tile_levels.len() - 1
        };
        let mut level = top;
        while level >= 1
            invariant
                self.wf(),
                self.key_fits(key),
                level <= top,
                top == (if max_level < self.nl() - 1 {
                    max_level as int
                } else {
                    self.nl() - 1
                }),
                self.best_level(key, chunk as int, top as int) == self.best_level(
                    key,
                    chunk as int,
                    level as int,
                ),
            decreases level,
        {
            if self.has_chunk_grid(key, level, chunk) {
                return level;
            }
            level = level - 1;
        }
        0
    }

    /// The use counter (the stamp of the grid used last).
    pub fn stamp(&self) -> (s: u64)
        ensures
            s == self.stamp_value(),
    {
        self.stamp
    }

    /// Memory held by the cached finer grids, in bytes.
    pub fn cached_bytes(&self) -> (n: usize)
        ensures
            n == self.cached_total(),
    {
        self.cached_bytes
    }
}


/// `Rc::clone`: a second handle on the same grid values.
#[verifier::external_body]
fn clone_grid(data: &Rc<Vec<i16>>) -> (r: Rc<Vec<i16>>)
    ensures
        r@ == data@,
{
    Rc::clone(data)
}

impl TerrainData {
    /// `self` and `other` agree on everything but the cached grids, the use counter and the
    /// shown levels: level definition, bounds, tiles and their level-0 grids.
    pub closed spec fn same_layout(&self, other: Self) -> bool {
        &&& self.base_url == other.base_url
        &&& self.tile_levels@ == other.tile_levels@
        &&& self.chunks_per_tile == other.chunks_per_tile
        &&& self.min_lat == other.min_lat
        &&& self.min_lon == other.min_lon
        &&& self.rows == other.rows
        &&& self.cols == other.cols
        &&& self.base@ == other.base@
        &&& self.tiles@ == other.tiles@
        &&& self.slots@ == other.slots@
    }

    /// `self` and `other` hold the same cached grids, with the same stamps.
    pub closed spec fn same_cache(&self, other: Self) -> bool {
        &&& self.detail@ == other.detail@
        &&& self.stamp == other.stamp
        &&& self.cached_bytes == other.cached_bytes
    }

    /// What `same_layout` and `same_cache` keep.
    pub proof fn lemma_same_layout(&self, other: Self)
        requires
            self.same_layout(other),
        ensures
            self.nl() == other.nl(),
            self.k() == other.k(),
            self.url() == other.url(),
            self.level_seq() == other.level_seq(),
            self.split() == other.split(),
            self.tile_seq() == other.tile_seq(),
            forall|l: int| #[trigger] self.cells(l) == other.cells(l),
            forall|t: int| #[trigger] self.base_grid(t) == other.base_grid(t),
            forall|key: TileKey| #[trigger] self.tile_index(key) == other.tile_index(key),
            forall|key: TileKey| #[trigger] self.key_fits(key) == other.key_fits(key),
            self.shown() == other.shown() && self.same_cache(other) ==> forall|
                key: TileKey,
                l: int,
                c: int,
            |
                #[trigger] self.cached(key, l, c) == other.cached(key, l, c) && self.shown_level(
                    key,
                    c,
                ) == other.shown_level(key, c),
    {
    }

    /// A tile found by key is in the tile list and has that key.
    pub proof fn lemma_tile_index(&self, key: TileKey)
        requires
            self.wf(),
        ensures
            self.tile_index(key) matches Some(t) ==> 0 <= t < self.tile_seq().len()
                && self.tile_seq()[t].key_spec() == key,
    {
        let row = key.0 - self.min_lat;
        let col = key.1 - self.min_lon;
        if self.tile_index(key) is Some {
            assert(self.slots@[cell_index(row, col, self.cols as int)] is Some);
        }
    }

    /// After the table entry of (`key`, `level`, `chunk`) is replaced, every other grid is as
    /// before.
    proof fn lemma_others_unchanged(
        &self,
        old: Self,
        key: TileKey,
        level: int,
        chunk: int,
        x: Option<CachedGrid>,
    )
        requires
            old.wf(),
            self.same_layout(old),
            old.tile_index(key) is Some,
            1 <= level < old.nl(),
            0 <= chunk < old.cc(),
            self.detail@ == old.detail@.update(
                old.entry_index(old.tile_index(key)->0, level, chunk),
                x,
            ),
        ensures
            self.cached(key, level, chunk) == x,
            forall|k2: TileKey, l: int, c: int|
                !(old.tile_index(k2) == old.tile_index(key) && l == level && c == chunk)
                    ==> #[trigger] self.cached(k2, l, c) == old.cached(k2, l, c),
    {
        self.lemma_same_layout(old);
        let t = old.tile_index(key)->0;
        old.lemma_tile_index(key);
        old.lemma_entry_index(t, level, chunk);
        assert forall|k2: TileKey, l: int, c: int|
            !(old.tile_index(k2) == old.tile_index(key) && l == level && c == chunk)
                implies #[trigger] self.cached(k2, l, c) == old.cached(k2, l, c) by {
            if old.tile_index(k2) is Some && 1 <= l < old.nl() && 0 <= c < old.cc() {
                let t2 = old.tile_index(k2)->0;
                old.lemma_tile_index(k2);
                old.lemma_entry_index(t2, l, c);
            }
        }
    }

    /// The grid of (`key`, `level`, `chunk`) if cached, counting a use: the grid gets the next
    /// stamp, which puts it last in the order of eviction.
    pub fn chunk_grid(&mut self, key: TileKey, level: usize, chunk: usize) -> (r: Option<
        Rc<Vec<i16>>,
    >)
        requires
            old(self).wf(),
            old(self).key_fits(key),
            old(self).stamp_value() < u64::MAX,
        ensures
            final(self).wf(),
            match old(self).cached(key, level as int, chunk as int) {
                Some(c) => {
                    &&& r matches Some(d) && d@ == c.values()
                    &&& final(self).same_layout(*old(self))
                    &&& final(self).shown() == old(self).shown()
                    &&& final(self).cached_total() == old(self).cached_total()
                    &&& final(self).stamp_value() == old(self).stamp_value() + 1
                    &&& final(self).cached(key, level as int, chunk as int) matches Some(n)
                        && n.values() == c.values() && n.stamp() == final(self).stamp_value()
                    &&& forall|k2: TileKey, l: int, c2: int|
                        !(old(self).tile_index(k2) == old(self).tile_index(key) && l == level
                            && c2 == chunk) ==> #[trigger] final(self).cached(k2, l, c2) == old(self).cached(k2, l, c2)
                },
                None => r is None && *final(self) == *old(self),
            },
    {
        let t = match self.lookup(key) {
            None => return None,
            Some(t) => t,
        };
        let g = match self.entry_of(t, level, chunk) {
            None => return None,
            Some(g) => g,
        };
        if self.detail[g].is_none() {
            return None;
        }
        let ghost pre = *self;
        proof {
            pre.lemma_entry_index(t as int, level as int, chunk as int);
            lemma_table_bytes_update(pre.detail@, g as int, pre.detail@[g as int]);
        }
        let stamp = self.stamp + 1;
        self.stamp = stamp;
        let mut slot: Option<CachedGrid> = None;
        self.detail.set_and_swap(g, &mut slot);
        let grid = match slot {
            Some(grid) => grid,
            None => {
                proof {
                    assert(false);
                }
                return None;
            },
        };
        let data = clone_grid(&grid.data);
        let ghost old_grid = grid;
        let kept = CachedGrid { data: grid.data, last_used: stamp };
        self.detail.set(g, Some(kept));
        proof {
            let x = Some(kept);
            assert(self.detail@ == pre.detail@.update(g as int, x));
            lemma_table_bytes_update(pre.detail@, g as int, x);
            self.lemma_others_unchanged(pre, key, level as int, chunk as int, x);
            assert forall|h: int|
                0 <= h < self.detail@.len() && (#[trigger] self.detail@[h]) is Some implies {
                &&& self.detail@[h]->0.values().len() == grid_nodes(
                    self.chunk_cells_spec(self.entry_level(h)),
                )
                &&& self.detail@[h]->0.stamp() <= self.stamp
            } by {
                if h != g {
                    assert(pre.detail@[h] is Some);
                }
            }
        }
        Some(data)
    }

    /// Stores a fetched chunk grid of a finer level. Nothing happens when the tile does not
    /// exist, the level is 0 or out of range, the chunk is out of range, or the length is not
    /// `(chunk_cells(level) + 1)^2` (so that later reads stay in range). Storing over a cached
    /// grid replaces it and leaves the total unchanged (both have the same length).
    pub fn insert_chunk_grid(&mut self, key: TileKey, level: usize, chunk: usize, data: Vec<i16>)
        requires
            old(self).wf(),
            old(self).key_fits(key),
            old(self).stamp_value() < u64::MAX,
            old(self).cached_total() + 2 * data@.len() <= usize::MAX,
        ensures
            final(self).wf(),
            if old(self).accepts(key, level as int, chunk as int, data@.len() as int) {
                &&& final(self).same_layout(*old(self))
                &&& final(self).shown() == old(self).shown()
                &&& final(self).stamp_value() == old(self).stamp_value() + 1
                &&& final(self).cached(key, level as int, chunk as int) matches Some(n)
                    && n.values() == data@ && n.stamp() == final(self).stamp_value()
                &&& final(self).cached_total() == old(self).cached_total() + if old(self).cached(
                    key,
                    level as int,
                    chunk as int,
                ) is None {
                    2 * data@.len()
                } else {
                    0
                }
                &&& forall|k2: TileKey, l: int, c2: int|
                    !(old(self).tile_index(k2) == old(self).tile_index(key) && l == level && c2
                        == chunk) ==> #[trigger] final(self).cached(k2, l, c2) == old(self).cached(
                        k2,
                        l,
                        c2,
                    )
            } else {
                *final(self) == *old(self)
            },
    {
        let t = match self.lookup(key) {
            None => return ,
            Some(t) => t,
        };
        let g = match self.entry_of(t, level, chunk) {
            None => return ,
            Some(g) => g,
        };
        proof {
            let k = self.k();
            assert(k >= 1) by (nonlinear_arith)
                requires
                    chunk < k * k,
                    k >= 0,
            ;
            self.lemma_sizes(level as int);
        }
        if data.len() != grid_len(self.chunk_cells(level)) {
            return ;
        }
        let ghost pre = *self;
        proof {
            pre.lemma_entry_index(t as int, level as int, chunk as int);
        }
        let stamp = self.stamp + 1;
        self.stamp = stamp;
        let bytes = data.len() * 2;
        let was_empty = self.detail[g].is_none();
        let grid = CachedGrid { data: Rc::new(data), last_used: stamp };
        self.detail.set(g, Some(grid));
        if was_empty {
            self.cached_bytes = self.cached_bytes + bytes;
        }
        proof {
            let x = Some(grid);
            lemma_table_bytes_update(pre.detail@, g as int, x);
            self.lemma_others_unchanged(pre, key, level as int, chunk as int, x);
            assert forall|h: int|
                0 <= h < self.detail@.len() && (#[trigger] self.detail@[h]) is Some implies {
                &&& self.detail@[h]->0.values().len() == grid_nodes(
                    self.chunk_cells_spec(self.entry_level(h)),
                )
                &&& self.detail@[h]->0.stamp() <= self.stamp
            } by {
                if h != g {
                    assert(pre.detail@[h] is Some);
                }
            }
        }
    }

    /// Whether `insert_chunk_grid` stores a grid of length `len` at (`key`, `level`, `chunk`).
    pub open spec fn accepts(&self, key: TileKey, level: int, chunk: int, len: int) -> bool {
        &&& self.tile_index(key) is Some
        &&& 1 <= level < self.nl()
        &&& 0 <= chunk < self.cc()
        &&& len == grid_nodes(self.chunk_cells_spec(level))
    }

    /// Records the level that chunk `chunk` of `key` shows (heights are then read at that level).
    /// The level is stored as a byte, so it is kept modulo 256. Nothing happens where there is no
    /// such tile or chunk.
    pub fn set_chunk_level(&mut self, key: TileKey, chunk: usize, level: usize)
        requires
            old(self).wf(),
            old(self).key_fits(key),
        ensures
            final(self).wf(),
            final(self).same_layout(*old(self)),
            final(self).same_cache(*old(self)),
            forall|k2: TileKey, c: int| #[trigger]
                final(self).shown_level(k2, c) == if old(self).tile_index(key) is Some
                    && old(self).tile_index(k2) == old(self).tile_index(key) && c == chunk
                    && chunk < old(self).cc() {
                    level as int % 256
                } else {
                    old(self).shown_level(k2, c)
                },
    {
        let t = match self.lookup(key) {
            None => return ,
            Some(t) => t,
        };
        let cc = self.chunk_count();
        if chunk >= cc {
            return ;
        }
        let ghost pre = *self;
        proof {
            let n = self.tiles@.len() as int;
            assert(t * cc + chunk < n * cc) by (nonlinear_arith)
                requires
                    t < n,
                    chunk < cc,
            ;
        }
        self.chunk_levels.set(t * cc + chunk, (level % 256) as u8);
        proof {
            pre.lemma_tile_index(key);
            assert forall|k2: TileKey, c: int| #[trigger]
                self.shown_level(k2, c) == if pre.tile_index(key) is Some && pre.tile_index(k2)
                    == pre.tile_index(key) && c == chunk && chunk < pre.cc() {
                    level as int % 256
                } else {
                    pre.shown_level(k2, c)
                } by {
                pre.lemma_tile_index(k2);
                if pre.tile_index(k2) is Some && 0 <= c < cc {
                    let t2 = pre.tile_index(k2)->0;
                    let n = self.tiles@.len() as int;
                    assert(t2 * cc + c < n * cc) by (nonlinear_arith)
                        requires
                            0 <= t2 < n,
                            0 <= c < cc,
                    ;
                    if t2 * cc + c == t * cc + chunk {
                        lemma_cell_index_unique(t2, c, t as int, chunk as int, cc as int);
                    }
                }
            }
        }
    }

    /// Shows the whole tile of `key` at level 0 again: every chunk's level becomes 0. Nothing
    /// happens where there is no tile.
    pub fn set_whole_tile(&mut self, key: TileKey)
        requires
            old(self).wf(),
            old(self).key_fits(key),
        ensures
            final(self).wf(),
            final(self).same_layout(*old(self)),
            final(self).same_cache(*old(self)),
            forall|k2: TileKey, c: int| #[trigger]
                final(self).shown_level(k2, c) == if old(self).tile_index(key) is Some
                    && old(self).tile_index(k2) == old(self).tile_index(key) {
                    0
                } else {
                    old(self).shown_level(k2, c)
                },
    {
        let t = match self.lookup(key) {
            None => return ,
            Some(t) => t,
        };
        let cc = self.chunk_count();
        let ghost pre = *self;
        proof {
            pre.lemma_tile_index(key);
        }
        let mut c: usize = 0;
        while c < cc
            invariant
                pre.wf(),
                self.wf(),
                self.same_layout(pre),
                self.same_cache(pre),
                cc == pre.cc(),
                c <= cc,
                t < pre.tiles@.len(),
                pre.tile_index(key) == Some(t as int),
                forall|k2: TileKey, c2: int| #[trigger]
                    self.shown_level(k2, c2) == if pre.tile_index(k2) == Some(t as int) && c2
                        < c {
                        0
                    } else {
                        pre.shown_level(k2, c2)
                    },
            decreases cc - c,
        {
            let ghost before = *self;
            proof {
                let n = self.tiles@.len() as int;
                assert(t * cc + c < n * cc) by (nonlinear_arith)
                    requires
                        t < n,
                        c < cc,
                ;
            }
            self.chunk_levels.set(t * cc + c, 0);
            proof {
                assert forall|k2: TileKey, c2: int| #[trigger]
                    self.shown_level(k2, c2) == if pre.tile_index(k2) == Some(t as int) && c2 < c
                        + 1 {
                        0
                    } else {
                        pre.shown_level(k2, c2)
                    } by {
                    assert(before.shown_level(k2, c2) == (if pre.tile_index(k2) == Some(
                        t as int,
                    ) && c2 < c {
                        0
                    } else {
                        pre.shown_level(k2, c2)
                    }));
                    pre.lemma_tile_index(k2);
                    if pre.tile_index(k2) is Some && 0 <= c2 < cc {
                        let t2 = pre.tile_index(k2)->0;
                        let n = self.tiles@.len() as int;
                        assert(t2 * cc + c2 < n * cc) by (nonlinear_arith)
                            requires
                                0 <= t2 < n,
                                0 <= c2 < cc,
                        ;
                        if t2 * cc + c2 == t * cc + c {
                            lemma_cell_index_unique(t2, c2, t as int, c as int, cc as int);
                        }
                    }
                }
            }
            c = c + 1;
        }
        proof {
            assert forall|k2: TileKey, c2: int| #[trigger]
                self.shown_level(k2, c2) == if pre.tile_index(key) is Some && pre.tile_index(k2)
                    == pre.tile_index(key) {
                    0
                } else {
                    pre.shown_level(k2, c2)
                } by {
                assert(self.shown_level(k2, c2) == (if pre.tile_index(k2) == Some(t as int) && c2
                    < cc {
                    0
                } else {
                    pre.shown_level(k2, c2)
                }));
            }
        }
    }
}


/// Whether some candidate in `cands` is table entry `g`.
spec fn in_cands(cands: Seq<(u64, usize)>, g: int) -> bool {
    exists|i: int| 0 <= i < cands.len() && cands[i].1 == g
}

/// Candidate `a` goes before `b`: older stamp first, then lower table position.
spec fn lex_before(a: (u64, usize), b: (u64, usize)) -> bool {
    a.0 < b.0 || (a.0 == b.0 && a.1 < b.1)
}

impl TerrainData {
    /// Number of chunks `c < n` of `key` whose record `c` fits in `len` values of `rec` each
    /// and that have no cached grid at `level`.
    pub open spec fn missing_below(&self, key: TileKey, level: int, rec: int, len: int, n: int) -> nat
        decreases n,
    {
        if n <= 0 {
            0
        } else {
            self.missing_below(key, level, rec, len, n - 1) + if (n - 1 + 1) * rec <= len
                && self.cached(key, level, n - 1) is None {
                1nat
            } else {
                0nat
            }
        }
    }

    proof fn lemma_missing_below(&self, key: TileKey, level: int, rec: int, len: int, n: int)
        requires
            n >= 0,
        ensures
            self.missing_below(key, level, rec, len, n) <= n,
        decreases n,
    {
        if n > 0 {
            self.lemma_missing_below(key, level, rec, len, n - 1);
        }
    }

    /// Stores one level of a tile fetched as one file: the records of all chunks one after the
    /// other, each `(chunk_cells(level) + 1)^2` values long. A chunk whose record is cut short
    /// is not stored. Nothing happens where there is no tile or for level 0.
    pub fn insert_tile_level(&mut self, key: TileKey, level: usize, all: &[i16])
        requires
            old(self).wf(),
            old(self).key_fits(key),
            level < old(self).nl(),
            old(self).k() > 0,
            old(self).stamp_value() + old(self).cc() <= u64::MAX,
            old(self).cached_total() + 2 * all@.len() <= usize::MAX,
        ensures
            final(self).wf(),
            final(self).same_layout(*old(self)),
            final(self).shown() == old(self).shown(),
            ({
                let rec = grid_nodes(old(self).chunk_cells_spec(level as int));
                if old(self).tile_index(key) is Some && level >= 1 {
                    &&& forall|c: int|
                        0 <= c < old(self).cc() && (c + 1) * rec <= all@.len() ==> grid_is(
                        #[trigger] final(self).cached(key, level as int, c),
                        all@.subrange(c * rec, c * rec + rec),
                    )
                    &&& forall|k2: TileKey, l: int, c: int|
                        !(old(self).tile_index(k2) == old(self).tile_index(key) && l == level && 0
                            <= c < old(self).cc() && (c + 1) * rec <= all@.len()) ==> #[trigger] final(self).cached(k2, l, c) == old(self).cached(k2, l, c)
                    &&& final(self).cached_total() == old(self).cached_total() + 2 * rec * old(self).missing_below(key, level as int, rec, all@.len() as int, old(self).cc())
                    &&& forall|c: int|
                        0 <= c < old(self).cc() && (c + 1) * rec <= all@.len() ==> stamped(
                        #[trigger] final(self).cached(key, level as int, c),
                        old(self).stamp_value() + c + 1,
                    )
                    &&& final(self).stamp_value() == old(self).stamp_value() + records_within(
                        rec,
                        all@.len() as int,
                        old(self).cc(),
                    )
                } else {
                    *final(self) == *old(self)
                }
            }),
    {
        let ghost pre = *self;
        proof {
            self.lemma_sizes(level as int);
            self.lemma_same_layout(pre);
        }
        let record = grid_len(self.chunk_cells(level));
        let cc = self.chunk_count();
        let ghost rec = record as int;
        let ghost len = all@.len() as int;
        let ghost accepted = pre.tile_index(key) is Some && level >= 1;
        proof {
            let cs = pre.chunk_cells_spec(level as int);
            assert(record >= 1) by (nonlinear_arith)
                requires
                    cs >= 0,
                    record == (cs + 1) * (cs + 1),
            ;
        }
        let mut c: usize = 0;
        while c < cc
            invariant
                pre.wf(),
                self.wf(),
                pre.key_fits(key),
                self.same_layout(pre),
                self.shown() == pre.shown(),
                level < pre.nl(),
                rec == record,
                len == all@.len(),
                record == grid_nodes(pre.chunk_cells_spec(level as int)),
                record >= 1,
                2 * cc * record <= usize::MAX,
                cc == pre.cc(),
                c <= cc,
                self.stamp_value() <= pre.stamp_value() + c,
                pre.stamp_value() + pre.cc() <= u64::MAX,
                pre.cached_total() + 2 * all@.len() <= usize::MAX,
                accepted == (pre.tile_index(key) is Some && level >= 1),
                accepted ==> forall|x: int|
                    0 <= x < c && (x + 1) * rec <= len ==> grid_is(
                        #[trigger] self.cached(key, level as int, x),
                        all@.subrange(x * rec, x * rec + rec),
                    ),
                accepted ==> forall|k2: TileKey, l: int, x: int|
                    !(pre.tile_index(k2) == pre.tile_index(key) && l == level && 0 <= x < c && (x
                        + 1) * rec <= len) ==> #[trigger] self.cached(k2, l, x) == pre.cached(
                        k2,
                        l,
                        x,
                    ),
                accepted ==> self.cached_total() == pre.cached_total() + 2 * rec
                    * pre.missing_below(key, level as int, rec, len, c as int),
                accepted ==> self.stamp_value() == pre.stamp_value() + records_within(
                    rec,
                    len,
                    c as int,
                ),
                accepted ==> forall|x: int|
                    0 <= x < c && (x + 1) * rec <= len ==> stamped(
                        #[trigger] self.cached(key, level as int, x),
                        pre.stamp_value() + x + 1,
                    ),
                !accepted ==> *self == pre,
            decreases cc - c,
        {
            let ghost before = *self;
            proof {
                assert((c + 1) * record <= cc * record && cc * record <= usize::MAX) by (nonlinear_arith)
                    requires
                        c < cc,
                        2 * cc * record <= usize::MAX,
                        record >= 1,
                ;
                assert(c * record + record == (c + 1) * record) by (nonlinear_arith);
                self.lemma_same_layout(pre);
                pre.lemma_missing_below(key, level as int, rec, len, c as int);
                lemma_records_within(rec, len, c as int);
                if (c + 1) * rec <= len {
                    assert(c * rec <= (c + 1) * rec) by (nonlinear_arith)
                        requires
                            rec >= 0,
                    ;
                }
            }
            if (c + 1) * record <= all.len() {
                let part = vstd::slice::slice_to_vec(
                    vstd::slice::slice_subrange(all, c * record, (c + 1) * record),
                );
                proof {
                    let m = pre.missing_below(key, level as int, rec, len, c as int);
                    assert(2 * rec * m + 2 * rec <= 2 * len) by (nonlinear_arith)
                        requires
                            m <= c,
                            (c + 1) * rec <= len,
                            rec >= 1,
                    ;
                }
                self.insert_chunk_grid(key, level, c, part);
            }
            proof {
                if accepted {
                    assert forall|x: int|
                        0 <= x < c + 1 && (x + 1) * rec <= len implies grid_is(
                        #[trigger] self.cached(key, level as int, x),
                        all@.subrange(x * rec, x * rec + rec),
                    ) by {
                        if x < c {
                            assert(grid_is(
                                before.cached(key, level as int, x),
                                all@.subrange(x * rec, x * rec + rec),
                            ));
                        }
                    }
                    assert forall|k2: TileKey, l: int, x: int|
                        !(pre.tile_index(k2) == pre.tile_index(key) && l == level && 0 <= x < c + 1
                            && (x + 1) * rec <= len) implies #[trigger] self.cached(k2, l, x)
                        == pre.cached(k2, l, x) by {
                        assert(before.cached(k2, l, x) == pre.cached(k2, l, x));
                    }
                    assert(before.cached(key, level as int, c as int) == pre.cached(
                        key,
                        level as int,
                        c as int,
                    ));
                    assert forall|x: int|
                        0 <= x < c + 1 && (x + 1) * rec <= len implies stamped(
                        #[trigger] self.cached(key, level as int, x),
                        pre.stamp_value() + x + 1,
                    ) by {
                        if x < c {
                            assert(stamped(
                                before.cached(key, level as int, x),
                                pre.stamp_value() + x + 1,
                            ));
                        }
                    }
                    assert(records_within(rec, len, c + 1) == records_within(rec, len, c as int)
                        + if (c + 1) * rec <= len {
                        1nat
                    } else {
                        0nat
                    });
                    let m = pre.missing_below(key, level as int, rec, len, c as int);
                    assert(pre.missing_below(key, level as int, rec, len, c + 1) == m + if (c + 1)
                        * rec <= len && pre.cached(key, level as int, c as int) is None {
                        1nat
                    } else {
                        0nat
                    });
                    assert(2 * rec * (m + 1) == 2 * rec * m + 2 * rec) by (nonlinear_arith);
                }
            }
            c = c + 1;
        }
    }

    /// Whether `keep` keeps the grid of table entry `g` (asked with its tile's key, its chunk
    /// and its level).
    pub open spec fn kept_by<F: Fn(TileKey, usize, usize) -> bool>(&self, keep: F, g: int) -> bool {
        keep.ensures(
            (
                self.tile_seq()[self.entry_tile(g)].key_spec(),
                self.entry_chunk(g) as usize,
                self.entry_level(g) as usize,
            ),
            true,
        )
    }

    /// Whether table entry `g` holds a grid that `keep` does not keep.
    pub open spec fn evictable<F: Fn(TileKey, usize, usize) -> bool>(&self, keep: F, g: int) -> bool {
        &&& 0 <= g < self.table().len()
        &&& self.table()[g] is Some
        &&& !self.kept_by(keep, g)
    }

    /// The order of eviction: the older stamp first, then the lower table position.
    pub open spec fn evicts_before(&self, g: int, h: int) -> bool {
        let a = self.table()[g]->0.stamp();
        let b = self.table()[h]->0.stamp();
        a < b || (a == b && g < h)
    }

    /// Frees grids until the total is at most `limit`: among the grids that `keep(tile, chunk,
    /// level)` does not keep (those not on screen), the least recently used go first. Nothing
    /// happens when the total is already within the limit.
    pub fn evict_unused<F: Fn(TileKey, usize, usize) -> bool>(&mut self, keep: F, limit: usize)
        requires
            old(self).wf(),
            forall|k: TileKey, c: usize, l: usize| #[trigger] keep.requires((k, c, l)),
            forall|a: (TileKey, usize, usize), r1: bool, r2: bool|
                #![trigger keep.ensures(a, r1), keep.ensures(a, r2)]
                keep.ensures(a, r1) && keep.ensures(a, r2) ==> r1 == r2,
        ensures
            final(self).wf(),
            old(self).cached_total() <= limit ==> *final(self) == *old(self),
            final(self).same_layout(*old(self)),
            final(self).shown() == old(self).shown(),
            final(self).stamp_value() == old(self).stamp_value(),
            final(self).table().len() == old(self).table().len(),
            forall|g: int|
                0 <= g < old(self).table().len() ==> #[trigger] final(self).table()[g] == old(self).table()[g] || (final(self).table()[g] is None && old(self).evictable(keep, g)),
            final(self).cached_total() <= limit || forall|g: int|
                old(self).evictable(keep, g) ==> #[trigger] final(self).table()[g] is None,
            forall|g: int, h: int|
                #![trigger final(self).table()[g], final(self).table()[h]]
                old(self).evictable(keep, g) && final(self).table()[g] is None && old(self).evictable(keep, h) && final(self).table()[h] is Some ==> old(self).evicts_before(
                    g,
                    h,
                ),
            forall|g: int|
                old(self).evictable(keep, g) && #[trigger] final(self).table()[g] is None && (
                forall|h: int|
                    old(self).evictable(keep, h) && #[trigger] final(self).table()[h] is None && h
                        != g ==> old(self).evicts_before(h, g)) ==> final(self).cached_total()
                    + old(self).table()[g]->0.size() > limit,
    {
        if self.cached_bytes <= limit {
            return ;
        }
        let ghost pre = *self;
        proof {
            self.lemma_counts();
        }
        let cc = self.chunk_count();
        let dpt = (self.tile_levels.len() - 1) * cc;
        let n = self.detail.len();
        let mut cands: Vec<(u64, usize)> = Vec::new();
        let mut g: usize = 0;
        while g < n
            invariant
                pre.wf(),
                *self == pre,
                n == pre.detail@.len(),
                dpt == pre.dpt(),
                cc == pre.cc(),
                cc >= 0,
                dpt == (pre.nl() - 1) * cc,
                pre.nl() >= 1,
                g <= n,
                forall|k: TileKey, c: usize, l: usize| #[trigger] keep.requires((k, c, l)),
                forall|a: (TileKey, usize, usize), r1: bool, r2: bool|
                    #![trigger keep.ensures(a, r1), keep.ensures(a, r2)]
                    keep.ensures(a, r1) && keep.ensures(a, r2) ==> r1 == r2,
                forall|i: int|
                    0 <= i < cands@.len() ==> pre.evictable(keep, (#[trigger] cands@[i]).1 as int)
                        && cands@[i].0 == pre.table()[cands@[i].1 as int]->0.stamp() && cands@[i].1
                        < g,
                forall|i: int, j: int|
                    0 <= i < j < cands@.len() ==> (#[trigger] cands@[i]).1 < (#[trigger] cands@[j]).1,
                forall|h: int| 0 <= h < g && pre.evictable(keep, h) ==> in_cands(cands@, h),
            decreases n - g,
        {
            let ghost cs0 = cands@;
            let entry = &self.detail[g];
            if let Some(grid) = entry {
                proof {
                    let tl = self.tiles@.len() as int;
                    assert(dpt > 0) by (nonlinear_arith)
                        requires
                            g < tl * dpt,
                            g >= 0,
                            dpt >= 0,
                            tl >= 0,
                    ;
                    let nl = pre.nl();
                    assert(cc > 0) by (nonlinear_arith)
                        requires
                            dpt == (nl - 1) * cc,
                            dpt > 0,
                            cc >= 0,
                    ;
                    vstd::arithmetic::div_mod::lemma_fundamental_div_mod(g as int, dpt as int);
                    assert((g % dpt) / cc < nl - 1) by (nonlinear_arith)
                        requires
                            0 <= g % dpt < dpt,
                            dpt == (nl - 1) * cc,
                            cc > 0,
                    ;
                }
                let t = g / dpt;
                let s = g % dpt;
                let level = s / cc + 1;
                let chunk = s % cc;
                proof {
                    let tl = self.tiles@.len() as int;
                    vstd::arithmetic::div_mod::lemma_fundamental_div_mod(g as int, dpt as int);
                    assert(t < tl) by (nonlinear_arith)
                        requires
                            g < tl * dpt,
                            g == dpt * t + s,
                            0 <= s,
                            dpt > 0,
                            t >= 0,
                    ;
                }
                let key = self.tiles[t].key;
                let kept = keep(key, chunk, level);
                proof {
                    assert(pre.tile_seq()[pre.entry_tile(g as int)].key_spec() == key);
                    if !kept {
                        if pre.kept_by(keep, g as int) {
                            assert(keep.ensures((key, chunk, level), true));
                        }
                    }
                }
                if !kept {
                    cands.push((grid.last_used, g));
                    proof {
                        let last = cands@.len() - 1;
                        assert(cands@[last].1 == g);
                    }
                }
            }
            proof {
                assert forall|h: int| 0 <= h < g + 1 && pre.evictable(keep, h) implies in_cands(
                    cands@,
                    h,
                ) by {
                    if h < g {
                        assert(in_cands(cs0, h));
                        let i = choose|i: int| 0 <= i < cs0.len() && cs0[i].1 == h;
                        assert(cands@[i] == cs0[i]);
                    } else {
                        let last = cands@.len() - 1;
                        assert(cands@[last].1 == h);
                    }
                }
            }
            g = g + 1;
        }
        let ghost mut removed: Set<int> = Set::empty();
        let ghost mut last: int = 0;
        let ghost mut any: bool = false;
        while self.cached_bytes > limit && cands.len() > 0
            invariant
                pre.wf(),
                self.wf(),
                self.same_layout(pre),
                self.shown() == pre.shown(),
                self.stamp == pre.stamp,
                self.detail@.len() == pre.detail@.len(),
                forall|h: int|
                    0 <= h < pre.detail@.len() ==> #[trigger] self.detail@[h] == if removed.contains(
                        h,
                    ) {
                        None
                    } else {
                        pre.detail@[h]
                    },
                forall|h: int| #[trigger] removed.contains(h) ==> pre.evictable(keep, h),
                forall|i: int|
                    0 <= i < cands@.len() ==> pre.evictable(keep, (#[trigger] cands@[i]).1 as int)
                        && cands@[i].0 == pre.table()[cands@[i].1 as int]->0.stamp()
                        && !removed.contains(cands@[i].1 as int),
                forall|i: int, j: int|
                    0 <= i < j < cands@.len() ==> (#[trigger] cands@[i]).1 < (#[trigger] cands@[j]).1,
                forall|h: int|
                    pre.evictable(keep, h) && !removed.contains(h) ==> in_cands(cands@, h),
                forall|h: int, i: int|
                    #![trigger removed.contains(h), cands@[i]]
                    removed.contains(h) && 0 <= i < cands@.len() ==> pre.evicts_before(
                        h,
                        cands@[i].1 as int,
                    ),
                any ==> removed.contains(last) && self.cached_bytes + pre.detail@[last]->0.size()
                    > limit,
                any ==> forall|h: int|
                    #[trigger] removed.contains(h) && h != last ==> pre.evicts_before(h, last),
                !any ==> removed == Set::<int>::empty(),
            decreases cands@.len(),
        {
            let mut j: usize = 0;
            let mut i: usize = 1;
            while i < cands.len()
                invariant
                    0 < cands@.len(),
                    j < i <= cands@.len(),
                    forall|a: int, b: int|
                        0 <= a < b < cands@.len() ==> (#[trigger] cands@[a]).1 < (
                        #[trigger] cands@[b]).1,
                    forall|x: int|
                        0 <= x < i && x != j ==> lex_before(cands@[j as int], #[trigger] cands@[x]),
                decreases cands@.len() - i,
            {
                let a = cands[i];
                let b = cands[j];
                if a.0 < b.0 || (a.0 == b.0 && a.1 < b.1) {
                    j = i;
                }
                i = i + 1;
            }
            let ghost cs = cands@;
            let ghost before = *self;
            let (_, gv) = cands.remove(j);
            let mut slot: Option<CachedGrid> = None;
            self.detail.set_and_swap(gv, &mut slot);
            proof {
                assert(pre.evictable(keep, cs[j as int].1 as int));
                assert(before.detail@[gv as int] == pre.detail@[gv as int]);
                lemma_table_bytes_update(before.detail@, gv as int, None);
            }
            let bytes = match &slot {
                Some(grid) => grid.bytes(),
                None => 0,
            };
            self.cached_bytes = self.cached_bytes - bytes;
            proof {
                let gi = gv as int;
                assert(cs[j as int].1 == gv);
                assert forall|x: int| 0 <= x < cs.len() && x != j implies lex_before(
                    cs[j as int],
                    #[trigger] cs[x],
                ) by {}
                assert forall|x: int| 0 <= x < cs.len() && x != j implies pre.evicts_before(
                    gi,
                    #[trigger] cs[x].1 as int,
                ) by {
                    assert(lex_before(cs[j as int], cs[x]));
                }
                assert forall|x: int|
                    0 <= x < cands@.len() implies #[trigger] cands@[x] == if x < j {
                    cs[x]
                } else {
                    cs[x + 1]
                } by {}
                let new_removed = removed.insert(gi);
                assert forall|h: int|
                    0 <= h < pre.detail@.len() implies #[trigger] self.detail@[h] == if new_removed.contains(
                        h,
                    ) {
                        None
                    } else {
                        pre.detail@[h]
                    } by {}
                assert forall|h: int|
                    pre.evictable(keep, h) && !new_removed.contains(h) implies in_cands(
                    cands@,
                    h,
                ) by {
                    let w = choose|w: int| 0 <= w < cs.len() && cs[w].1 == h;
                    if w < j {
                        assert(cands@[w].1 == h);
                    } else {
                        assert(cands@[w - 1].1 == h);
                    }
                }
                assert forall|h: int, x: int|
                    new_removed.contains(h) && 0 <= x < cands@.len() implies pre.evicts_before(
                    h,
                    cands@[x].1 as int,
                ) by {
                    if x < j {
                        assert(cands@[x] == cs[x]);
                        if h != gi {
                            assert(removed.contains(h));
                        }
                    } else {
                        assert(cands@[x] == cs[x + 1]);
                        if h != gi {
                            assert(removed.contains(h));
                        }
                    }
                }
                assert forall|h: int|
                    #[trigger] new_removed.contains(h) && h != gi implies pre.evicts_before(h, gi) by {
                    assert(removed.contains(h));
                }
                removed = new_removed;
                last = gi;
                any = true;
            }
        }
        proof {
            assert forall|h: int| pre.evictable(keep, h) && !removed.contains(h) implies cands@.len()
                > 0 by {
                assert(in_cands(cands@, h));
            }
            assert forall|a: int, b: int|
                #![trigger self.table()[a], self.table()[b]]
                pre.evictable(keep, a) && self.table()[a] is None && pre.evictable(keep, b)
                    && self.table()[b] is Some implies pre.evicts_before(a, b) by {
                assert(self.detail@[a] == if removed.contains(a) { None } else { pre.detail@[a] });
                assert(self.detail@[b] == if removed.contains(b) { None } else { pre.detail@[b] });
                assert(removed.contains(a));
                assert(!removed.contains(b));
                assert(in_cands(cands@, b));
                let w = choose|w: int| 0 <= w < cands@.len() && cands@[w].1 == b;
                assert(pre.evicts_before(a, cands@[w].1 as int));
            }
            assert forall|a: int|
                pre.evictable(keep, a) && #[trigger] self.table()[a] is None && (forall|h: int|
                    pre.evictable(keep, h) && #[trigger] self.table()[h] is None && h != a
                        ==> pre.evicts_before(h, a)) implies self.cached_total()
                + pre.table()[a]->0.size() > limit by {
                assert(self.detail@[a] == if removed.contains(a) { None } else { pre.detail@[a] });
                assert(removed.contains(a));
                assert(any);
                if a != last {
                    assert(self.detail@[last] == if removed.contains(last) { None } else { pre.detail@[last] });
                    assert(pre.evicts_before(a, last));
                    assert(pre.evicts_before(last, a));
                }
            }
        }
    }
}

} // verus!
