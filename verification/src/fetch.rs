//! What the terrain fetches compute: file names and URLs, byte ranges, the size checks on what
//! came back (with their error messages), and the decoding of the grid files. The requests
//! themselves are made by the caller; every failure is returned as an error message and nothing
//! here retries.
//!
//! Grid files are little-endian `int16`. Every size is checked against what the level definition
//! gives, so that a response cut short, or a file of another data set, is never used.
use vstd::prelude::*;
use crate::loader::{grid_len, grid_nodes, levels_valid, TerrainData, TileKey};

verus! {

/// The character of the decimal digit `d` (0 to 9).
pub open spec fn digit_char(d: int) -> char {
    if d == 0 {
        '0'
    } else if d == 1 {
        '1'
    } else if d == 2 {
        '2'
    } else if d == 3 {
        '3'
    } else if d == 4 {
        '4'
    } else if d == 5 {
        '5'
    } else if d == 6 {
        '6'
    } else if d == 7 {
        '7'
    } else if d == 8 {
        '8'
    } else {
        '9'
    }
}

/// The decimal digits of `n`, most significant first, without leading zeros.
pub open spec fn decimal(n: nat) -> Seq<char>
    decreases n,
{
    if n < 10 {
        seq![digit_char(n as int)]
    } else {
        decimal(n / 10).push(digit_char((n % 10) as int))
    }
}

/// The decimal digits of `n`, with zeros in front up to `width` characters.
pub open spec fn padded(n: nat, width: nat) -> Seq<char> {
    let d = decimal(n);
    if d.len() < width {
        Seq::new((width - d.len()) as nat, |_i: int| '0') + d
    } else {
        d
    }
}

/// `|x|` as a natural number.
pub open spec fn abs_nat(x: int) -> nat {
    if x >= 0 {
        x as nat
    } else {
        (-x) as nat
    }
}

/// The name of a tile: `N`/`S`, three or more digits of the latitude, `E`/`W`, three or more
/// digits of the longitude (`N035E138`). It matches the file names of the preprocessing tool.
pub open spec fn tile_name_spec(key: TileKey) -> Seq<char> {
    (if key.0 >= 0 {
        seq!['N']
    } else {
        seq!['S']
    }) + padded(abs_nat(key.0 as int), 3) + (if key.1 >= 0 {
        seq!['E']
    } else {
        seq!['W']
    }) + padded(abs_nat(key.1 as int), 3)
}

/// The value of the little-endian `int16` with bytes `lo`, `hi`.
pub open spec fn le_i16(lo: u8, hi: u8) -> int {
    let u = hi * 256 + lo;
    if u >= 32768 {
        u - 65536
    } else {
        u
    }
}

/// The values of the little-endian `int16` array in `bytes`; an odd last byte is dropped.
pub open spec fn decoded(bytes: Seq<u8>) -> Seq<i16> {
    Seq::new(bytes.len() / 2, |i: int| le_i16(bytes[2 * i], bytes[2 * i + 1]) as i16)
}

/// Size in bytes of `base.bin`: one level-0 grid of two bytes per node for every tile; `None`
/// when there is no level.
pub open spec fn base_bin_len_spec(tile_levels: Seq<u32>, tile_count: int) -> Option<int> {
    if tile_levels.len() == 0 {
        None
    } else {
        Some(tile_count * grid_nodes(tile_levels[0] as int) * 2)
    }
}

/// The error for a level definition that the loader cannot use.
pub open spec fn bad_levels_message() -> Seq<char> {
    "metadata.json: tile_levels needs 2+ levels, and levels 1+ must be divisible by chunks_per_tile"@
}

/// The error for a `base.bin` of the wrong size.
pub open spec fn base_size_message(got: nat, expected: nat) -> Seq<char> {
    "base.bin size mismatch: got "@ + decimal(got) + " bytes, expected "@ + decimal(expected)
}

/// The error for a tile file of the wrong size.
pub open spec fn tile_size_message(url: Seq<char>, got: nat, expected: nat) -> Seq<char> {
    url + " size mismatch: got "@ + decimal(got) + " bytes, expected "@ + decimal(expected)
}

/// The error for a chunk record of the wrong size.
pub open spec fn chunk_size_message(url: Seq<char>, chunk: nat, got: nat, expected: nat) -> Seq<
    char,
> {
    url + " chunk "@ + decimal(chunk) + " size mismatch: got "@ + decimal(got)
        + " bytes, expected "@ + decimal(expected)
}

/// The error for a range that a full response does not contain.
pub open spec fn range_message(url: Seq<char>, start: nat, end: nat) -> Seq<char> {
    url + ": range "@ + decimal(start) + "-"@ + decimal(end) + " is out of the response body"@
}

/// `r` is the error with the message `msg`.
pub open spec fn err_is<T>(r: Result<T, String>, msg: Seq<char>) -> bool {
    r matches Err(e) && e@ == msg
}

/// `r` is success with the values `v`.
pub open spec fn ok_is<A>(r: Result<Vec<A>, String>, v: Seq<A>) -> bool {
    r matches Ok(x) && x@ == v
}

/// Whether `c` is a decimal digit.
pub open spec fn is_digit(c: char) -> bool {
    48 <= c as int <= 57
}

/// The number that a string of decimal digits writes.
pub open spec fn digits_value(s: Seq<char>) -> int
    decreases s.len(),
{
    if s.len() == 0 {
        0
    } else {
        digits_value(s.drop_last()) * 10 + (s.last() as int - 48)
    }
}

proof fn lemma_digit_char(d: int)
    requires
        0 <= d < 10,
    ensures
        is_digit(digit_char(d)),
        digit_char(d) as int - 48 == d,
{
}

/// `decimal(n)` is made of digits and writes `n`.
proof fn lemma_decimal(n: nat)
    ensures
        forall|i: int| 0 <= i < decimal(n).len() ==> is_digit(#[trigger] decimal(n)[i]),
        digits_value(decimal(n)) == n,
        decimal(n).len() >= 1,
    decreases n,
{
    if n < 10 {
        lemma_digit_char(n as int);
        let s1 = seq![digit_char(n as int)];
        assert(decimal(n) == s1);
        assert(s1.drop_last() =~= Seq::<char>::empty());
        assert(digits_value(Seq::<char>::empty()) == 0);
        assert(s1.last() == digit_char(n as int));
        assert(digits_value(s1) == digits_value(s1.drop_last()) * 10 + (s1.last() as int - 48));
    } else {
        lemma_decimal(n / 10);
        lemma_digit_char((n % 10) as int);
        let d = decimal(n / 10);
        let c = digit_char((n % 10) as int);
        assert(decimal(n) == d.push(c));
        assert(d.push(c).drop_last() =~= d);
        assert(d.push(c).last() == c);
        assert(digits_value(d.push(c)) == digits_value(d) * 10 + (c as int - 48));
        assert((n / 10) * 10 + n % 10 == n);
        assert forall|i: int| 0 <= i < decimal(n).len() implies is_digit(#[trigger] decimal(n)[i]) by {
            if i < d.len() {
                assert(decimal(n)[i] == d[i]);
            }
        }
    }
}

/// Zeros in front do not change the number written.
proof fn lemma_leading_zeros(k: nat, d: Seq<char>)
    ensures
        digits_value(Seq::new(k, |_i: int| '0') + d) == digits_value(d),
    decreases d.len(), k,
{
    let z = Seq::new(k, |_i: int| '0');
    if d.len() == 0 {
        assert(z + d =~= z);
        if k > 0 {
            let z1 = Seq::new((k - 1) as nat, |_i: int| '0');
            assert(z.drop_last() =~= z1);
            lemma_leading_zeros((k - 1) as nat, d);
            assert(z1 + d =~= z1);
        }
    } else {
        assert((z + d).drop_last() =~= z + d.drop_last());
        lemma_leading_zeros(k, d.drop_last());
    }
}

/// `padded(n, w)` is made of digits and writes `n`.
proof fn lemma_padded(n: nat, w: nat)
    ensures
        forall|i: int| 0 <= i < padded(n, w).len() ==> is_digit(#[trigger] padded(n, w)[i]),
        digits_value(padded(n, w)) == n,
{
    lemma_decimal(n);
    let d = decimal(n);
    if d.len() < w {
        let z = Seq::new((w - d.len()) as nat, |_i: int| '0');
        lemma_leading_zeros((w - d.len()) as nat, d);
        assert forall|i: int| 0 <= i < padded(n, w).len() implies is_digit(#[trigger] padded(n, w)[i]) by {
            if i >= z.len() {
                assert(padded(n, w)[i] == d[i - z.len()]);
            }
        }
    }
}

/// Different tiles have different names (so their files never collide).
pub proof fn lemma_tile_name_injective(a: TileKey, b: TileKey)
    requires
        tile_name_spec(a) == tile_name_spec(b),
    ensures
        a == b,
{
    let pa = padded(abs_nat(a.0 as int), 3);
    let pb = padded(abs_nat(b.0 as int), 3);
    let qa = padded(abs_nat(a.1 as int), 3);
    let qb = padded(abs_nat(b.1 as int), 3);
    let ha: char = if a.0 >= 0 { 'N' } else { 'S' };
    let hb: char = if b.0 >= 0 { 'N' } else { 'S' };
    let ea: char = if a.1 >= 0 { 'E' } else { 'W' };
    let eb: char = if b.1 >= 0 { 'E' } else { 'W' };
    lemma_padded(abs_nat(a.0 as int), 3);
    lemma_padded(abs_nat(b.0 as int), 3);
    lemma_padded(abs_nat(a.1 as int), 3);
    lemma_padded(abs_nat(b.1 as int), 3);
    let sa = tile_name_spec(a);
    let sb = tile_name_spec(b);
    assert(sa =~= seq![ha] + pa + seq![ea] + qa);
    assert(sb =~= seq![hb] + pb + seq![eb] + qb);
    assert(sa[0] == ha && sb[0] == hb);
    assert(forall|i: int| 0 <= i < pa.len() ==> sa[1 + i] == pa[i]);
    assert(forall|i: int| 0 <= i < pb.len() ==> sb[1 + i] == pb[i]);
    assert(sa[1 + pa.len() as int] == ea);
    assert(sb[1 + pb.len() as int] == eb);
    assert(!is_digit(ea) && !is_digit(eb));
    if pa.len() < pb.len() {
        assert(is_digit(pb[pa.len() as int]));
        assert(false);
    }
    if pb.len() < pa.len() {
        assert(is_digit(pa[pb.len() as int]));
        assert(false);
    }
    assert(pa =~= pb) by {
        assert forall|i: int| 0 <= i < pa.len() implies pa[i] == pb[i] by {
            assert(sa[1 + i] == sb[1 + i]);
        }
    }
    let off = 2 + pa.len() as int;
    assert(forall|i: int| 0 <= i < qa.len() ==> sa[off + i] == qa[i]);
    assert(forall|i: int| 0 <= i < qb.len() ==> sb[off + i] == qb[i]);
    assert(sa.len() == off + qa.len());
    assert(sb.len() == off + qb.len());
    assert(qa =~= qb) by {
        assert forall|i: int| 0 <= i < qa.len() implies qa[i] == qb[i] by {
            assert(sa[off + i] == sb[off + i]);
        }
    }
    assert(ha == hb);
    assert(sa[1 + pa.len() as int] == sb[1 + pb.len() as int]);
    assert(ea == eb);
}

/// The literal of one decimal digit.
fn digit_str(d: u64) -> (s: &'static str)
    requires
        d < 10,
    ensures
        s@ == seq![digit_char(d as int)],
{
    if d == 0 {
        proof {
            reveal_strlit("0");
        }
        "0"
    } else if d == 1 {
        proof {
            reveal_strlit("1");
        }
        "1"
    } else if d == 2 {
        proof {
            reveal_strlit("2");
        }
        "2"
    } else if d == 3 {
        proof {
            reveal_strlit("3");
        }
        "3"
    } else if d == 4 {
        proof {
            reveal_strlit("4");
        }
        "4"
    } else if d == 5 {
        proof {
            reveal_strlit("5");
        }
        "5"
    } else if d == 6 {
        proof {
            reveal_strlit("6");
        }
        "6"
    } else if d == 7 {
        proof {
            reveal_strlit("7");
        }
        "7"
    } else if d == 8 {
        proof {
            reveal_strlit("8");
        }
        "8"
    } else {
        proof {
            reveal_strlit("9");
        }
        "9"
    }
}

/// Appends the decimal digits of `n`.
pub(crate) fn push_decimal(s: &mut String, n: u64)
    ensures
        final(s)@ == old(s)@ + decimal(n as nat),
    decreases n,
{
    if n >= 10 {
        push_decimal(s, n / 10);
    }
    s.append(digit_str(n % 10));
    proof {
        if n >= 10 {
            assert(old(s)@ + decimal((n / 10) as nat) + seq![digit_char((n % 10) as int)] =~= old(
                s,
            )@ + decimal(n as nat));
        }
    }
}

/// Number of decimal digits of `n`.
fn decimal_len(n: u64) -> (l: u64)
    ensures
        l == decimal(n as nat).len(),
        1 <= l <= n + 1,
    decreases n,
{
    if n < 10 {
        1
    } else {
        1 + decimal_len(n / 10)
    }
}

/// Appends the decimal digits of `n`, with zeros in front up to `width` characters.
fn push_padded(s: &mut String, n: u64, width: u64)
    ensures
        final(s)@ == old(s)@ + padded(n as nat, width as nat),
{
    let len = decimal_len(n);
    let ghost start = s@;
    let mut i = len;
    while i < width
        invariant
            len <= i,
            len == decimal(n as nat).len(),
            i <= width || i == len,
            s@ == start + Seq::new((i - len) as nat, |_j: int| '0'),
        decreases width - i,
    {
        proof {
            reveal_strlit("0");
        }
        s.append("0");
        proof {
            assert(s@ =~= start + Seq::new((i + 1 - len) as nat, |_j: int| '0'));
        }
        i = i + 1;
    }
    push_decimal(s, n);
    proof {
        if len < width {
            assert(s@ =~= start + padded(n as nat, width as nat));
        } else {
            assert(s@ =~= start + padded(n as nat, width as nat));
        }
    }
}

/// `|x|` of an `i32` other than the smallest.
fn abs_u64(x: i32) -> (r: u64)
    requires
        x != i32::MIN,
    ensures
        r == abs_nat(x as int),
{
    if x >= 0 {
        x as u64
    } else {
        (-x) as u64
    }
}

/// The name of a tile, like `N035E138` (the file names of the preprocessing tool).
pub fn tile_name(key: TileKey) -> (s: String)
    requires
        key.0 != i32::MIN,
        key.1 != i32::MIN,
    ensures
        s@ == tile_name_spec(key),
{
    let mut s = String::new();
    if key.0 >= 0 {
        proof {
            reveal_strlit("N");
        }
        s.append("N");
    } else {
        proof {
            reveal_strlit("S");
        }
        s.append("S");
    }
    push_padded(&mut s, abs_u64(key.0), 3);
    if key.1 >= 0 {
        proof {
            reveal_strlit("E");
        }
        s.append("E");
    } else {
        proof {
            reveal_strlit("W");
        }
        s.append("W");
    }
    push_padded(&mut s, abs_u64(key.1), 3);
    s
}

/// The URL of the file of one tile at one level (1 and up):
/// `{base_url}/tiles/L{level}/{tile name}.bin`.
pub fn tile_level_url(base_url: &str, key: TileKey, level: usize) -> (s: String)
    requires
        key.0 != i32::MIN,
        key.1 != i32::MIN,
    ensures
        s@ == base_url@ + "/tiles/L"@ + decimal(level as nat) + "/"@ + tile_name_spec(key)
            + ".bin"@,
{
    let mut s = String::new();
    s.append(base_url);
    s.append("/tiles/L");
    push_decimal(&mut s, level as u64);
    s.append("/");
    let name = tile_name(key);
    s.append(name.as_str());
    s.append(".bin");
    proof {
        assert(s@ =~= base_url@ + "/tiles/L"@ + decimal(level as nat) + "/"@ + tile_name_spec(key)
            + ".bin"@);
    }
    s
}

/// Decodes a little-endian `int16` array (the grid file format). An odd last byte is dropped
/// (the sizes are checked before, so none occurs in practice).
pub fn decode_i16_le(bytes: &[u8]) -> (r: Vec<i16>)
    ensures
        r@ == decoded(bytes@),
{
    let len = bytes.len();
    let n = len / 2;
    let mut r: Vec<i16> = Vec::new();
    let mut i: usize = 0;
    while i < n
        invariant
            len == bytes@.len(),
            n == len / 2,
            i <= n,
            r@.len() == i,
            forall|j: int| 0 <= j < i ==> #[trigger] r@[j] == le_i16(bytes@[2 * j], bytes@[2 * j + 1]) as i16,
        decreases n - i,
    {
        assert(2 * i + 1 < bytes@.len());
        let lo = bytes[2 * i];
        let hi = bytes[2 * i + 1];
        let u: i32 = hi as i32 * 256 + lo as i32;
        let v: i16 = if u >= 32768 {
            (u - 65536) as i16
        } else {
            u as i16
        };
        r.push(v);
        i = i + 1;
    }
    proof {
        assert(r@ =~= decoded(bytes@));
    }
    r
}

/// Size in bytes of `base.bin` (`tiles x (N0 + 1)^2 x 2`), `None` when there is no level.
pub fn base_bin_len(tile_levels: &[u32], tile_count: usize) -> (r: Option<usize>)
    requires
        tile_levels@.len() > 0 ==> grid_nodes(tile_levels@[0] as int) <= usize::MAX && tile_count
            * grid_nodes(tile_levels@[0] as int) * 2 <= usize::MAX,
    ensures
        r matches Some(n) ==> base_bin_len_spec(tile_levels@, tile_count as int) == Some(n as int),
        r is None ==> base_bin_len_spec(tile_levels@, tile_count as int) is None,
{
    if tile_levels.len() == 0 {
        return None;
    }
    let n0 = tile_levels[0] as usize;
    proof {
        let g = grid_nodes(n0 as int);
        assert(g >= 0) by (nonlinear_arith)
            requires
                g == (n0 + 1) * (n0 + 1),
        ;
        assert(tile_count * g <= tile_count * g * 2) by (nonlinear_arith)
            requires
                g >= 0,
        ;
    }
    Some(tile_count * grid_len(n0) * 2)
}

/// The checks on the three files fetched at start: the level definition must have two or more
/// levels with every level from 1 on divisible by a non-zero chunk split, and `base.bin` must be
/// exactly as large as the tile list says. The level definition is checked first.
pub fn check_terrain_files(
    tile_levels: &Vec<u32>,
    chunks_per_tile: u32,
    tile_count: usize,
    base_bytes: usize,
) -> (r: Result<(), String>)
    requires
        tile_levels@.len() > 0 ==> grid_nodes(tile_levels@[0] as int) <= usize::MAX && tile_count
            * grid_nodes(tile_levels@[0] as int) * 2 <= usize::MAX,
    ensures
        !levels_valid(tile_levels@, chunks_per_tile) ==> err_is(r, bad_levels_message()),
        levels_valid(tile_levels@, chunks_per_tile) && base_bin_len_spec(
            tile_levels@,
            tile_count as int,
        ) != Some(base_bytes as int) ==> err_is(
            r,
            base_size_message(
                base_bytes as nat,
                (tile_count * grid_nodes(tile_levels@[0] as int) * 2) as nat,
            ),
        ),
        levels_valid(tile_levels@, chunks_per_tile) && base_bin_len_spec(
            tile_levels@,
            tile_count as int,
        ) == Some(base_bytes as int) ==> r is Ok,
{
    let mut ok = tile_levels.len() >= 2 && chunks_per_tile != 0;
    if ok {
        let mut l: usize = 1;
        while l < tile_levels.len()
            invariant
                1 <= l <= tile_levels@.len(),
                chunks_per_tile != 0,
                ok == forall|j: int| 1 <= j < l ==> #[trigger] tile_levels@[j] % chunks_per_tile == 0,
            decreases tile_levels@.len() - l,
        {
            if tile_levels[l] % chunks_per_tile != 0 {
                ok = false;
            }
            l = l + 1;
        }
    }
    if !ok {
        let mut e = String::new();
        e.append(
            "metadata.json: tile_levels needs 2+ levels, and levels 1+ must be divisible by chunks_per_tile",
        );
        return Err(e);
    }
    let expected = match base_bin_len(tile_levels.as_slice(), tile_count) {
        Some(n) => n,
        None => 0,
    };
    if base_bytes != expected {
        let mut e = String::new();
        e.append("base.bin size mismatch: got ");
        push_decimal(&mut e, base_bytes as u64);
        e.append(" bytes, expected ");
        push_decimal(&mut e, expected as u64);
        proof {
            assert(e@ =~= base_size_message(base_bytes as nat, expected as nat));
        }
        return Err(e);
    }
    Ok(())
}

/// Size in bytes of the file of one tile at `level`: the records of all chunks, each
/// `(chunk_cells(level) + 1)^2` values of two bytes.
pub fn tile_level_bytes(terrain: &TerrainData, level: usize) -> (n: usize)
    requires
        terrain.wf(),
        level < terrain.nl(),
        terrain.k() > 0,
    ensures
        n == terrain.cc() * grid_nodes(terrain.chunk_cells_spec(level as int)) * 2,
{
    proof {
        terrain.lemma_sizes(level as int);
    }
    let g = grid_len(terrain.chunk_cells(level));
    let cc = terrain.chunk_count();
    proof {
        assert(cc * g * 2 == 2 * cc * g) by (nonlinear_arith);
        assert(cc * g <= cc * g * 2) by (nonlinear_arith)
            requires
                cc >= 1,
                g >= 0,
        ;
    }
    cc * g * 2
}

/// Size in bytes of one chunk record at `level`.
pub fn chunk_record_bytes(terrain: &TerrainData, level: usize) -> (n: usize)
    requires
        terrain.wf(),
        level < terrain.nl(),
        terrain.k() > 0,
    ensures
        n == grid_nodes(terrain.chunk_cells_spec(level as int)) * 2,
        n >= 2,
{
    proof {
        terrain.lemma_sizes(level as int);
        let cs = terrain.chunk_cells_spec(level as int);
        assert(grid_nodes(cs) >= 1) by (nonlinear_arith)
            requires
                cs >= 0,
        ;
    }
    grid_len(terrain.chunk_cells(level)) * 2
}

/// The byte range, both ends included, of the record of `chunk` in a tile file at `level`.
pub fn chunk_byte_range(terrain: &TerrainData, level: usize, chunk: usize) -> (r: (usize, usize))
    requires
        terrain.wf(),
        level < terrain.nl(),
        terrain.k() > 0,
        (chunk + 1) * grid_nodes(terrain.chunk_cells_spec(level as int)) * 2 <= usize::MAX,
    ensures
        r.0 == chunk * grid_nodes(terrain.chunk_cells_spec(level as int)) * 2,
        r.1 == r.0 + grid_nodes(terrain.chunk_cells_spec(level as int)) * 2 - 1,
{
    let record = chunk_record_bytes(terrain, level);
    proof {
        assert(chunk * record + record == (chunk + 1) * record) by (nonlinear_arith);
        assert(chunk * record <= (chunk + 1) * record) by (nonlinear_arith)
            requires
                record >= 0,
        ;
        assert(chunk * grid_nodes(terrain.chunk_cells_spec(level as int)) * 2 == chunk * record)
            by (nonlinear_arith)
            requires
                record == grid_nodes(terrain.chunk_cells_spec(level as int)) * 2,
        ;
        assert((chunk + 1) * grid_nodes(terrain.chunk_cells_spec(level as int)) * 2 == (chunk + 1)
            * record) by (nonlinear_arith)
            requires
                record == grid_nodes(terrain.chunk_cells_spec(level as int)) * 2,
        ;
    }
    let start = chunk * record;
    (start, start + record - 1)
}

/// Checks the size of a fetched tile file and decodes it (the records of all chunks, in chunk
/// order). `url` names the file in the error.
pub fn tile_level_from_bytes(terrain: &TerrainData, url: &str, level: usize, bytes: &[u8]) -> (r:
    Result<Vec<i16>, String>)
    requires
        terrain.wf(),
        level < terrain.nl(),
        terrain.k() > 0,
    ensures
        ({
            let expected = terrain.cc() * grid_nodes(terrain.chunk_cells_spec(level as int)) * 2;
            &&& bytes@.len() == expected ==> ok_is(r, decoded(bytes@))
            &&& bytes@.len() != expected ==> err_is(
                r,
                tile_size_message(url@, bytes@.len(), expected as nat),
            )
        }),
{
    let expected = tile_level_bytes(terrain, level);
    if bytes.len() != expected {
        let mut e = String::new();
        e.append(url);
        e.append(" size mismatch: got ");
        push_decimal(&mut e, bytes.len() as u64);
        e.append(" bytes, expected ");
        push_decimal(&mut e, expected as u64);
        proof {
            assert(e@ =~= tile_size_message(url@, bytes@.len(), expected as nat));
        }
        return Err(e);
    }
    Ok(decode_i16_le(bytes))
}

/// Checks the size of a fetched chunk record and decodes it. `url` names the file in the error.
pub fn chunk_grid_from_bytes(
    terrain: &TerrainData,
    url: &str,
    level: usize,
    chunk: usize,
    bytes: &[u8],
) -> (r: Result<Vec<i16>, String>)
    requires
        terrain.wf(),
        level < terrain.nl(),
        terrain.k() > 0,
    ensures
        ({
            let expected = grid_nodes(terrain.chunk_cells_spec(level as int)) * 2;
            &&& bytes@.len() == expected ==> ok_is(r, decoded(bytes@))
            &&& bytes@.len() != expected ==> err_is(
                r,
                chunk_size_message(url@, chunk as nat, bytes@.len(), expected as nat),
            )
        }),
{
    let expected = chunk_record_bytes(terrain, level);
    if bytes.len() != expected {
        let mut e = String::new();
        e.append(url);
        e.append(" chunk ");
        push_decimal(&mut e, chunk as u64);
        e.append(" size mismatch: got ");
        push_decimal(&mut e, bytes.len() as u64);
        e.append(" bytes, expected ");
        push_decimal(&mut e, expected as u64);
        proof {
            assert(e@ =~= chunk_size_message(url@, chunk as nat, bytes@.len(), expected as nat));
        }
        return Err(e);
    }
    Ok(decode_i16_le(bytes))
}

/// Whether record `c`, `rec` values long, lies within `len` values.
pub open spec fn record_fits(c: int, rec: int, len: int) -> bool {
    (c + 1) * rec <= len
}

/// A tile file that passes the size check holds a whole record for every chunk of its level:
/// decoded, it has `chunk_count x (chunk_cells + 1)^2` values, so `insert_tile_level` stores every
/// chunk.
pub proof fn lemma_checked_file_fills_level(terrain: &TerrainData, level: usize, bytes: Seq<u8>)
    requires
        terrain.wf(),
        level < terrain.nl(),
        terrain.k() > 0,
        bytes.len() == terrain.cc() * grid_nodes(terrain.chunk_cells_spec(level as int)) * 2,
    ensures
        decoded(bytes).len() == terrain.cc() * grid_nodes(terrain.chunk_cells_spec(level as int)),
        forall|c: int|
            0 <= c < terrain.cc() ==> #[trigger] record_fits(
                c,
                grid_nodes(terrain.chunk_cells_spec(level as int)),
                decoded(bytes).len() as int,
            ),
{
    let rec = grid_nodes(terrain.chunk_cells_spec(level as int));
    let cc = terrain.cc();
    terrain.lemma_sizes(level as int);
    assert(rec >= 0) by (nonlinear_arith)
        requires
            rec == (terrain.chunk_cells_spec(level as int) + 1) * (terrain.chunk_cells_spec(
                level as int,
            ) + 1),
    ;
    assert(cc * rec * 2 == 2 * (cc * rec)) by (nonlinear_arith);
    assert forall|c: int| 0 <= c < cc implies #[trigger] record_fits(c, rec, cc * rec) by {
        assert((c + 1) * rec <= cc * rec) by (nonlinear_arith)
            requires
                0 <= c < cc,
                rec >= 0,
        ;
    }
}

/// What a GET with a byte range (both ends included) gives: a server that ignored the range
/// answers `200` with the whole body, from which the range is cut here; any other answer is the
/// range itself. A range that a whole body does not contain is an error.
pub fn select_range(url: &str, body: Vec<u8>, range: Option<(usize, usize)>, status: u16) -> (r:
    Result<Vec<u8>, String>)
    ensures
        match range {
            Some((start, end)) if status == 200 => if end < usize::MAX && start <= end + 1 && end
                + 1 <= body@.len() {
                r matches Ok(v) && v@ == body@.subrange(start as int, end + 1)
            } else {
                r matches Err(e) && e@ == range_message(url@, start as nat, end as nat)
            },
            _ => r == Ok::<Vec<u8>, String>(body),
        },
{
    match range {
        Some((start, end)) => {
            if status == 200 {
                if end < usize::MAX && start <= end + 1 && end + 1 <= body.len() {
                    let part = vstd::slice::slice_subrange(body.as_slice(), start, end + 1);
                    return Ok(vstd::slice::slice_to_vec(part));
                } else {
                    let mut e = String::new();
                    e.append(url);
                    e.append(": range ");
                    push_decimal(&mut e, start as u64);
                    e.append("-");
                    push_decimal(&mut e, end as u64);
                    e.append(" is out of the response body");
                    proof {
                        assert(e@ =~= range_message(url@, start as nat, end as nat));
                    }
                    return Err(e);
                }
            }
            Ok(body)
        },
        None => Ok(body),
    }
}

/// Progress of the fetch at start. Almost all of the bytes are `base.bin`, so the progress is
/// the number of its bytes received (after decompression) against its total size, which is
/// unknown until the metadata and the tile list have arrived.
#[derive(Clone, Copy, Debug, Default, PartialEq)]
pub struct TerrainLoadProgress {
    /// Bytes of `base.bin` received so far.
    pub received_bytes: usize,
    /// Total size of `base.bin`; `None` until it is known.
    pub total_bytes: Option<usize>,
}

} // verus!
