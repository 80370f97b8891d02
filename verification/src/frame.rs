//! The frame assembler: the tiles of one row of tiles, put together into
//! the scanlines of the frame.
//!
//! A tile is a buffer of bytes, row by row from the top, four bytes to the
//! pixel. All tiles have the same width and height.

use vstd::prelude::*;

verus! {

/// Row `k` of each tile, from the leftmost tile to the rightmost: one
/// scanline of the frame. A row of a tile has `row_bytes` bytes.
pub open spec fn scanline(tiles: Seq<Seq<u8>>, row_bytes: int, k: int) -> Seq<u8>
    decreases tiles.len(),
{
    if tiles.len() == 0 {
        Seq::empty()
    } else {
        scanline(tiles.drop_last(), row_bytes, k) + tiles.last().subrange(
            k * row_bytes,
            (k + 1) * row_bytes,
        )
    }
}

/// The first `rows` scanlines that the tiles give, from the top.
pub open spec fn band(tiles: Seq<Seq<u8>>, row_bytes: int, rows: nat) -> Seq<u8>
    decreases rows,
{
    if rows == 0 {
        Seq::empty()
    } else {
        band(tiles, row_bytes, (rows - 1) as nat) + scanline(tiles, row_bytes, rows - 1)
    }
}

/// The first `bands` rows of tiles of a frame, put together from the top.
/// `tiles` holds the tiles of the frame in the order in which they are
/// drawn: row of tiles by row of tiles, `across` tiles to each, from the
/// left.
pub open spec fn assembled(
    tiles: Seq<Seq<u8>>,
    across: int,
    row_bytes: int,
    rows: nat,
    bands: nat,
) -> Seq<u8>
    decreases bands,
{
    if bands == 0 {
        Seq::empty()
    } else {
        assembled(tiles, across, row_bytes, rows, (bands - 1) as nat) + band(
            tiles.subrange((bands - 1) * across, bands * across),
            row_bytes,
            rows,
        )
    }
}

/// What each of the tiles holds.
pub open spec fn tile_views(tiles: Seq<Vec<u8>>) -> Seq<Seq<u8>> {
    Seq::new(tiles.len(), |j: int| tiles[j]@)
}

/// Each tile holds at least `rows` rows of `row_bytes` bytes.
pub open spec fn tiles_hold(tiles: Seq<Seq<u8>>, row_bytes: int, rows: int) -> bool {
    forall|j: int| 0 <= j < tiles.len() ==> (#[trigger] tiles[j]).len() >= rows * row_bytes
}

proof fn lemma_rows_within(row_bytes: int, rows: int, k: int)
    requires
        0 <= row_bytes,
        0 <= k < rows,
    ensures
        0 <= k * row_bytes,
        k * row_bytes + row_bytes == (k + 1) * row_bytes,
        (k + 1) * row_bytes <= rows * row_bytes,
{
    assert(0 <= k * row_bytes) by (nonlinear_arith)
        requires
            0 <= row_bytes,
            0 <= k,
    ;
    assert(k * row_bytes + row_bytes == (k + 1) * row_bytes) by (nonlinear_arith);
    assert((k + 1) * row_bytes <= rows * row_bytes) by (nonlinear_arith)
        requires
            0 <= row_bytes,
            k + 1 <= rows,
    ;
}

/// A scanline has one row of each tile: byte `b` of row `k` of tile `j`
/// stands at `j * row_bytes + b`.
pub proof fn lemma_scanline(tiles: Seq<Seq<u8>>, row_bytes: int, rows: int, k: int)
    requires
        0 <= row_bytes,
        0 <= k < rows,
        tiles_hold(tiles, row_bytes, rows),
    ensures
        scanline(tiles, row_bytes, k).len() == tiles.len() * row_bytes,
        forall|j: int, b: int|
            0 <= j < tiles.len() && 0 <= b < row_bytes ==> #[trigger] scanline(
                tiles,
                row_bytes,
                k,
            )[j * row_bytes + b] == tiles[j][k * row_bytes + b],
    decreases tiles.len(),
{
    lemma_rows_within(row_bytes, rows, k);
    if tiles.len() > 0 {
        let front = tiles.drop_last();
        let n = front.len() as int;
        assert(tiles_hold(front, row_bytes, rows)) by {
            assert forall|j: int| 0 <= j < front.len() implies (#[trigger] front[j]).len() >= rows
                * row_bytes by {
                assert(front[j] == tiles[j]);
            }
        }
        lemma_scanline(front, row_bytes, rows, k);
        assert(tiles.last() == tiles[n]);
        assert(tiles[n].len() >= rows * row_bytes);
        assert((n + 1) * row_bytes == n * row_bytes + row_bytes) by (nonlinear_arith);
        assert forall|j: int, b: int| 0 <= j < tiles.len() && 0 <= b < row_bytes implies #[trigger] scanline(
            tiles,
            row_bytes,
            k,
        )[j * row_bytes + b] == tiles[j][k * row_bytes + b] by {
            if j < n {
                assert(j * row_bytes + b < n * row_bytes) by (nonlinear_arith)
                    requires
                        0 <= j < n,
                        0 <= b < row_bytes,
                ;
                assert(0 <= j * row_bytes + b) by (nonlinear_arith)
                    requires
                        0 <= j,
                        0 <= b,
                        0 <= row_bytes,
                ;
                assert(front[j] == tiles[j]);
            } else {
                assert(j == n);
            }
        }
    } else {
        assert(tiles.len() * row_bytes == 0) by (nonlinear_arith)
            requires
                tiles.len() == 0,
        ;
    }
}

/// The band holds `rows` scanlines: byte `b` of row `k` of tile `j` stands
/// in scanline `k`, at `j * row_bytes + b` from its start.
pub proof fn lemma_band(tiles: Seq<Seq<u8>>, row_bytes: int, rows: nat)
    requires
        0 <= row_bytes,
        tiles_hold(tiles, row_bytes, rows as int),
    ensures
        band(tiles, row_bytes, rows).len() == rows * (tiles.len() * row_bytes),
        forall|k: int, j: int, b: int|
            0 <= k < rows && 0 <= j < tiles.len() && 0 <= b < row_bytes ==> #[trigger] band(
                tiles,
                row_bytes,
                rows,
            )[k * (tiles.len() * row_bytes) + (j * row_bytes + b)] == tiles[j][k * row_bytes + b],
{
    lemma_band_upto(tiles, row_bytes, rows, rows);
}

proof fn lemma_band_upto(tiles: Seq<Seq<u8>>, row_bytes: int, rows: nat, upto: nat)
    requires
        0 <= row_bytes,
        upto <= rows,
        tiles_hold(tiles, row_bytes, rows as int),
    ensures
        band(tiles, row_bytes, upto).len() == upto * (tiles.len() * row_bytes),
        forall|k: int, j: int, b: int|
            0 <= k < upto && 0 <= j < tiles.len() && 0 <= b < row_bytes ==> #[trigger] band(
                tiles,
                row_bytes,
                upto,
            )[k * (tiles.len() * row_bytes) + (j * row_bytes + b)] == tiles[j][k * row_bytes + b],
    decreases upto,
{
    let stride = tiles.len() * row_bytes;
    assert(0 <= stride) by (nonlinear_arith)
        requires
            stride == tiles.len() * row_bytes,
            0 <= row_bytes,
    ;
    if upto > 0 {
        let above = (upto - 1) as nat;
        lemma_band_upto(tiles, row_bytes, rows, above);
        lemma_scanline(tiles, row_bytes, rows as int, above as int);
        assert(upto * stride == above * stride + stride) by (nonlinear_arith)
            requires
                upto == above + 1,
        ;
        assert forall|k: int, j: int, b: int|
            0 <= k < upto && 0 <= j < tiles.len() && 0 <= b < row_bytes implies #[trigger] band(
            tiles,
            row_bytes,
            upto,
        )[k * stride + (j * row_bytes + b)] == tiles[j][k * row_bytes + b] by {
            assert(0 <= j * row_bytes + b < stride) by (nonlinear_arith)
                requires
                    0 <= j < tiles.len(),
                    0 <= b < row_bytes,
                    stride == tiles.len() * row_bytes,
            ;
            if k < above {
                assert(k * stride + stride <= above * stride) by (nonlinear_arith)
                    requires
                        0 <= k < above,
                        0 <= stride,
                ;
                assert(0 <= k * stride) by (nonlinear_arith)
                    requires
                        0 <= k,
                        0 <= stride,
                ;
                assert(band(tiles, row_bytes, above)[k * stride + (j * row_bytes + b)]
                    == tiles[j][k * row_bytes + b]);
            } else {
                assert(k == above);
                assert(scanline(tiles, row_bytes, above as int)[j * row_bytes + b]
                    == tiles[j][k * row_bytes + b]);
            }
        }
    } else {
        assert(upto * stride == 0) by (nonlinear_arith)
            requires
                upto == 0,
        ;
    }
}

/// The number of bytes of a frame that is put together from its tiles: the
/// scanlines of all rows of tiles, each as wide as the tiles of one row
/// together.
pub proof fn lemma_assembled_len(
    tiles: Seq<Seq<u8>>,
    across: int,
    row_bytes: int,
    rows: nat,
    bands: nat,
)
    requires
        0 <= row_bytes,
        0 <= across,
        bands * across <= tiles.len(),
        tiles_hold(tiles, row_bytes, rows as int),
    ensures
        assembled(tiles, across, row_bytes, rows, bands).len() == bands * (rows * (across
            * row_bytes)),
    decreases bands,
{
    let stride = across * row_bytes;
    if bands > 0 {
        let above = (bands - 1) as nat;
        lemma_band_range(across, bands, above as int);
        lemma_assembled_len(tiles, across, row_bytes, rows, above);
        let part = tiles.subrange(above * across, bands * across);
        lemma_part_holds(tiles, across, row_bytes, rows, bands, above as int);
        lemma_band(part, row_bytes, rows);
        assert(bands * (rows * stride) == above * (rows * stride) + rows * stride)
            by (nonlinear_arith)
            requires
                bands == above + 1,
        ;
    } else {
        assert(bands * (rows * stride) == 0) by (nonlinear_arith)
            requires
                bands == 0,
        ;
    }
}

/// Where each byte of each tile stands in the frame. Byte `b` of row `k` of
/// the tile in column `j` of row `i` of the tiles stands in scanline
/// `i * rows + k` of the frame, at `j * row_bytes + b` from its start: the
/// tiles lie side by side and one below the other, as on one large canvas.
pub proof fn lemma_assembled_byte(
    tiles: Seq<Seq<u8>>,
    across: int,
    row_bytes: int,
    rows: nat,
    bands: nat,
    i: int,
    k: int,
    j: int,
    b: int,
)
    requires
        0 <= row_bytes,
        0 <= across,
        bands * across <= tiles.len(),
        tiles_hold(tiles, row_bytes, rows as int),
        0 <= i < bands,
        0 <= k < rows,
        0 <= j < across,
        0 <= b < row_bytes,
    ensures
        0 <= i * across + j < tiles.len(),
        0 <= (i * rows + k) * (across * row_bytes) + (j * row_bytes + b) < assembled(
            tiles,
            across,
            row_bytes,
            rows,
            bands,
        ).len(),
        assembled(tiles, across, row_bytes, rows, bands)[(i * rows + k) * (across * row_bytes) + (j
            * row_bytes + b)] == tiles[i * across + j][k * row_bytes + b],
    decreases bands,
{
    let stride = across * row_bytes;
    let above = (bands - 1) as nat;
    lemma_band_range(across, bands, above as int);
    lemma_band_range(across, bands, i);
    lemma_assembled_len(tiles, across, row_bytes, rows, bands);
    lemma_assembled_len(tiles, across, row_bytes, rows, above);
    let part = tiles.subrange(above * across, bands * across);
    lemma_part_holds(tiles, across, row_bytes, rows, bands, above as int);
    lemma_band(part, row_bytes, rows);
    assert(0 <= j * row_bytes + b < stride) by (nonlinear_arith)
        requires
            0 <= j < across,
            0 <= b < row_bytes,
            stride == across * row_bytes,
    ;
    assert(0 <= k * stride && k * stride + stride <= rows * stride) by (nonlinear_arith)
        requires
            0 <= k < rows,
            0 <= stride,
    ;
    assert((i * rows + k) * stride == i * (rows * stride) + k * stride) by (nonlinear_arith);
    assert(bands * (rows * stride) == above * (rows * stride) + rows * stride) by (nonlinear_arith)
        requires
            bands == above + 1,
    ;
    if i < above {
        lemma_assembled_byte(tiles, across, row_bytes, rows, above, i, k, j, b);
    } else {
        assert(i == above);
        assert(part[j] == tiles[i * across + j]);
        assert(band(part, row_bytes, rows)[k * (part.len() * row_bytes) + (j * row_bytes + b)]
            == part[j][k * row_bytes + b]);
        assert(part.len() * row_bytes == stride);
    }
}

proof fn lemma_band_range(across: int, bands: nat, i: int)
    requires
        0 <= across,
        0 <= i < bands,
    ensures
        0 <= i * across,
        i * across + across == (i + 1) * across,
        (i + 1) * across <= bands * across,
{
    lemma_rows_within(across, bands as int, i);
}

proof fn lemma_part_holds(
    tiles: Seq<Seq<u8>>,
    across: int,
    row_bytes: int,
    rows: nat,
    bands: nat,
    i: int,
)
    requires
        0 <= across,
        0 <= i < bands,
        bands * across <= tiles.len(),
        tiles_hold(tiles, row_bytes, rows as int),
    ensures
        tiles_hold(tiles.subrange(i * across, (i + 1) * across), row_bytes, rows as int),
        tiles.subrange(i * across, (i + 1) * across).len() == across,
{
    lemma_band_range(across, bands, i);
    let part = tiles.subrange(i * across, (i + 1) * across);
    assert forall|j: int| 0 <= j < part.len() implies (#[trigger] part[j]).len() >= rows
        * row_bytes by {
        assert(part[j] == tiles[i * across + j]);
    }
}

/// Appends to `buffer` the scanlines that one row of tiles gives: for each
/// row of the tiles from the top, that row of every tile from the left.
pub fn append_band(buffer: &mut Vec<u8>, tiles: &Vec<Vec<u8>>, tile_width: u32, tile_height: u32)
    requires
        tile_height * (tile_width * 4) <= usize::MAX,
        tiles_hold(tile_views(tiles@), tile_width * 4, tile_height as int),
    ensures
        final(buffer)@ == old(buffer)@ + band(
            tile_views(tiles@),
            tile_width * 4,
            tile_height as nat,
        ),
{
    if tile_height == 0 {
        return ;
    }
    let ghost views = tile_views(tiles@);
    let ghost rows = tile_height as int;
    assert(tile_width * 4 <= tile_height * (tile_width * 4)) by (nonlinear_arith)
        requires
            tile_height >= 1,
    ;
    let row_bytes: usize = tile_width as usize * 4;
    let mut k: u32 = 0;
    let mut from: usize = 0;
    while k < tile_height
        invariant
            k <= tile_height,
            rows == tile_height,
            views == tile_views(tiles@),
            row_bytes == tile_width * 4,
            rows * row_bytes <= usize::MAX,
            tiles_hold(views, row_bytes as int, rows),
            from == k * row_bytes,
            buffer@ == old(buffer)@ + band(views, row_bytes as int, k as nat),
        decreases tile_height - k,
    {
        proof {
            lemma_rows_within(row_bytes as int, rows, k as int);
        }
        let to: usize = from + row_bytes;
        let ghost start = buffer@;
        let mut j: usize = 0;
        while j < tiles.len()
            invariant
                j <= tiles.len(),
                views == tile_views(tiles@),
                tiles_hold(views, row_bytes as int, rows),
                from <= to,
                from == k * row_bytes,
                to == (k + 1) * row_bytes,
                to <= rows * row_bytes,
                buffer@ == start + scanline(views.take(j as int), row_bytes as int, k as int),
            decreases tiles.len() - j,
        {
            assert(views[j as int] == tiles[j as int]@);
            assert(views[j as int].len() >= rows * row_bytes);
            let tile = &tiles[j];
            let mut at: usize = from;
            let ghost before = buffer@;
            assert(tile@ == views[j as int]);
            while at < to
                invariant
                    from <= at <= to <= tile.len(),
                    buffer@ == before + tile@.subrange(from as int, at as int),
                decreases to - at,
            {
                buffer.push(tile[at]);
                at = at + 1;
            }
            j = j + 1;
            proof {
                let seen = views.take(j as int);
                assert(seen.drop_last() == views.take(j - 1));
                assert(seen.last() == tile@);
            }
        }
        assert(views.take(tiles.len() as int) == views);
        k = k + 1;
        from = to;
    }
}

} // verus!
