//! Splitting one axis of the requested image into tiles that fit the GPU.

use vstd::prelude::*;

verus! {

/// No tile may be this wide or this high, or more.
pub const TILE_SIZE: u32 = 1080;

/// The tile counts that are tried, in order: 1, 2, 4, 6, 8, ...
pub open spec fn candidate(i: nat) -> nat {
    if i == 0 {
        1
    } else {
        2 * i
    }
}

/// `count` is the first candidate that cuts `dimension` into tiles below
/// `TILE_SIZE`, and `size` is the size of each of those tiles.
pub open spec fn is_plan(dimension: nat, count: nat, size: nat) -> bool {
    exists|i: nat|
        {
            &&& count == #[trigger] candidate(i)
            &&& size == dimension / count
            &&& size < TILE_SIZE
            &&& forall|j: nat| j < i ==> dimension / #[trigger] candidate(j) >= TILE_SIZE
        }
}

/// The number of tiles along an axis of `dimension` pixels, in closed form:
/// one tile below `TILE_SIZE`, and two more for every 2160 pixels, which is
/// twice `TILE_SIZE`.
pub open spec fn tile_count(dimension: nat) -> nat {
    if dimension < 1080 {
        1
    } else {
        2 * (dimension / 2160 + 1)
    }
}

/// Plans one axis: how many tiles, and how large each. An axis below
/// `TILE_SIZE` is one tile; from there up to twice `TILE_SIZE` it is cut in
/// two.
pub fn plan(dimension: u32) -> (result: (usize, u32))
    ensures
        is_plan(dimension as nat, result.0 as nat, result.1 as nat),
        result.1 < TILE_SIZE,
        result.0 == 1 || (result.0 >= 2 && result.0 % 2 == 0),
        result.0 == tile_count(dimension as nat),
        result.1 == dimension as nat / tile_count(dimension as nat),
        dimension < 1080 ==> result == (1usize, dimension),
        1080 <= dimension < 2160 ==> result.0 == 2 && result.1 == dimension / 2,
{
    let mut i: u32 = 0;
    let mut count: u32 = 1;
    let mut size: u32 = dimension;
    while size >= TILE_SIZE
        invariant
            count == candidate(i as nat),
            size == dimension / count,
            i as nat <= dimension as nat / 2160 + 1,
            forall|j: nat| j < i ==> dimension as nat / #[trigger] candidate(j) >= TILE_SIZE,
        decreases dimension as nat / 2160 + 2 - i,
    {
        assert(dimension as nat / candidate(i as nat) >= TILE_SIZE);
        proof {
            lemma_large_tiles(dimension as nat, i as nat);
        }
        i = i + 1;
        count = 2 * i;
        size = dimension / count;
    }
    proof {
        lemma_small_tiles(dimension as nat, i as nat);
    }
    (count as usize, size)
}

/// The tiles cover the axis but for a rest smaller than their number: they
/// cover it wholly exactly when the number of tiles divides the dimension.
pub proof fn law_plan_covers(dimension: nat)
    ensures
        tile_count(dimension) * (dimension / tile_count(dimension)) + dimension % tile_count(
            dimension,
        ) == dimension,
        tile_count(dimension) * (dimension / tile_count(dimension)) <= dimension,
        tile_count(dimension) * (dimension / tile_count(dimension)) == dimension
            <==> dimension % tile_count(dimension) == 0,
{
    let count = tile_count(dimension);
    assert(count > 0);
    assert(count * (dimension / count) + dimension % count == dimension) by (nonlinear_arith)
        requires
            count > 0,
    ;
}

/// A plan is unique: two plans for one dimension are the same.
pub proof fn law_plan_unique(dimension: nat, count: nat, size: nat, other: nat, other_size: nat)
    requires
        is_plan(dimension, count, size),
        is_plan(dimension, other, other_size),
    ensures
        count == other,
        size == other_size,
{
    let i = choose|i: nat|
        {
            &&& count == #[trigger] candidate(i)
            &&& size == dimension / count
            &&& size < TILE_SIZE
            &&& forall|j: nat| j < i ==> dimension / #[trigger] candidate(j) >= TILE_SIZE
        };
    let k = choose|k: nat|
        {
            &&& other == #[trigger] candidate(k)
            &&& other_size == dimension / other
            &&& other_size < TILE_SIZE
            &&& forall|j: nat| j < k ==> dimension / #[trigger] candidate(j) >= TILE_SIZE
        };
    if i < k {
        assert(dimension / candidate(i) >= TILE_SIZE);
    } else if k < i {
        assert(dimension / candidate(k) >= TILE_SIZE);
    }
}

/// How a frame is cut into tiles.
#[derive(Clone, Copy, Debug, PartialEq, Eq, Structural)]
pub struct TilePlan {
    /// The number of tiles in a row of tiles.
    pub tiles_wide: usize,
    /// The width of each tile, in pixels.
    pub tile_width: u32,
    /// The number of rows of tiles.
    pub tiles_high: usize,
    /// The height of each tile, in pixels.
    pub tile_height: u32,
}

/// The plan for a frame of `width` times `height` pixels.
pub open spec fn tile_plan(width: u32, height: u32) -> TilePlan {
    TilePlan {
        tiles_wide: tile_count(width as nat) as usize,
        tile_width: (width as nat / tile_count(width as nat)) as u32,
        tiles_high: tile_count(height as nat) as usize,
        tile_height: (height as nat / tile_count(height as nat)) as u32,
    }
}

impl TilePlan {
    /// There is at least one tile each way, and no tile reaches `TILE_SIZE`.
    pub open spec fn wf(self) -> bool {
        &&& 1 <= self.tiles_wide
        &&& 1 <= self.tiles_high
        &&& self.tile_width < TILE_SIZE
        &&& self.tile_height < TILE_SIZE
    }

    /// The number of bytes in one row of a tile.
    pub open spec fn row_bytes(self) -> int {
        self.tile_width * 4
    }

    /// The number of bytes that a tile holds.
    pub open spec fn tile_bytes(self) -> int {
        self.tile_height * (self.tile_width * 4)
    }

    /// The number of tiles in a frame.
    pub open spec fn tiles(self) -> int {
        self.tiles_high * self.tiles_wide
    }

    /// The number of bytes in a frame that is put together from its tiles.
    pub open spec fn frame_bytes(self) -> int {
        self.tiles_high * (self.tile_height * (self.tiles_wide * (self.tile_width * 4)))
    }

    /// The number of bytes that a tile holds.
    pub fn tile_len(&self) -> (len: usize)
        requires
            self.wf(),
        ensures
            len == self.tile_bytes(),
    {
        assert(self.tile_height * (self.tile_width * 4) <= 1079 * (1079 * 4)) by (nonlinear_arith)
            requires
                self.tile_height <= 1079,
                self.tile_width <= 1079,
        ;
        self.tile_height as usize * (self.tile_width as usize * 4)
    }

    /// Plans both axes of a frame.
    pub fn new(width: u32, height: u32) -> (p: TilePlan)
        ensures
            p == tile_plan(width, height),
            p.wf(),
            is_plan(width as nat, p.tiles_wide as nat, p.tile_width as nat),
            is_plan(height as nat, p.tiles_high as nat, p.tile_height as nat),
    {
        let (tiles_wide, tile_width) = plan(width);
        let (tiles_high, tile_height) = plan(height);
        TilePlan { tiles_wide, tile_width, tiles_high, tile_height }
    }
}

proof fn lemma_large_tiles(dimension: nat, i: nat)
    requires
        dimension / candidate(i) >= TILE_SIZE,
    ensures
        i == 0 ==> dimension >= TILE_SIZE,
        i > 0 ==> i <= dimension / 2160,
{
    if i > 0 {
        let c = 2 * i;
        assert(dimension >= 1080 * c) by (nonlinear_arith)
            requires
                dimension / c >= 1080,
                c > 0,
        ;
        assert(dimension / 2160 >= i) by (nonlinear_arith)
            requires
                dimension >= 2160 * i,
        ;
    }
}

proof fn lemma_small_tiles(dimension: nat, i: nat)
    requires
        dimension / candidate(i) < TILE_SIZE,
        forall|j: nat| j < i ==> dimension / #[trigger] candidate(j) >= TILE_SIZE,
    ensures
        candidate(i) == tile_count(dimension),
{
    if i == 0 {
    } else {
        let c = 2 * i;
        assert(dimension < 1080 * c) by (nonlinear_arith)
            requires
                dimension / c < 1080,
                c > 0,
        ;
        assert(dimension / 2160 < i) by (nonlinear_arith)
            requires
                dimension < 2160 * i,
        ;
        let p = (i - 1) as nat;
        assert(dimension / candidate(p) >= TILE_SIZE);
        lemma_large_tiles(dimension, p);
        if p == 0 {
            assert(dimension >= 1080);
            assert(dimension / 2160 == 0);
        }
    }
}

} // verus!
