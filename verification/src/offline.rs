//! The offline renderer: which tile is drawn next, and what becomes of the
//! tiles that were drawn.
//!
//! The driver draws: it asks for the next job, draws that tile, reads its
//! pixels back and hands them over. When the last tile of a frame has come,
//! the frame is put together and made into an image.

use crate::encode::{frame_image, image_bytes, image_fits, image_size, FrameImage};
use crate::frame::{
    append_band, assembled, lemma_assembled_byte, lemma_assembled_len, tile_views, tiles_hold,
};
use crate::tile::{law_plan_covers, tile_count, tile_plan, TilePlan};
use vstd::prelude::*;

verus! {

/// What the driver has to do next.
#[derive(Clone, Copy, Debug, PartialEq, Eq, Structural)]
pub enum Job {
    /// Draw the tile in this column and row of the tiles, for this frame.
    Draw { frame: usize, column: usize, row: usize },
    /// All frames are rendered.
    Done,
}

/// A frame of which all tiles were drawn.
pub struct Finished {
    /// The index of the frame, counted from zero.
    pub index: usize,
    /// The number of bytes of the frame as it was put together.
    pub bytes: usize,
    /// The image of the frame; none where the tiles did not cover the
    /// frame that was asked for.
    pub image: Option<FrameImage>,
}

/// A run, as the contracts see it.
pub struct Run {
    /// The width and the height of the frames that were asked for.
    pub width: u32,
    pub height: u32,
    /// The number of frames to render.
    pub frames: nat,
    /// The index of the frame that is being rendered.
    pub frame: nat,
    /// The tiles of that frame that were drawn so far, in the order in
    /// which they were drawn.
    pub drawn: Seq<Seq<u8>>,
}

impl Run {
    /// How the frames are cut into tiles.
    pub open spec fn plan(self) -> TilePlan {
        tile_plan(self.width, self.height)
    }

    /// No more frames were rendered than were asked for, the frame that
    /// is being rendered still lacks a tile, and each tile that was drawn
    /// holds the bytes of a whole tile.
    pub open spec fn wf(self) -> bool {
        &&& self.frame <= self.frames
        &&& self.drawn.len() < self.plan().tiles()
        &&& tiles_hold(self.drawn, self.plan().row_bytes(), self.plan().tile_height as int)
    }

    /// All frames are rendered.
    pub open spec fn done(self) -> bool {
        self.frame >= self.frames
    }

    /// The tiles are drawn row of tiles by row of tiles from the top, and
    /// in each row from the left.
    pub open spec fn next(self) -> Job {
        if self.done() {
            Job::Done
        } else {
            Job::Draw {
                frame: self.frame as usize,
                column: (self.drawn.len() % self.plan().tiles_wide as nat) as usize,
                row: (self.drawn.len() / self.plan().tiles_wide as nat) as usize,
            }
        }
    }

    /// The next tile is the last of its frame.
    pub open spec fn completes(self) -> bool {
        self.drawn.len() + 1 == self.plan().tiles()
    }

    /// The run after one more tile.
    pub open spec fn after(self, pixels: Seq<u8>) -> Run {
        if self.completes() {
            Run { frame: self.frame + 1, drawn: Seq::empty(), ..self }
        } else {
            Run { drawn: self.drawn.push(pixels), ..self }
        }
    }

    /// The bytes of the frame that the tile `pixels` completes.
    pub open spec fn frame_with(self, pixels: Seq<u8>) -> Seq<u8> {
        assembled(
            self.drawn.push(pixels),
            self.plan().tiles_wide as int,
            self.plan().row_bytes(),
            self.plan().tile_height as nat,
            self.plan().tiles_high as nat,
        )
    }
}

/// `finished` is the frame that the tile `pixels` completes: it has the
/// index of the frame that was being rendered and the number of its bytes,
/// and its image is made of those bytes, for the width and height that were
/// asked for, where the bytes are enough for them.
pub open spec fn finishes(run: Run, pixels: Seq<u8>, finished: Finished) -> bool {
    &&& finished.index == run.frame
    &&& finished.bytes == run.frame_with(pixels).len()
    &&& finished.image is Some <==> image_fits(run.width, run.height, run.frame_with(pixels).len())
    &&& finished.image matches Some(i) ==> image_bytes(i) == run.frame_with(pixels) && image_size(
        i,
    ) == (run.width, run.height)
}

/// The run before its first tile.
pub open spec fn start(width: u32, height: u32, frames: nat) -> Run {
    Run { width, height, frames, frame: 0, drawn: Seq::empty() }
}

/// The frame that is put together has as many bytes as its tiles cover:
/// four for each pixel of the tiles of one row of tiles side by side, times
/// the tiles of one column one below the other.
pub proof fn law_frame_size(run: Run, pixels: Seq<u8>)
    requires
        run.completes(),
        tiles_hold(
            run.drawn.push(pixels),
            run.plan().row_bytes(),
            run.plan().tile_height as int,
        ),
    ensures
        run.frame_with(pixels).len() == run.plan().frame_bytes(),
        run.plan().frame_bytes() == 4 * ((run.plan().tiles_wide * run.plan().tile_width) * (
        run.plan().tiles_high * run.plan().tile_height)),
{
    let plan = run.plan();
    lemma_assembled_len(
        run.drawn.push(pixels),
        plan.tiles_wide as int,
        plan.row_bytes(),
        plan.tile_height as nat,
        plan.tiles_high as nat,
    );
    lemma_frame_bytes(
        plan.tiles_wide as int,
        plan.tile_width as int,
        plan.tiles_high as int,
        plan.tile_height as int,
    );
}

proof fn lemma_frame_bytes(across: int, width: int, high: int, height: int)
    ensures
        high * (height * (across * (width * 4))) == 4 * ((across * width) * (high * height)),
{
    assert(high * (height * (across * (width * 4))) == 4 * ((across * width) * (high * height)))
        by (nonlinear_arith);
}

/// The tiles cover the frame that was asked for exactly when the number of
/// tiles divides the width, and the number of rows of tiles the height, or
/// when the frame has no pixel at all. Only then, and only where the bytes
/// of one row of the frame can be counted in a `usize`, is an image made of
/// the frame: else the frame that is put together is too small for it.
pub proof fn law_frame_fits(width: u32, height: u32)
    ensures
        image_fits(width, height, tile_plan(width, height).frame_bytes() as nat) <==> 4 * width
            <= usize::MAX && (width == 0 || height == 0 || (width as nat % tile_count(width as nat)
            == 0 && height as nat % tile_count(height as nat) == 0)),
        tile_plan(width, height).tiles_wide * tile_plan(width, height).tile_width == width
            <==> width as nat % tile_count(width as nat) == 0,
        tile_plan(width, height).tiles_high * tile_plan(width, height).tile_height == height
            <==> height as nat % tile_count(height as nat) == 0,
{
    let plan = tile_plan(width, height);
    law_plan_covers(width as nat);
    law_plan_covers(height as nat);
    let covered_width = plan.tiles_wide * plan.tile_width;
    let covered_height = plan.tiles_high * plan.tile_height;
    assert(plan.tiles_wide == tile_count(width as nat));
    assert(plan.tiles_high == tile_count(height as nat));
    assert(plan.tile_width == width as nat / tile_count(width as nat));
    assert(plan.tile_height == height as nat / tile_count(height as nat));
    lemma_frame_bytes(
        plan.tiles_wide as int,
        plan.tile_width as int,
        plan.tiles_high as int,
        plan.tile_height as int,
    );
    assert(width * height <= covered_width * covered_height <==> width == 0 || height == 0 || (
    covered_width == width && covered_height == height)) by (nonlinear_arith)
        requires
            0 <= covered_width <= width,
            0 <= covered_height <= height,
    ;
    assert(4 * width * height == 4 * (width * height)) by (nonlinear_arith);
}

/// Where each byte of each tile stands in the finished frame: byte `b` of
/// row `k` of the tile that was drawn for column `j` and row `i` stands in
/// scanline `i * tile_height + k` of the frame, at `j * row_bytes + b` from
/// the start of that scanline.
pub proof fn law_tile_in_frame(run: Run, pixels: Seq<u8>, i: int, k: int, j: int, b: int)
    requires
        run.completes(),
        tiles_hold(
            run.drawn.push(pixels),
            run.plan().row_bytes(),
            run.plan().tile_height as int,
        ),
        0 <= i < run.plan().tiles_high,
        0 <= k < run.plan().tile_height,
        0 <= j < run.plan().tiles_wide,
        0 <= b < run.plan().row_bytes(),
    ensures
        ({
            let plan = run.plan();
            let scanline = i * plan.tile_height + k;
            let stride = plan.tiles_wide * plan.row_bytes();
            let tile = run.drawn.push(pixels)[i * plan.tiles_wide + j];
            &&& 0 <= scanline * stride + (j * plan.row_bytes() + b) < run.frame_with(pixels).len()
            &&& run.frame_with(pixels)[scanline * stride + (j * plan.row_bytes() + b)]
                == tile[k * plan.row_bytes() + b]
        }),
{
    let plan = run.plan();
    lemma_assembled_byte(
        run.drawn.push(pixels),
        plan.tiles_wide as int,
        plan.row_bytes(),
        plan.tile_height as nat,
        plan.tiles_high as nat,
        i,
        k,
        j,
        b,
    );
}

/// An offline run: the frames that are still to render, and the tiles of
/// the frame that is being rendered.
pub struct OfflineRun {
    width: u32,
    height: u32,
    frames: usize,
    plan: TilePlan,
    frame: usize,
    row: usize,
    column: usize,
    /// The tiles of the row of tiles that is being drawn.
    tiles: Vec<Vec<u8>>,
    /// The rows of tiles above it, put together.
    buffer: Vec<u8>,
    drawn: Ghost<Seq<Seq<u8>>>,
}

impl View for OfflineRun {
    type V = Run;

    closed spec fn view(&self) -> Run {
        Run {
            width: self.width,
            height: self.height,
            frames: self.frames as nat,
            frame: self.frame as nat,
            drawn: self.drawn@,
        }
    }
}

proof fn lemma_position(len: int, across: int, row: int, column: int)
    requires
        0 <= column < across,
        0 <= row,
        len == row * across + column,
    ensures
        len / across == row,
        len % across == column,
{
    assert(len / across == row && len % across == column) by (nonlinear_arith)
        requires
            0 <= column < across,
            0 <= row,
            len == row * across + column,
    ;
}

proof fn lemma_last_tile(len: int, across: int, high: int, row: int, column: int)
    requires
        0 <= column < across,
        0 <= row < high,
        len == row * across + column,
    ensures
        len + 1 == high * across <==> column + 1 == across && row + 1 == high,
        len + 1 <= high * across,
        column + 1 == across ==> len + 1 == (row + 1) * across,
{
    assert((row + 1) * across == row * across + across) by (nonlinear_arith);
    assert((row + 1) * across <= high * across) by (nonlinear_arith)
        requires
            row + 1 <= high,
            0 <= across,
    ;
    if row + 1 < high {
        assert((row + 2) * across <= high * across) by (nonlinear_arith)
            requires
                row + 2 <= high,
                0 <= across,
        ;
        assert((row + 2) * across == (row + 1) * across + across) by (nonlinear_arith);
    }
}

/// What stands in the first rows of tiles of a frame does not depend on the
/// tiles that follow.
proof fn lemma_assembled_prefix(
    tiles: Seq<Seq<u8>>,
    more: Seq<Seq<u8>>,
    across: int,
    row_bytes: int,
    rows: nat,
    bands: nat,
)
    requires
        0 <= across,
        bands * across <= tiles.len(),
        tiles.len() <= more.len(),
        more.take(tiles.len() as int) == tiles,
    ensures
        assembled(more, across, row_bytes, rows, bands) == assembled(
            tiles,
            across,
            row_bytes,
            rows,
            bands,
        ),
    decreases bands,
{
    if bands > 0 {
        let above = (bands - 1) as nat;
        assert(above * across + across == bands * across) by (nonlinear_arith)
            requires
                bands == above + 1,
        ;
        assert(0 <= above * across) by (nonlinear_arith)
            requires
                0 <= across,
                0 <= above,
        ;
        lemma_assembled_prefix(tiles, more, across, row_bytes, rows, above);
        let part = tiles.subrange(above * across, bands * across);
        let more_part = more.subrange(above * across, bands * across);
        assert(more_part == part) by {
            assert forall|j: int| 0 <= j < part.len() implies #[trigger] more_part[j] == part[j] by {
                assert(more.take(tiles.len() as int)[above * across + j] == more[above * across
                    + j]);
            }
        }
    }
}

impl OfflineRun {
    /// The tiles and the buffer hold what was drawn so far.
    pub closed spec fn wf(&self) -> bool {
        &&& self.plan == tile_plan(self.width, self.height)
        &&& self.plan.wf()
        &&& self.frame <= self.frames
        &&& self.row < self.plan.tiles_high
        &&& self.column < self.plan.tiles_wide
        &&& self.drawn@.len() == self.row * self.plan.tiles_wide + self.column
        &&& tiles_hold(self.drawn@, self.plan.row_bytes(), self.plan.tile_height as int)
        &&& tile_views(self.tiles@) == self.drawn@.subrange(
            self.row * self.plan.tiles_wide,
            self.drawn@.len() as int,
        )
        &&& self.buffer@ == assembled(
            self.drawn@,
            self.plan.tiles_wide as int,
            self.plan.row_bytes(),
            self.plan.tile_height as nat,
            self.row as nat,
        )
    }

    /// A run of `frames` frames of `width` times `height` pixels.
    pub fn new(width: u32, height: u32, frames: usize) -> (run: Self)
        ensures
            run.wf(),
            run@.wf(),
            run@ == start(width, height, frames as nat),
    {
        let plan = TilePlan::new(width, height);
        let run = OfflineRun {
            width,
            height,
            frames,
            plan,
            frame: 0,
            row: 0,
            column: 0,
            tiles: Vec::new(),
            buffer: Vec::new(),
            drawn: Ghost(Seq::empty()),
        };
        assert(tile_views(run.tiles@) == run.drawn@.subrange(0, 0));
        assert(tiles_hold(run.drawn@, run.plan.row_bytes(), run.plan.tile_height as int));
        assert(0 < plan.tiles_high * plan.tiles_wide) by (nonlinear_arith)
            requires
                1 <= plan.tiles_high,
                1 <= plan.tiles_wide,
        ;
        run
    }

    /// How the frames are cut into tiles.
    pub fn plan(&self) -> (plan: TilePlan)
        requires
            self.wf(),
        ensures
            plan == self@.plan(),
            plan.wf(),
    {
        self.plan
    }

    /// What the driver has to do next.
    pub fn next(&self) -> (job: Job)
        requires
            self.wf(),
        ensures
            job == self@.next(),
            job matches Job::Draw { frame, column, row } ==> frame < self@.frames && column
                < self@.plan().tiles_wide && row < self@.plan().tiles_high,
    {
        proof {
            lemma_position(
                self.drawn@.len() as int,
                self.plan.tiles_wide as int,
                self.row as int,
                self.column as int,
            );
        }
        if self.frame < self.frames {
            Job::Draw { frame: self.frame, column: self.column, row: self.row }
        } else {
            Job::Done
        }
    }

    /// Takes the pixels of the tile that `next` asked for. With the last
    /// tile of a frame the frame is finished: its tiles are put together,
    /// and the image is made of them for the width and height that were
    /// asked for.
    pub fn tile_drawn(&mut self, pixels: Vec<u8>) -> (finished: Option<Finished>)
        requires
            old(self).wf(),
            !old(self)@.done(),
            pixels@.len() >= old(self)@.plan().tile_bytes(),
        ensures
            final(self).wf(),
            final(self)@.wf(),
            final(self)@ == old(self)@.after(pixels@),
            match finished {
                None => !old(self)@.completes(),
                Some(f) => old(self)@.completes() && finishes(old(self)@, pixels@, f),
            },
    {
        let ghost before = self.drawn@;
        let ghost now = before.push(pixels@);
        let ghost across = self.plan.tiles_wide as int;
        let ghost row_bytes = self.plan.row_bytes();
        let ghost rows = self.plan.tile_height as nat;
        proof {
            lemma_last_tile(
                before.len() as int,
                across,
                self.plan.tiles_high as int,
                self.row as int,
                self.column as int,
            );
            assert(0 <= self.row * across) by (nonlinear_arith)
                requires
                    0 <= self.row,
                    0 <= across,
            ;
            assert(tiles_hold(now, row_bytes, rows as int)) by {
                assert forall|j: int| 0 <= j < now.len() implies (#[trigger] now[j]).len() >= rows
                    * row_bytes by {
                    if j < before.len() {
                        assert(now[j] == before[j]);
                    }
                }
            }
            assert(now.take(before.len() as int) == before);
            lemma_assembled_prefix(before, now, across, row_bytes, rows, self.row as nat);
        }
        let ghost held = tile_views(self.tiles@);
        self.tiles.push(pixels);
        self.drawn = Ghost(now);
        assert(tile_views(self.tiles@) == now.subrange(self.row * across, now.len() as int)) by {
            assert(tile_views(self.tiles@) == held.push(pixels@));
        }
        if self.column + 1 < self.plan.tiles_wide {
            self.column = self.column + 1;
            return None;
        }
        assert(tiles_hold(tile_views(self.tiles@), row_bytes, rows as int)) by {
            assert forall|j: int| 0 <= j < tile_views(self.tiles@).len() implies (
            #[trigger] tile_views(self.tiles@)[j]).len() >= rows * row_bytes by {
                assert(tile_views(self.tiles@)[j] == now[self.row * across + j]);
            }
        }
        assert(self.plan.tile_height * (self.plan.tile_width * 4) <= usize::MAX) by (nonlinear_arith)
            requires
                self.plan.tile_height < 1080,
                self.plan.tile_width < 1080,
        ;
        append_band(&mut self.buffer, &self.tiles, self.plan.tile_width, self.plan.tile_height);
        assert(self.buffer@ == assembled(now, across, row_bytes, rows, (self.row + 1) as nat));
        self.tiles = Vec::new();
        self.column = 0;
        if self.row + 1 < self.plan.tiles_high {
            self.row = self.row + 1;
            assert(tile_views(self.tiles@) == now.subrange(self.row * across, now.len() as int));
            return None;
        }
        let mut buffer: Vec<u8> = Vec::new();
        core::mem::swap(&mut buffer, &mut self.buffer);
        let index = self.frame;
        self.frame = self.frame + 1;
        self.row = 0;
        self.drawn = Ghost(Seq::empty());
        assert(tile_views(self.tiles@) == self.drawn@.subrange(0, 0));
        let bytes = buffer.len();
        Some(Finished { index, bytes, image: frame_image(self.width, self.height, buffer) })
    }
}

} // verus!
