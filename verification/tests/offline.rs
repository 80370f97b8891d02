use selva::encode::frame_file_name;
use selva::offline::{Job, OfflineRun};
use selva::tile::TilePlan;

#[test]
fn default_frame_is_one_tile_and_one_file() {
    let mut run = OfflineRun::new(500, 500, 1);
    assert_eq!(
        run.plan(),
        TilePlan { tiles_wide: 1, tile_width: 500, tiles_high: 1, tile_height: 500 }
    );
    assert_eq!(run.next(), Job::Draw { frame: 0, column: 0, row: 0 });
    let finished = run.tile_drawn(vec![7; 500 * 500 * 4]).unwrap();
    assert_eq!(finished.index, 0);
    assert_eq!(finished.bytes, 1_000_000);
    let frame = finished.image.unwrap();
    assert_eq!(frame.image.as_raw().len(), 1_000_000);
    assert_eq!(frame.image.dimensions(), (500, 500));
    assert_eq!(frame_file_name("output", finished.index), "output_0.png");
    assert_eq!(run.next(), Job::Done);
}

#[test]
fn wide_frame_is_two_tiles_side_by_side() {
    let mut run = OfflineRun::new(2000, 500, 1);
    let plan = run.plan();
    assert!(plan.tiles_wide > 1);
    assert_eq!(plan.tiles_wide as u32 * plan.tile_width, 2000);
    assert_eq!(run.next(), Job::Draw { frame: 0, column: 0, row: 0 });
    assert!(run.tile_drawn(vec![1; plan.tile_len()]).is_none());
    assert_eq!(run.next(), Job::Draw { frame: 0, column: 1, row: 0 });
    let finished = run.tile_drawn(vec![2; plan.tile_len()]).unwrap();
    let frame = finished.image.unwrap();
    assert_eq!(frame.image.dimensions(), (2000, 500));
    let bytes = frame.image.as_raw();
    assert_eq!(bytes.len(), 2000 * 500 * 4);
    assert_eq!(bytes.len(), plan.tiles_wide * plan.tile_width as usize * 500 * 4);
    for scanline in [0usize, 1, 250, 499] {
        let start = scanline * 2000 * 4;
        assert!(bytes[start..start + 4000].iter().all(|byte| *byte == 1));
        assert!(bytes[start + 4000..start + 8000].iter().all(|byte| *byte == 2));
    }
    assert_eq!(run.next(), Job::Done);
}

#[test]
fn frame_that_tiles_do_not_cover_gives_no_image() {
    let mut run = OfflineRun::new(2161, 2, 1);
    let plan = run.plan();
    assert_eq!(
        plan,
        TilePlan { tiles_wide: 4, tile_width: 540, tiles_high: 1, tile_height: 2 }
    );
    for column in 0..3 {
        assert_eq!(run.next(), Job::Draw { frame: 0, column, row: 0 });
        assert!(run.tile_drawn(vec![0; plan.tile_len()]).is_none());
    }
    let finished = run.tile_drawn(vec![0; plan.tile_len()]).unwrap();
    assert_eq!(finished.index, 0);
    assert_eq!(finished.bytes, 4 * 540 * 2 * 4);
    assert!(finished.image.is_none());
    assert_eq!(run.next(), Job::Done);
}

#[test]
fn tiles_are_drawn_row_by_row_and_lie_as_on_one_canvas() {
    let mut run = OfflineRun::new(1080, 1080, 1);
    let plan = run.plan();
    assert_eq!(
        plan,
        TilePlan { tiles_wide: 2, tile_width: 540, tiles_high: 2, tile_height: 540 }
    );
    let mut jobs = Vec::new();
    let mut finished = None;
    while let Job::Draw { frame, column, row } = run.next() {
        jobs.push((frame, column, row));
        let mut pixels = Vec::with_capacity(plan.tile_len());
        for y in 0..540usize {
            for x in 0..540usize {
                pixels.extend([column as u8, row as u8, (x % 251) as u8, (y % 251) as u8]);
            }
        }
        finished = run.tile_drawn(pixels);
        assert_eq!(finished.is_some(), jobs.len() == 4);
    }
    assert_eq!(jobs, vec![(0, 0, 0), (0, 1, 0), (0, 0, 1), (0, 1, 1)]);
    let frame = finished.unwrap().image.unwrap();
    assert_eq!(frame.image.dimensions(), (1080, 1080));
    for (x, y) in [(0u32, 0u32), (539, 0), (540, 0), (1079, 539), (0, 540), (700, 900), (1079, 1079)] {
        let pixel = frame.image.get_pixel(x, y).0;
        assert_eq!(
            pixel,
            [(x / 540) as u8, (y / 540) as u8, (x % 540 % 251) as u8, (y % 540 % 251) as u8]
        );
    }
}

#[test]
fn frames_are_rendered_one_after_the_other() {
    let mut run = OfflineRun::new(2, 1, 3);
    for index in 0..3usize {
        assert_eq!(run.next(), Job::Draw { frame: index, column: 0, row: 0 });
        let finished = run.tile_drawn(vec![index as u8; 8]).unwrap();
        assert_eq!(finished.index, index);
        assert_eq!(finished.image.unwrap().image.as_raw(), &vec![index as u8; 8]);
    }
    assert_eq!(run.next(), Job::Done);
}

#[test]
fn run_of_no_frames_is_done_at_once() {
    let run = OfflineRun::new(500, 500, 0);
    assert_eq!(run.next(), Job::Done);
}

#[test]
fn frame_without_height_is_one_empty_tile() {
    let mut run = OfflineRun::new(500, 0, 1);
    assert_eq!(run.plan().tile_len(), 0);
    let finished = run.tile_drawn(Vec::new()).unwrap();
    assert_eq!(finished.image.unwrap().image.as_raw().len(), 0);
}
