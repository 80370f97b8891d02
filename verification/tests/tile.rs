use selva::tile::{plan, TilePlan, TILE_SIZE};

/// The first of the counts 1, 2, 4, 6, ... that gives tiles below the
/// ceiling, found by trying them in turn.
fn first_fit(dimension: u32) -> (usize, u32) {
    (0u32..)
        .map(|i| dimension / std::cmp::max(i * 2, 1))
        .enumerate()
        .map(|(i, size)| (std::cmp::max(i * 2, 1), size))
        .find(|&(_, size)| size < 1080)
        .unwrap()
}

#[test]
fn ceiling_is_1080() {
    assert_eq!(TILE_SIZE, 1080);
}

#[test]
fn small_dimension_is_one_tile() {
    assert_eq!(plan(500), (1, 500));
}

#[test]
fn ceiling_itself_is_split() {
    assert_eq!(plan(1080), (2, 540));
}

#[test]
fn just_below_ceiling_is_one_tile() {
    assert_eq!(plan(1079), (1, 1079));
}

#[test]
fn zero_dimension_is_one_empty_tile() {
    assert_eq!(plan(0), (1, 0));
}

#[test]
fn two_thousand_is_two_tiles_that_cover_it() {
    let (count, size) = plan(2000);
    assert_eq!((count, size), (2, 1000));
    assert_eq!(count as u32 * size, 2000);
}

#[test]
fn counts_go_from_two_to_four() {
    assert_eq!(plan(2159), (2, 1079));
    assert_eq!(plan(2160), (4, 540));
}

#[test]
fn rest_is_left_uncovered() {
    let (count, size) = plan(2161);
    assert_eq!((count, size), (4, 540));
    assert_eq!(count as u32 * size, 2160);
    assert_eq!(2161 % count as u32, 1);
}

#[test]
fn largest_dimension_is_planned() {
    let (count, size) = plan(u32::MAX);
    assert_eq!(count, 2 * (u32::MAX as usize / 2160 + 1));
    assert_eq!(size, u32::MAX / count as u32);
    assert!(size < 1080);
}

#[test]
fn every_plan_is_below_ceiling_with_one_or_even_count() {
    let mut dimension: u32 = 1;
    while dimension < 200_000 {
        let (count, size) = plan(dimension);
        assert!(size < 1080, "dimension {}", dimension);
        assert!(count == 1 || count % 2 == 0, "dimension {}", dimension);
        assert_eq!(size, dimension / count as u32);
        dimension += 7;
    }
}

#[test]
fn plan_is_first_fit() {
    for dimension in 0..20_000u32 {
        assert_eq!(plan(dimension), first_fit(dimension), "dimension {}", dimension);
    }
    for dimension in [1_000_000u32, 4_000_000, 123_456_789, u32::MAX - 1, u32::MAX] {
        assert_eq!(plan(dimension), first_fit(dimension), "dimension {}", dimension);
    }
}

#[test]
fn count_has_closed_form() {
    for dimension in (0..50_000u32).step_by(13) {
        let expected = if dimension < 1080 { 1 } else { 2 * (dimension as usize / 2160 + 1) };
        assert_eq!(plan(dimension).0, expected);
    }
}

#[test]
fn tiles_cover_all_but_a_rest() {
    for dimension in (0..50_000u32).step_by(11) {
        let (count, size) = plan(dimension);
        let count = count as u32;
        assert_eq!(count * size + dimension % count, dimension);
        assert_eq!(count * size == dimension, dimension % count == 0);
    }
}

#[test]
fn both_axes_are_planned() {
    let plan = TilePlan::new(2000, 500);
    assert_eq!(
        plan,
        TilePlan { tiles_wide: 2, tile_width: 1000, tiles_high: 1, tile_height: 500 }
    );
    assert_eq!(plan.tile_len(), 1000 * 500 * 4);
}

#[test]
fn default_frame_is_one_tile() {
    let plan = TilePlan::new(500, 500);
    assert_eq!(
        plan,
        TilePlan { tiles_wide: 1, tile_width: 500, tiles_high: 1, tile_height: 500 }
    );
    assert_eq!(plan.tile_len(), 1_000_000);
}
