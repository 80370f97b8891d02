use selva::frame::append_band;

/// A tile of `width` times `height` pixels whose bytes tell where they
/// come from: the tile, the row, and the place in the row.
fn tile(id: u8, width: u32, height: u32) -> Vec<u8> {
    let mut bytes = Vec::new();
    for row in 0..height {
        for at in 0..width * 4 {
            bytes.push(id * 100 + row as u8 * 10 + at as u8);
        }
    }
    bytes
}

#[test]
fn rows_of_two_tiles_alternate() {
    let mut buffer = Vec::new();
    append_band(&mut buffer, &vec![tile(0, 1, 2), tile(1, 1, 2)], 1, 2);
    assert_eq!(
        buffer,
        vec![0, 1, 2, 3, 100, 101, 102, 103, 10, 11, 12, 13, 110, 111, 112, 113]
    );
}

#[test]
fn band_is_appended_to_what_is_there() {
    let mut buffer = vec![255, 254];
    append_band(&mut buffer, &vec![tile(0, 1, 1)], 1, 1);
    assert_eq!(buffer, vec![255, 254, 0, 1, 2, 3]);
}

#[test]
fn one_tile_is_copied() {
    let mut buffer = Vec::new();
    let only = tile(0, 2, 3);
    append_band(&mut buffer, &vec![only.clone()], 2, 3);
    assert_eq!(buffer, only);
}

#[test]
fn tiles_without_rows_give_nothing() {
    let mut buffer = vec![1];
    append_band(&mut buffer, &vec![Vec::new(), Vec::new()], 5, 0);
    assert_eq!(buffer, vec![1]);
}

#[test]
fn no_tiles_give_nothing() {
    let mut buffer = vec![1];
    append_band(&mut buffer, &Vec::new(), 5, 5);
    assert_eq!(buffer, vec![1]);
}

#[test]
fn what_a_tile_holds_beyond_its_rows_is_left_out() {
    let mut buffer = Vec::new();
    let mut long = tile(0, 1, 1);
    long.extend([9, 9, 9, 9]);
    append_band(&mut buffer, &vec![long, tile(1, 1, 1)], 1, 1);
    assert_eq!(buffer, vec![0, 1, 2, 3, 100, 101, 102, 103]);
}

#[test]
fn each_byte_stands_where_its_pixel_is() {
    let (width, height, across) = (3u32, 4u32, 3usize);
    let tiles: Vec<Vec<u8>> = (0..across).map(|j| tile(j as u8, width, height)).collect();
    let mut buffer = Vec::new();
    append_band(&mut buffer, &tiles, width, height);
    let row_bytes = width as usize * 4;
    assert_eq!(buffer.len(), height as usize * across * row_bytes);
    for k in 0..height as usize {
        for j in 0..across {
            for b in 0..row_bytes {
                assert_eq!(
                    buffer[k * (across * row_bytes) + j * row_bytes + b],
                    tiles[j][k * row_bytes + b]
                );
            }
        }
    }
}
