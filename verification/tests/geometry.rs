use detemplatize::error::Error;
use detemplatize::grid::Grid;
use detemplatize::grid::BYTES_PER_PIXEL;

fn numbered(len: usize) -> Vec<u8> {
    (0..len).map(|i| (i % 251) as u8).collect()
}

#[test]
fn a_pixel_has_four_bytes() {
    assert_eq!(BYTES_PER_PIXEL, 4);
}

#[test]
fn grid_keeps_what_it_was_made_of() {
    let grid = Grid::new(64, 4, 2, 2).unwrap();
    assert_eq!(grid.buffer_len(), 64);
    assert_eq!(grid.buffer_width(), 4);
    assert_eq!(grid.block_width(), 2);
    assert_eq!(grid.block_height(), 2);
    assert_eq!(grid.blocks(), 4);
}

#[test]
fn block_count_is_length_by_block_bytes() {
    assert_eq!(Grid::new(16, 2, 2, 2).unwrap().blocks(), 1);
    assert_eq!(Grid::new(6 * 4 * 4, 6, 3, 2).unwrap().blocks(), 4);
    assert_eq!(Grid::new(40, 6, 2, 1).unwrap().blocks(), 5);
    assert_eq!(Grid::new(4, 1, 1, 1).unwrap().blocks(), 1);
    assert_eq!(Grid::new(0, 8, 2, 2).unwrap().blocks(), 0);
}

#[test]
fn block_origins_in_a_four_by_four_buffer() {
    let grid = Grid::new(64, 4, 2, 2).unwrap();
    assert_eq!(grid.block_origin(0), 0);
    assert_eq!(grid.block_origin(1), 8);
    assert_eq!(grid.block_origin(2), 32);
    assert_eq!(grid.block_origin(3), 40);
}

#[test]
fn block_origins_with_three_blocks_in_a_row() {
    let grid = Grid::new(12 * 6 * 4, 12, 4, 3).unwrap();
    assert_eq!(grid.blocks(), 6);
    assert_eq!(grid.block_origin(0), 0);
    assert_eq!(grid.block_origin(1), 16);
    assert_eq!(grid.block_origin(2), 32);
    assert_eq!(grid.block_origin(3), 144);
    assert_eq!(grid.block_origin(4), 160);
    assert_eq!(grid.block_origin(5), 176);
}

#[test]
fn local_offsets_follow_the_rows_of_the_buffer() {
    let grid = Grid::new(64, 4, 2, 2).unwrap();
    assert_eq!(grid.local_offset(0), 0);
    assert_eq!(grid.local_offset(1), 4);
    assert_eq!(grid.local_offset(2), 16);
    assert_eq!(grid.local_offset(3), 20);
    let grid = Grid::new(12 * 6 * 4, 12, 4, 3).unwrap();
    assert_eq!(grid.local_offset(3), 12);
    assert_eq!(grid.local_offset(4), 48);
    assert_eq!(grid.local_offset(11), 108);
}

#[test]
fn gather_reads_the_pixels_of_one_block() {
    let buffer = numbered(64);
    let grid = Grid::new(64, 4, 2, 2).unwrap();
    assert_eq!(
        grid.gather(&buffer, 0),
        vec![[0, 1, 2, 3], [4, 5, 6, 7], [16, 17, 18, 19], [20, 21, 22, 23]]
    );
    assert_eq!(
        grid.gather(&buffer, 3),
        vec![
            [40, 41, 42, 43],
            [44, 45, 46, 47],
            [56, 57, 58, 59],
            [60, 61, 62, 63]
        ]
    );
}

#[test]
fn gather_reads_every_byte_once() {
    let buffer = numbered(12 * 6 * 4);
    let grid = Grid::new(buffer.len(), 12, 4, 3).unwrap();
    let mut seen = vec![0usize; buffer.len() / 4];
    for block_index in 0..grid.blocks() {
        let block = grid.gather(&buffer, block_index);
        assert_eq!(block.len(), 12);
        for (local_index, pixel) in block.iter().enumerate() {
            let position = grid.block_origin(block_index) + grid.local_offset(local_index);
            assert_eq!(&buffer[position..position + 4], &pixel[..]);
            seen[position / 4] += 1;
        }
    }
    assert!(seen.iter().all(|count| *count == 1));
}

#[test]
fn one_pixel_high_blocks_may_end_within_a_row() {
    let buffer = numbered(40);
    let grid = Grid::new(40, 6, 2, 1).unwrap();
    assert_eq!(grid.block_origin(4), 32);
    assert_eq!(grid.gather(&buffer, 4), vec![[32, 33, 34, 35], [36, 37, 38, 39]]);
    let grid = Grid::new(8, 4, 2, 1).unwrap();
    assert_eq!(grid.blocks(), 1);
}

#[test]
fn empty_buffer_fits_any_sound_geometry() {
    assert_eq!(Grid::new(0, 0, 1, 1).unwrap().blocks(), 0);
    assert_eq!(Grid::new(0, 4, 2, 2).unwrap().blocks(), 0);
    assert_eq!(
        Grid::new(0, u32::MAX, u32::MAX, u32::MAX).unwrap().blocks(),
        0
    );
}

#[test]
fn block_without_area_is_refused() {
    assert_eq!(Grid::new(16, 2, 0, 2).err(), Some(Error::MalformedGeometry));
    assert_eq!(Grid::new(16, 2, 2, 0).err(), Some(Error::MalformedGeometry));
    assert_eq!(Grid::new(0, 0, 0, 0).err(), Some(Error::MalformedGeometry));
}

#[test]
fn width_that_blocks_do_not_fill_is_refused() {
    assert_eq!(Grid::new(5 * 2 * 4, 5, 2, 2).err(), Some(Error::MalformedGeometry));
    assert_eq!(Grid::new(16, 1, 2, 2).err(), Some(Error::MalformedGeometry));
    assert_eq!(Grid::new(0, 3, 2, 1).err(), Some(Error::MalformedGeometry));
}

#[test]
fn length_that_blocks_do_not_fill_is_refused() {
    assert_eq!(Grid::new(17, 2, 2, 2).err(), Some(Error::MalformedGeometry));
    assert_eq!(Grid::new(15, 2, 2, 2).err(), Some(Error::MalformedGeometry));
    assert_eq!(Grid::new(24, 2, 2, 2).err(), Some(Error::MalformedGeometry));
    assert_eq!(Grid::new(3, 1, 1, 1).err(), Some(Error::MalformedGeometry));
}

#[test]
fn buffer_without_width_is_refused() {
    assert_eq!(Grid::new(16, 0, 2, 2).err(), Some(Error::MalformedGeometry));
    assert_eq!(Grid::new(4, 0, 1, 1).err(), Some(Error::MalformedGeometry));
}

#[test]
fn last_row_of_blocks_must_be_full() {
    assert_eq!(Grid::new(16, 4, 2, 2).err(), Some(Error::MalformedGeometry));
    assert_eq!(Grid::new(3 * 16, 4, 2, 2).err(), Some(Error::MalformedGeometry));
    assert_eq!(Grid::new(4 * 16, 4, 2, 2).unwrap().blocks(), 4);
    assert_eq!(Grid::new(5 * 24, 6, 2, 3).err(), Some(Error::MalformedGeometry));
}

#[test]
fn blocks_too_large_for_the_buffer_are_refused() {
    assert_eq!(
        Grid::new(16, u32::MAX, u32::MAX, u32::MAX).err(),
        Some(Error::MalformedGeometry)
    );
    assert_eq!(Grid::new(16, 4, 4, 4).err(), Some(Error::MalformedGeometry));
}
