use scratchgen::grid::{canvas_extent, centered_offset, grid_side, parse_background, parse_channel, tile_origin};

#[test]
fn square_totals_give_their_side() {
    assert_eq!(grid_side(0), 0);
    assert_eq!(grid_side(1), 1);
    assert_eq!(grid_side(4), 2);
    assert_eq!(grid_side(9), 3);
    assert_eq!(grid_side(10000), 100);
}

#[test]
fn other_totals_round_the_square_root() {
    assert_eq!(grid_side(2), 1);
    assert_eq!(grid_side(3), 2);
    assert_eq!(grid_side(6), 2);
    assert_eq!(grid_side(7), 3);
    assert_eq!(grid_side(u32::MAX as usize), 65536);
}

#[test]
fn tiles_fill_rows() {
    assert_eq!(tile_origin(0, 3, 256), (0, 0));
    assert_eq!(tile_origin(4, 3, 256), (256, 256));
    assert_eq!(tile_origin(8, 3, 10), (20, 20));
    assert_eq!(canvas_extent(3, 256), 768);
}

#[test]
fn contained_image_is_centred() {
    assert_eq!(centered_offset(10, 4), 3);
    assert_eq!(centered_offset(10, 5), 2);
    assert_eq!(centered_offset(7, 7), 0);
}

#[test]
fn background_from_hex() {
    assert_eq!(parse_background("#ff8000"), [255, 128, 0, 255]);
    assert_eq!(parse_background("#A0b1C2"), [160, 177, 194, 255]);
    assert_eq!(parse_background("#12345678"), [0x12, 0x34, 0x56, 255]);
}

#[test]
fn background_defaults_to_black() {
    assert_eq!(parse_background("#fff"), [0, 0, 0, 255]);
    assert_eq!(parse_background("ff0000x"), [0, 0, 0, 255]);
    assert_eq!(parse_background(""), [0, 0, 0, 255]);
}

#[test]
fn bad_channels_read_as_zero() {
    assert_eq!(parse_background("#zz00ff"), [0, 0, 255, 255]);
    assert_eq!(parse_background("#+f+f-f"), [15, 15, 0, 255]);
    assert_eq!(parse_channel(b'+', b'+'), 0);
    assert_eq!(parse_channel(b'f', b'F'), 255);
}
