use swrt::{advance, from_rgb, to_rgb_bytes, Block, Timer};

#[test]
fn packs_channels_into_argb() {
    assert_eq!(from_rgb(0, 0, 0), 0xFF00_0000);
    assert_eq!(from_rgb(255, 255, 255), 0xFFFF_FFFF);
    assert_eq!(from_rgb(0x12, 0x34, 0x56), 0xFF12_3456);
}

#[test]
fn saturated_radiance_packs_to_peak_channel() {
    // A fully bright channel after tone mapping is the byte 255; packing it
    // yields the maximum 8-bit value in every color lane.
    let white = from_rgb(255, 255, 255);
    assert_eq!(white & 0x00FF_FFFF, 0x00FF_FFFF);
}

#[test]
fn rgb_bytes_drop_alpha_and_keep_order() {
    let buffer = vec![from_rgb(1, 2, 3), from_rgb(250, 251, 252)];
    let bytes = to_rgb_bytes(&buffer);
    assert_eq!(bytes, vec![1, 2, 3, 250, 251, 252]);
}

#[test]
fn rgb_bytes_of_empty_buffer() {
    let buffer: Vec<u32> = Vec::new();
    assert_eq!(to_rgb_bytes(&buffer).len(), 0);
}

#[test]
fn draw_places_block_pixels() {
    // 4x4 image, tiles of edge 2; the tile at grid (1, 1) owns the bottom
    // right quadrant.
    let b = Block { x: 1, y: 1, block_size: 2, sample: 0, samples_to_do: 1 };
    let colors = vec![10, 11, 12, 13];
    let mut buffer = vec![0u32; 16];
    b.draw(&colors, &mut buffer, 4, 4);
    let expected = vec![
        0, 0, 0, 0,
        0, 0, 0, 0,
        0, 0, 10, 11,
        0, 0, 12, 13,
    ];
    assert_eq!(buffer, expected);
}

#[test]
fn draw_clips_at_image_edges() {
    // 3x3 image, tiles of edge 2; the tile at grid (1, 1) only owns the
    // single bottom-right pixel.
    let b = Block { x: 1, y: 1, block_size: 2, sample: 0, samples_to_do: 1 };
    let colors = vec![20, 21, 22, 23];
    let mut buffer = vec![9u32; 9];
    b.draw(&colors, &mut buffer, 3, 3);
    let expected = vec![
        9, 9, 9,
        9, 9, 9,
        9, 9, 20,
    ];
    assert_eq!(buffer, expected);
}

#[test]
fn pixel_coords_map_cells_to_the_image() {
    let b = Block { x: 1, y: 2, block_size: 2, sample: 0, samples_to_do: 1 };
    assert_eq!(b.pixel_coords(0), (2, 4));
    assert_eq!(b.pixel_coords(1), (3, 4));
    assert_eq!(b.pixel_coords(2), (2, 5));
    assert_eq!(b.pixel_coords(3), (3, 5));
}

#[test]
fn block_done_when_budget_reached() {
    let b = Block { x: 0, y: 0, block_size: 2, sample: 9, samples_to_do: 1 };
    assert!(!b.is_done(10));
    assert!(b.is_done(9));
    assert!(b.is_done(1));
}

#[test]
fn timer_carry_arithmetic() {
    assert_eq!(advance(5, 10, 3), (8, false));
    assert_eq!(advance(5, 10, 7), (2, true));
    assert_eq!(advance(0, 10, 25), (5, true));
    assert_eq!(advance(9, 10, 1), (0, true));
    assert_eq!(advance(0, 1, 0), (0, false));
}

#[test]
fn timer_runs_without_firing_early() {
    // A tick of an hour cannot have elapsed during this test.
    let mut t = Timer::new(3_600_000_000_000);
    assert!(!t.update());
    assert!(!t.update());
}

#[test]
fn tiles_compose_into_the_whole_image() {
    // A 5x3 image cut into 2-pixel tiles: drawing every tile with its own
    // uniform color paints each pixel with the color of the tile that owns
    // it, including the clipped right column and bottom row.
    let width = 5;
    let height = 3;
    let bs = 2;
    let mut buffer = vec![0xDEAD_u32; width * height];
    for ty in 0..2 {
        for tx in 0..3 {
            let b = Block { x: tx, y: ty, block_size: bs, sample: 1, samples_to_do: 1 };
            let fill = (ty * 3 + tx + 1) as u32;
            let colors = vec![fill; bs * bs];
            b.draw(&colors, &mut buffer, width, height);
        }
    }
    let expected = vec![
        1, 1, 2, 2, 3,
        1, 1, 2, 2, 3,
        4, 4, 5, 5, 6,
    ];
    assert_eq!(buffer, expected);
}
