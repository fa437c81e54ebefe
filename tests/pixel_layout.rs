use pathtrace::pixel::{buffer_index, channel, pack_rgb, pixel_of_index, render_row};

#[test]
fn pack_rgb_places_channels() {
    assert_eq!(pack_rgb(0x12, 0x34, 0x56), 0x123456);
    assert_eq!(pack_rgb(255, 0, 0), 0xff0000);
    assert_eq!(pack_rgb(0, 255, 0), 0x00ff00);
    assert_eq!(pack_rgb(0, 0, 255), 0x0000ff);
    assert_eq!(pack_rgb(0, 0, 0), 0);
}

#[test]
fn pack_rgb_clamps_overflowing_channels() {
    assert_eq!(pack_rgb(256, 0, 0), 0xff0000);
    assert_eq!(pack_rgb(1000, 300, 7), 0xffff07);
    assert_eq!(pack_rgb(u32::MAX, u32::MAX, u32::MAX), 0xffffff);
}

#[test]
fn channel_recovers_packed_values() {
    let w = pack_rgb(200, 100, 50);
    assert_eq!(channel(w, 16), 200);
    assert_eq!(channel(w, 8), 100);
    assert_eq!(channel(w, 0), 50);
}

#[test]
fn buffer_index_flips_rows() {
    // bottom-left pixel lives at the start of the last row
    assert_eq!(buffer_index(0, 0, 640, 320), 319 * 640);
    // top-left pixel lives at the start of the buffer
    assert_eq!(buffer_index(0, 319, 640, 320), 0);
    assert_eq!(buffer_index(639, 319, 640, 320), 639);
    assert_eq!(buffer_index(5, 2, 10, 4), 15);
    assert_eq!(buffer_index(0, 0, 1, 1), 0);
}

#[test]
fn pixel_of_index_inverts_buffer_index() {
    let (w, h) = (7usize, 5usize);
    for i in 0..w * h {
        let (x, y) = pixel_of_index(i, w, h);
        assert!(x < w && y < h);
        assert_eq!(buffer_index(x, y, w, h), i);
    }
    assert_eq!(pixel_of_index(0, 640, 320), (0, 319));
    assert_eq!(pixel_of_index(640 * 320 - 1, 640, 320), (639, 0));
}

#[test]
fn render_row_shows_flipped_image_row() {
    let (w, h) = (4usize, 3usize);
    let shade = |x: usize, y: usize| (10 * y + x) as u32;
    assert_eq!(render_row(0, w, h, &shade), vec![20, 21, 22, 23]);
    assert_eq!(render_row(2, w, h, &shade), vec![0, 1, 2, 3]);
    let mut frame = Vec::new();
    for row in 0..h {
        frame.extend(render_row(row, w, h, &shade));
    }
    for y in 0..h {
        for x in 0..w {
            assert_eq!(frame[buffer_index(x, y, w, h)], (10 * y + x) as u32);
        }
    }
}
