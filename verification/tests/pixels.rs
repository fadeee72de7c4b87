use lumit_bridge::pixels::{fit_contain, letterbox_resize, px_tile};

#[test]
fn fit_contain_letterboxes_and_pillarboxes() {
    // 16:9 into a tall 1080×1920 frame: full width, bars top and bottom.
    let (w, h, ox, oy) = fit_contain(1920, 1080, 1080, 1920);
    assert_eq!((w, ox), (1080, 0));
    assert_eq!(h, 608); // 1080 * 9/16 rounded
    assert_eq!(oy, (1920 - 608) / 2);
    // Exact multiple upscales cleanly, centred.
    assert_eq!(fit_contain(2, 2, 4, 4), (4, 4, 0, 0));
    // Degenerate inputs don't panic.
    assert_eq!(fit_contain(0, 0, 4, 4), (0, 0, 0, 0));
}

#[test]
fn letterbox_puts_the_image_in_a_black_frame() {
    // A solid red 4×2 into a 2×2 target: contain scale 0.5 ⇒ 2×1, so the
    // top row is red and the bottom row is the black bar.
    let red = [255u8, 0, 0, 255];
    let src: Vec<u8> = red.iter().copied().cycle().take(4 * 2 * 4).collect();
    let out = letterbox_resize(&src, 4, 2, 2, 2);
    assert_eq!(&out[0..4], &red); // (0,0) red
    assert_eq!(&out[4..8], &red); // (1,0) red
    assert_eq!(&out[8..12], &[0, 0, 0, 255]); // (0,1) black bar
    assert_eq!(&out[12..16], &[0, 0, 0, 255]); // (1,1) black bar
}

#[test]
fn letterbox_preserves_a_solid_colour() {
    let blue = [0u8, 0, 255, 255];
    let src: Vec<u8> = blue.iter().copied().cycle().take(2 * 2 * 4).collect();
    // Same aspect (square → square) fills the whole target with blue.
    let out = letterbox_resize(&src, 2, 2, 8, 8);
    for px in out.chunks_exact(4) {
        assert_eq!(px, &blue);
    }
}

#[test]
fn fit_contain_pillarboxes_a_tall_source() {
    // A 9:16 source into a 16:9 frame keeps the full height and centres a
    // narrow column: 1080 · 9/16 = 607.5 rounds to 608.
    assert_eq!(fit_contain(1080, 1920, 1920, 1080), (608, 1080, (1920 - 608) / 2, 0));
    // A zero target dimension is degenerate too.
    assert_eq!(fit_contain(4, 4, 0, 4), (0, 0, 0, 0));
    // The scaled side never collapses below one pixel.
    assert_eq!(fit_contain(1000, 1, 10, 10), (10, 1, 0, 4));
}

#[test]
fn letterbox_of_a_short_source_is_opaque_black() {
    let out = letterbox_resize(&[1, 2, 3], 2, 2, 3, 1);
    assert_eq!(out, vec![0, 0, 0, 255, 0, 0, 0, 255, 0, 0, 0, 255]);
}

#[test]
fn letterbox_blends_neighbouring_pixels() {
    // A 2×1 two-pixel ramp into 4×2 (same aspect): samples at source x =
    // -0.25, 0.25, 0.75, 1.25 clamp to the end pixels and blend in between;
    // both rows read the single source row.
    let src = vec![0, 0, 0, 255, 200, 100, 40, 255];
    let out = letterbox_resize(&src, 2, 1, 4, 2);
    let row = vec![0, 0, 0, 255, 50, 25, 10, 255, 150, 75, 30, 255, 200, 100, 40, 255];
    assert_eq!(&out[0..16], &row[..]);
    assert_eq!(&out[16..32], &row[..]);
    // A 2×1 source into 4×1 is pillarboxed: two pixels centred, bars beside.
    let out = letterbox_resize(&src, 2, 1, 4, 1);
    assert_eq!(out, vec![0, 0, 0, 255, 0, 0, 0, 255, 200, 100, 40, 255, 0, 0, 0, 255]);
}

#[test]
fn px_tile_repeats_the_pixel() {
    let out = px_tile(&[1, 2, 3, 4], 3, 2);
    assert_eq!(out.len(), 24);
    for px in out.chunks_exact(4) {
        assert_eq!(px, &[1, 2, 3, 4]);
    }
    assert!(px_tile(&[9, 9, 9, 9], 0, 5).is_empty());
}
