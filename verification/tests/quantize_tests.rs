use swatch::{quantize, Canvas, Pixel};

fn px(r: i64, g: i64, b: i64) -> Pixel {
    Pixel { r, g, b, x: 0, y: 0 }
}

fn px_at(r: i64, g: i64, b: i64, x: i64, y: i64) -> Pixel {
    Pixel { r, g, b, x, y }
}

#[test]
fn leaf_count_is_two_to_the_depth() {
    let mut pixels = vec![
        px(0, 0, 0),
        px(10, 20, 30),
        px(200, 100, 50),
        px(255, 255, 255),
        px(5, 5, 5),
        px(90, 14, 200),
        px(33, 44, 55),
        px(1, 2, 3),
    ];
    let mut canvas = Canvas::new(1, 1);
    let palette = quantize(&mut pixels, 2, &mut canvas);
    assert_eq!(palette.len(), 4);

    let mut pixels2 = vec![
        px(0, 0, 0),
        px(10, 20, 30),
        px(200, 100, 50),
        px(255, 255, 255),
        px(5, 5, 5),
        px(90, 14, 200),
        px(33, 44, 55),
        px(1, 2, 3),
    ];
    let palette2 = quantize(&mut pixels2, 3, &mut canvas);
    assert_eq!(palette2.len(), 8);
}

#[test]
fn depth_zero_returns_single_truncated_mean() {
    let mut pixels = vec![px(0, 0, 0), px(255, 255, 255)];
    let mut canvas = Canvas::new(1, 1);
    let palette = quantize(&mut pixels, 0, &mut canvas);
    assert_eq!(palette.len(), 1);
    assert_eq!(palette[0].r, 127);
    assert_eq!(palette[0].g, 127);
    assert_eq!(palette[0].b, 127);
}

#[test]
fn odd_bucket_splits_two_then_three() {
    // Five pixels spread on the red channel alone: the midpoint split puts
    // two in the left bucket and three in the right, left first.
    let mut pixels = vec![px(30, 0, 0), px(10, 0, 0), px(50, 0, 0), px(20, 0, 0), px(40, 0, 0)];
    let mut canvas = Canvas::new(1, 1);
    let palette = quantize(&mut pixels, 1, &mut canvas);
    assert_eq!(palette.len(), 2);
    // left bucket {10, 20}: mean 15; right bucket {30, 40, 50}: mean 40
    assert_eq!(palette[0].r, 15);
    assert_eq!(palette[1].r, 40);
    assert_eq!(palette[0].g, 0);
    assert_eq!(palette[1].b, 0);
}

#[test]
fn uniform_input_round_trips_at_any_depth() {
    for depth in 0..3usize {
        let mut pixels = vec![px(13, 200, 77); 9];
        let mut canvas = Canvas::new(1, 1);
        let palette = quantize(&mut pixels, depth, &mut canvas);
        assert_eq!(palette.len(), 1usize << depth);
        for p in &palette {
            assert_eq!(p.r, 13);
            assert_eq!(p.g, 200);
            assert_eq!(p.b, 77);
        }
    }
}

#[test]
fn depth_zero_repaints_every_source_coordinate() {
    let mut pixels = vec![px_at(10, 20, 30, 0, 0), px_at(20, 40, 60, 1, 0)];
    let mut canvas = Canvas::new(2, 2);
    let palette = quantize(&mut pixels, 0, &mut canvas);
    assert_eq!(palette.len(), 1);
    // both covered coordinates hold the bucket mean
    assert_eq!(canvas.get_pixel(0, 0), (15, 30, 45));
    assert_eq!(canvas.get_pixel(1, 0), (15, 30, 45));
    // an uncovered coordinate keeps its original black
    assert_eq!(canvas.get_pixel(0, 1), (0, 0, 0));
    assert_eq!(canvas.get_pixel(1, 1), (0, 0, 0));
}

#[test]
fn canvas_reports_its_dimensions() {
    let canvas = Canvas::new(7, 3);
    assert_eq!(canvas.width(), 7);
    assert_eq!(canvas.height(), 3);
}

#[test]
fn ragged_input_still_fills_every_leaf() {
    // Five pixels at depth two: floor-division splits leave uneven buckets
    // deep in the recursion, yet every leaf still holds at least one pixel.
    let mut pixels = vec![px(0, 0, 0), px(60, 0, 0), px(120, 0, 0), px(180, 0, 0), px(240, 0, 0)];
    let mut canvas = Canvas::new(1, 1);
    let palette = quantize(&mut pixels, 2, &mut canvas);
    assert_eq!(palette.len(), 4);
    // buckets after sorting on red: {0}, {60}, {120}, {180, 240}
    assert_eq!(palette[0].r, 0);
    assert_eq!(palette[1].r, 60);
    assert_eq!(palette[2].r, 120);
    assert_eq!(palette[3].r, 210);
}

#[test]
fn input_buffer_is_only_reordered() {
    let mut pixels = vec![px(9, 1, 4), px(3, 7, 2), px(200, 5, 8), px(100, 6, 0)];
    let mut canvas = Canvas::new(1, 1);
    let _ = quantize(&mut pixels, 1, &mut canvas);
    assert_eq!(pixels.len(), 4);
    let mut reds: Vec<i64> = pixels.iter().map(|p| p.r).collect();
    reds.sort_unstable();
    assert_eq!(reds, vec![3, 9, 100, 200]);
}

#[test]
fn deeper_split_separates_clusters() {
    // Two tight clusters far apart on red: depth one recovers both means.
    let mut pixels = vec![px(0, 0, 0), px(2, 0, 0), px(253, 0, 0), px(255, 0, 0)];
    let mut canvas = Canvas::new(1, 1);
    let palette = quantize(&mut pixels, 1, &mut canvas);
    assert_eq!(palette.len(), 2);
    assert_eq!(palette[0].r, 1);
    assert_eq!(palette[1].r, 254);
}
