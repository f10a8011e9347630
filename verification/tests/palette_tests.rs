use swatch::{clamp, find_biggest_range, most_variant_color, order_by_luminance, Color, Pixel};

fn px(r: i64, g: i64, b: i64) -> Pixel {
    Pixel { r, g, b, x: 0, y: 0 }
}

#[test]
fn widest_channel_is_selected() {
    // R spans 0-200, G spans 0-10, B spans 0-5: red wins.
    let pixels = vec![px(0, 0, 0), px(200, 10, 5), px(100, 5, 2)];
    assert_eq!(find_biggest_range(&pixels), Color::RED);
}

#[test]
fn green_wins_when_it_spreads_widest() {
    let pixels = vec![px(10, 0, 40), px(20, 250, 60), px(15, 100, 50)];
    assert_eq!(find_biggest_range(&pixels), Color::GREEN);
}

#[test]
fn blue_wins_when_it_spreads_widest() {
    let pixels = vec![px(10, 0, 0), px(20, 30, 240), px(15, 10, 100)];
    assert_eq!(find_biggest_range(&pixels), Color::BLUE);
}

#[test]
fn tie_between_red_and_green_prefers_red() {
    // R range and G range both 100, B range 3: precedence picks red.
    let pixels = vec![px(50, 100, 1), px(150, 200, 4), px(100, 150, 2)];
    assert_eq!(find_biggest_range(&pixels), Color::RED);
}

#[test]
fn three_way_tie_prefers_red() {
    let pixels = vec![px(0, 0, 0), px(255, 255, 255)];
    assert_eq!(find_biggest_range(&pixels), Color::RED);
}

#[test]
fn luminance_orders_brightest_first() {
    let mut pixels = vec![px(255, 255, 255), px(0, 0, 0), px(128, 128, 128)];
    order_by_luminance(&mut pixels);
    assert_eq!(pixels[0], px(255, 255, 255));
    assert_eq!(pixels[1], px(128, 128, 128));
    assert_eq!(pixels[2], px(0, 0, 0));
}

#[test]
fn luminance_weighs_green_above_red_above_blue() {
    let mut pixels = vec![px(0, 0, 255), px(0, 255, 0), px(255, 0, 0)];
    order_by_luminance(&mut pixels);
    assert_eq!(pixels[0], px(0, 255, 0));
    assert_eq!(pixels[1], px(255, 0, 0));
    assert_eq!(pixels[2], px(0, 0, 255));
}

#[test]
fn most_variant_color_maximizes_spread() {
    // spreads are 0, 255 and 5: the pure green pixel wins.
    let pixels = vec![px(10, 10, 10), px(0, 255, 0), px(200, 200, 205)];
    let winner = most_variant_color(&pixels);
    assert_eq!(winner, px(0, 255, 0));
}

#[test]
fn most_variant_color_first_seen_wins_ties() {
    // both spreads are 10: the linear scan only updates on strictly
    // greater values, so the first stays.
    let pixels = vec![px(0, 10, 0), px(10, 0, 10)];
    let winner = most_variant_color(&pixels);
    assert_eq!(winner, px(0, 10, 0));
}

#[test]
fn pixel_equality_ignores_coordinates() {
    let a = Pixel { r: 1, g: 2, b: 3, x: 4, y: 5 };
    let b = Pixel { r: 1, g: 2, b: 3, x: 90, y: 91 };
    assert_eq!(a, b);
    let c = Pixel { r: 1, g: 2, b: 4, x: 4, y: 5 };
    assert_ne!(a, c);
}

#[test]
fn clamp_pins_values_into_the_interval() {
    assert_eq!(clamp(300, 0, 255), 255);
    assert_eq!(clamp(-7, 0, 255), 0);
    assert_eq!(clamp(42, 0, 255), 42);
}
