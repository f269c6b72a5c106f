use doryen_rs::color::{color_add, color_blend, color_dist, color_mul, color_scale};

/// Reference computation for one blended channel, mirroring the contract:
/// weight = (num * a2) / (den * 255), rounded toward zero.
fn blend_ref(c1: u8, c2: u8, a2: u8, num: u64, den: u64) -> u8 {
    let wn = num * a2 as u64;
    let wd = den * 255;
    (((wd - wn) * c1 as u64 + wn * c2 as u64) / wd) as u8
}

#[test]
fn blend_alpha_zero_returns_first_color() {
    let c1 = (10, 20, 30, 40);
    let c2 = (200, 210, 220, 230);
    assert_eq!(color_blend(c1, c2, 0, 1), (10, 20, 30, 255));
    assert_eq!(color_blend(c1, c2, 0, 7), (10, 20, 30, 255));
}

#[test]
fn blend_alpha_one_returns_opaque_second_color() {
    let c1 = (10, 20, 30, 40);
    let c2 = (200, 210, 220, 255);
    assert_eq!(color_blend(c1, c2, 1, 1), (200, 210, 220, 255));
    assert_eq!(color_blend(c1, c2, 5, 5), (200, 210, 220, 255));
}

#[test]
fn blend_weights_by_incoming_alpha() {
    // a fully transparent incoming color leaves the channels unchanged
    // even at alpha one; only the output alpha is forced to 255
    let c1 = (10, 20, 30, 99);
    let transparent = (200, 210, 220, 0);
    assert_eq!(color_blend(c1, transparent, 1, 1), (10, 20, 30, 255));
    // a half-transparent incoming color at alpha 1/2 weighs 1/4
    let c2 = (200, 100, 0, 128);
    let r = color_blend(c1, c2, 1, 2);
    assert_eq!(
        r,
        (
            blend_ref(10, 200, 128, 1, 2),
            blend_ref(20, 100, 128, 1, 2),
            blend_ref(30, 0, 128, 1, 2),
            255
        )
    );
}

#[test]
fn blend_half_of_opaque_colors() {
    let black = (0, 0, 0, 255);
    let white = (255, 255, 255, 255);
    assert_eq!(color_blend(black, white, 1, 2), (127, 127, 127, 255));
}

#[test]
fn scale_multiplies_and_clamps() {
    let c = (100, 200, 30, 77);
    // times 1/2
    assert_eq!(color_scale(c, 1, 2), (50, 100, 15, 77));
    // times 2, green clamps at 255
    assert_eq!(color_scale(c, 2, 1), (200, 255, 60, 77));
    // times 0
    assert_eq!(color_scale(c, 0, 3), (0, 0, 0, 77));
}

#[test]
fn mul_is_channelwise_product() {
    let c1 = (128, 255, 0, 13);
    let c2 = (128, 128, 200, 99);
    assert_eq!(color_mul(c1, c2), (64, 128, 0, 255));
    assert_eq!(color_mul((255, 255, 255, 0), (7, 8, 9, 0)), (7, 8, 9, 255));
}

#[test]
fn add_is_exact_mean_of_all_channels() {
    assert_eq!(color_add((0, 10, 255, 100), (10, 11, 0, 200)), (5, 10, 127, 150));
}

#[test]
fn dist_is_squared_rgb_distance() {
    assert_eq!(color_dist((0, 0, 0, 0), (255, 255, 255, 255)), 3 * 255 * 255);
    assert_eq!(color_dist((10, 20, 30, 1), (13, 24, 30, 200)), 9 + 16);
    assert_eq!(color_dist((5, 5, 5, 0), (5, 5, 5, 255)), 0);
}
