use widget_core::color::hsl_to_rgb;

#[test]
fn pure_red() {
    assert_eq!(hsl_to_rgb(0, 2, 1, 2), (255, 0, 0));
}

#[test]
fn pure_green() {
    assert_eq!(hsl_to_rgb(1, 3, 3, 3).1, 255);
    assert_eq!(hsl_to_rgb(2, 6, 3, 6), (0, 255, 0));
}

#[test]
fn pure_blue() {
    assert_eq!(hsl_to_rgb(4, 6, 3, 6), (0, 0, 255));
}

#[test]
fn half_saturated_teal() {
    assert_eq!(hsl_to_rgb(1, 1, 1, 2), (64, 191, 191));
}

#[test]
fn no_saturation_is_gray_for_every_hue() {
    for h in [-700, -1, 0, 1, 33, 50, 99, 100, 101, 4000] {
        assert_eq!(hsl_to_rgb(h, 0, 0, 100), (0, 0, 0));
        assert_eq!(hsl_to_rgb(h, 0, 20, 100), (51, 51, 51));
        assert_eq!(hsl_to_rgb(h, 0, 50, 100), (128, 128, 128));
        assert_eq!(hsl_to_rgb(h, 0, 100, 100), (255, 255, 255));
    }
}

#[test]
fn same_inputs_same_colour() {
    for (h, s, l, scale) in [(0, 2, 1, 2), (7, 5, 3, 12), (-4, 9, 2, 10), (250, 1, 499, 1000)] {
        assert_eq!(hsl_to_rgb(h, s, l, scale), hsl_to_rgb(h, s, l, scale));
    }
}

#[test]
fn equal_fractions_give_equal_colours() {
    assert_eq!(hsl_to_rgb(1, 2, 1, 4), hsl_to_rgb(250, 500, 250, 1000));
    assert_eq!(hsl_to_rgb(1, 1, 1, 2), hsl_to_rgb(6, 6, 6, 12));
}

#[test]
fn a_tie_rounds_away_from_zero() {
    // 255 / 510 is exactly one half, 255 / 2 exactly 127 and a half.
    assert_eq!(hsl_to_rgb(0, 0, 1, 510), (1, 1, 1));
    assert_eq!(hsl_to_rgb(0, 0, 1, 511), (0, 0, 0));
    assert_eq!(hsl_to_rgb(0, 0, 1, 2), (128, 128, 128));
    assert_eq!(hsl_to_rgb(0, 0, 3, 510), (2, 2, 2));
}

#[test]
fn intensities_outside_the_range_are_clamped() {
    assert_eq!(hsl_to_rgb(0, 0, 2, 1), (255, 255, 255));
    assert_eq!(hsl_to_rgb(0, 0, -1, 1), (0, 0, 0));
    assert_eq!(hsl_to_rgb(0, 0, -1, 1000), (0, 0, 0));
    assert_eq!(hsl_to_rgb(0, 3, 1, 2), (255, 0, 0));
}

#[test]
fn rising_arc_passes_half_way() {
    // Hue 1/12: green is half way up from the lower to the upper level.
    assert_eq!(hsl_to_rgb(1, 12, 6, 12), (255, 128, 0));
}

#[test]
fn falling_arc_passes_half_way() {
    // Hue 7/12: green is half way down from the upper to the lower level.
    assert_eq!(hsl_to_rgb(7, 12, 6, 12), (0, 128, 255));
}

#[test]
fn dark_colours_scale_the_lightness() {
    // Lightness 1/4 and saturation 1/2: the levels are 3/8 and 1/8.
    assert_eq!(hsl_to_rgb(0, 2, 1, 4), (96, 32, 32));
}

#[test]
fn light_colours_mirror_the_dark_ones() {
    // Lightness 3/4 and saturation 1/2: the levels are 7/8 and 5/8.
    assert_eq!(hsl_to_rgb(0, 2, 3, 4), (223, 159, 159));
}

#[test]
fn arcs_meet_at_their_ends() {
    // Red sits at hue + 1/3: at hue -1/6 on the boundary at 1/6, at hue 1/6
    // on the boundary at 1/2, at hue 1/3 on the boundary at 2/3.
    assert_eq!(hsl_to_rgb(-1, 6, 3, 6).0, 255);
    assert_eq!(hsl_to_rgb(1, 6, 3, 6).0, 255);
    assert_eq!(hsl_to_rgb(2, 6, 3, 6).0, 0);
}

#[test]
fn hue_wraps_by_one_turn() {
    assert_eq!(hsl_to_rgb(6, 6, 3, 6), hsl_to_rgb(0, 6, 3, 6));
    assert_eq!(hsl_to_rgb(-2, 6, 3, 6), hsl_to_rgb(4, 6, 3, 6));
    assert_eq!(hsl_to_rgb(-1, 12, 6, 12), hsl_to_rgb(11, 12, 6, 12));
}

#[test]
fn faint_saturation_is_nearly_gray() {
    let (r, g, b) = hsl_to_rgb(200_000, 1, 500_000, 1_000_000);
    for channel in [r, g, b] {
        assert!((127..=128).contains(&channel));
    }
}

#[test]
fn extreme_inputs_do_not_overflow() {
    let low = i32::MIN;
    let high = i32::MAX;
    // Saturation and lightness just below one half: the upper level is just
    // below three quarters.
    assert_eq!(hsl_to_rgb(0, high, high, u32::MAX), (191, 64, 64));
    assert_eq!(hsl_to_rgb(high, 0, high, 1), (255, 255, 255));
    assert_eq!(hsl_to_rgb(low, 0, low, 1), (0, 0, 0));
    for h in [low, -1, 0, 1, high] {
        for s in [low, -1, 1, high] {
            for l in [low, -1, 0, 1, high] {
                for scale in [1, 2, 3, u32::MAX] {
                    let first = hsl_to_rgb(h, s, l, scale);
                    assert_eq!(first, hsl_to_rgb(h, s, l, scale));
                }
            }
        }
    }
}
