use rust_click::schedule::{
    click_locations, click_position, click_position_swing, swing_offset, DIVISOR,
};

#[test]
fn base_position_formula() {
    assert_eq!(22050, click_position(22050, DIVISOR, 4));
    assert_eq!(14700, click_position(22050, DIVISOR, 6));
    // 1000 * 22050 * 4 / 7 / 1000 = 12600
    assert_eq!(12600, click_position(22050, DIVISOR, 7));
    assert_eq!(0, click_position(1, DIVISOR, 5));
}

#[test]
fn no_swing_means_no_offset() {
    for base in [0u64, 1, 3, 99, 22050, 1_000_000_007] {
        assert_eq!(0, swing_offset(base, 50));
        assert_eq!(base, click_position_swing(base, 50));
    }
}

#[test]
fn swing_offset_rounds_down() {
    assert_eq!(441, swing_offset(22050, 51));
    assert_eq!(-441, swing_offset(22050, 49));
    assert_eq!(0, swing_offset(3, 51));
    assert_eq!(-1, swing_offset(3, 49));
    assert_eq!(22050, swing_offset(22050, 100));
}

#[test]
fn swung_position_is_clamped_at_zero() {
    assert_eq!(0, click_position_swing(100, 0));
    assert_eq!(0, click_position_swing(100, -20));
    assert_eq!(200, click_position_swing(100, 100));
    assert_eq!(160, click_position_swing(100, 80));
}

#[test]
fn schedule_always_starts_with_downbeat() {
    for division in 1u8..=12 {
        for step in [0u64, 1, 5000] {
            let locations = click_locations(step, division);
            assert_eq!(0, locations[0]);
        }
    }
}

#[test]
fn schedule_size_follows_divisibility() {
    for division in 1u8..=30 {
        let expected = 1 + usize::from(division % 2 == 0) + usize::from(division % 3 == 0);
        assert_eq!(expected, click_locations(100, division).len());
    }
    assert_eq!(vec![0u64, 100], click_locations(100, 2));
    assert_eq!(vec![0u64, 100], click_locations(100, 9));
    assert_eq!(vec![0u64, 100, 200], click_locations(100, 6));
}

#[test]
fn zero_step_collapses_schedule() {
    assert_eq!(vec![0u64], click_locations(0, 6));
    assert_eq!(vec![0u64], click_locations(0, 4));
}

#[test]
fn division_five_schedule_is_downbeat_only() {
    for swing in [0i16, 25, 50, 75, 100] {
        let step = click_position_swing(click_position(22050, DIVISOR, 5), swing);
        assert_eq!(vec![0u64], click_locations(step, 5));
    }
}
