use duck::water::{Water, WaterError, MAX_WAVE_SPEED, SCALE};

#[test]
fn new_rejects_width_zero() {
    assert!(matches!(Water::new(0, SCALE), Err(WaterError::InvalidWidth)));
}

#[test]
fn new_rejects_width_one() {
    // A one-cell grid would make the spatial step denominator zero.
    assert!(matches!(Water::new(1, SCALE), Err(WaterError::InvalidWidth)));
}

#[test]
fn new_accepts_width_two() {
    assert!(Water::new(2, SCALE).is_ok());
}

#[test]
fn new_grid_is_flat() {
    let water = Water::new(8, SCALE).unwrap();
    for x in 0..8 {
        for y in 0..8 {
            assert_eq!(water.height(x, y), 0);
            assert_eq!(water.height_swap(x, y), 0);
        }
    }
}

#[test]
fn disturb_then_height_returns_value() {
    let mut water = Water::new(8, SCALE).unwrap();
    for &(x, y) in &[(0, 0), (3, 4), (7, 7), (2, 2)] {
        let v = 1000 + 17 * x as i64 + y as i64;
        water.disturb(x, y, v);
        assert_eq!(water.height(x, y), v);
    }
}

#[test]
fn disturb_clamps_to_border() {
    let mut water = Water::new(8, SCALE).unwrap();
    water.disturb(-5, 3, 777);
    assert_eq!(water.height(0, 3), 777);
    water.disturb(3, 100, -777);
    assert_eq!(water.height(3, 7), -777);
}

#[test]
fn height_clamps_coordinates() {
    let mut water = Water::new(8, SCALE).unwrap();
    for y in 0..8 {
        water.disturb(0, y, 10 + y as i64);
        water.disturb(7, y, 20 + y as i64);
    }
    for y in 0..8 {
        assert_eq!(water.height(-1, y), water.height(0, y));
        assert_eq!(water.height(8, y), water.height(7, y));
        assert_eq!(water.height(y, -1), water.height(y, 0));
        assert_eq!(water.height(y, 8), water.height(y, 7));
    }
}

#[test]
fn update_swaps_generations() {
    let mut water = Water::new(8, SCALE / 2).unwrap();
    water.disturb(4, 4, 1000);
    assert_eq!(water.height(4, 4), 1000);
    water.update();
    // What was the current generation is now the previous one.
    assert_eq!(water.height_swap(4, 4), 1000);
}

#[test]
fn update_exact_center_value() {
    // Width 4, wave speed 1.0: a = (3/8)^2 exactly, so a_num/a_den = 9/64
    // over the common denominator and b = 2 - 4a = 92/64.  A single height
    // of 64000 at (1, 1) on an otherwise flat grid must become
    // round(0.95 * (92/64) * 64000) = 87400 there.
    let mut water = Water::new(4, SCALE).unwrap();
    water.disturb(1, 1, 64000);
    water.update();
    assert_eq!(water.height(1, 1), 87400);
}

#[test]
fn update_exact_neighbor_value() {
    // As above; the neighbor (1, 0) sees only the 64000 in its stencil sum,
    // so it becomes round(0.95 * (9/64) * 64000) = 8550.
    let mut water = Water::new(4, SCALE).unwrap();
    water.disturb(1, 1, 64000);
    water.update();
    assert_eq!(water.height(1, 0), 8550);
}

#[test]
fn damping_zeroes_its_center_cell() {
    let mut water = Water::new(8, SCALE).unwrap();
    for x in 0..8 {
        for y in 0..8 {
            water.disturb(x, y, 5000 + x as i64 - y as i64);
        }
    }
    water.update();
    // The damping factor vanishes at (2, 2): the step writes 0 there no
    // matter what the grid held.
    assert_eq!(water.height(2, 2), 0);
    assert_ne!(water.height(5, 5), 0);
}

#[test]
fn wave_speed_is_settable() {
    let mut water = Water::new(4, SCALE).unwrap();
    assert_eq!(water.wave_speed(), SCALE);
    water.set_wave_speed(MAX_WAVE_SPEED);
    assert_eq!(water.wave_speed(), MAX_WAVE_SPEED);
    water.set_wave_speed(-SCALE / 4);
    assert_eq!(water.wave_speed(), -SCALE / 4);
}

#[test]
fn width_getter() {
    let water = Water::new(16, SCALE).unwrap();
    assert_eq!(water.width(), 16);
}

fn linf(water: &Water, width: isize) -> i64 {
    let mut m: i64 = 0;
    for x in 0..width {
        for y in 0..width {
            m = m.max(water.height(x, y).abs());
        }
    }
    m
}

#[test]
fn single_disturbance_decays() {
    // A single splash on a stable configuration must dissipate: the maximum
    // height magnitude well after the transient is no larger than earlier.
    let mut water = Water::new(16, SCALE / 2).unwrap();
    water.disturb(8, 8, -SCALE / 10);
    for _ in 0..30 {
        water.update();
    }
    let early = linf(&water, 16);
    for _ in 0..50 {
        water.update();
    }
    let late = linf(&water, 16);
    assert!(late <= early);
}
