use duck::normal::normal_to_u8;
use duck::texture::Texture;
use duck::water::{Water, SCALE};

#[test]
fn encode_extremes_and_zero() {
    assert_eq!(normal_to_u8(-SCALE), 0);
    assert_eq!(normal_to_u8(0), 127);
    assert_eq!(normal_to_u8(SCALE), 254);
}

#[test]
fn encode_half() {
    // round(0.5 * 127) + 127 = 64 + 127 (ties round away from zero).
    assert_eq!(normal_to_u8(SCALE / 2), 191);
    assert_eq!(normal_to_u8(-SCALE / 2), 63);
}

#[test]
fn flat_grid_normal_is_up() {
    let water = Water::new(8, SCALE).unwrap();
    for x in 0..8 {
        for y in 0..8 {
            let n = water.normal(x, y);
            assert_eq!((n.x, n.y, n.z), (0, SCALE, 0));
        }
    }
}

#[test]
fn slope_tilts_normal() {
    let mut water = Water::new(8, SCALE).unwrap();
    // Raise the column left of (4, 4): the normal leans away from +x.
    water.disturb(3, 4, SCALE / 4);
    let n = water.normal(4, 4);
    assert!(n.x < 0);
    assert!(n.y > 0);
    assert_eq!(n.z, 0);
}

#[test]
fn normal_texture_flat_pixels() {
    let water = Water::new(8, SCALE).unwrap();
    let texture = water.normal_texture();
    assert_eq!(texture.image.width(), 8);
    assert_eq!(texture.image.height(), 8);
    for x in 0..8 {
        for y in 0..8 {
            // (0, 1, 0) encodes as [127, 254, 127], alpha is encode(0).
            assert_eq!(texture.image.get_pixel(x, y), [127, 254, 127, 127]);
        }
    }
}

#[test]
fn normal_texture_reflects_disturbance() {
    let mut water = Water::new(8, SCALE).unwrap();
    water.disturb(4, 4, SCALE / 4);
    let texture = water.normal_texture();
    // Next to the bump the surface tilts, so the pixel moves off the flat
    // encoding; far away it stays flat.
    assert_ne!(texture.image.get_pixel(3, 4), [127, 254, 127, 127]);
    assert_eq!(texture.image.get_pixel(0, 7), [127, 254, 127, 127]);
}

#[test]
fn new_rgba_is_zeroed() {
    let t = Texture::new_rgba(4, 3);
    assert_eq!(t.image.width(), 4);
    assert_eq!(t.image.height(), 3);
    for x in 0..4 {
        for y in 0..3 {
            assert_eq!(t.image.get_pixel(x, y), [0, 0, 0, 0]);
        }
    }
}

#[test]
fn raw_layout_is_row_major_rgba() {
    let water = Water::new(4, SCALE).unwrap();
    let texture = water.normal_texture();
    let raw = texture.image.into_raw();
    assert_eq!(raw.len(), 4 * 4 * 4);
    for y in 0..4usize {
        for x in 0..4usize {
            let i = 4 * (y * 4 + x);
            assert_eq!(&raw[i..i + 4], &[127, 254, 127, 127]);
        }
    }
}
