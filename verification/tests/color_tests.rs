use gamlenorge::color::{black, dark_sky_blue, forest, land_blue, light_sky_blue, rock, sea, snow, snow_dark, white, Color};

#[test]
fn blend_factor_zero_keeps_first() {
    let a = Color::new(10_000, 20_000, 30_000);
    let b = Color::new(200_000, 100_000, 50_000);
    let c = a.blend(&b, 0);
    assert_eq!((c.r, c.g, c.b), (10_000, 20_000, 30_000));
}

#[test]
fn blend_factor_one_gives_second() {
    let a = Color::new(10_000, 20_000, 30_000);
    let b = Color::new(200_000, 100_000, 50_000);
    let c = a.blend(&b, 1000);
    assert_eq!((c.r, c.g, c.b), (200_000, 100_000, 50_000));
}

#[test]
fn blend_self_is_identity() {
    let a = Color::new(123_456, 7_890, 255_000);
    for f in [0i64, 1, 250, 500, 999, 1000] {
        let c = a.blend(&a, f);
        assert_eq!((c.r, c.g, c.b), (a.r, a.g, a.b));
    }
}

#[test]
fn blend_midpoint_exact() {
    let a = Color::new(0, 100_000, 255_000);
    let b = Color::new(255_000, 0, 255_000);
    let c = a.blend(&b, 500);
    // (a*500 + b*500) / 1000, floored
    assert_eq!((c.r, c.g, c.b), (127_500, 50_000, 255_000));
}

#[test]
fn add_and_scale_down_average() {
    let a = Color::new(10_000, 20_000, 30_000);
    let b = Color::new(20_000, 40_000, 50_000);
    let sum = a.add(&b);
    assert_eq!((sum.r, sum.g, sum.b), (30_000, 60_000, 80_000));
    let avg = sum.scale_down(2);
    assert_eq!((avg.r, avg.g, avg.b), (15_000, 30_000, 40_000));
}

#[test]
fn scale_darkens() {
    let c = sea().scale(20);
    // sea = (0, 42000, 72000); 2% of each channel
    assert_eq!((c.r, c.g, c.b), (0, 840, 1440));
}

#[test]
fn u8_array_clamps() {
    let c = Color::new(255_900, 67_499, 0);
    assert_eq!(c.as_u8_array(), [255, 67, 0]);
    let d = Color::new(999_999_999, 255_000, 254_999);
    assert_eq!(d.as_u8_array(), [255, 255, 254]);
}

#[test]
fn palette_values() {
    assert_eq!(snow().as_u8_array(), [255, 255, 255]);
    assert_eq!(snow_dark().as_u8_array(), [10, 60, 80]);
    assert_eq!(rock().as_u8_array(), [134, 138, 103]);
    assert_eq!(forest().as_u8_array(), [122, 132, 0]);
    assert_eq!(sea().as_u8_array(), [0, 42, 72]);
    assert_eq!(land_blue().as_u8_array(), [176, 215, 253]);
    assert_eq!(black().as_u8_array(), [0, 0, 0]);
    assert_eq!(white().as_u8_array(), [255, 255, 255]);
    assert_eq!(dark_sky_blue().as_u8_array(), [119, 181, 254]);
    assert_eq!(light_sky_blue().as_u8_array(), [233, 249, 255]);
}
