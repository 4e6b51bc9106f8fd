use gamlenorge::color::{dark_sky_blue, forest, land_blue, light_sky_blue, rock, sea, snow, snow_dark, white, Color};
use gamlenorge::shade::{atmosphere, classify_terrain, land_base, sky_mix, water_mix, Surface};
use gamlenorge::zipmount::{ZipMount, ZipMountList};

#[test]
fn classification_thresholds() {
    // Heights in centimetres: water level 0, snow limit 2200 m, green
    // limit 800 m.
    let water = 0;
    let snow_limit = 220_000;
    let green = 80_000;
    assert!(matches!(classify_terrain(0, 0, 0, water, snow_limit, green), Surface::Water));
    assert!(matches!(classify_terrain(-500, 0, 0, water, snow_limit, green), Surface::Water));
    assert!(matches!(classify_terrain(220_001, 0, 0, water, snow_limit, green), Surface::Snow));
    assert!(matches!(classify_terrain(220_000, 0, 0, water, snow_limit, green), Surface::Rock));
    assert!(matches!(classify_terrain(80_001, 0, 0, water, snow_limit, green), Surface::Rock));
    assert!(matches!(classify_terrain(80_000, 0, 0, water, snow_limit, green), Surface::Forest));
    // A steep slope forces rock below the green limit: grad > 0.8 means
    // more than 800_000 in squared per-mille.
    assert!(matches!(classify_terrain(50_000, 900, 0, water, snow_limit, green), Surface::Rock));
    assert!(matches!(classify_terrain(50_000, 800, 0, water, snow_limit, green), Surface::Forest));
    // The slope correction pushes a summit out of the snow class:
    // height - grad/50 must clear the snow limit.
    assert!(matches!(
        classify_terrain(230_000, 1000, 0, water, snow_limit, green),
        Surface::Rock
    ));
}

#[test]
fn land_base_blends_dark_to_lit() {
    let full = land_base(Surface::Rock, 1000);
    assert_eq!((full.r, full.g, full.b), (rock().r, rock().g, rock().b));
    let dark = land_base(Surface::Forest, 0);
    assert_eq!((dark.r, dark.g, dark.b), (0, 0, 0));
    let s = land_base(Surface::Snow, 0);
    assert_eq!((s.r, s.g, s.b), (snow_dark().r, snow_dark().g, snow_dark().b));
    let half = land_base(Surface::Snow, 500);
    let manual = snow_dark().blend(&snow(), 500);
    assert_eq!((half.r, half.g, half.b), (manual.r, manual.g, manual.b));
}

#[test]
fn atmosphere_blends_blue_then_white() {
    let c = forest();
    // Full clarity leaves the colour alone.
    let clear = atmosphere(c, 1000, 1000);
    assert_eq!((clear.r, clear.g, clear.b), (c.r, c.g, c.b));
    // No clarity is pure white.
    let far = atmosphere(c, 0, 0);
    assert_eq!((far.r, far.g, far.b), (white().r, white().g, white().b));
    // Order matters: first towards the distant blue, then towards white.
    let manual = white().blend(&land_blue().blend(&c, 700), 900);
    let mixed = atmosphere(c, 700, 900);
    assert_eq!((mixed.r, mixed.g, mixed.b), (manual.r, manual.g, manual.b));
}

#[test]
fn water_mix_blends_and_darkens() {
    // No reflection samples: flat sea darkened by the Fresnel factor.
    let dark = water_mix(None, 500, 20);
    let manual = sea().scale(20);
    assert_eq!((dark.r, dark.g, dark.b), (manual.r, manual.g, manual.b));
    // With a reflection, the sea is blended towards it first.
    let refl = Color::new(200_000, 210_000, 220_000);
    let shiny = water_mix(Some(refl), 500, 1000);
    let manual2 = sea().blend(&refl, 500);
    assert_eq!((shiny.r, shiny.g, shiny.b), (manual2.r, manual2.g, manual2.b));
}

#[test]
fn sky_mix_blends_luminance_then_haze() {
    let clear_zenith = sky_mix(1000, 1000);
    assert_eq!(
        (clear_zenith.r, clear_zenith.g, clear_zenith.b),
        (dark_sky_blue().r, dark_sky_blue().g, dark_sky_blue().b)
    );
    let pale = sky_mix(0, 1000);
    assert_eq!((pale.r, pale.g, pale.b), (light_sky_blue().r, light_sky_blue().g, light_sky_blue().b));
    let hazed = sky_mix(300, 400);
    let manual = white().blend(&light_sky_blue().blend(&dark_sky_blue(), 300), 400);
    assert_eq!((hazed.r, hazed.g, hazed.b), (manual.r, manual.g, manual.b));
}

#[test]
fn mount_registry_tracks_names_once() {
    let mut l = ZipMountList::new();
    assert!(!l.is_mounted("a.zip"));
    l.register("a.zip");
    assert!(l.is_mounted("a.zip"));
    assert!(!l.is_mounted("b.zip"));
    l.register("a.zip");
    assert_eq!(l.mounts.len(), 1);
    l.register("b.zip");
    assert_eq!(l.mounts.len(), 2);
    l.clear();
    assert!(!l.is_mounted("a.zip"));
    assert_eq!(l.mounts.len(), 0);
}

#[test]
fn zip_mount_paths() {
    let z = ZipMount::paths_for("maps.zip");
    assert_eq!(z.filename, "maps.zip");
    assert_eq!(z.directory, "maps.zip.dir/");
}
