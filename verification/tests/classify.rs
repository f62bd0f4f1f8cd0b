use pixelprint::color::{classify, color_data, nearest_color, ColorKind, GlobalColorMap};

#[test]
fn exact_match_every_palette_entry() {
    for entry in color_data() {
        let (kind, name) = nearest_color((entry.r, entry.g, entry.b));
        assert_eq!(kind, entry.kind);
        assert_eq!(name, entry.name);
    }
}

#[test]
fn transparent_pixel_is_excluded() {
    assert!(classify((10, 20, 30, 0)).is_none());
    assert!(classify((255, 0, 255, 0)).is_none());
    assert!(classify((10, 20, 30, 1)).is_some());
}

#[test]
fn tie_breaks_to_first_palette_entry() {
    // probe (49, 51, 58) is at L1 distance 19 from both "concrete"
    // (58, 61, 58) and "refined-concrete" (49, 49, 41), and farther from
    // every other entry; the earlier entry must win.
    let palette = color_data();
    let dist = |i: usize| -> u32 {
        let e = &palette[i];
        (e.r as i32 - 49).unsigned_abs() + (e.g as i32 - 51).unsigned_abs()
            + (e.b as i32 - 58).unsigned_abs()
    };
    assert_eq!(dist(8), 19);
    assert_eq!(dist(10), 19);
    for i in 0..palette.len() {
        if i != 8 && i != 10 {
            assert!(dist(i) > 19);
        }
    }
    let (kind, name) = nearest_color((49, 51, 58));
    assert_eq!(kind, ColorKind::Tile);
    assert_eq!(name, "concrete");
    // repeated calls always resolve the tie the same way
    assert_eq!(nearest_color((49, 51, 58)), (kind, name));
    assert_eq!(nearest_color((49, 51, 58)), (kind, name));
}

#[test]
fn quantize_map_uses_low_alpha_threshold() {
    let map = GlobalColorMap;
    assert_eq!(map.index_of(&(82, 81, 74, 15)), usize::MAX);
    assert_eq!(map.index_of(&(82, 81, 74, 16)), 7);

    let mut px = (82, 81, 74, 10);
    map.map_color(&mut px);
    assert_eq!(px, (0, 0, 0, 0));

    let mut px = (83, 80, 74, 200);
    map.map_color(&mut px);
    assert_eq!(px, (82, 81, 74, 255));

    // direct classification keeps a low-alpha pixel, dithering drops it:
    // the exact-zero cutoff applies only to classify.
    assert!(classify((82, 81, 74, 10)).is_some());
}

#[test]
fn map_color_snaps_to_exact_entry() {
    let map = GlobalColorMap;
    for entry in color_data() {
        let mut px = (entry.r, entry.g, entry.b, 255);
        map.map_color(&mut px);
        assert_eq!(px, (entry.r, entry.g, entry.b, 255));
    }
}
