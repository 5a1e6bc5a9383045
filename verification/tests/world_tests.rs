use kasy::world::{
    add_bridge, decoration_for, decoration_offset, generate_world, has_position, island_circle,
    place_tile, tile_hash, Decoration, Tile, TileType,
};

// A floating-point rendition of the world builder (square root for the scan
// radius, `f32` interpolation along bridges), used to check that the exact
// integer builder lays the same world.
fn float_island(tiles: &mut Vec<Tile>, cx: i32, cy: i32, rsq: i32, inner: TileType, outer: TileType) {
    let r = (rsq as f32).sqrt() as i32 + 1;
    for gx in (cx - r)..=(cx + r) {
        for gy in (cy - r)..=(cy + r) {
            let dx = gx - cx;
            let dy = gy - cy;
            let d = dx * dx + dy * dy;
            if d <= rsq {
                if tiles.iter().any(|(x, y, _)| *x == gx && *y == gy) {
                    continue;
                }
                let t = if d <= rsq / 2 { inner } else { outer };
                tiles.push((gx, gy, t));
            }
        }
    }
}

fn float_bridge(tiles: &mut Vec<Tile>, from: (i32, i32), to: (i32, i32)) {
    let (x0, y0) = from;
    let (x1, y1) = to;
    let dx = x1 - x0;
    let dy = y1 - y0;
    let steps = dx.abs().max(dy.abs());
    if steps == 0 {
        return;
    }
    let (ox, oy) = if dx.abs() >= dy.abs() { (0, 1) } else { (1, 0) };
    for i in 0..=steps {
        let t = i as f32 / steps as f32;
        let bx = (x0 as f32 + dx as f32 * t).round() as i32;
        let by = (y0 as f32 + dy as f32 * t).round() as i32;
        for (sx, sy) in [(bx, by), (bx + ox, by + oy), (bx - ox, by - oy)] {
            if !tiles.iter().any(|(x, y, _)| *x == sx && *y == sy) {
                tiles.push((sx, sy, TileType::Bridge));
            }
        }
    }
}

fn float_world() -> Vec<Tile> {
    let mut t = Vec::new();
    float_island(&mut t, 0, 0, 280, TileType::Grass, TileType::Dirt);
    float_island(&mut t, 42, 38, 220, TileType::JungleFloor, TileType::Jungle);
    float_island(&mut t, 55, -40, 180, TileType::Desert, TileType::DesertRock);
    float_island(&mut t, -48, -44, 240, TileType::Snow, TileType::Tundra);
    float_island(&mut t, -44, 48, 160, TileType::Volcanic, TileType::Lava);
    float_island(&mut t, 5, -55, 140, TileType::Rock, TileType::Dirt);
    float_bridge(&mut t, (0, 0), (42, 38));
    float_bridge(&mut t, (0, 0), (55, -40));
    float_bridge(&mut t, (0, 0), (-48, -44));
    float_bridge(&mut t, (0, 0), (-44, 48));
    float_bridge(&mut t, (0, 0), (5, -55));
    t
}

#[test]
fn world_matches_floating_point_builder() {
    assert_eq!(generate_world(), float_world());
}

#[test]
fn world_positions_are_distinct() {
    let w = generate_world();
    for i in 0..w.len() {
        for j in (i + 1)..w.len() {
            assert!(!(w[i].0 == w[j].0 && w[i].1 == w[j].1));
        }
    }
}

#[test]
fn world_hub_centre_is_grass_and_comes_first() {
    let w = generate_world();
    assert!(w.contains(&(0, 0, TileType::Grass)));
    // The hub is scanned from its lower-left corner: its first cell is the
    // lowest column inside the disc (gx = -16, since 16 * 16 <= 280 < 17 * 17).
    assert_eq!(w[0].0, -16);
    assert_eq!(w[0].2, TileType::Dirt);
}

#[test]
fn world_lava_only_on_volcanic_island() {
    let w = generate_world();
    for &(x, y, t) in &w {
        if t == TileType::Lava || t == TileType::Volcanic {
            let dx = x + 44;
            let dy = y - 48;
            assert!(dx * dx + dy * dy <= 160);
        }
    }
    assert!(w.contains(&(-44, 48, TileType::Volcanic)));
}

#[test]
fn island_small_disc() {
    let mut t = Vec::new();
    island_circle(&mut t, 0, 0, 2, TileType::Grass, TileType::Dirt);
    let expected: Vec<Tile> = vec![
        (-1, -1, TileType::Dirt),
        (-1, 0, TileType::Grass),
        (-1, 1, TileType::Dirt),
        (0, -1, TileType::Grass),
        (0, 0, TileType::Grass),
        (0, 1, TileType::Grass),
        (1, -1, TileType::Dirt),
        (1, 0, TileType::Grass),
        (1, 1, TileType::Dirt),
    ];
    assert_eq!(t, expected);
}

#[test]
fn island_keeps_existing_tiles() {
    let mut t = vec![(0, 0, TileType::Rock)];
    island_circle(&mut t, 0, 0, 1, TileType::Grass, TileType::Dirt);
    assert_eq!(
        t,
        vec![
            (0, 0, TileType::Rock),
            (-1, 0, TileType::Dirt),
            (0, -1, TileType::Dirt),
            (0, 1, TileType::Dirt),
            (1, 0, TileType::Dirt),
        ]
    );
}

#[test]
fn island_zero_and_negative_radius() {
    let mut t = Vec::new();
    island_circle(&mut t, 3, 4, 0, TileType::Snow, TileType::Tundra);
    assert_eq!(t, vec![(3, 4, TileType::Snow)]);
    let mut u = Vec::new();
    island_circle(&mut u, 3, 4, -5, TileType::Snow, TileType::Tundra);
    assert!(u.is_empty());
}

#[test]
fn bridge_short_diagonal() {
    let mut t = Vec::new();
    add_bridge(&mut t, (0, 0), (2, 1));
    let b = TileType::Bridge;
    assert_eq!(
        t,
        vec![(0, 0, b), (0, 1, b), (0, -1, b), (1, 1, b), (1, 2, b), (1, 0, b), (2, 1, b), (2, 2, b), (2, 0, b)]
    );
}

#[test]
fn bridge_rounds_halves_away_from_zero() {
    let mut t = Vec::new();
    add_bridge(&mut t, (0, 0), (-2, -1));
    let b = TileType::Bridge;
    assert_eq!(
        t,
        vec![(0, 0, b), (0, 1, b), (0, -1, b), (-1, -1, b), (-1, 0, b), (-1, -2, b), (-2, -1, b), (-2, 0, b), (-2, -2, b)]
    );
}

#[test]
fn bridge_steep_uses_side_planks_along_x() {
    let mut t = Vec::new();
    add_bridge(&mut t, (0, 0), (0, 2));
    let b = TileType::Bridge;
    assert_eq!(
        t,
        vec![(0, 0, b), (1, 0, b), (-1, 0, b), (0, 1, b), (1, 1, b), (-1, 1, b), (0, 2, b), (1, 2, b), (-1, 2, b)]
    );
}

#[test]
fn bridge_same_ends_lays_nothing() {
    let mut t = vec![(5, 5, TileType::Grass)];
    add_bridge(&mut t, (7, 7), (7, 7));
    assert_eq!(t, vec![(5, 5, TileType::Grass)]);
}

#[test]
fn bridge_does_not_overwrite() {
    let mut t = vec![(1, 0, TileType::Grass)];
    add_bridge(&mut t, (0, 0), (1, 0));
    let b = TileType::Bridge;
    assert_eq!(t, vec![(1, 0, TileType::Grass), (0, 0, b), (0, 1, b), (0, -1, b), (1, 1, b), (1, -1, b)]);
}

#[test]
fn placement_helpers() {
    let mut t = Vec::new();
    place_tile(&mut t, (1, 2, TileType::Rock));
    place_tile(&mut t, (1, 2, TileType::Lava));
    place_tile(&mut t, (2, 1, TileType::Lava));
    assert_eq!(t, vec![(1, 2, TileType::Rock), (2, 1, TileType::Lava)]);
    assert!(has_position(&t, 2, 1));
    assert!(!has_position(&t, 2, 2));
}

fn reference_hash(gx: i32, gy: i32) -> u32 {
    let x = (gx as u32).wrapping_mul(374_761_393);
    let y = (gy as u32).wrapping_mul(668_265_263);
    let h = x.wrapping_add(y);
    let h = h ^ (h >> 13);
    let h = h.wrapping_mul(1_274_126_177);
    h ^ (h >> 16)
}

#[test]
fn tile_hash_values() {
    assert_eq!(tile_hash(0, 0), 0);
    for gx in -40..40 {
        for gy in -40..40 {
            assert_eq!(tile_hash(gx, gy), reference_hash(gx, gy));
        }
    }
    assert_eq!(tile_hash(i32::MIN, i32::MAX), reference_hash(i32::MIN, i32::MAX));
    // Changing the wrapped sum changes the hash: the two coordinates matter.
    assert_ne!(tile_hash(1, 0), tile_hash(0, 1));
}

#[test]
fn decorations_by_surface() {
    assert_eq!(decoration_for(TileType::Jungle, 2), Some(Decoration::JungleTree { canopy_extra: 2 }));
    assert_eq!(decoration_for(TileType::JungleFloor, 11), Some(Decoration::JungleTree { canopy_extra: 2 }));
    assert_eq!(decoration_for(TileType::Jungle, 13), None);
    assert_eq!(decoration_for(TileType::Desert, 21), Some(Decoration::Cactus));
    assert_eq!(decoration_for(TileType::DesertRock, 22), None);
    assert_eq!(decoration_for(TileType::Snow, 9), Some(Decoration::TundraCrystal));
    assert_eq!(decoration_for(TileType::Tundra, 10), None);
    assert_eq!(decoration_for(TileType::Volcanic, 1), Some(Decoration::VolcanicRock));
    assert_eq!(decoration_for(TileType::Lava, 1), None);
    assert_eq!(decoration_for(TileType::Grass, 24), Some(Decoration::GrassStone));
    assert_eq!(decoration_for(TileType::Grass, 25), None);
    assert_eq!(decoration_for(TileType::Rock, 30), Some(Decoration::RockPebble));
    assert_eq!(decoration_for(TileType::Rock, 31), None);
    assert_eq!(decoration_for(TileType::Bridge, 0), None);
    assert_eq!(decoration_for(TileType::Dirt, 0), None);
}

#[test]
fn decoration_offsets() {
    assert_eq!(decoration_offset(0), (-10, -7));
    assert_eq!(decoration_offset(19 + (13 << 8)), (-3, 6));
    assert_eq!(decoration_offset(19), (9, -7));
    assert_eq!(decoration_offset(25 + (20 << 8)), (-5, -1));
}

#[test]
fn bridge_stays_between_ends() {
    let mut t = Vec::new();
    add_bridge(&mut t, (3, -7), (-20, 11));
    // |dx| = 23 >= |dy| = 18: side planks are offset along y.
    assert_eq!(t.len(), 3 * 24);
    for (i, &(x, y, kind)) in t.iter().enumerate() {
        assert_eq!(kind, TileType::Bridge);
        assert!(-20 <= x && x <= 3);
        if i % 3 == 0 {
            assert!(-7 <= y && y <= 11);
        } else {
            assert!(-8 <= y && y <= 12);
        }
    }
    assert_eq!(t[0], (3, -7, TileType::Bridge));
    assert_eq!(t[69], (-20, 11, TileType::Bridge));
}

#[test]
fn second_island_and_bridge_add_nothing() {
    let mut t = Vec::new();
    island_circle(&mut t, 2, -3, 30, TileType::Snow, TileType::Tundra);
    add_bridge(&mut t, (2, -3), (20, 4));
    let once = t.clone();
    island_circle(&mut t, 2, -3, 30, TileType::Snow, TileType::Tundra);
    add_bridge(&mut t, (2, -3), (20, 4));
    assert_eq!(t, once);
    let mut w = generate_world();
    let before = w.clone();
    add_bridge(&mut w, (0, 0), (42, 38));
    island_circle(&mut w, -44, 48, 160, TileType::Volcanic, TileType::Lava);
    assert_eq!(w, before);
}

#[test]
fn bridge_centres_form_a_path() {
    for &(from, to) in &[((0, 0), (42, 38)), ((0, 0), (-44, 48)), ((-1, 0), (1, 7)), ((3, 3), (-4, -9))] {
        let mut t = Vec::new();
        add_bridge(&mut t, from, to);
        // Recompute the centre of every step and check that it is laid.
        let mut centres = Vec::new();
        let steps = (to.0 - from.0).abs().max((to.1 - from.1).abs()) as i64;
        for i in 0..=steps {
            let round = |a: i64, b: i64| -> i64 {
                let n = a * steps + (b - a) * i;
                if n >= 0 { (2 * n + steps) / (2 * steps) } else { -((-2 * n + steps) / (2 * steps)) }
            };
            centres.push((round(from.0 as i64, to.0 as i64), round(from.1 as i64, to.1 as i64)));
        }
        assert_eq!(centres[0], (from.0 as i64, from.1 as i64));
        assert_eq!(*centres.last().unwrap(), (to.0 as i64, to.1 as i64));
        for w in centres.windows(2) {
            assert!((w[1].0 - w[0].0).abs() <= 1 && (w[1].1 - w[0].1).abs() <= 1);
        }
        for c in &centres {
            assert!(t.iter().any(|x| x.0 as i64 == c.0 && x.1 as i64 == c.1));
        }
    }
}
