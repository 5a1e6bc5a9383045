use kasy::enemy::{
    heading_centiradians, initial_enemy_seed, lcg, should_pick_new_heading, spawn_points,
    wander_delay_centiseconds, EnemySpawner, LCG_INC, LCG_MUL,
};
use kasy::flower::{flower_offset, flower_positions, petal_color, red_flower_position, PetalColor};
use kasy::iso::grid_to_world;
use kasy::lava::{lava_kind, LavaTiles};
use kasy::player::{FadeAction, RespawnMode, RespawnState, Score, WinAction};
use kasy::projectile::{first_hit, resolve_hits};
use kasy::world::{generate_world, TileType};

#[test]
fn lcg_values() {
    assert_eq!(lcg(0), 1_013_904_223);
    assert_eq!(lcg(1), 1_015_568_748);
    assert_eq!(lcg(0xDEAD_BEEF), 0xDEAD_BEEFu32.wrapping_mul(1_664_525).wrapping_add(1_013_904_223));
    assert_eq!(LCG_MUL, 1_664_525);
    assert_eq!(LCG_INC, 1_013_904_223);
}

#[test]
fn spawner_walks_the_generator() {
    let mut s = EnemySpawner::new();
    assert_eq!(s.rng_seed(), 0xDEAD_BEEF);
    let points = spawn_points();
    let mut seed: u32 = 0xDEAD_BEEF;
    for _ in 0..50 {
        let p = s.next_spawn_point();
        seed = seed.wrapping_mul(1_664_525).wrapping_add(1_013_904_223);
        assert_eq!(s.rng_seed(), seed);
        assert_eq!(p, points[seed as usize % 14]);
    }
}

#[test]
fn spawn_points_and_flowers_are_on_land() {
    let w = generate_world();
    let on_land = |p: (i32, i32)| w.iter().any(|t| t.0 == p.0 && t.1 == p.1);
    let points = spawn_points();
    assert_eq!(points.len(), 14);
    for p in points {
        assert!(on_land(p));
    }
    assert!(on_land(red_flower_position()));
    assert_eq!(red_flower_position(), (5, -58));
    assert_eq!(flower_positions().len(), 43);
    assert_eq!(flower_positions()[0], (3, 2));
    assert_eq!(flower_positions()[42], (-20, -20));
}

#[test]
fn initial_seeds() {
    let reference = |gx: i32, gy: i32| {
        lcg((gx as u32).wrapping_mul(LCG_MUL).wrapping_add((gy as u32).wrapping_mul(LCG_INC)))
    };
    for (gx, gy) in spawn_points() {
        assert_eq!(initial_enemy_seed(gx, gy), reference(gx, gy));
    }
    assert_eq!(initial_enemy_seed(0, 0), 1_013_904_223);
}

#[test]
fn enemy_randomness() {
    assert_eq!(heading_centiradians(628), 0);
    assert_eq!(heading_centiradians(1000), 372);
    assert_eq!(wander_delay_centiseconds(260), 10);
    assert_eq!(wander_delay_centiseconds(249), 249);
}

#[test]
fn enemy_heading_decisions() {
    assert!(should_pick_new_heading(false, false, false));
    assert!(should_pick_new_heading(false, true, true));
    assert!(!should_pick_new_heading(false, true, false));
    assert!(!should_pick_new_heading(true, false, false));
    assert!(should_pick_new_heading(true, false, true));
    assert!(should_pick_new_heading(true, true, true));
}

#[test]
fn flowers_look() {
    assert_eq!(petal_color(0), PetalColor::Pink);
    assert_eq!(petal_color(4), PetalColor::White);
    assert_eq!(petal_color(8), PetalColor::Yellow);
    assert_eq!(flower_offset(0), (-12, -8));
    assert_eq!(flower_offset(23 + (15 << 8)), (11, 7));
}

#[test]
fn grid_to_world_values() {
    assert_eq!(grid_to_world(0, 0), (0, 0));
    assert_eq!(grid_to_world(1, 0), (32, -16));
    assert_eq!(grid_to_world(0, 1), (-32, -16));
    assert_eq!(grid_to_world(5, -58), (2016, 848));
    assert_eq!(grid_to_world(i32::MAX, i32::MIN), ((u32::MAX as i64) * 32, 16));
}

#[test]
fn grid_to_world_round_trip() {
    for gx in -60..60 {
        for gy in -60..60 {
            let (x, y) = grid_to_world(gx, gy);
            let u = x as f32 / 32.0;
            let v = -(y as f32) / 16.0;
            assert_eq!((((u + v) * 0.5).round() as i32, ((v - u) * 0.5).round() as i32), (gx, gy));
        }
    }
}

#[test]
fn lava_set_of_world() {
    let w = generate_world();
    let lava = LavaTiles::from_tiles(&w);
    assert!(lava.contains((-44, 48)));
    assert!(!lava.contains((0, 0)));
    assert!(lava.is_over_lava((-44, 48)));
    // One cell past the rim of the volcanic island is still "over" lava.
    assert!(lava.is_over_lava((-44, 48 + 13)));
    assert!(!lava.is_over_lava((-44, 48 + 14)));
    assert!(!lava.is_over_lava((0, 0)));
    for &(x, y, t) in &w {
        assert_eq!(lava.contains((x, y)), t == TileType::Lava || t == TileType::Volcanic);
    }
}

#[test]
fn lava_set_operations() {
    let mut l = LavaTiles::new();
    assert!(!l.contains((1, 1)));
    assert!(l.insert((1, 1)));
    assert!(!l.insert((1, 1)));
    assert!(l.contains((1, 1)));
    assert!(l.is_over_lava((0, 0)));
    assert!(l.is_over_lava((2, 2)));
    assert!(!l.is_over_lava((3, 1)));
    assert!(!l.is_over_lava((1, -1)));
    assert!(lava_kind(TileType::Lava));
    assert!(lava_kind(TileType::Volcanic));
    assert!(!lava_kind(TileType::Bridge));
}

#[test]
fn respawn_cycle() {
    let mut s = RespawnState::new();
    assert!(s.controls_enabled());
    assert!(s.hazards_active());
    assert_eq!(s.advance_fade(true), FadeAction::Nothing);
    assert!(s.trigger_respawn());
    assert_eq!(s.mode, RespawnMode::FadingOut);
    assert!(!s.controls_enabled());
    assert!(!s.trigger_respawn());
    assert_eq!(s.advance_fade(false), FadeAction::Nothing);
    assert_eq!(s.mode, RespawnMode::FadingOut);
    assert_eq!(s.advance_fade(true), FadeAction::Teleport);
    assert_eq!(s.mode, RespawnMode::FadingIn);
    assert_eq!(s.advance_fade(false), FadeAction::Nothing);
    assert_eq!(s.advance_fade(true), FadeAction::ClearOverlay);
    assert_eq!(s, RespawnState::new());
}

#[test]
fn win_and_restart() {
    let mut s = RespawnState::new();
    assert_eq!(s.check_win(false, true, false), WinAction::Nothing);
    assert_eq!(s.check_win(false, false, true), WinAction::ShowWin);
    assert!(s.won);
    assert!(!s.hazards_active());
    assert!(!s.trigger_respawn());
    assert_eq!(s.check_win(true, false, true), WinAction::Nothing);
    assert_eq!(s.check_win(true, true, false), WinAction::Dismiss);
    assert!(!s.won);
    assert!(s.hazards_active());
    // No win while a respawn is under way.
    assert!(s.trigger_respawn());
    assert_eq!(s.check_win(false, false, true), WinAction::Nothing);
    assert!(!s.won);
}

#[test]
fn score_counts() {
    let mut s = Score::new();
    s.record_defeat();
    s.record_defeat();
    assert_eq!(s.enemies_defeated, 2);
}

#[test]
fn first_hit_picks_first() {
    assert_eq!(first_hit(&vec![]), None);
    assert_eq!(first_hit(&vec![false, false]), None);
    assert_eq!(first_hit(&vec![false, true, true]), Some(1));
    assert_eq!(first_hit(&vec![true]), Some(0));
}

#[test]
fn hits_resolve_per_projectile_and_enemy() {
    let in_range = vec![
        vec![false, true, true],
        vec![false, true],
        vec![false, false, false, true],
        vec![],
        vec![true],
    ];
    let r = resolve_hits(&in_range);
    assert_eq!(r.hits, vec![Some(1), Some(1), Some(3), None, Some(0)]);
    // Enemy 1 is hit twice but defeated once.
    assert_eq!(r.defeated, vec![0, 1, 3]);
    let none = resolve_hits(&vec![vec![false], vec![]]);
    assert_eq!(none.hits, vec![None, None]);
    assert!(none.defeated.is_empty());
    let mut s = Score::new();
    s.record_defeats(r.defeated.len());
    s.record_defeats(0);
    assert_eq!(s.enemies_defeated, 3);
}
