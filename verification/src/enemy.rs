use vstd::prelude::*;

use crate::world::{add32, has_pos, in_disc, lemma_island_is_land, mul32, world_islands, world_tiles, wrapping_add_u32};

verus! {

// ---------------------------------------------------------------------------
// Linear congruential generator
// ---------------------------------------------------------------------------

/// Multiplier of the linear congruential generator that drives enemies.
pub const LCG_MUL: u32 = 1_664_525;
/// Increment of the linear congruential generator.
pub const LCG_INC: u32 = 1_013_904_223;

/// One step of the generator, computed modulo 2^32.
pub open spec fn spec_lcg(seed: u32) -> u32 {
    ((seed as nat * LCG_MUL as nat + LCG_INC as nat) % 0x1_0000_0000) as u32
}

/// Advances a pseudo-random seed by one step: `seed * LCG_MUL + LCG_INC`
/// modulo 2^32.
pub fn lcg(seed: u32) -> (next: u32)
    ensures
        next == spec_lcg(seed),
{
    let r = seed.wrapping_mul(LCG_MUL).wrapping_add(LCG_INC);
    proof {
        vstd::arithmetic::div_mod::lemma_add_mod_noop(
            (seed as nat * LCG_MUL as nat) as int,
            LCG_INC as int,
            0x1_0000_0000,
        );
    }
    r
}

// ---------------------------------------------------------------------------
// Spawn points
// ---------------------------------------------------------------------------

/// Grid cells where enemies appear, chosen inside the islands: three on the
/// grassland hub, three in the jungle, two each in the desert, the tundra and
/// the volcano, two on the rocky outcrop.
pub open spec fn spawn_points_spec() -> Seq<(i32, i32)> {
    seq![
        (6i32, 3i32), (-5i32, 7i32), (9i32, -4i32),
        (43i32, 37i32), (40i32, 41i32), (46i32, 35i32),
        (57i32, -38i32), (52i32, -43i32),
        (-46i32, -47i32), (-51i32, -41i32),
        (-45i32, 49i32), (-42i32, 44i32),
        (5i32, -57i32), (4i32, -51i32),
    ]
}

/// The enemy spawn points.
pub fn spawn_points() -> (points: Vec<(i32, i32)>)
    ensures
        points@ == spawn_points_spec(),
{
    let points = vec![
        (6, 3), (-5, 7), (9, -4),
        (43, 37), (40, 41), (46, 35),
        (57, -38), (52, -43),
        (-46, -47), (-51, -41),
        (-45, 49), (-42, 44),
        (5, -57), (4, -51),
    ];
    assert(points@ =~= spawn_points_spec());
    points
}

/// Law: every spawn point is land of the generated world.
pub proof fn lemma_spawn_points_on_land(k: int)
    requires
        0 <= k < spawn_points_spec().len(),
    ensures
        has_pos(world_tiles(), spawn_points_spec()[k].0 as int, spawn_points_spec()[k].1 as int),
{
    if k == 0 {
        lemma_island_is_land(0, 6, 3);
    } else if k == 1 {
        lemma_island_is_land(0, -5, 7);
    } else if k == 2 {
        lemma_island_is_land(0, 9, -4);
    } else if k == 3 {
        lemma_island_is_land(1, 43, 37);
    } else if k == 4 {
        lemma_island_is_land(1, 40, 41);
    } else if k == 5 {
        lemma_island_is_land(1, 46, 35);
    } else if k == 6 {
        lemma_island_is_land(2, 57, -38);
    } else if k == 7 {
        lemma_island_is_land(2, 52, -43);
    } else if k == 8 {
        lemma_island_is_land(3, -46, -47);
    } else if k == 9 {
        lemma_island_is_land(3, -51, -41);
    } else if k == 10 {
        lemma_island_is_land(4, -45, 49);
    } else if k == 11 {
        lemma_island_is_land(4, -42, 44);
    } else if k == 12 {
        lemma_island_is_land(5, 5, -57);
    } else if k == 13 {
        lemma_island_is_land(5, 4, -51);
    }
}

/// Picks where the periodic spawner puts the next enemy.
pub struct EnemySpawner {
    rng_seed: u32,
}

impl EnemySpawner {
    /// The current seed of the spawner's generator.
    pub closed spec fn seed(&self) -> u32 {
        self.rng_seed
    }

    /// A spawner whose generator starts at `0xDEAD_BEEF`.
    pub fn new() -> (s: Self)
        ensures
            s.seed() == 0xDEAD_BEEFu32,
    {
        EnemySpawner { rng_seed: 0xDEAD_BEEF }
    }

    /// The current seed of the spawner's generator.
    pub fn rng_seed(&self) -> (seed: u32)
        ensures
            seed == self.seed(),
    {
        self.rng_seed
    }

    /// Advances the generator one step and returns the spawn point that the
    /// new seed selects (the seed modulo the number of spawn points).
    pub fn next_spawn_point(&mut self) -> (p: (i32, i32))
        ensures
            final(self).seed() == spec_lcg(old(self).seed()),
            p == spawn_points_spec()[(final(self).seed() % 14) as int],
    {
        self.rng_seed = lcg(self.rng_seed);
        let points = spawn_points();
        points[self.rng_seed as usize % points.len()]
    }
}

/// Law: the spawner only ever places enemies on land.
pub proof fn lemma_spawner_picks_land(seed: u32)
    ensures
        has_pos(
            world_tiles(),
            spawn_points_spec()[(seed % 14) as int].0 as int,
            spawn_points_spec()[(seed % 14) as int].1 as int,
        ),
{
    lemma_spawn_points_on_land((seed % 14) as int);
}

// ---------------------------------------------------------------------------
// Per-enemy randomness and wandering decisions
// ---------------------------------------------------------------------------

/// Seed of the enemy that starts at grid cell `(gx, gy)`: one generator step
/// from `gx * LCG_MUL + gy * LCG_INC`, coordinates reinterpreted as `u32`,
/// all modulo 2^32.
pub open spec fn spec_initial_enemy_seed(gx: i32, gy: i32) -> u32 {
    spec_lcg(add32(mul32((gx as u32) as nat, LCG_MUL as nat) as nat, mul32((gy as u32) as nat, LCG_INC as nat) as nat))
}

/// Seed of the enemy placed at start-up on grid cell `(gx, gy)`.
pub fn initial_enemy_seed(gx: i32, gy: i32) -> (seed: u32)
    ensures
        seed == spec_initial_enemy_seed(gx, gy),
{
    let a = (gx as u32).wrapping_mul(LCG_MUL);
    let b = (gy as u32).wrapping_mul(LCG_INC);
    lcg(wrapping_add_u32(a, b))
}

/// Heading of an enemy with this seed, in hundredths of a radian, in `0..628`.
pub fn heading_centiradians(seed: u32) -> (c: u32)
    ensures
        c == seed % 628,
        c < 628,
{
    seed % 628
}

/// Initial wandering countdown of an enemy with this seed, in hundredths of a
/// second, in `0..250`.
pub fn wander_delay_centiseconds(seed: u32) -> (c: u32)
    ensures
        c == seed % 250,
        c < 250,
{
    seed % 250
}

/// Whether an enemy picks a new wandering heading this frame: a chasing enemy
/// does when its wander timer has run out; a wandering one also when its
/// next step would leave the islands.
pub fn should_pick_new_heading(chasing: bool, next_step_on_tile: bool, timer_expired: bool) -> (pick: bool)
    ensures
        pick == (timer_expired || (!chasing && !next_step_on_tile)),
{
    if !chasing && (!next_step_on_tile || timer_expired) {
        true
    } else if chasing && timer_expired {
        true
    } else {
        false
    }
}

} // verus!
