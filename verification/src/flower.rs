use vstd::prelude::*;

use crate::world::{has_pos, in_disc, world_islands, lemma_island_is_land, world_tiles};

verus! {

/// Grid cells of the ordinary (pink, white and yellow) flowers, which send
/// the bee back to spawn when touched.
pub open spec fn flower_positions_spec() -> Seq<(i32, i32)> {
    seq![
        (3i32, 2i32), (-3i32, 4i32), (5i32, -2i32), (8i32, 6i32), (-6i32, -3i32),
        (10i32, 1i32), (-8i32, 7i32), (2i32, 10i32), (-4i32, -8i32), (7i32, -5i32),
        (0i32, 5i32), (4i32, -4i32), (-5i32, 2i32), (6i32, 8i32), (-9i32, 1i32),
        (41i32, 36i32), (44i32, 39i32), (40i32, 40i32), (45i32, 36i32), (43i32, 40i32),
        (38i32, 39i32), (42i32, 42i32), (46i32, 38i32), (53i32, -38i32), (56i32, -41i32),
        (58i32, -37i32), (54i32, -44i32), (50i32, -40i32), (-49i32, -45i32), (-46i32, -48i32),
        (-52i32, -43i32), (-44i32, -46i32), (-50i32, -40i32), (-43i32, 46i32), (-46i32, 50i32),
        (6i32, -55i32), (3i32, -53i32), (7i32, -52i32), (10i32, 5i32), (20i32, 10i32),
        (30i32, 18i32), (-10i32, -10i32), (-20i32, -20i32),
    ]
}

/// The ordinary flowers' grid cells.
pub fn flower_positions() -> (points: Vec<(i32, i32)>)
    ensures
        points@ == flower_positions_spec(),
{
    let points = vec![
        (3, 2), (-3, 4), (5, -2), (8, 6), (-6, -3),
        (10, 1), (-8, 7), (2, 10), (-4, -8), (7, -5),
        (0, 5), (4, -4), (-5, 2), (6, 8), (-9, 1),
        (41, 36), (44, 39), (40, 40), (45, 36), (43, 40),
        (38, 39), (42, 42), (46, 38), (53, -38), (56, -41),
        (58, -37), (54, -44), (50, -40), (-49, -45), (-46, -48),
        (-52, -43), (-44, -46), (-50, -40), (-43, 46), (-46, 50),
        (6, -55), (3, -53), (7, -52), (10, 5), (20, 10),
        (30, 18), (-10, -10), (-20, -20),
    ];
    assert(points@ =~= flower_positions_spec());
    points
}

/// Grid cell of the red flower, the goal of the game.
pub open spec fn red_flower_position_spec() -> (i32, i32) {
    (5i32, -58i32)
}

/// The red flower's grid cell.
pub fn red_flower_position() -> (p: (i32, i32))
    ensures
        p == red_flower_position_spec(),
{
    (5, -58)
}

/// Law: the red flower stands on land (on the rocky outcrop), so the goal
/// can be reached.
pub proof fn lemma_red_flower_on_land()
    ensures
        has_pos(world_tiles(), red_flower_position_spec().0 as int, red_flower_position_spec().1 as int),
{
    assert(world_islands()[5].cx == 5 && world_islands()[5].cy == -55);
    assert(in_disc(world_islands()[5], 5, -58));
    lemma_island_is_land(5, 5, -58);
}

/// Law: every ordinary flower stands on an island, except the three placed
/// over open sky between the islands, at indices 39, 40 and 42 (cells
/// `(20, 10)`, `(30, 18)` and `(-20, -20)`).
pub proof fn lemma_flowers_on_land(k: int)
    requires
        0 <= k < flower_positions_spec().len(),
        k != 39 && k != 40 && k != 42,
    ensures
        has_pos(world_tiles(), flower_positions_spec()[k].0 as int, flower_positions_spec()[k].1 as int),
{
    if k == 0 {
        lemma_island_is_land(0, 3, 2);
    } else if k == 1 {
        lemma_island_is_land(0, -3, 4);
    } else if k == 2 {
        lemma_island_is_land(0, 5, -2);
    } else if k == 3 {
        lemma_island_is_land(0, 8, 6);
    } else if k == 4 {
        lemma_island_is_land(0, -6, -3);
    } else if k == 5 {
        lemma_island_is_land(0, 10, 1);
    } else if k == 6 {
        lemma_island_is_land(0, -8, 7);
    } else if k == 7 {
        lemma_island_is_land(0, 2, 10);
    } else if k == 8 {
        lemma_island_is_land(0, -4, -8);
    } else if k == 9 {
        lemma_island_is_land(0, 7, -5);
    } else if k == 10 {
        lemma_island_is_land(0, 0, 5);
    } else if k == 11 {
        lemma_island_is_land(0, 4, -4);
    } else if k == 12 {
        lemma_island_is_land(0, -5, 2);
    } else if k == 13 {
        lemma_island_is_land(0, 6, 8);
    } else if k == 14 {
        lemma_island_is_land(0, -9, 1);
    } else if k == 15 {
        lemma_island_is_land(1, 41, 36);
    } else if k == 16 {
        lemma_island_is_land(1, 44, 39);
    } else if k == 17 {
        lemma_island_is_land(1, 40, 40);
    } else if k == 18 {
        lemma_island_is_land(1, 45, 36);
    } else if k == 19 {
        lemma_island_is_land(1, 43, 40);
    } else if k == 20 {
        lemma_island_is_land(1, 38, 39);
    } else if k == 21 {
        lemma_island_is_land(1, 42, 42);
    } else if k == 22 {
        lemma_island_is_land(1, 46, 38);
    } else if k == 23 {
        lemma_island_is_land(2, 53, -38);
    } else if k == 24 {
        lemma_island_is_land(2, 56, -41);
    } else if k == 25 {
        lemma_island_is_land(2, 58, -37);
    } else if k == 26 {
        lemma_island_is_land(2, 54, -44);
    } else if k == 27 {
        lemma_island_is_land(2, 50, -40);
    } else if k == 28 {
        lemma_island_is_land(3, -49, -45);
    } else if k == 29 {
        lemma_island_is_land(3, -46, -48);
    } else if k == 30 {
        lemma_island_is_land(3, -52, -43);
    } else if k == 31 {
        lemma_island_is_land(3, -44, -46);
    } else if k == 32 {
        lemma_island_is_land(3, -50, -40);
    } else if k == 33 {
        lemma_island_is_land(4, -43, 46);
    } else if k == 34 {
        lemma_island_is_land(4, -46, 50);
    } else if k == 35 {
        lemma_island_is_land(5, 6, -55);
    } else if k == 36 {
        lemma_island_is_land(5, 3, -53);
    } else if k == 37 {
        lemma_island_is_land(5, 7, -52);
    } else if k == 38 {
        lemma_island_is_land(0, 10, 5);
    } else if k == 41 {
        lemma_island_is_land(0, -10, -10);
    }
}

/// Colour of an ordinary flower's petals.
#[derive(Clone, Copy, PartialEq, Eq, Debug, Structural)]
pub enum PetalColor {
    Pink,
    White,
    Yellow,
}

/// Petal colour of a flower whose cell hash is `h`: pink, white or yellow by
/// the hash modulo 3.
pub fn petal_color(h: u32) -> (c: PetalColor)
    ensures
        c == (if h % 3 == 0 {
            PetalColor::Pink
        } else if h % 3 == 1 {
            PetalColor::White
        } else {
            PetalColor::Yellow
        }),
{
    match h % 3 {
        0 => PetalColor::Pink,
        1 => PetalColor::White,
        _ => PetalColor::Yellow,
    }
}

/// Offset of a flower from its cell's centre, in steps: x steps of 1.8 units
/// in `-12..12` from the hash modulo 24, z steps of 1 unit in `-8..8` from
/// the hash's second byte upward modulo 16.
pub fn flower_offset(h: u32) -> (off: (i32, i32))
    ensures
        off.0 == (h % 24) as int - 12,
        off.1 == ((h >> 8u32) % 16) as int - 8,
{
    ((h % 24) as i32 - 12, ((h >> 8) % 16) as i32 - 8)
}

} // verus!
