use vstd::prelude::*;

use crate::world::{in_disc, lemma_world_tile_origin, world_islands, world_tiles, Tile, TileType};

verus! {

/// Surfaces that burn a slow bee: lava and volcanic ground.
pub open spec fn is_lava_kind(kind: TileType) -> bool {
    kind == TileType::Lava || kind == TileType::Volcanic
}

/// Whether `kind` burns a slow bee.
pub fn lava_kind(kind: TileType) -> (b: bool)
    ensures
        b == is_lava_kind(kind),
{
    match kind {
        TileType::Lava | TileType::Volcanic => true,
        _ => false,
    }
}

/// Grid positions of the lava and volcanic tiles of `tiles`.
pub open spec fn lava_positions(tiles: Seq<Tile>) -> Set<(i32, i32)> {
    Set::new(
        |c: (i32, i32)|
            exists|i: int|
                0 <= i < tiles.len() && tiles[i].0 == c.0 && tiles[i].1 == c.1 && is_lava_kind(
                    tiles[i].2,
                ),
    )
}

/// Some cell of `cells` lies in the 3 x 3 block of cells centred on `(gx, gy)`.
pub open spec fn near_any(cells: Set<(i32, i32)>, gx: int, gy: int) -> bool {
    exists|c: (i32, i32)|
        cells.contains(c) && gx - 1 <= c.0 <= gx + 1 && gy - 1 <= c.1 <= gy + 1
}

/// The set of every grid position that is a lava or volcanic tile.  A bee
/// must cross these at high speed or it is sent back to spawn.
pub struct LavaTiles {
    cells: Vec<(i32, i32)>,
}

impl LavaTiles {
    /// No position is stored twice.
    #[verifier::type_invariant]
    spec fn no_duplicates(self) -> bool {
        self.cells@.no_duplicates()
    }

    pub closed spec fn cells_set(&self) -> Set<(i32, i32)> {
        self.cells@.to_set()
    }
}

impl View for LavaTiles {
    type V = Set<(i32, i32)>;

    closed spec fn view(&self) -> Set<(i32, i32)> {
        self.cells_set()
    }
}

impl LavaTiles {
    /// An empty set of lava positions.
    pub fn new() -> (s: Self)
        ensures
            s@ == Set::<(i32, i32)>::empty(),
    {
        let s = LavaTiles { cells: Vec::new() };
        assert(s.cells@.to_set() =~= Set::<(i32, i32)>::empty());
        s
    }

    /// Whether `cell` is a lava position.
    pub fn contains(&self, cell: (i32, i32)) -> (found: bool)
        ensures
            found == self@.contains(cell),
    {
        let mut i: usize = 0;
        while i < self.cells.len()
            invariant
                0 <= i <= self.cells@.len(),
                forall|j: int| 0 <= j < i ==> self.cells@[j] != cell,
            decreases self.cells@.len() - i,
        {
            if self.cells[i].0 == cell.0 && self.cells[i].1 == cell.1 {
                proof {
                    assert(self.cells@[i as int] == cell);
                }
                return true;
            }
            i += 1;
        }
        proof {
            if self.cells@.to_set().contains(cell) {
                let j = choose|j: int| 0 <= j < self.cells@.len() && self.cells@[j] == cell;
            }
        }
        false
    }

    /// Adds `cell` to the set; returns whether it was new.
    pub fn insert(&mut self, cell: (i32, i32)) -> (added: bool)
        ensures
            final(self)@ == old(self)@.insert(cell),
            added == !old(self)@.contains(cell),
    {
        proof {
            use_type_invariant(&*self);
        }
        if self.contains(cell) {
            proof {
                assert(self@.insert(cell) =~= self@);
            }
            false
        } else {
            let ghost before = self.cells@;
            assert(!before.to_set().contains(cell));
            let mut taken = LavaTiles::new();
            std::mem::swap(self, &mut taken);
            proof {
                use_type_invariant(&taken);
            }
            let LavaTiles { cells: mut v } = taken;
            v.push(cell);
            proof {
                assert(v@ == before.push(cell));
                assert(v@.to_set() =~= before.to_set().insert(cell)) by {
                    assert forall|c: (i32, i32)| #[trigger] before.to_set().insert(cell).contains(c) implies v@.to_set().contains(c) by {
                        if c == cell {
                            assert(v@[before.len() as int] == cell);
                        } else {
                            let j = choose|j: int| 0 <= j < before.len() && before[j] == c;
                            assert(v@[j] == c);
                        }
                    }
                }
                assert(v@.no_duplicates()) by {
                    assert forall|i: int, j: int|
                        0 <= i < v@.len() && 0 <= j < v@.len() && i != j implies v@[i] != v@[j] by {
                        if i == before.len() as int {
                            assert(v@[j] == before[j]);
                            assert(before.to_set().contains(before[j]));
                        } else if j == before.len() as int {
                            assert(v@[i] == before[i]);
                            assert(before.to_set().contains(before[i]));
                        } else {
                            assert(v@[i] == before[i] && v@[j] == before[j]);
                        }
                    }
                }
            }
            *self = LavaTiles { cells: v };
            true
        }
    }

    /// The lava and volcanic positions of `tiles`.
    pub fn from_tiles(tiles: &Vec<Tile>) -> (s: Self)
        ensures
            s@ == lava_positions(tiles@),
    {
        let mut s = LavaTiles::new();
        let mut i: usize = 0;
        while i < tiles.len()
            invariant
                0 <= i <= tiles@.len(),
                s@ == lava_positions(tiles@.subrange(0, i as int)),
            decreases tiles@.len() - i,
        {
            let t = tiles[i];
            let ghost before = s@;
            if lava_kind(t.2) {
                s.insert((t.0, t.1));
            }
            proof {
                let sub = tiles@.subrange(0, i as int);
                let next = tiles@.subrange(0, i + 1);
                assert forall|c: (i32, i32)| #[trigger] lava_positions(next).contains(c) == s@.contains(c) by {
                    if lava_positions(next).contains(c) {
                        let k = choose|k: int|
                            0 <= k < next.len() && next[k].0 == c.0 && next[k].1 == c.1
                                && is_lava_kind(next[k].2);
                        if k < i {
                            assert(sub[k] == next[k]);
                            assert(lava_positions(sub).contains(c));
                        } else {
                            assert(next[k] == t);
                        }
                    }
                    if s@.contains(c) && before.contains(c) {
                        let k = choose|k: int|
                            0 <= k < sub.len() && sub[k].0 == c.0 && sub[k].1 == c.1
                                && is_lava_kind(sub[k].2);
                        assert(next[k] == sub[k]);
                    }
                    if s@.contains(c) && !before.contains(c) {
                        assert(next[i as int] == t);
                    }
                }
                assert(lava_positions(next) =~= s@);
            }
            i += 1;
        }
        proof {
            assert(tiles@.subrange(0, tiles@.len() as int) =~= tiles@);
        }
        s
    }

    /// Whether the grid cell `cell` is next to (or on) a lava position: some
    /// lava position lies in the 3 x 3 block of cells centred on it.
    pub fn is_over_lava(&self, cell: (i32, i32)) -> (over: bool)
        requires
            i32::MIN < cell.0 < i32::MAX,
            i32::MIN < cell.1 < i32::MAX,
        ensures
            over == near_any(self@, cell.0 as int, cell.1 as int),
    {
        let (gx, gy) = cell;
        let mut dx: i32 = -1;
        while dx <= 1
            invariant
                -1 <= dx <= 2,
                i32::MIN < gx < i32::MAX,
                i32::MIN < gy < i32::MAX,
                gx == cell.0 && gy == cell.1,
                forall|c: (i32, i32)|
                    #![trigger self@.contains(c)]
                    self@.contains(c) && gx - 1 <= c.0 < gx + dx ==> !(gy - 1 <= c.1 <= gy + 1),
            decreases 2 - dx,
        {
            let mut dy: i32 = -1;
            while dy <= 1
                invariant
                    -1 <= dx <= 1,
                    -1 <= dy <= 2,
                    i32::MIN < gx < i32::MAX,
                    i32::MIN < gy < i32::MAX,
                    gx == cell.0 && gy == cell.1,
                    forall|c: (i32, i32)|
                        #![trigger self@.contains(c)]
                        self@.contains(c) && gx - 1 <= c.0 < gx + dx ==> !(gy - 1 <= c.1 <= gy + 1),
                    forall|c: (i32, i32)|
                        #![trigger self@.contains(c)]
                        self@.contains(c) && c.0 == gx + dx ==> !(gy - 1 <= c.1 < gy + dy),
                decreases 2 - dy,
            {
                if self.contains((gx + dx, gy + dy)) {
                    proof {
                        let c: (i32, i32) = ((gx + dx) as i32, (gy + dy) as i32);
                        assert(self@.contains(c));
                        assert(near_any(self@, gx as int, gy as int));
                    }
                    return true;
                }
                dy += 1;
            }
            dx += 1;
        }
        false
    }
}


/// Law: the world's only lava and volcanic ground lies on the volcanic
/// island's disc.
pub proof fn lemma_lava_only_on_volcano(c: (i32, i32))
    requires
        lava_positions(world_tiles()).contains(c),
    ensures
        in_disc(world_islands()[4], c.0 as int, c.1 as int),
{
    let i = choose|i: int|
        0 <= i < world_tiles().len() && world_tiles()[i].0 == c.0 && world_tiles()[i].1 == c.1
            && is_lava_kind(world_tiles()[i].2);
    lemma_world_tile_origin(i);
    let t = world_tiles()[i];
    if t.2 != TileType::Bridge {
        let k = choose|k: int|
            0 <= k < 6 && in_disc(#[trigger] world_islands()[k], t.0 as int, t.1 as int) && (t.2
                == world_islands()[k].inner || t.2 == world_islands()[k].outer);
        assert(k == 4);
    }
}


/// Law: a lava cell makes itself and each of its eight neighbours "over
/// lava", whichever way the offset points.
pub proof fn lemma_lava_reaches_neighbours(cells: Set<(i32, i32)>, c: (i32, i32), dx: int, dy: int)
    requires
        cells.contains(c),
        -1 <= dx <= 1,
        -1 <= dy <= 1,
    ensures
        near_any(cells, c.0 + dx, c.1 + dy),
        near_any(cells, c.0 - dx, c.1 - dy),
{
    assert(cells.contains(c));
}

/// Law: a cell is "over lava" only if some lava cell differs from it by at
/// most one along each axis.
pub proof fn lemma_near_lava_is_close(cells: Set<(i32, i32)>, gx: int, gy: int)
    requires
        near_any(cells, gx, gy),
    ensures
        exists|c: (i32, i32)|
            cells.contains(c) && -1 <= c.0 - gx <= 1 && -1 <= c.1 - gy <= 1,
{
    let c = choose|c: (i32, i32)| cells.contains(c) && gx - 1 <= c.0 <= gx + 1 && gy - 1 <= c.1 <= gy + 1;
    assert(cells.contains(c) && -1 <= c.0 - gx <= 1 && -1 <= c.1 - gy <= 1);
}

/// Law: "over lava" is symmetric: if lava at `a` makes `b` over lava when it
/// is the only lava, then lava at `b` makes `a` over lava.
pub proof fn lemma_near_lava_symmetric(a: (i32, i32), b: (i32, i32))
    requires
        near_any(Set::empty().insert(a), b.0 as int, b.1 as int),
    ensures
        near_any(Set::empty().insert(b), a.0 as int, a.1 as int),
{
    let c = choose|c: (i32, i32)|
        Set::<(i32, i32)>::empty().insert(a).contains(c) && b.0 - 1 <= c.0 <= b.0 + 1 && b.1 - 1 <= c.1
            <= b.1 + 1;
    assert(c == a);
    assert(Set::<(i32, i32)>::empty().insert(b).contains(b));
}

} // verus!
