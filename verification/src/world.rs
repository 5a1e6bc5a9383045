use vstd::prelude::*;

verus! {

// ---------------------------------------------------------------------------
// Tile types
// ---------------------------------------------------------------------------

/// The surface of one grid cell of the floating islands.
#[derive(Clone, Copy, PartialEq, Eq, Debug, Structural)]
pub enum TileType {
    Grass,
    Dirt,
    Rock,
    Jungle,
    JungleFloor,
    Desert,
    DesertRock,
    Tundra,
    Snow,
    Volcanic,
    Lava,
    Bridge,
}

/// One placed tile: grid position `(gx, gy)` and its surface.
pub type Tile = (i32, i32, TileType);

// ---------------------------------------------------------------------------
// Placement model: a tile is placed only where no tile stands yet
// ---------------------------------------------------------------------------

/// Some tile of `tiles` stands at grid position `(x, y)`.
pub open spec fn has_pos(tiles: Seq<Tile>, x: int, y: int) -> bool {
    exists|i: int| 0 <= i < tiles.len() && tiles[i].0 == x && tiles[i].1 == y
}

/// `tiles` after trying to place `cell`: the cell is appended unless its
/// position is already taken, in which case nothing changes.
pub open spec fn place(tiles: Seq<Tile>, cell: Tile) -> Seq<Tile> {
    if has_pos(tiles, cell.0 as int, cell.1 as int) {
        tiles
    } else {
        tiles.push(cell)
    }
}

/// `tiles` after trying to place every cell of `cells`, in order.
pub open spec fn place_all(tiles: Seq<Tile>, cells: Seq<Tile>) -> Seq<Tile>
    decreases cells.len(),
{
    if cells.len() == 0 {
        tiles
    } else {
        place(place_all(tiles, cells.drop_last()), cells.last())
    }
}

/// No two tiles of `tiles` share a grid position.
pub open spec fn positions_distinct(tiles: Seq<Tile>) -> bool {
    forall|i: int, j: int|
        0 <= i < j < tiles.len() ==> !(tiles[i].0 == tiles[j].0 && tiles[i].1 == tiles[j].1)
}

/// `a` is a prefix of `b`.
pub open spec fn is_prefix(a: Seq<Tile>, b: Seq<Tile>) -> bool {
    a.len() <= b.len() && forall|i: int| 0 <= i < a.len() ==> b[i] == a[i]
}

/// Placing a list with one more cell at its end is placing that cell last.
pub proof fn lemma_place_all_push(tiles: Seq<Tile>, cells: Seq<Tile>, cell: Tile)
    ensures
        place_all(tiles, cells.push(cell)) == place(place_all(tiles, cells), cell),
{
    assert(cells.push(cell).drop_last() =~= cells);
}

/// Placing `a` then `b` is placing `a + b`.
pub proof fn lemma_place_all_concat(tiles: Seq<Tile>, a: Seq<Tile>, b: Seq<Tile>)
    ensures
        place_all(tiles, a + b) == place_all(place_all(tiles, a), b),
    decreases b.len(),
{
    if b.len() == 0 {
        assert(a + b =~= a);
    } else {
        lemma_place_all_concat(tiles, a, b.drop_last());
        assert((a + b).drop_last() =~= a + b.drop_last());
        assert((a + b).last() == b.last());
    }
}

/// Law: placing cells never moves or replaces a tile that is already there.
pub proof fn lemma_place_all_keeps_prefix(tiles: Seq<Tile>, cells: Seq<Tile>)
    ensures
        is_prefix(tiles, place_all(tiles, cells)),
    decreases cells.len(),
{
    if cells.len() > 0 {
        lemma_place_all_keeps_prefix(tiles, cells.drop_last());
    }
}

/// Law: after placing `cells`, a position is taken exactly when it was taken
/// before or some cell of `cells` stands there.
pub proof fn lemma_place_all_positions(tiles: Seq<Tile>, cells: Seq<Tile>, x: int, y: int)
    ensures
        has_pos(place_all(tiles, cells), x, y) <==> (has_pos(tiles, x, y) || has_pos(cells, x, y)),
    decreases cells.len(),
{
    if cells.len() > 0 {
        let prev = place_all(tiles, cells.drop_last());
        lemma_place_all_positions(tiles, cells.drop_last(), x, y);
        let c = cells.last();
        if has_pos(cells, x, y) {
            let i = choose|i: int| 0 <= i < cells.len() && cells[i].0 == x && cells[i].1 == y;
            if i < cells.len() - 1 {
                assert(cells.drop_last()[i] == cells[i]);
            }
        }
        if has_pos(cells.drop_last(), x, y) {
            let i = choose|i: int|
                0 <= i < cells.drop_last().len() && cells.drop_last()[i].0 == x
                    && cells.drop_last()[i].1 == y;
            assert(cells[i] == cells.drop_last()[i]);
        }
        if has_pos(prev, x, y) {
            let i = choose|i: int| 0 <= i < prev.len() && prev[i].0 == x && prev[i].1 == y;
            assert(place(prev, c)[i] == prev[i]);
        }
        if has_pos(place(prev, c), x, y) && !has_pos(prev, x, y) {
            assert(c.0 == x && c.1 == y);
            assert(cells[cells.len() - 1] == c);
        }
        if c.0 == x && c.1 == y {
            if !has_pos(prev, x, y) {
                assert(place(prev, c)[prev.len() as int] == c);
            }
        }
    }
}

/// Law: placement never makes two tiles share a position.
pub proof fn lemma_place_all_keeps_distinct(tiles: Seq<Tile>, cells: Seq<Tile>)
    requires
        positions_distinct(tiles),
    ensures
        positions_distinct(place_all(tiles, cells)),
    decreases cells.len(),
{
    if cells.len() > 0 {
        lemma_place_all_keeps_distinct(tiles, cells.drop_last());
        let prev = place_all(tiles, cells.drop_last());
        let c = cells.last();
        if !has_pos(prev, c.0 as int, c.1 as int) {
            let next = prev.push(c);
            assert forall|i: int, j: int| 0 <= i < j < next.len() implies !(next[i].0 == next[j].0
                && next[i].1 == next[j].1) by {
                if j == prev.len() {
                    assert(next[i] == prev[i]);
                }
            }
        }
    }
}

/// Law: a cell whose position is free, and taken by no earlier cell of the
/// list, is placed exactly as given.
pub proof fn lemma_place_all_first_wins(tiles: Seq<Tile>, cells: Seq<Tile>, k: int)
    requires
        0 <= k < cells.len(),
        !has_pos(tiles, cells[k].0 as int, cells[k].1 as int),
        forall|j: int| 0 <= j < k ==> !(cells[j].0 == cells[k].0 && cells[j].1 == cells[k].1),
    ensures
        place_all(tiles, cells).contains(cells[k]),
    decreases cells.len(),
{
    let prefix = cells.subrange(0, k);
    let rest = cells.subrange(k, cells.len() as int);
    assert(cells =~= prefix + rest);
    lemma_place_all_concat(tiles, prefix, rest);
    let mid = place_all(tiles, prefix);
    lemma_place_all_positions(tiles, prefix, cells[k].0 as int, cells[k].1 as int);
    if has_pos(prefix, cells[k].0 as int, cells[k].1 as int) {
        let j = choose|j: int|
            0 <= j < prefix.len() && prefix[j].0 == cells[k].0 && prefix[j].1 == cells[k].1;
        assert(prefix[j] == cells[j]);
    }
    let first = seq![cells[k]];
    assert(rest =~= first + rest.subrange(1, rest.len() as int));
    lemma_place_all_concat(mid, first, rest.subrange(1, rest.len() as int));
    assert(first.drop_last() =~= Seq::<Tile>::empty());
    assert(place_all(mid, first.drop_last()) == mid);
    assert(first.last() == cells[k]);
    assert(!has_pos(mid, cells[k].0 as int, cells[k].1 as int));
    let placed = place_all(mid, first);
    assert(placed == mid.push(cells[k]));
    lemma_place_all_keeps_prefix(placed, rest.subrange(1, rest.len() as int));
    let fin = place_all(placed, rest.subrange(1, rest.len() as int));
    assert(fin[mid.len() as int] == cells[k]);
}

/// Whether some tile of `tiles` stands at `(x, y)`.
pub fn has_position(tiles: &Vec<Tile>, x: i32, y: i32) -> (found: bool)
    ensures
        found == has_pos(tiles@, x as int, y as int),
{
    let mut i: usize = 0;
    while i < tiles.len()
        invariant
            0 <= i <= tiles.len(),
            forall|j: int| 0 <= j < i ==> !(tiles@[j].0 == x && tiles@[j].1 == y),
        decreases tiles.len() - i,
    {
        if tiles[i].0 == x && tiles[i].1 == y {
            return true;
        }
        i += 1;
    }
    false
}

/// Places `cell` unless its position is already taken.
pub fn place_tile(tiles: &mut Vec<Tile>, cell: Tile)
    ensures
        final(tiles)@ == place(old(tiles)@, cell),
{
    if !has_position(tiles, cell.0, cell.1) {
        tiles.push(cell);
    }
}


// ---------------------------------------------------------------------------
// Islands: discs of tiles, an inner core and an outer ring
// ---------------------------------------------------------------------------

/// A round island: every cell within squared distance `radius_sq` of
/// `(cx, cy)`; cells within half that squared distance get `inner`, the rest
/// `outer`.
#[derive(Clone, Copy, PartialEq, Eq, Debug, Structural)]
pub struct Island {
    pub cx: i32,
    pub cy: i32,
    pub radius_sq: i32,
    pub inner: TileType,
    pub outer: TileType,
}

/// Squared Euclidean distance between grid cells `(cx, cy)` and `(gx, gy)`.
pub open spec fn dist_sq(cx: int, cy: int, gx: int, gy: int) -> int {
    (gx - cx) * (gx - cx) + (gy - cy) * (gy - cy)
}

/// Whether cell `(gx, gy)` belongs to the island.
pub open spec fn in_disc(isl: Island, gx: int, gy: int) -> bool {
    dist_sq(isl.cx as int, isl.cy as int, gx, gy) <= isl.radius_sq
}

/// The tile that the island puts at `(gx, gy)`.
pub open spec fn disc_tile(isl: Island, gx: int, gy: int) -> Tile {
    let d = dist_sq(isl.cx as int, isl.cy as int, gx, gy);
    (gx as i32, gy as i32, if d <= isl.radius_sq / 2 { isl.inner } else { isl.outer })
}

/// Every cell that lies within `d` of the centre along an axis is a valid
/// `i32` position, for every `d` whose square reaches no further than the
/// island: all cells of the island can be represented.
pub open spec fn disc_fits(isl: Island) -> bool {
    forall|d: int|
        #![trigger d * d]
        0 <= d && d * d <= isl.radius_sq ==> i32::MIN <= isl.cx - d && isl.cx + d <= i32::MAX
            && i32::MIN <= isl.cy - d && isl.cy + d <= i32::MAX
}

/// The smallest `r >= start` with `r * r > rsq`.
pub open spec fn reach_from(rsq: int, start: nat) -> nat
    decreases rsq + 1 - start,
{
    if start * start > rsq {
        start
    } else {
        proof {
            if start >= 1 {
                assert(start <= start * start) by (nonlinear_arith)
                    requires
                        start >= 1,
                ;
            }
        }
        reach_from(rsq, start + 1)
    }
}

/// Half-width of the square that the island scans: the smallest `r >= 0`
/// with `r * r > radius_sq`, i.e. `floor(sqrt(radius_sq)) + 1`.
pub open spec fn reach(rsq: int) -> nat {
    reach_from(rsq, 0)
}

/// Island cells of column `gx` with `lo <= gy < hi`, in increasing `gy`.
pub open spec fn column_cells(isl: Island, gx: int, lo: int, hi: int) -> Seq<Tile>
    decreases hi - lo,
{
    if hi <= lo {
        Seq::empty()
    } else {
        let prev = column_cells(isl, gx, lo, hi - 1);
        if in_disc(isl, gx, hi - 1) {
            prev.push(disc_tile(isl, gx, hi - 1))
        } else {
            prev
        }
    }
}

/// Island cells of the columns `lo <= gx < hi` (rows of the scan square of
/// half-width `r`), column by column.
pub open spec fn rows_cells(isl: Island, r: int, lo: int, hi: int) -> Seq<Tile>
    decreases hi - lo,
{
    if hi <= lo {
        Seq::empty()
    } else {
        rows_cells(isl, r, lo, hi - 1) + column_cells(isl, hi - 1, isl.cy - r, isl.cy + r + 1)
    }
}

/// All cells of the island in scan order: increasing `gx`, then increasing `gy`.
pub open spec fn circle_cells(isl: Island) -> Seq<Tile> {
    let r = reach(isl.radius_sq as int) as int;
    rows_cells(isl, r, isl.cx - r, isl.cx + r + 1)
}

proof fn lemma_reach_from(rsq: int, start: nat)
    requires
        rsq <= i32::MAX,
        start <= 46341,
    ensures
        reach_from(rsq, start) * reach_from(rsq, start) > rsq,
        reach_from(rsq, start) <= 46341,
        start <= reach_from(rsq, start),
        start < reach_from(rsq, start) ==> start * start <= rsq,
    decreases rsq + 1 - start,
{
    if start * start <= rsq {
        if start >= 1 {
            assert(start <= start * start) by (nonlinear_arith)
                requires
                    start >= 1,
            ;
        }
        assert(start < 46341) by (nonlinear_arith)
            requires
                start * start <= rsq,
                rsq <= i32::MAX,
        ;
        lemma_reach_from(rsq, start + 1);
    }
}

/// The scan half-width exceeds the distance to every cell of the island.
proof fn lemma_reach_covers(isl: Island, gx: int, gy: int)
    requires
        in_disc(isl, gx, gy),
    ensures
        isl.cx - reach(isl.radius_sq as int) < gx < isl.cx + reach(isl.radius_sq as int),
        isl.cy - reach(isl.radius_sq as int) < gy < isl.cy + reach(isl.radius_sq as int),
{
    let r = reach(isl.radius_sq as int) as int;
    lemma_reach_from(isl.radius_sq as int, 0);
    let dx = gx - isl.cx;
    let dy = gy - isl.cy;
    assert(dx * dx <= isl.radius_sq && dy * dy <= isl.radius_sq) by (nonlinear_arith)
        requires
            dx * dx + dy * dy <= isl.radius_sq,
    ;
    assert(-r < dx < r && -r < dy < r) by (nonlinear_arith)
        requires
            dx * dx <= isl.radius_sq,
            dy * dy <= isl.radius_sq,
            r * r > isl.radius_sq,
            r >= 0,
    ;
}

/// Every cell of the island is a valid `i32` position.
proof fn lemma_disc_cell_fits(isl: Island, gx: int, gy: int)
    requires
        disc_fits(isl),
        in_disc(isl, gx, gy),
    ensures
        i32::MIN <= gx <= i32::MAX,
        i32::MIN <= gy <= i32::MAX,
{
    let dx = gx - isl.cx;
    let dy = gy - isl.cy;
    assert(dx * dx <= isl.radius_sq && dy * dy <= isl.radius_sq) by (nonlinear_arith)
        requires
            dx * dx + dy * dy <= isl.radius_sq,
    ;
    let ax = if dx >= 0 { dx } else { -dx };
    let ay = if dy >= 0 { dy } else { -dy };
    assert(ax * ax == dx * dx && ay * ay == dy * dy) by (nonlinear_arith)
        requires
            ax == dx || ax == -dx,
            ay == dy || ay == -dy,
    ;
    assert(0 <= ax && ax * ax <= isl.radius_sq);
    assert(0 <= ay && ay * ay <= isl.radius_sq);
}

/// A disc small enough to sit well inside the `i32` range has representable cells.
pub proof fn lemma_disc_fits_when_small(isl: Island)
    requires
        0 <= isl.radius_sq,
        i32::MIN + isl.radius_sq <= isl.cx <= i32::MAX - isl.radius_sq,
        i32::MIN + isl.radius_sq <= isl.cy <= i32::MAX - isl.radius_sq,
    ensures
        disc_fits(isl),
{
    assert forall|d: int| 0 <= d && #[trigger] (d * d) <= isl.radius_sq implies i32::MIN <= isl.cx - d && isl.cx
        + d <= i32::MAX && i32::MIN <= isl.cy - d && isl.cy + d <= i32::MAX by {
        if d >= 1 {
            assert(d <= d * d) by (nonlinear_arith)
                requires
                    d >= 1,
            ;
        }
    }
}

/// Computes `reach(radius_sq)`.
fn scan_reach(radius_sq: i32) -> (r: i64)
    ensures
        r == reach(radius_sq as int),
        0 <= r <= 46341,
{
    proof {
        lemma_reach_from(radius_sq as int, 0);
    }
    let mut r: i64 = 0;
    while r * r <= radius_sq as i64
        invariant
            0 <= r <= 46341,
            r * r <= 2147488281,
            reach_from(radius_sq as int, r as nat) == reach(radius_sq as int),
        decreases 46341 - r,
    {
        proof {
            lemma_reach_from(radius_sq as int, r as nat);
            assert(r < 46341) by (nonlinear_arith)
                requires
                    r * r <= radius_sq,
                    radius_sq <= i32::MAX,
            ;
        }
        r += 1;
        assert(r * r <= 2147488281) by (nonlinear_arith)
            requires
                0 <= r <= 46341,
        ;
    }
    r
}

/// Adds a round island centred on `(cx, cy)`: every cell within squared
/// distance `radius_sq`, scanned column by column, is placed unless a tile
/// already stands there; cells within half of `radius_sq` get `inner_type`,
/// the others `outer_type`.
#[verifier::loop_isolation(false)]
pub fn island_circle(
    tiles: &mut Vec<Tile>,
    cx: i32,
    cy: i32,
    radius_sq: i32,
    inner_type: TileType,
    outer_type: TileType,
)
    requires
        disc_fits(Island { cx, cy, radius_sq, inner: inner_type, outer: outer_type }),
    ensures
        final(tiles)@ == place_all(
            old(tiles)@,
            circle_cells(Island { cx, cy, radius_sq, inner: inner_type, outer: outer_type }),
        ),
{
    let ghost isl = Island { cx, cy, radius_sq, inner: inner_type, outer: outer_type };
    let ghost start = tiles@;
    let r = scan_reach(radius_sq);
    let rsq = radius_sq as i64;
    let mut gx: i64 = cx as i64 - r;
    while gx <= cx as i64 + r
        invariant
            cx - r <= gx <= cx + r + 1,
            tiles@ == place_all(start, rows_cells(isl, r as int, cx - r, gx as int)),
        decreases cx + r + 1 - gx,
    {
        let ghost row_start = tiles@;
        let mut gy: i64 = cy as i64 - r;
        while gy <= cy as i64 + r
            invariant
                cx - r <= gx <= cx + r,
                cy - r <= gy <= cy + r + 1,
                tiles@ == place_all(
                    start,
                    rows_cells(isl, r as int, cx - r, gx as int) + column_cells(
                        isl,
                        gx as int,
                        cy - r,
                        gy as int,
                    ),
                ),
            decreases cy + r + 1 - gy,
        {
            let ghost before = tiles@;
            let ghost rows = rows_cells(isl, r as int, cx - r, gx as int);
            let ghost col = column_cells(isl, gx as int, cy - r, gy as int);
            let dx = gx - cx as i64;
            let dy = gy - cy as i64;
            assert(0 <= dx * dx <= 2147488281 && 0 <= dy * dy <= 2147488281) by (nonlinear_arith)
                requires
                    -46341 <= dx <= 46341,
                    -46341 <= dy <= 46341,
            ;
            let dist = dx * dx + dy * dy;
            if dist <= rsq {
                proof {
                    lemma_disc_cell_fits(isl, gx as int, gy as int);
                }
                let kind = if dist <= rsq / 2 {
                    inner_type
                } else {
                    outer_type
                };
                let cell: Tile = (gx as i32, gy as i32, kind);
                assert(cell == disc_tile(isl, gx as int, gy as int));
                place_tile(tiles, cell);
                proof {
                    assert(column_cells(isl, gx as int, cy - r, gy + 1) == col.push(cell));
                    assert(rows + col.push(cell) =~= (rows + col).push(cell));
                    lemma_place_all_push(start, rows + col, cell);
                }
            } else {
                proof {
                    assert(column_cells(isl, gx as int, cy - r, gy + 1) == col);
                }
            }
            gy += 1;
        }
        proof {
            assert(rows_cells(isl, r as int, cx - r, gx + 1) == rows_cells(
                isl,
                r as int,
                cx - r,
                gx as int,
            ) + column_cells(isl, gx as int, cy - r, cy + r + 1));
        }
        gx += 1;
    }
}


// ---------------------------------------------------------------------------
// Bridges: three-cell-wide lines of bridge planks
// ---------------------------------------------------------------------------

pub open spec fn abs(v: int) -> int {
    if v >= 0 {
        v
    } else {
        -v
    }
}

/// `n / d` rounded to the nearest integer, halves away from zero (`d > 0`).
pub open spec fn round_div(n: int, d: int) -> int {
    if n >= 0 {
        (2 * n + d) / (2 * d)
    } else {
        -((-2 * n + d) / (2 * d))
    }
}

/// Number of steps of the bridge from `from` to `to`: the larger of the two
/// coordinate distances.
pub open spec fn bridge_steps(from: (i32, i32), to: (i32, i32)) -> int {
    let dx = to.0 - from.0;
    let dy = to.1 - from.1;
    if abs(dx) >= abs(dy) {
        abs(dx)
    } else {
        abs(dy)
    }
}

/// Offset from the centre line to the two side planks: across the main
/// direction of the bridge.
pub open spec fn bridge_side(from: (i32, i32), to: (i32, i32)) -> (int, int) {
    if abs(to.0 - from.0) >= abs(to.1 - from.1) {
        (0, 1)
    } else {
        (1, 0)
    }
}

/// Centre cell of step `i`: the point `i / steps` of the way from `from` to
/// `to`, each coordinate rounded to the nearest cell (halves away from zero).
pub open spec fn bridge_centre(from: (i32, i32), to: (i32, i32), i: int) -> (int, int) {
    let s = bridge_steps(from, to);
    (
        round_div(from.0 * s + (to.0 - from.0) * i, s),
        round_div(from.1 * s + (to.1 - from.1) * i, s),
    )
}

/// The three planks of step `i`: centre, then centre plus side offset, then
/// centre minus side offset.
pub open spec fn bridge_step_cells(from: (i32, i32), to: (i32, i32), i: int) -> Seq<Tile> {
    let c = bridge_centre(from, to, i);
    let o = bridge_side(from, to);
    seq![
        (c.0 as i32, c.1 as i32, TileType::Bridge),
        ((c.0 + o.0) as i32, (c.1 + o.1) as i32, TileType::Bridge),
        ((c.0 - o.0) as i32, (c.1 - o.1) as i32, TileType::Bridge),
    ]
}

/// Planks of steps `0 <= i < n`, step by step.
pub open spec fn bridge_cells_upto(from: (i32, i32), to: (i32, i32), n: int) -> Seq<Tile>
    decreases n,
{
    if n <= 0 {
        Seq::empty()
    } else {
        bridge_cells_upto(from, to, n - 1) + bridge_step_cells(from, to, n - 1)
    }
}

/// All planks of the bridge from `from` to `to` (steps `0..=steps`); none
/// when the two ends coincide.
pub open spec fn bridge_cells(from: (i32, i32), to: (i32, i32)) -> Seq<Tile> {
    let s = bridge_steps(from, to);
    if s == 0 {
        Seq::empty()
    } else {
        bridge_cells_upto(from, to, s + 1)
    }
}

/// The coordinate differences are `i32` values with an `i32` magnitude, and
/// the side planks of both ends are valid positions; the planks of every
/// step then are too.
pub open spec fn bridge_fits(from: (i32, i32), to: (i32, i32)) -> bool {
    let dx = to.0 - from.0;
    let dy = to.1 - from.1;
    &&& -i32::MAX <= dx <= i32::MAX
    &&& -i32::MAX <= dy <= i32::MAX
    &&& bridge_steps(from, to) > 0 && abs(dx) >= abs(dy) ==> i32::MIN < from.1 < i32::MAX && i32::MIN
        < to.1 < i32::MAX
    &&& bridge_steps(from, to) > 0 && abs(dx) < abs(dy) ==> i32::MIN < from.0 < i32::MAX && i32::MIN
        < to.0 < i32::MAX
}

proof fn lemma_round_div_exact(k: int, d: int)
    requires
        d > 0,
    ensures
        round_div(k * d, d) == k,
{
    if k >= 0 {
        assert(k * d >= 0) by (nonlinear_arith)
            requires
                k >= 0,
                d > 0,
        ;
        assert(2 * (k * d) + d == k * (2 * d) + d) by (nonlinear_arith);
        vstd::arithmetic::div_mod::lemma_fundamental_div_mod_converse(2 * (k * d) + d, 2 * d, k, d);
    } else {
        assert(k * d < 0) by (nonlinear_arith)
            requires
                k < 0,
                d > 0,
        ;
        assert(-2 * (k * d) + d == (-k) * (2 * d) + d) by (nonlinear_arith);
        vstd::arithmetic::div_mod::lemma_fundamental_div_mod_converse(
            -2 * (k * d) + d,
            2 * d,
            -k,
            d,
        );
    }
}

proof fn lemma_round_div_monotone(a: int, b: int, d: int)
    requires
        d > 0,
        a <= b,
    ensures
        round_div(a, d) <= round_div(b, d),
{
    if a >= 0 {
        vstd::arithmetic::div_mod::lemma_div_is_ordered(2 * a + d, 2 * b + d, 2 * d);
    } else if b < 0 {
        vstd::arithmetic::div_mod::lemma_div_is_ordered(-2 * b + d, -2 * a + d, 2 * d);
    } else {
        vstd::arithmetic::div_mod::lemma_div_pos_is_pos(2 * b + d, 2 * d);
        vstd::arithmetic::div_mod::lemma_div_pos_is_pos(-2 * a + d, 2 * d);
    }
}

/// Law: every centre cell of a bridge lies between its two ends, coordinate
/// by coordinate.
pub proof fn lemma_bridge_centre_between(from: (i32, i32), to: (i32, i32), i: int)
    requires
        bridge_steps(from, to) > 0,
        0 <= i <= bridge_steps(from, to),
    ensures
        ({
            let c = bridge_centre(from, to, i);
            &&& (from.0 <= c.0 <= to.0 || to.0 <= c.0 <= from.0)
            &&& (from.1 <= c.1 <= to.1 || to.1 <= c.1 <= from.1)
        }),
{
    let s = bridge_steps(from, to);
    lemma_coordinate_between(from.0 as int, to.0 as int, s, i);
    lemma_coordinate_between(from.1 as int, to.1 as int, s, i);
}

proof fn lemma_coordinate_between(a: int, b: int, s: int, i: int)
    requires
        s > 0,
        0 <= i <= s,
    ensures
        a <= round_div(a * s + (b - a) * i, s) <= b || b <= round_div(a * s + (b - a) * i, s) <= a,
{
    let n = a * s + (b - a) * i;
    lemma_round_div_exact(a, s);
    lemma_round_div_exact(b, s);
    if a <= b {
        assert(a * s <= n <= b * s) by (nonlinear_arith)
            requires
                n == a * s + (b - a) * i,
                a <= b,
                0 <= i <= s,
        ;
        lemma_round_div_monotone(a * s, n, s);
        lemma_round_div_monotone(n, b * s, s);
    } else {
        assert(b * s <= n <= a * s) by (nonlinear_arith)
            requires
                n == a * s + (b - a) * i,
                b < a,
                0 <= i <= s,
        ;
        lemma_round_div_monotone(b * s, n, s);
        lemma_round_div_monotone(n, a * s, s);
    }
}

/// `2 * d * round_div(n, d)` lies within `d` of `2 * n`, strictly below
/// for `n >= 0` and strictly above for `n < 0`.
proof fn lemma_round_div_bounds(n: int, d: int)
    requires
        d > 0,
    ensures
        2 * n - d <= 2 * d * round_div(n, d) <= 2 * n + d,
        n >= 0 ==> 2 * n - d < 2 * d * round_div(n, d),
        n < 0 ==> 2 * d * round_div(n, d) < 2 * n + d,
{
    let dd = 2 * d;
    if n >= 0 {
        let x = 2 * n + d;
        vstd::arithmetic::div_mod::lemma_fundamental_div_mod(x, dd);
        vstd::arithmetic::div_mod::lemma_mod_bound(x, dd);
        assert(dd * (x / dd) == 2 * d * round_div(n, d));
    } else {
        let x = -2 * n + d;
        vstd::arithmetic::div_mod::lemma_fundamental_div_mod(x, dd);
        vstd::arithmetic::div_mod::lemma_mod_bound(x, dd);
        assert(dd * (x / dd) == -(2 * d * round_div(n, d))) by (nonlinear_arith)
            requires
                round_div(n, d) == -(x / dd),
                dd == 2 * d,
        ;
    }
}

/// Moving `n` by at most `d` moves `round_div(n, d)` by at most one, provided
/// `n` is a multiple of `d` whenever the move is a full `d`.
proof fn lemma_round_div_step(n: int, e: int, d: int, k: int)
    requires
        d > 0,
        -d <= e <= d,
        (e == d || e == -d) ==> n == k * d,
    ensures
        -1 <= round_div(n + e, d) - round_div(n, d) <= 1,
{
    let q1 = round_div(n, d);
    let q2 = round_div(n + e, d);
    lemma_round_div_bounds(n, d);
    lemma_round_div_bounds(n + e, d);
    let a = 2 * d * q1;
    let b = 2 * d * q2;
    assert(b - a <= 4 * d && b - a >= -4 * d);
    if q2 - q1 >= 2 {
        assert(2 * d * (q2 - q1) >= 4 * d) by (nonlinear_arith)
            requires
                q2 - q1 >= 2,
                d > 0,
        ;
        assert(b - a == 2 * d * (q2 - q1)) by (nonlinear_arith)
            requires
                a == 2 * d * q1,
                b == 2 * d * q2,
        ;
        assert(e == d && n < 0 && a == 2 * n - d);
        assert(d * (2 * q1 - 2 * k + 1) == 0) by (nonlinear_arith)
            requires
                a == 2 * d * q1,
                a == 2 * n - d,
                n == k * d,
        ;
        assert(2 * q1 - 2 * k + 1 == 0) by (nonlinear_arith)
            requires
                d * (2 * q1 - 2 * k + 1) == 0,
                d > 0,
        ;
    }
    if q2 - q1 <= -2 {
        assert(2 * d * (q2 - q1) <= -4 * d) by (nonlinear_arith)
            requires
                q2 - q1 <= -2,
                d > 0,
        ;
        assert(b - a == 2 * d * (q2 - q1)) by (nonlinear_arith)
            requires
                a == 2 * d * q1,
                b == 2 * d * q2,
        ;
        assert(e == -d && n >= 0 && a == 2 * n + d);
        assert(d * (2 * q1 - 2 * k - 1) == 0) by (nonlinear_arith)
            requires
                a == 2 * d * q1,
                a == 2 * n + d,
                n == k * d,
        ;
        assert(2 * q1 - 2 * k - 1 == 0) by (nonlinear_arith)
            requires
                d * (2 * q1 - 2 * k - 1) == 0,
                d > 0,
        ;
    }
}

proof fn lemma_coordinate_step(a: int, b: int, s: int, i: int)
    requires
        s > 0,
        -s <= b - a <= s,
        0 <= i < s,
    ensures
        -1 <= round_div(a * s + (b - a) * (i + 1), s) - round_div(a * s + (b - a) * i, s) <= 1,
{
    let n = a * s + (b - a) * i;
    assert(a * s + (b - a) * (i + 1) == n + (b - a)) by (nonlinear_arith)
        requires
            n == a * s + (b - a) * i,
    ;
    let k = if b - a == s {
        a + i
    } else {
        a - i
    };
    if b - a == s {
        assert(n == (a + i) * s) by (nonlinear_arith)
            requires
                n == a * s + (b - a) * i,
                b - a == s,
        ;
    }
    if b - a == -s {
        assert(n == (a - i) * s) by (nonlinear_arith)
            requires
                n == a * s + (b - a) * i,
                b - a == -s,
        ;
    }
    lemma_round_div_step(n, b - a, s, k);
}

/// Law: a bridge's centre line is a connected path from one end to the
/// other: the centre of step 0 is `from`, the centre of the last step is `to`,
/// and consecutive centres differ by at most one cell along each axis (the
/// planks beside each centre then make the bridge three cells wide).
pub proof fn lemma_bridge_is_path(from: (i32, i32), to: (i32, i32), i: int)
    requires
        bridge_steps(from, to) > 0,
        0 <= i < bridge_steps(from, to),
    ensures
        bridge_centre(from, to, 0) == (from.0 as int, from.1 as int),
        bridge_centre(from, to, bridge_steps(from, to)) == (to.0 as int, to.1 as int),
        -1 <= bridge_centre(from, to, i + 1).0 - bridge_centre(from, to, i).0 <= 1,
        -1 <= bridge_centre(from, to, i + 1).1 - bridge_centre(from, to, i).1 <= 1,
{
    let s = bridge_steps(from, to);
    let (x0, y0, x1, y1) = (from.0 as int, from.1 as int, to.0 as int, to.1 as int);
    assert(x0 * s + (x1 - x0) * 0 == x0 * s);
    assert(y0 * s + (y1 - y0) * 0 == y0 * s);
    lemma_round_div_exact(x0, s);
    lemma_round_div_exact(y0, s);
    assert(x0 * s + (x1 - x0) * s == x1 * s) by (nonlinear_arith);
    assert(y0 * s + (y1 - y0) * s == y1 * s) by (nonlinear_arith);
    lemma_round_div_exact(x1, s);
    lemma_round_div_exact(y1, s);
    lemma_coordinate_step(x0, x1, s, i);
    lemma_coordinate_step(y0, y1, s, i);
}

proof fn lemma_bridge_cells_upto_layout(from: (i32, i32), to: (i32, i32), n: int, i: int, m: int)
    requires
        0 <= n,
        0 <= i < n,
        0 <= m < 3,
    ensures
        bridge_cells_upto(from, to, n).len() == 3 * n,
        bridge_cells_upto(from, to, n)[3 * i + m] == bridge_step_cells(from, to, i)[m],
    decreases n,
{
    let a = bridge_cells_upto(from, to, n - 1);
    let b = bridge_step_cells(from, to, n - 1);
    if n - 1 > 0 {
        lemma_bridge_cells_upto_layout(from, to, n - 1, 0, 0);
    }
    assert(a.len() == 3 * (n - 1));
    if i < n - 1 {
        lemma_bridge_cells_upto_layout(from, to, n - 1, i, m);
        assert((a + b)[3 * i + m] == a[3 * i + m]);
    } else {
        assert((a + b)[3 * i + m] == b[m]);
    }
}

/// Law: the layout of a bridge.  For each step `i` in `0..=steps` it lays, in
/// this order, its centre cell and the two cells beside it: above and below
/// (offset `(0, 1)`) when the bridge runs at least as far along x as along y,
/// left and right (offset `(1, 0)`) otherwise; all three are bridge planks.
pub proof fn lemma_bridge_layout(from: (i32, i32), to: (i32, i32), i: int)
    requires
        bridge_steps(from, to) > 0,
        0 <= i <= bridge_steps(from, to),
    ensures
        ({
            let cs = bridge_cells(from, to);
            let c = bridge_centre(from, to, i);
            let across_x = abs(to.0 - from.0) >= abs(to.1 - from.1);
            &&& cs.len() == 3 * (bridge_steps(from, to) + 1)
            &&& cs[3 * i] == (c.0 as i32, c.1 as i32, TileType::Bridge)
            &&& across_x ==> cs[3 * i + 1] == (c.0 as i32, (c.1 + 1) as i32, TileType::Bridge)
            &&& across_x ==> cs[3 * i + 2] == (c.0 as i32, (c.1 - 1) as i32, TileType::Bridge)
            &&& !across_x ==> cs[3 * i + 1] == ((c.0 + 1) as i32, c.1 as i32, TileType::Bridge)
            &&& !across_x ==> cs[3 * i + 2] == ((c.0 - 1) as i32, c.1 as i32, TileType::Bridge)
        }),
{
    let n = bridge_steps(from, to) + 1;
    lemma_bridge_cells_upto_layout(from, to, n, i, 0);
    lemma_bridge_cells_upto_layout(from, to, n, i, 1);
    lemma_bridge_cells_upto_layout(from, to, n, i, 2);
}

/// Computes `round_div(n, d)`.
fn round_div_exec(n: i128, d: i128) -> (q: i128)
    requires
        0 < d <= 0x1_0000_0000,
        -0x1_0000_0000_0000_0000 <= n <= 0x1_0000_0000_0000_0000,
    ensures
        q == round_div(n as int, d as int),
{
    if n >= 0 {
        (2 * n + d) / (2 * d)
    } else {
        proof {
            vstd::arithmetic::div_mod::lemma_div_pos_is_pos(-2 * n + d, 2 * d);
            vstd::arithmetic::div_mod::lemma_div_is_ordered_by_denominator(-2 * n + d, 1, 2 * d);
        }
        -((-2 * n + d) / (2 * d))
    }
}

/// Lays a bridge from `from` to `to`: for each step `i` in `0..=steps`
/// (steps being the larger coordinate distance) the centre cell
/// `from + (to - from) * i / steps`, rounded to the nearest cell with halves
/// away from zero, and the two cells beside it across the bridge's main
/// direction become bridge planks, each unless a tile already stands there.
/// Nothing is laid when `from == to`.
#[verifier::loop_isolation(false)]
pub fn add_bridge(tiles: &mut Vec<Tile>, from: (i32, i32), to: (i32, i32))
    requires
        bridge_fits(from, to),
    ensures
        final(tiles)@ == place_all(old(tiles)@, bridge_cells(from, to)),
{
    let ghost start = tiles@;
    let x0 = from.0 as i128;
    let y0 = from.1 as i128;
    let dx = to.0 as i128 - x0;
    let dy = to.1 as i128 - y0;
    let adx = if dx >= 0 {
        dx
    } else {
        -dx
    };
    let ady = if dy >= 0 {
        dy
    } else {
        -dy
    };
    let steps = if adx >= ady {
        adx
    } else {
        ady
    };
    if steps == 0 {
        return;
    }
    let (ox, oy): (i128, i128) = if adx >= ady {
        (0, 1)
    } else {
        (1, 0)
    };
    let mut i: i128 = 0;
    while i <= steps
        invariant
            0 <= i <= steps + 1,
            tiles@ == place_all(start, bridge_cells_upto(from, to, i as int)),
        decreases steps + 1 - i,
    {
        assert(-0x8000_0000_0000_0000 <= x0 * steps <= 0x8000_0000_0000_0000) by (nonlinear_arith)
            requires
                -0x8000_0000 <= x0 <= 0x8000_0000,
                0 <= steps <= 0x8000_0000,
        ;
        assert(-0x8000_0000_0000_0000 <= y0 * steps <= 0x8000_0000_0000_0000) by (nonlinear_arith)
            requires
                -0x8000_0000 <= y0 <= 0x8000_0000,
                0 <= steps <= 0x8000_0000,
        ;
        assert(-0x8000_0000_0000_0000 <= dx * i <= 0x8000_0000_0000_0000) by (nonlinear_arith)
            requires
                -0x8000_0000 <= dx <= 0x8000_0000,
                0 <= i <= 0x8000_0000,
        ;
        assert(-0x8000_0000_0000_0000 <= dy * i <= 0x8000_0000_0000_0000) by (nonlinear_arith)
            requires
                -0x8000_0000 <= dy <= 0x8000_0000,
                0 <= i <= 0x8000_0000,
        ;
        let bx = round_div_exec(x0 * steps + dx * i, steps);
        let by = round_div_exec(y0 * steps + dy * i, steps);
        proof {
            lemma_bridge_centre_between(from, to, i as int);
        }
        let ghost prev = bridge_cells_upto(from, to, i as int);
        let ghost step = bridge_step_cells(from, to, i as int);
        let c0: Tile = (bx as i32, by as i32, TileType::Bridge);
        let c1: Tile = ((bx + ox) as i32, (by + oy) as i32, TileType::Bridge);
        let c2: Tile = ((bx - ox) as i32, (by - oy) as i32, TileType::Bridge);
        assert(step == seq![c0, c1, c2]);
        place_tile(tiles, c0);
        place_tile(tiles, c1);
        place_tile(tiles, c2);
        proof {
            lemma_place_all_push(start, prev, c0);
            lemma_place_all_push(start, prev.push(c0), c1);
            lemma_place_all_push(start, prev.push(c0).push(c1), c2);
            assert(prev + step =~= prev.push(c0).push(c1).push(c2));
            assert(bridge_cells_upto(from, to, i + 1) == prev + step);
        }
        i += 1;
    }
}


// ---------------------------------------------------------------------------
// Shape of an island's cell list
// ---------------------------------------------------------------------------

proof fn lemma_column_shape(isl: Island, gx: int, lo: int, hi: int)
    requires
        disc_fits(isl),
    ensures
        ({
            let col = column_cells(isl, gx, lo, hi);
            &&& forall|k: int|
                #![trigger col[k]]
                0 <= k < col.len() ==> col[k].0 == gx && lo <= col[k].1 < hi && in_disc(
                    isl,
                    gx,
                    col[k].1 as int,
                ) && col[k] == disc_tile(isl, gx, col[k].1 as int)
            &&& forall|i: int, j: int| 0 <= i < j < col.len() ==> col[i].1 < col[j].1
        }),
    decreases hi - lo,
{
    if hi > lo {
        lemma_column_shape(isl, gx, lo, hi - 1);
        let prev = column_cells(isl, gx, lo, hi - 1);
        if in_disc(isl, gx, hi - 1) {
            lemma_disc_cell_fits(isl, gx, hi - 1);
            let t = disc_tile(isl, gx, hi - 1);
            let col = prev.push(t);
            assert(t.0 == gx && t.1 == hi - 1);
            assert forall|k: int| 0 <= k < col.len() implies #[trigger] col[k].0 == gx && lo <= col[k].1
                < hi && in_disc(isl, gx, col[k].1 as int) && col[k] == disc_tile(
                isl,
                gx,
                col[k].1 as int,
            ) by {
                if k < prev.len() {
                    assert(col[k] == prev[k]);
                }
            }
            assert forall|i: int, j: int| 0 <= i < j < col.len() implies col[i].1 < col[j].1 by {
                assert(col[i] == prev[i]);
                if j < prev.len() {
                    assert(col[j] == prev[j]);
                }
            }
        }
    }
}

proof fn lemma_rows_shape(isl: Island, r: int, lo: int, hi: int)
    requires
        disc_fits(isl),
    ensures
        ({
            let rows = rows_cells(isl, r, lo, hi);
            &&& forall|k: int|
                #![trigger rows[k]]
                0 <= k < rows.len() ==> lo <= rows[k].0 < hi && in_disc(
                    isl,
                    rows[k].0 as int,
                    rows[k].1 as int,
                ) && rows[k] == disc_tile(isl, rows[k].0 as int, rows[k].1 as int)
            &&& forall|i: int, j: int|
                0 <= i < j < rows.len() ==> rows[i].0 < rows[j].0 || (rows[i].0 == rows[j].0
                    && rows[i].1 < rows[j].1)
        }),
    decreases hi - lo,
{
    if hi > lo {
        lemma_rows_shape(isl, r, lo, hi - 1);
        lemma_column_shape(isl, hi - 1, isl.cy - r, isl.cy + r + 1);
        let a = rows_cells(isl, r, lo, hi - 1);
        let b = column_cells(isl, hi - 1, isl.cy - r, isl.cy + r + 1);
        assert forall|k: int| 0 <= k < (a + b).len() implies lo <= (a + b)[k].0 < hi && in_disc(
            isl,
            (a + b)[k].0 as int,
            (a + b)[k].1 as int,
        ) && (a + b)[k] == disc_tile(isl, (a + b)[k].0 as int, (a + b)[k].1 as int) by {
            if k < a.len() {
                assert((a + b)[k] == a[k]);
            } else {
                assert((a + b)[k] == b[k - a.len()]);
            }
        }
        assert forall|i: int, j: int| 0 <= i < j < (a + b).len() implies (a + b)[i].0 < (a
            + b)[j].0 || ((a + b)[i].0 == (a + b)[j].0 && (a + b)[i].1 < (a + b)[j].1) by {
            if j < a.len() {
                assert((a + b)[i] == a[i] && (a + b)[j] == a[j]);
            } else if i < a.len() {
                assert((a + b)[i] == a[i] && (a + b)[j] == b[j - a.len()]);
            } else {
                assert((a + b)[i] == b[i - a.len()] && (a + b)[j] == b[j - a.len()]);
            }
        }
    }
}

/// Law: the cells of an island are exactly its disc cells, each with the
/// surface that `disc_tile` gives it, listed in strictly increasing scan
/// order (so no position appears twice).
pub proof fn lemma_circle_cells_shape(isl: Island)
    requires
        disc_fits(isl),
    ensures
        ({
            let cs = circle_cells(isl);
            &&& forall|k: int|
                #![trigger cs[k]]
                0 <= k < cs.len() ==> in_disc(isl, cs[k].0 as int, cs[k].1 as int) && cs[k]
                    == disc_tile(isl, cs[k].0 as int, cs[k].1 as int)
            &&& forall|i: int, j: int|
                0 <= i < j < cs.len() ==> cs[i].0 < cs[j].0 || (cs[i].0 == cs[j].0 && cs[i].1
                    < cs[j].1)
            &&& positions_distinct(cs)
        }),
{
    let r = reach(isl.radius_sq as int) as int;
    lemma_rows_shape(isl, r, isl.cx - r, isl.cx + r + 1);
}

proof fn lemma_column_contains(isl: Island, gx: int, lo: int, hi: int, gy: int)
    requires
        lo <= gy < hi,
        in_disc(isl, gx, gy),
    ensures
        column_cells(isl, gx, lo, hi).contains(disc_tile(isl, gx, gy)),
    decreases hi - lo,
{
    let prev = column_cells(isl, gx, lo, hi - 1);
    if gy == hi - 1 {
        assert(prev.push(disc_tile(isl, gx, gy))[prev.len() as int] == disc_tile(isl, gx, gy));
    } else {
        lemma_column_contains(isl, gx, lo, hi - 1, gy);
        let k = choose|k: int| 0 <= k < prev.len() && prev[k] == disc_tile(isl, gx, gy);
        if in_disc(isl, gx, hi - 1) {
            assert(prev.push(disc_tile(isl, gx, hi - 1))[k] == prev[k]);
        }
    }
}

proof fn lemma_rows_contains(isl: Island, r: int, lo: int, hi: int, gx: int, gy: int)
    requires
        lo <= gx < hi,
        isl.cy - r <= gy < isl.cy + r + 1,
        in_disc(isl, gx, gy),
    ensures
        rows_cells(isl, r, lo, hi).contains(disc_tile(isl, gx, gy)),
    decreases hi - lo,
{
    let a = rows_cells(isl, r, lo, hi - 1);
    let b = column_cells(isl, hi - 1, isl.cy - r, isl.cy + r + 1);
    if gx == hi - 1 {
        lemma_column_contains(isl, gx, isl.cy - r, isl.cy + r + 1, gy);
        let k = choose|k: int| 0 <= k < b.len() && b[k] == disc_tile(isl, gx, gy);
        assert((a + b)[a.len() + k] == b[k]);
    } else {
        lemma_rows_contains(isl, r, lo, hi - 1, gx, gy);
        let k = choose|k: int| 0 <= k < a.len() && a[k] == disc_tile(isl, gx, gy);
        assert((a + b)[k] == a[k]);
    }
}

/// Law: every disc cell of an island is among its cells, with its surface.
pub proof fn lemma_circle_cells_contains(isl: Island, gx: int, gy: int)
    requires
        in_disc(isl, gx, gy),
    ensures
        circle_cells(isl).contains(disc_tile(isl, gx, gy)),
{
    let r = reach(isl.radius_sq as int) as int;
    lemma_reach_covers(isl, gx, gy);
    lemma_rows_contains(isl, r, isl.cx - r, isl.cx + r + 1, gx, gy);
}

/// Placing cells with distinct positions, none of them taken yet, appends
/// them all.
pub proof fn lemma_place_all_fresh(tiles: Seq<Tile>, cells: Seq<Tile>)
    requires
        positions_distinct(cells),
        forall|k: int|
            0 <= k < cells.len() ==> !has_pos(tiles, #[trigger] cells[k].0 as int, cells[k].1 as int),
    ensures
        place_all(tiles, cells) == tiles + cells,
    decreases cells.len(),
{
    if cells.len() == 0 {
        assert(tiles + cells =~= tiles);
    } else {
        let init = cells.drop_last();
        assert forall|k: int| 0 <= k < init.len() implies !has_pos(
            tiles,
            #[trigger] init[k].0 as int,
            init[k].1 as int,
        ) by {
            assert(init[k] == cells[k]);
        }
        assert(positions_distinct(init)) by {
            assert forall|i: int, j: int| 0 <= i < j < init.len() implies !(init[i].0 == init[j].0
                && init[i].1 == init[j].1) by {
                assert(init[i] == cells[i] && init[j] == cells[j]);
            }
        }
        lemma_place_all_fresh(tiles, init);
        let c = cells.last();
        assert(!has_pos(tiles, cells[cells.len() - 1].0 as int, cells[cells.len() - 1].1 as int));
        if has_pos(tiles + init, c.0 as int, c.1 as int) {
            let i = choose|i: int|
                0 <= i < (tiles + init).len() && (tiles + init)[i].0 == c.0 && (tiles + init)[i].1
                    == c.1;
            if i < tiles.len() {
                assert((tiles + init)[i] == tiles[i]);
            } else {
                assert((tiles + init)[i] == cells[i - tiles.len()]);
            }
        }
        assert((tiles + init).push(c) =~= tiles + cells);
    }
}


/// Law: placing cells whose positions are all taken already changes nothing.
pub proof fn lemma_place_all_taken(tiles: Seq<Tile>, cells: Seq<Tile>)
    requires
        forall|k: int|
            0 <= k < cells.len() ==> has_pos(tiles, #[trigger] cells[k].0 as int, cells[k].1 as int),
    ensures
        place_all(tiles, cells) == tiles,
    decreases cells.len(),
{
    if cells.len() > 0 {
        let init = cells.drop_last();
        assert forall|k: int| 0 <= k < init.len() implies has_pos(
            tiles,
            #[trigger] init[k].0 as int,
            init[k].1 as int,
        ) by {
            assert(init[k] == cells[k]);
        }
        lemma_place_all_taken(tiles, init);
        assert(has_pos(tiles, cells[cells.len() - 1].0 as int, cells[cells.len() - 1].1 as int));
    }
}

/// Law: placing the same cells a second time changes nothing.
pub proof fn lemma_place_all_twice(tiles: Seq<Tile>, cells: Seq<Tile>)
    ensures
        place_all(place_all(tiles, cells), cells) == place_all(tiles, cells),
{
    let once = place_all(tiles, cells);
    assert forall|k: int| 0 <= k < cells.len() implies has_pos(
        once,
        #[trigger] cells[k].0 as int,
        cells[k].1 as int,
    ) by {
        lemma_place_all_positions(tiles, cells, cells[k].0 as int, cells[k].1 as int);
    }
    lemma_place_all_taken(once, cells);
}

/// Law: raising the same island a second time adds nothing (`island_circle`
/// results are `place_all` of the island's cells).
pub proof fn lemma_island_twice(tiles: Seq<Tile>, isl: Island)
    ensures
        place_all(place_all(tiles, circle_cells(isl)), circle_cells(isl)) == place_all(
            tiles,
            circle_cells(isl),
        ),
{
    lemma_place_all_twice(tiles, circle_cells(isl));
}

/// Law: laying the same bridge a second time adds nothing (`add_bridge`
/// results are `place_all` of the bridge's cells).
pub proof fn lemma_bridge_twice(tiles: Seq<Tile>, from: (i32, i32), to: (i32, i32))
    ensures
        place_all(place_all(tiles, bridge_cells(from, to)), bridge_cells(from, to)) == place_all(
            tiles,
            bridge_cells(from, to),
        ),
{
    lemma_place_all_twice(tiles, bridge_cells(from, to));
}

/// Law: a bridge whose two ends coincide lays nothing, not even the cell of
/// its end.
pub proof fn lemma_bridge_same_ends(tiles: Seq<Tile>, end: (i32, i32))
    ensures
        bridge_cells(end, end) == Seq::<Tile>::empty(),
        place_all(tiles, bridge_cells(end, end)) == tiles,
{
}

// ---------------------------------------------------------------------------
// The world
// ---------------------------------------------------------------------------

/// The six islands, in the order they are raised: the grassland hub first.
pub open spec fn world_islands() -> Seq<Island> {
    seq![
        Island { cx: 0, cy: 0, radius_sq: 280, inner: TileType::Grass, outer: TileType::Dirt },
        Island { cx: 42, cy: 38, radius_sq: 220, inner: TileType::JungleFloor, outer: TileType::Jungle },
        Island { cx: 55, cy: -40i32, radius_sq: 180, inner: TileType::Desert, outer: TileType::DesertRock },
        Island { cx: -48i32, cy: -44i32, radius_sq: 240, inner: TileType::Snow, outer: TileType::Tundra },
        Island { cx: -44i32, cy: 48, radius_sq: 160, inner: TileType::Volcanic, outer: TileType::Lava },
        Island { cx: 5, cy: -55i32, radius_sq: 140, inner: TileType::Rock, outer: TileType::Dirt },
    ]
}

/// Cells of the first `n` islands, island after island.
pub open spec fn islands_cells(n: int) -> Seq<Tile>
    decreases n,
{
    if n <= 0 || n > world_islands().len() {
        Seq::empty()
    } else {
        islands_cells(n - 1) + circle_cells(world_islands()[n - 1])
    }
}

/// The bridge from the hub's centre to the centre of island `k`.
pub open spec fn spoke_cells(k: int) -> Seq<Tile> {
    bridge_cells((0, 0), (world_islands()[k].cx, world_islands()[k].cy))
}

/// Planks of the bridges to islands `1..n`, bridge after bridge.
pub open spec fn bridges_cells(n: int) -> Seq<Tile>
    decreases n,
{
    if n <= 1 || n > world_islands().len() {
        Seq::empty()
    } else {
        bridges_cells(n - 1) + spoke_cells(n - 1)
    }
}

/// Every cell that the world generator tries to place, in order: all
/// islands, then the bridges from the hub to every other island.
pub open spec fn world_cells() -> Seq<Tile> {
    islands_cells(6) + bridges_cells(6)
}

/// The generated world.
pub open spec fn world_tiles() -> Seq<Tile> {
    place_all(Seq::empty(), world_cells())
}

proof fn lemma_world_islands_fit(k: int)
    requires
        0 <= k < 6,
    ensures
        disc_fits(world_islands()[k]),
{
    lemma_disc_fits_when_small(world_islands()[k]);
}

/// Builds the whole archipelago: six islands and the five bridges that link
/// the hub to the others.
pub fn generate_world() -> (tiles: Vec<Tile>)
    ensures
        tiles@ == world_tiles(),
{
    let mut tiles: Vec<Tile> = Vec::new();
    let ghost isl = world_islands();
    proof {
        lemma_world_islands_fit(0);
        lemma_world_islands_fit(1);
        lemma_world_islands_fit(2);
        lemma_world_islands_fit(3);
        lemma_world_islands_fit(4);
        lemma_world_islands_fit(5);
        assert(place_all(Seq::<Tile>::empty(), islands_cells(0)) == Seq::<Tile>::empty());
    }

    island_circle(&mut tiles, 0, 0, 280, TileType::Grass, TileType::Dirt);
    proof {
        lemma_place_all_concat(Seq::empty(), islands_cells(0), circle_cells(isl[0]));
    }
    island_circle(&mut tiles, 42, 38, 220, TileType::JungleFloor, TileType::Jungle);
    proof {
        lemma_place_all_concat(Seq::empty(), islands_cells(1), circle_cells(isl[1]));
    }
    island_circle(&mut tiles, 55, -40, 180, TileType::Desert, TileType::DesertRock);
    proof {
        lemma_place_all_concat(Seq::empty(), islands_cells(2), circle_cells(isl[2]));
    }
    island_circle(&mut tiles, -48, -44, 240, TileType::Snow, TileType::Tundra);
    proof {
        lemma_place_all_concat(Seq::empty(), islands_cells(3), circle_cells(isl[3]));
    }
    island_circle(&mut tiles, -44, 48, 160, TileType::Volcanic, TileType::Lava);
    proof {
        lemma_place_all_concat(Seq::empty(), islands_cells(4), circle_cells(isl[4]));
    }
    island_circle(&mut tiles, 5, -55, 140, TileType::Rock, TileType::Dirt);
    proof {
        lemma_place_all_concat(Seq::empty(), islands_cells(5), circle_cells(isl[5]));
        assert(bridges_cells(1) =~= Seq::<Tile>::empty());
        assert(islands_cells(6) + bridges_cells(1) =~= islands_cells(6));
    }

    add_bridge(&mut tiles, (0, 0), (42, 38));
    proof {
        lemma_place_all_concat(Seq::empty(), islands_cells(6) + bridges_cells(1), spoke_cells(1));
        assert(islands_cells(6) + bridges_cells(2) =~= islands_cells(6) + bridges_cells(1)
            + spoke_cells(1));
    }
    add_bridge(&mut tiles, (0, 0), (55, -40));
    proof {
        lemma_place_all_concat(Seq::empty(), islands_cells(6) + bridges_cells(2), spoke_cells(2));
        assert(islands_cells(6) + bridges_cells(3) =~= islands_cells(6) + bridges_cells(2)
            + spoke_cells(2));
    }
    add_bridge(&mut tiles, (0, 0), (-48, -44));
    proof {
        lemma_place_all_concat(Seq::empty(), islands_cells(6) + bridges_cells(3), spoke_cells(3));
        assert(islands_cells(6) + bridges_cells(4) =~= islands_cells(6) + bridges_cells(3)
            + spoke_cells(3));
    }
    add_bridge(&mut tiles, (0, 0), (-44, 48));
    proof {
        lemma_place_all_concat(Seq::empty(), islands_cells(6) + bridges_cells(4), spoke_cells(4));
        assert(islands_cells(6) + bridges_cells(5) =~= islands_cells(6) + bridges_cells(4)
            + spoke_cells(4));
    }
    add_bridge(&mut tiles, (0, 0), (5, -55));
    proof {
        lemma_place_all_concat(Seq::empty(), islands_cells(6) + bridges_cells(5), spoke_cells(5));
        assert(islands_cells(6) + bridges_cells(6) =~= islands_cells(6) + bridges_cells(5)
            + spoke_cells(5));
    }
    tiles
}


proof fn lemma_islands_cells_contains(n: int, k: int, t: Tile)
    requires
        0 <= k < n <= 6,
        circle_cells(world_islands()[k]).contains(t),
    ensures
        islands_cells(n).contains(t),
    decreases n,
{
    let a = islands_cells(n - 1);
    let b = circle_cells(world_islands()[n - 1]);
    if k == n - 1 {
        let j = choose|j: int| 0 <= j < b.len() && b[j] == t;
        assert((a + b)[a.len() + j] == b[j]);
    } else {
        lemma_islands_cells_contains(n - 1, k, t);
        let j = choose|j: int| 0 <= j < a.len() && a[j] == t;
        assert((a + b)[j] == a[j]);
    }
}

proof fn lemma_bridges_cells_contains(n: int, k: int, t: Tile)
    requires
        1 <= k < n <= 6,
        spoke_cells(k).contains(t),
    ensures
        bridges_cells(n).contains(t),
    decreases n,
{
    let a = bridges_cells(n - 1);
    let b = spoke_cells(n - 1);
    if k == n - 1 {
        let j = choose|j: int| 0 <= j < b.len() && b[j] == t;
        assert((a + b)[a.len() + j] == b[j]);
    } else {
        lemma_bridges_cells_contains(n - 1, k, t);
        let j = choose|j: int| 0 <= j < a.len() && a[j] == t;
        assert((a + b)[j] == a[j]);
    }
}

proof fn lemma_world_cell_is_land(t: Tile)
    requires
        world_cells().contains(t),
    ensures
        has_pos(world_tiles(), t.0 as int, t.1 as int),
{
    let j = choose|j: int| 0 <= j < world_cells().len() && world_cells()[j] == t;
    lemma_place_all_positions(Seq::empty(), world_cells(), t.0 as int, t.1 as int);
}

/// Law: no two tiles of the generated world share a grid position.
pub proof fn lemma_world_positions_distinct()
    ensures
        positions_distinct(world_tiles()),
{
    lemma_place_all_keeps_distinct(Seq::empty(), world_cells());
}

/// Law: a grid position is land exactly when some island or bridge covers it.
pub proof fn lemma_world_land(x: int, y: int)
    ensures
        has_pos(world_tiles(), x, y) <==> has_pos(world_cells(), x, y),
{
    lemma_place_all_positions(Seq::empty(), world_cells(), x, y);
}

/// Law: every cell of every island's disc is land.
pub proof fn lemma_island_is_land(k: int, gx: int, gy: int)
    requires
        0 <= k < 6,
        in_disc(world_islands()[k], gx, gy),
    ensures
        has_pos(world_tiles(), gx, gy),
{
    let isl = world_islands()[k];
    lemma_world_islands_fit(k);
    lemma_disc_cell_fits(isl, gx, gy);
    lemma_circle_cells_contains(isl, gx, gy);
    let t = disc_tile(isl, gx, gy);
    lemma_islands_cells_contains(6, k, t);
    let a = islands_cells(6);
    let j = choose|j: int| 0 <= j < a.len() && a[j] == t;
    assert(world_cells()[j] == a[j]);
    lemma_world_cell_is_land(t);
}

proof fn lemma_islands_start_with_hub(n: int)
    requires
        1 <= n <= 6,
    ensures
        is_prefix(islands_cells(1), islands_cells(n)),
    decreases n,
{
    if n > 1 {
        lemma_islands_start_with_hub(n - 1);
        let a = islands_cells(n - 1);
        let b = circle_cells(world_islands()[n - 1]);
        assert forall|i: int| 0 <= i < islands_cells(1).len() implies (a + b)[i] == islands_cells(
            1,
        )[i] by {
            assert((a + b)[i] == a[i]);
        }
    }
}

/// Law: the hub island is raised first, so its cells open the world exactly
/// as the hub lists them; in particular nothing later overrides them.
pub proof fn lemma_hub_comes_first()
    ensures
        is_prefix(circle_cells(world_islands()[0]), world_tiles()),
{
    let hub = circle_cells(world_islands()[0]);
    lemma_world_islands_fit(0);
    lemma_circle_cells_shape(world_islands()[0]);
    assert(islands_cells(1) =~= hub) by {
        assert(islands_cells(0) =~= Seq::<Tile>::empty());
    }
    lemma_islands_start_with_hub(6);
    let rest = world_cells().subrange(hub.len() as int, world_cells().len() as int);
    assert(world_cells() =~= hub + rest);
    lemma_place_all_concat(Seq::empty(), hub, rest);
    lemma_place_all_fresh(Seq::empty(), hub);
    assert(Seq::<Tile>::empty() + hub =~= hub);
    lemma_place_all_keeps_prefix(hub, rest);
}

/// Law: the centre of the hub is grass.
pub proof fn lemma_hub_centre_is_grass()
    ensures
        world_tiles().contains((0i32, 0i32, TileType::Grass)),
{
    let isl = world_islands()[0];
    lemma_circle_cells_contains(isl, 0, 0);
    assert(disc_tile(isl, 0, 0) == (0i32, 0i32, TileType::Grass));
    lemma_hub_comes_first();
    let hub = circle_cells(isl);
    let j = choose|j: int| 0 <= j < hub.len() && hub[j] == disc_tile(isl, 0, 0);
    assert(world_tiles()[j] == hub[j]);
}

proof fn lemma_bridge_step_in_cells(from: (i32, i32), to: (i32, i32), n: int, i: int, m: int)
    requires
        0 <= i < n,
        0 <= m < 3,
    ensures
        bridge_cells_upto(from, to, n).contains(bridge_step_cells(from, to, i)[m]),
    decreases n,
{
    let a = bridge_cells_upto(from, to, n - 1);
    let b = bridge_step_cells(from, to, n - 1);
    if i == n - 1 {
        assert((a + b)[a.len() + m] == b[m]);
    } else {
        lemma_bridge_step_in_cells(from, to, n - 1, i, m);
        let j = choose|j: int| 0 <= j < a.len() && a[j] == bridge_step_cells(from, to, i)[m];
        assert((a + b)[j] == a[j]);
    }
}

/// Law: every centre cell of the bridge from the hub to island `k`
/// (`1 <= k < 6`), at every step, is land.
pub proof fn lemma_bridge_centres_are_land(k: int, i: int)
    requires
        1 <= k < 6,
        0 <= i <= bridge_steps((0, 0), (world_islands()[k].cx, world_islands()[k].cy)),
    ensures
        ({
            let c = bridge_centre((0, 0), (world_islands()[k].cx, world_islands()[k].cy), i);
            has_pos(world_tiles(), c.0, c.1)
        }),
{
    let from: (i32, i32) = (0, 0);
    let to: (i32, i32) = (world_islands()[k].cx, world_islands()[k].cy);
    let s = bridge_steps(from, to);
    lemma_bridge_step_in_cells(from, to, s + 1, i, 0);
    let t = bridge_step_cells(from, to, i)[0];
    lemma_bridge_centre_between(from, to, i);
    lemma_bridges_cells_contains(6, k, t);
    let b = bridges_cells(6);
    let j = choose|j: int| 0 <= j < b.len() && b[j] == t;
    assert(world_cells()[islands_cells(6).len() + j] == b[j]);
    lemma_world_cell_is_land(t);
}


// ---------------------------------------------------------------------------
// Per-tile pseudo-random hash and decorations
// ---------------------------------------------------------------------------

/// `a * b` modulo 2^32.
pub open spec fn mul32(a: nat, b: nat) -> u32 {
    ((a * b) % 0x1_0000_0000) as u32
}

/// `a + b` modulo 2^32.
pub open spec fn add32(a: nat, b: nat) -> u32 {
    ((a + b) % 0x1_0000_0000) as u32
}

/// The per-tile hash: both coordinates reinterpreted as `u32`, multiplied
/// by two odd constants and summed (all modulo 2^32), then mixed by a
/// xor-shift by 13, a multiplication and a xor-shift by 16.
pub open spec fn spec_tile_hash(gx: i32, gy: i32) -> u32 {
    let h0 = add32(mul32((gx as u32) as nat, 374_761_393) as nat, mul32((gy as u32) as nat, 668_265_263) as nat);
    let h1 = h0 ^ (h0 >> 13u32);
    let h2 = mul32(h1 as nat, 1_274_126_177);
    h2 ^ (h2 >> 16u32)
}

pub(crate) fn wrapping_add_u32(a: u32, b: u32) -> (r: u32)
    ensures
        r == add32(a as nat, b as nat),
{
    let r = a.wrapping_add(b);
    proof {
        if a + b > u32::MAX {
            vstd::arithmetic::div_mod::lemma_fundamental_div_mod_converse(
                a + b,
                0x1_0000_0000,
                1,
                a + b - 0x1_0000_0000,
            );
        } else {
            vstd::arithmetic::div_mod::lemma_fundamental_div_mod_converse(a + b, 0x1_0000_0000, 0, a + b);
        }
    }
    r
}

/// Deterministic pseudo-random hash of a grid cell, used to scatter
/// decorations and flowers.
pub fn tile_hash(gx: i32, gy: i32) -> (h: u32)
    ensures
        h == spec_tile_hash(gx, gy),
{
    let x = (gx as u32).wrapping_mul(374_761_393);
    let y = (gy as u32).wrapping_mul(668_265_263);
    let h = wrapping_add_u32(x, y);
    let h = h ^ (h >> 13);
    let h = h.wrapping_mul(1_274_126_177);
    h ^ (h >> 16)
}

/// An ornament that can stand on a tile.
#[derive(Clone, Copy, PartialEq, Eq, Debug, Structural)]
pub enum Decoration {
    /// A jungle tree whose canopy radius is 6 plus `canopy_extra`.
    JungleTree { canopy_extra: u32 },
    Cactus,
    TundraCrystal,
    VolcanicRock,
    GrassStone,
    RockPebble,
}

/// Which ornament, if any, a tile of surface `kind` and hash `h` carries.
pub open spec fn spec_decoration(kind: TileType, h: u32) -> Option<Decoration> {
    if (kind == TileType::Jungle || kind == TileType::JungleFloor) && h % 10 < 3 {
        Some(Decoration::JungleTree { canopy_extra: h % 3 })
    } else if (kind == TileType::Desert || kind == TileType::DesertRock) && h % 10 < 2 {
        Some(Decoration::Cactus)
    } else if (kind == TileType::Snow || kind == TileType::Tundra) && h % 8 < 2 {
        Some(Decoration::TundraCrystal)
    } else if kind == TileType::Volcanic && h % 10 < 2 {
        Some(Decoration::VolcanicRock)
    } else if kind == TileType::Grass && h % 12 < 1 {
        Some(Decoration::GrassStone)
    } else if kind == TileType::Rock && h % 10 < 1 {
        Some(Decoration::RockPebble)
    } else {
        None
    }
}

/// Law: the ornaments by surface: snow and tundra are decorated alike, with
/// crystals on the hashes `h` with `h % 8` in `{0, 1}`; the two jungle
/// surfaces alike, with trees on `h % 10` in `{0, 1, 2}` whose canopy grows by
/// `h % 3`; the two desert surfaces alike, with cacti on `h % 10` in `{0, 1}`;
/// volcanic ground gets rocks on `h % 10` in `{0, 1}`, grass stones on
/// `h % 12 == 0`, rock pebbles on `h % 10 == 0`; dirt, lava and bridges
/// never carry an ornament.
pub proof fn lemma_decorations_by_surface(h: u32)
    ensures
        spec_decoration(TileType::Tundra, h) == spec_decoration(TileType::Snow, h),
        spec_decoration(TileType::Snow, h) is Some <==> h % 8 < 2,
        spec_decoration(TileType::Snow, h) is Some ==> spec_decoration(TileType::Snow, h)
            == Some(Decoration::TundraCrystal),
        spec_decoration(TileType::Jungle, h) == spec_decoration(TileType::JungleFloor, h),
        spec_decoration(TileType::Jungle, h) is Some <==> h % 10 < 3,
        spec_decoration(TileType::Jungle, h) is Some ==> spec_decoration(TileType::Jungle, h)
            == Some(Decoration::JungleTree { canopy_extra: h % 3 }),
        spec_decoration(TileType::Desert, h) == spec_decoration(TileType::DesertRock, h),
        spec_decoration(TileType::Desert, h) is Some <==> h % 10 < 2,
        spec_decoration(TileType::Desert, h) is Some ==> spec_decoration(TileType::Desert, h)
            == Some(Decoration::Cactus),
        spec_decoration(TileType::Volcanic, h) is Some <==> h % 10 < 2,
        spec_decoration(TileType::Volcanic, h) is Some ==> spec_decoration(TileType::Volcanic, h)
            == Some(Decoration::VolcanicRock),
        spec_decoration(TileType::Grass, h) is Some <==> h % 12 == 0,
        spec_decoration(TileType::Grass, h) is Some ==> spec_decoration(TileType::Grass, h)
            == Some(Decoration::GrassStone),
        spec_decoration(TileType::Rock, h) is Some <==> h % 10 == 0,
        spec_decoration(TileType::Rock, h) is Some ==> spec_decoration(TileType::Rock, h)
            == Some(Decoration::RockPebble),
        spec_decoration(TileType::Dirt, h) is None,
        spec_decoration(TileType::Lava, h) is None,
        spec_decoration(TileType::Bridge, h) is None,
{
}

/// Chooses the ornament of a tile from its surface and hash: trees on 3 in
/// 10 jungle tiles, cacti on 2 in 10 desert tiles, crystals on 2 in 8 snow
/// or tundra tiles, rocks on 2 in 10 volcanic tiles, stones on 1 in 12 grass
/// tiles, pebbles on 1 in 10 rock tiles (by the hash modulo 10, 8 or 12).
pub fn decoration_for(kind: TileType, h: u32) -> (d: Option<Decoration>)
    ensures
        d == spec_decoration(kind, h),
{
    match kind {
        TileType::Jungle | TileType::JungleFloor => if h % 10 < 3 {
            Some(Decoration::JungleTree { canopy_extra: h % 3 })
        } else {
            None
        },
        TileType::Desert | TileType::DesertRock => if h % 10 < 2 {
            Some(Decoration::Cactus)
        } else {
            None
        },
        TileType::Snow | TileType::Tundra => if h % 8 < 2 {
            Some(Decoration::TundraCrystal)
        } else {
            None
        },
        TileType::Volcanic => if h % 10 < 2 {
            Some(Decoration::VolcanicRock)
        } else {
            None
        },
        TileType::Grass => if h % 12 < 1 {
            Some(Decoration::GrassStone)
        } else {
            None
        },
        TileType::Rock => if h % 10 < 1 {
            Some(Decoration::RockPebble)
        } else {
            None
        },
        _ => None,
    }
}

/// Offset of a tile's ornament from the tile centre, in steps: x steps of
/// 0.7 units in `-10..10` from the hash modulo 20, z steps of 0.5 units in
/// `-7..7` from the hash's second byte upward modulo 14.
pub fn decoration_offset(h: u32) -> (off: (i32, i32))
    ensures
        off.0 == (h % 20) as int - 10,
        off.1 == ((h >> 8u32) % 14) as int - 7,
{
    ((h % 20) as i32 - 10, ((h >> 8) % 14) as i32 - 7)
}


/// Law: every tile of a placement result was already there or is one of the
/// placed cells, unchanged.
pub proof fn lemma_place_all_elements(tiles: Seq<Tile>, cells: Seq<Tile>, k: int)
    requires
        0 <= k < place_all(tiles, cells).len(),
    ensures
        tiles.contains(place_all(tiles, cells)[k]) || cells.contains(place_all(tiles, cells)[k]),
    decreases cells.len(),
{
    if cells.len() > 0 {
        let prev = place_all(tiles, cells.drop_last());
        let c = cells.last();
        if k < prev.len() {
            assert(place(prev, c)[k] == prev[k]);
            lemma_place_all_elements(tiles, cells.drop_last(), k);
            if cells.drop_last().contains(prev[k]) {
                let j = choose|j: int| 0 <= j < cells.drop_last().len() && cells.drop_last()[j] == prev[k];
                assert(cells[j] == prev[k]);
            }
        } else {
            assert(place(prev, c)[k] == c);
            assert(cells[cells.len() - 1] == c);
        }
    }
}

proof fn lemma_islands_cells_origin(n: int, t: Tile)
    requires
        0 <= n <= 6,
        islands_cells(n).contains(t),
    ensures
        exists|k: int| 0 <= k < n && #[trigger] circle_cells(world_islands()[k]).contains(t),
    decreases n,
{
    if n > 0 {
        let a = islands_cells(n - 1);
        let b = circle_cells(world_islands()[n - 1]);
        let j = choose|j: int| 0 <= j < (a + b).len() && (a + b)[j] == t;
        if j < a.len() {
            assert(a[j] == t);
            lemma_islands_cells_origin(n - 1, t);
            let k = choose|k: int| 0 <= k < n - 1 && #[trigger] circle_cells(world_islands()[k]).contains(t);
        } else {
            assert(b[j - a.len()] == t);
        }
    }
}

proof fn lemma_bridge_cells_upto_are_planks(from: (i32, i32), to: (i32, i32), n: int, t: Tile)
    requires
        bridge_cells_upto(from, to, n).contains(t),
    ensures
        t.2 == TileType::Bridge,
    decreases n,
{
    if n > 0 {
        let a = bridge_cells_upto(from, to, n - 1);
        let b = bridge_step_cells(from, to, n - 1);
        let j = choose|j: int| 0 <= j < (a + b).len() && (a + b)[j] == t;
        if j < a.len() {
            assert(a[j] == t);
            lemma_bridge_cells_upto_are_planks(from, to, n - 1, t);
        } else {
            assert(b[j - a.len()] == t);
        }
    }
}

proof fn lemma_bridges_cells_are_planks(n: int, t: Tile)
    requires
        bridges_cells(n).contains(t),
    ensures
        t.2 == TileType::Bridge,
    decreases n,
{
    if 1 < n <= 6 {
        let a = bridges_cells(n - 1);
        let b = spoke_cells(n - 1);
        let j = choose|j: int| 0 <= j < (a + b).len() && (a + b)[j] == t;
        if j < a.len() {
            assert(a[j] == t);
            lemma_bridges_cells_are_planks(n - 1, t);
        } else {
            assert(b[j - a.len()] == t);
            let from: (i32, i32) = (0, 0);
            let to: (i32, i32) = (world_islands()[n - 1].cx, world_islands()[n - 1].cy);
            lemma_bridge_cells_upto_are_planks(from, to, bridge_steps(from, to) + 1, t);
        }
    }
}

/// Law: every tile of the world comes from one island's disc, with that
/// island's inner or outer surface, or is a bridge plank.
pub proof fn lemma_world_tile_origin(i: int)
    requires
        0 <= i < world_tiles().len(),
    ensures
        ({
            let t = world_tiles()[i];
            ||| t.2 == TileType::Bridge
            ||| exists|k: int|
                0 <= k < 6 && in_disc(#[trigger] world_islands()[k], t.0 as int, t.1 as int) && (t.2
                    == world_islands()[k].inner || t.2 == world_islands()[k].outer)
        }),
{
    let t = world_tiles()[i];
    lemma_place_all_elements(Seq::empty(), world_cells(), i);
    let j = choose|j: int| 0 <= j < world_cells().len() && world_cells()[j] == t;
    let a = islands_cells(6);
    let b = bridges_cells(6);
    if j < a.len() {
        assert(a[j] == t);
        lemma_islands_cells_origin(6, t);
        let k = choose|k: int| 0 <= k < 6 && #[trigger] circle_cells(world_islands()[k]).contains(t);
        let isl = world_islands()[k];
        lemma_world_islands_fit(k);
        lemma_circle_cells_shape(isl);
        let m = choose|m: int| 0 <= m < circle_cells(isl).len() && circle_cells(isl)[m] == t;
        assert(in_disc(isl, t.0 as int, t.1 as int));
    } else {
        assert(b[j - a.len()] == t);
        lemma_bridges_cells_are_planks(6, t);
    }
}

// ---------------------------------------------------------------------------
// The land of the world, for walking enemies
// ---------------------------------------------------------------------------

/// Every tile of the world, so that walkers can stay on land.
pub struct WorldTiles {
    tiles: Vec<Tile>,
}

impl View for WorldTiles {
    type V = Seq<Tile>;

    closed spec fn view(&self) -> Seq<Tile> {
        self.tiles@
    }
}

impl WorldTiles {
    /// Wraps a list of tiles.
    pub fn new(tiles: Vec<Tile>) -> (w: Self)
        ensures
            w@ == tiles@,
    {
        WorldTiles { tiles }
    }

    /// The generated world.
    pub fn generate() -> (w: Self)
        ensures
            w@ == world_tiles(),
    {
        WorldTiles { tiles: generate_world() }
    }

    /// The tiles.
    pub fn tiles(&self) -> (t: &Vec<Tile>)
        ensures
            t@ == self@,
    {
        &self.tiles
    }

    /// Whether some tile stands at grid cell `cell`.
    pub fn is_over_tile(&self, cell: (i32, i32)) -> (on: bool)
        ensures
            on == has_pos(self@, cell.0 as int, cell.1 as int),
    {
        has_position(&self.tiles, cell.0, cell.1)
    }
}

} // verus!
