//! Field of view: which tiles can be seen from a tile of the map. The
//! shadow-casting itself is bracket-lib's; this module feeds it the map, and
//! puts what comes back into a fixed shape.

use vstd::prelude::*;
use bracket_lib::prelude::{field_of_view, Algorithm2D, BaseMap};
use crate::geometry::{
    cell_index,
    lemma_cell_index_bounds,
    lemma_cell_index_injective,
    lemma_index_cell,
    on_grid,
    Coord,
};
use crate::map::{BoundsError, TileMap, TileMapView};

verus! {

/// bracket-lib's tile coordinate: a pair of public `i32` fields, `x` and `y`.
#[verifier::external_type_specification]
pub struct ExBracketPoint(bracket_lib::prelude::Point);

/// No viewer sees farther than this many tiles: a longer range counts as this one.
pub const SIGHT_LIMIT: i32 = 1024;

/// The set of tiles that bracket-lib's recursive shadow-casting reports for a
/// viewer at `(x, y)` with the given range, on a grid of `width` by `height`
/// whose cell `i` stops sight where `opaque[i]` holds.
pub uninterp spec fn shadow_cast(
    x: int,
    y: int,
    range: int,
    width: int,
    height: int,
    opaque: Seq<bool>,
) -> Set<(int, int)>;

/// The coordinates that occur in a list of tiles.
pub open spec fn tile_set(tiles: Seq<Coord>) -> Set<(int, int)> {
    Set::new(
        |t: (int, int)|
            exists|j: int| 0 <= j < tiles.len() && #[trigger] tiles[j].x == t.0 && tiles[j].y == t.1,
    )
}

/// A layer of the grid that holds, for each cell, whether its tile is in `set`.
pub open spec fn marks(set: Set<(int, int)>, width: int, height: int) -> Seq<bool> {
    Seq::new((width * height) as nat, |i: int| set.contains((i % width, i / width)))
}

/// The range that a viewer gets: none below 0, `SIGHT_LIMIT` at most.
pub open spec fn sight(range: int) -> int {
    if range < 0 {
        0
    } else if range > SIGHT_LIMIT {
        SIGHT_LIMIT as int
    } else {
        range
    }
}

/// The tiles in sight of a viewer at `(x, y)`: the viewer's own tile, and every
/// tile of the map that the shadow-casting reports.
pub open spec fn visible_from(map: TileMapView, x: int, y: int, range: int) -> Set<(int, int)> {
    Set::new(
        |t: (int, int)|
            map.holds(t.0, t.1) && (t == (x, y) || shadow_cast(
                x,
                y,
                sight(range),
                map.width,
                map.height,
                map.opacity(),
            ).contains(t)),
    )
}

/// The tiles of `set` among the first `x_end` tiles of row `y`, left to right.
pub open spec fn row_tiles(set: Set<(int, int)>, y: int, x_end: int) -> Seq<Coord>
    decreases x_end,
{
    if x_end <= 0 {
        Seq::empty()
    } else if set.contains((x_end - 1, y)) {
        row_tiles(set, y, x_end - 1).push(Coord { x: (x_end - 1) as i32, y: y as i32 })
    } else {
        row_tiles(set, y, x_end - 1)
    }
}

/// The tiles of `set` that lie on a grid of `width` by `height`, each once, row
/// by row from the top and left to right within a row.
pub open spec fn tiles_of(set: Set<(int, int)>, width: int, height: int) -> Seq<Coord>
    decreases height,
{
    if height <= 0 {
        Seq::empty()
    } else {
        tiles_of(set, width, height - 1) + row_tiles(set, height - 1, width)
    }
}

/// A marked layer reads, tile by tile, whether the tile is in the set.
pub proof fn lemma_marks_cell(set: Set<(int, int)>, width: int, height: int, x: int, y: int)
    requires
        on_grid(x, y, width, height),
    ensures
        0 <= cell_index(x, y, width) < marks(set, width, height).len(),
        marks(set, width, height)[cell_index(x, y, width)] == set.contains((x, y)),
{
    lemma_cell_index_bounds(x, y, width, height);
    vstd::arithmetic::div_mod::lemma_fundamental_div_mod_converse(
        cell_index(x, y, width),
        width,
        y,
        x,
    );
}

/// Whether `a` comes before `b` in row-major order.
pub open spec fn row_major_before(a: Coord, b: Coord) -> bool {
    a.y < b.y || (a.y == b.y && a.x < b.x)
}

/// The tiles picked from the start of one row are those of the set, in rising
/// order of column.
pub proof fn lemma_scan_row_tiles(set: Set<(int, int)>, y: int, x_end: int)
    requires
        0 <= x_end <= i32::MAX,
        0 <= y <= i32::MAX,
    ensures
        forall|k: int|
            0 <= k < row_tiles(set, y, x_end).len() ==> {
                let t = #[trigger] row_tiles(set, y, x_end)[k];
                t.y == y && 0 <= t.x < x_end && set.contains((t.x as int, t.y as int))
            },
        forall|x: int|
            0 <= x < x_end && #[trigger] set.contains((x, y)) ==> row_tiles(
                set,
                y,
                x_end,
            ).contains(Coord { x: x as i32, y: y as i32 }),
        forall|a: int, b: int|
            0 <= a < b < row_tiles(set, y, x_end).len()
                ==> row_major_before(
                #[trigger] row_tiles(set, y, x_end)[a],
                #[trigger] row_tiles(set, y, x_end)[b],
            ),
    decreases x_end,
{
    let row = row_tiles(set, y, x_end);
    if x_end > 0 {
        lemma_scan_row_tiles(set, y, x_end - 1);
        let rest = row_tiles(set, y, x_end - 1);
        assert forall|x: int| 0 <= x < x_end && #[trigger] set.contains((x, y)) implies row.contains(
            Coord { x: x as i32, y: y as i32 },
        ) by {
            let c = Coord { x: x as i32, y: y as i32 };
            if x < x_end - 1 {
                assert(rest.contains(c));
                let k = choose|k: int| 0 <= k < rest.len() && rest[k] == c;
                assert(row[k] == c);
            } else {
                assert(row[row.len() - 1] == c);
            }
        }
    }
}

/// The tiles picked from the first rows of a grid are those of the set that lie
/// on these rows, in row-major order.
pub proof fn lemma_scan_grid_tiles(set: Set<(int, int)>, width: int, y_end: int)
    requires
        0 <= width <= i32::MAX,
        0 <= y_end <= i32::MAX,
    ensures
        forall|k: int|
            0 <= k < tiles_of(set, width, y_end).len() ==> {
                let t = #[trigger] tiles_of(set, width, y_end)[k];
                on_grid(t.x as int, t.y as int, width, y_end) && set.contains(
                    (t.x as int, t.y as int),
                )
            },
        forall|x: int, y: int|
            on_grid(x, y, width, y_end) && #[trigger] set.contains((x, y)) ==> tiles_of(
                set,
                width,
                y_end,
            ).contains(Coord { x: x as i32, y: y as i32 }),
        forall|a: int, b: int|
            0 <= a < b < tiles_of(set, width, y_end).len()
                ==> row_major_before(
                #[trigger] tiles_of(set, width, y_end)[a],
                #[trigger] tiles_of(set, width, y_end)[b],
            ),
    decreases y_end,
{
    let all = tiles_of(set, width, y_end);
    if y_end > 0 {
        lemma_scan_grid_tiles(set, width, y_end - 1);
        lemma_scan_row_tiles(set, y_end - 1, width);
        let above = tiles_of(set, width, y_end - 1);
        let row = row_tiles(set, y_end - 1, width);
        assert(all == above + row);
        assert forall|k: int| 0 <= k < all.len() implies {
            let t = #[trigger] all[k];
            on_grid(t.x as int, t.y as int, width, y_end) && set.contains((t.x as int, t.y as int))
        } by {
            if k < above.len() {
                assert(all[k] == above[k]);
            } else {
                assert(all[k] == row[k - above.len()]);
            }
        }
        assert forall|x: int, y: int|
            on_grid(x, y, width, y_end) && #[trigger] set.contains((x, y)) implies all.contains(
            Coord { x: x as i32, y: y as i32 },
        ) by {
            let c = Coord { x: x as i32, y: y as i32 };
            if y < y_end - 1 {
                assert(above.contains(c));
                let k = choose|k: int| 0 <= k < above.len() && above[k] == c;
                assert(all[k] == c);
            } else {
                assert(row.contains(c));
                let k = choose|k: int| 0 <= k < row.len() && row[k] == c;
                assert(all[above.len() + k] == c);
            }
        }
        assert forall|a: int, b: int| 0 <= a < b < all.len() implies row_major_before(
            #[trigger] all[a],
            #[trigger] all[b],
        ) by {
            if b < above.len() {
                assert(all[a] == above[a] && all[b] == above[b]);
            } else if a < above.len() {
                assert(all[a] == above[a]);
                assert(all[b] == row[b - above.len()]);
            } else {
                assert(all[a] == row[a - above.len()]);
                assert(all[b] == row[b - above.len()]);
            }
        }
    }
}

impl BaseMap for TileMap {
    /// Sight stops at mountain, and nowhere else.
    fn is_opaque(&self, idx: usize) -> (r: bool)
        ensures
            r == (idx < self.terrain@.len() && self.terrain@[idx as int].opaque()),
    {
        self.opaque_at(idx)
    }
}

impl Algorithm2D for TileMap {
    /// The grid's width and height, as one of bracket-lib's points.
    fn dimensions(&self) -> (size: bracket_lib::prelude::Point)
        ensures
            size.x == self.width,
            size.y == self.height,
    {
        bracket_lib::prelude::Point { x: self.width, y: self.height }
    }
}

/// Calls bracket-lib's `field_of_view` on the map, which that function reads
/// through `dimensions` and `is_opaque`. It returns the tiles of a set in no
/// particular order; the contract names that set `shadow_cast` and claims no
/// more of it. The viewer must stand on the map and the range lie between 0 and
/// `SIGHT_LIMIT`: the outside code computes indices and squares in `i32`, and
/// reserves room for four times the range's square.
#[verifier::external_body]
fn field_of_view_tiles(map: &TileMap, origin: Coord, range: i32) -> (tiles: Vec<Coord>)
    requires
        map.wf(),
        map@.holds(origin.x as int, origin.y as int),
        0 <= range <= SIGHT_LIMIT,
    ensures
        tile_set(tiles@) == shadow_cast(
            origin.x as int,
            origin.y as int,
            range as int,
            map@.width,
            map@.height,
            map@.opacity(),
        ),
{
    field_of_view(bracket_lib::prelude::Point { x: origin.x, y: origin.y }, range, map)
        .into_iter()
        .map(|p| Coord { x: p.x, y: p.y })
        .collect()
}

/// A layer that marks the cells of the listed tiles. Tiles off the map mark nothing.
pub fn mark_layer(map: &TileMap, tiles: &Vec<Coord>) -> (layer: Vec<bool>)
    requires
        map.wf(),
    ensures
        layer@ == marks(tile_set(tiles@), map@.width, map@.height),
{
    let ghost w = map@.width;
    let ghost h = map@.height;
    let cells: usize = map.terrain.len();
    let mut layer: Vec<bool> = Vec::new();
    let mut i: usize = 0;
    while i < cells
        invariant
            i <= cells,
            layer@.len() == i,
            forall|j: int| 0 <= j < i ==> !layer@[j],
        decreases cells - i,
    {
        layer.push(false);
        i += 1;
    }
    let mut k: usize = 0;
    while k < tiles.len()
        invariant
            map.wf(),
            w == map@.width,
            h == map@.height,
            k <= tiles@.len(),
            layer@.len() == w * h,
            forall|i: int|
                0 <= i < w * h ==> (#[trigger] layer@[i] <==> tile_set(tiles@.take(k as int)).contains(
                    (i % w, i / w),
                )),
        decreases tiles@.len() - k,
    {
        let p = tiles[k];
        let ghost before = layer@;
        let ghost sofar = tiles@.take(k as int);
        let ghost next = tiles@.take(k + 1);
        assert(next.drop_last() =~= sofar);
        assert(next.last() == p);
        match map.index_of(p) {
            Ok(at) => {
                layer[at] = true;
            },
            Err(_) => {},
        }
        assert forall|i: int| 0 <= i < w * h implies (#[trigger] layer@[i] <==> tile_set(
            next,
        ).contains((i % w, i / w))) by {
            lemma_index_cell(i, w, h);
            let t = (i % w, i / w);
            if tile_set(sofar).contains(t) {
                let j = choose|j: int|
                    0 <= j < sofar.len() && #[trigger] sofar[j].x == t.0 && sofar[j].y == t.1;
                assert(next[j].x == t.0 && next[j].y == t.1);
            }
            if tile_set(next).contains(t) {
                let j = choose|j: int|
                    0 <= j < next.len() && #[trigger] next[j].x == t.0 && next[j].y == t.1;
                if j < k {
                    assert(sofar[j].x == t.0 && sofar[j].y == t.1);
                } else {
                    assert(p.x == t.0 && p.y == t.1);
                }
            }
            if map@.holds(p.x as int, p.y as int) {
                if cell_index(p.x as int, p.y as int, w) == i {
                    lemma_cell_index_injective(p.x as int, p.y as int, t.0, t.1, w);
                    assert(next[k as int].x == t.0 && next[k as int].y == t.1);
                } else {
                    assert(layer@[i] == before[i]);
                }
            }
        }
        k += 1;
    }
    assert(tiles@.take(k as int) =~= tiles@);
    assert(layer@ =~= marks(tile_set(tiles@), w, h));
    layer
}

/// The tiles in sight of a viewer at `origin` whose sight reaches `range` tiles:
/// the viewer's own tile and the tiles of the map that shadow-casting reports,
/// each once, in row-major order. Sight stops at mountain; a range below 0
/// counts as 0 and one above `SIGHT_LIMIT` as `SIGHT_LIMIT`. A viewer off the
/// map is refused.
pub fn compute_visible(map: &TileMap, origin: Coord, range: i32) -> (r: Result<
    Vec<Coord>,
    BoundsError,
>)
    requires
        map.wf(),
    ensures
        match r {
            Ok(tiles) => {
                &&& map@.holds(origin.x as int, origin.y as int)
                &&& tiles@ == tiles_of(
                    visible_from(map@, origin.x as int, origin.y as int, range as int),
                    map@.width,
                    map@.height,
                )
                &&& tiles@.contains(origin)
                &&& forall|k: int|
                    0 <= k < tiles@.len() ==> map@.holds(
                        (#[trigger] tiles@[k]).x as int,
                        tiles@[k].y as int,
                    )
                &&& tiles@.no_duplicates()
            },
            Err(e) => !map@.holds(origin.x as int, origin.y as int) && e == (BoundsError {
                x: origin.x,
                y: origin.y,
            }),
        },
{
    let at = match map.index_of(origin) {
        Ok(at) => at,
        Err(e) => {
            return Err(e);
        },
    };
    let reach: i32 = if range < 0 {
        0
    } else if range > SIGHT_LIMIT {
        SIGHT_LIMIT
    } else {
        range
    };
    let ghost w = map@.width;
    let ghost h = map@.height;
    let ghost seen = visible_from(map@, origin.x as int, origin.y as int, range as int);
    let raw = field_of_view_tiles(map, origin, reach);
    let mut layer = mark_layer(map, &raw);
    layer[at] = true;
    assert forall|x: int, y: int| on_grid(x, y, w, h) implies #[trigger] layer@[cell_index(
        x,
        y,
        w,
    )] == seen.contains((x, y)) by {
        lemma_marks_cell(tile_set(raw@), w, h, x, y);
        if cell_index(x, y, w) == at {
            lemma_cell_index_injective(x, y, origin.x as int, origin.y as int, w);
        }
    }
    let mut tiles: Vec<Coord> = Vec::new();
    let mut y: i32 = 0;
    assert(tiles@ =~= tiles_of(seen, w, 0));
    while y < map.height
        invariant
            map.wf(),
            w == map@.width,
            h == map@.height,
            0 <= y <= map.height,
            layer@.len() == w * h,
            forall|x: int, y: int|
                on_grid(x, y, w, h) ==> #[trigger] layer@[cell_index(x, y, w)] == seen.contains(
                    (x, y),
                ),
            tiles@ == tiles_of(seen, w, y as int),
        decreases map.height - y,
    {
        let mut x: i32 = 0;
        assert(tiles@ =~= tiles_of(seen, w, y as int) + row_tiles(seen, y as int, 0));
        while x < map.width
            invariant
                map.wf(),
                w == map@.width,
                h == map@.height,
                0 <= y < map.height,
                0 <= x <= map.width,
                layer@.len() == w * h,
                    forall|x: int, y: int|
                    on_grid(x, y, w, h) ==> #[trigger] layer@[cell_index(x, y, w)]
                        == seen.contains((x, y)),
                tiles@ == tiles_of(seen, w, y as int) + row_tiles(seen, y as int, x as int),
            decreases map.width - x,
        {
            proof {
                lemma_cell_index_bounds(x as int, y as int, w, h);
            }
            let i: usize = (y * map.width + x) as usize;
            assert(i == cell_index(x as int, y as int, w));
            if layer[i] {
                tiles.push(Coord { x, y });
            }
            assert(tiles@ =~= tiles_of(seen, w, y as int) + row_tiles(seen, y as int, x + 1));
            x += 1;
        }
        assert(tiles@ =~= tiles_of(seen, w, y + 1));
        y += 1;
    }
    proof {
        lemma_scan_grid_tiles(seen, w, h);
        assert(seen.contains((origin.x as int, origin.y as int)));
        assert(tiles@.contains(Coord { x: origin.x as int as i32, y: origin.y as int as i32 }));
        assert forall|a: int, b: int| 0 <= a < b < tiles@.len() implies tiles@[a] != tiles@[b] by {
            assert(row_major_before(tiles@[a], tiles@[b]));
        }
    }
    Ok(tiles)
}

} // verus!
