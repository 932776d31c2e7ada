//! Procedural terrain: land inside a mountain fence, with water and mountains
//! scattered over the interior by dice.

use vstd::prelude::*;
use bracket_lib::prelude::RandomNumberGenerator;
use crate::geometry::{
    cell_index,
    lemma_cell_index_bounds,
    lemma_cell_index_injective,
    on_grid,
    Coord,
};
use crate::map::{TerrainType, TileMap, TileMapView};

verus! {

/// The three rolls of one scatter trial: an interior column, an interior row,
/// and a three-sided die that picks the terrain.
#[derive(Clone, Copy, Debug, PartialEq, Eq, Structural)]
pub struct Trial {
    pub x: i32,
    pub y: i32,
    pub kind: i32,
}

/// Whether `(x, y)` is on the outermost ring of the grid.
pub open spec fn on_border(x: int, y: int, width: int, height: int) -> bool {
    on_grid(x, y, width, height) && (x == 0 || x == width - 1 || y == 0 || y == height - 1)
}

/// The column of the spawn cell: the middle of the grid.
pub open spec fn spawn_x(width: int) -> int {
    width / 2
}

/// The row of the spawn cell: three fifths of the way down.
pub open spec fn spawn_y(height: int) -> int {
    height * 3 / 5
}

/// How many scatter trials a grid gets: one for every five cells.
pub open spec fn trial_count(width: int, height: int) -> int {
    width * height / 5
}

/// A trial whose coordinate is an interior cell and whose die shows 1, 2 or 3.
pub open spec fn trial_ok(t: Trial, width: int, height: int) -> bool {
    &&& 1 <= t.x <= width - 2
    &&& 1 <= t.y <= height - 2
    &&& 1 <= t.kind <= 3
}

/// What a trial puts down: water on a 1, mountain on a 2 or a 3.
pub open spec fn trial_terrain(kind: int) -> TerrainType {
    if kind == 1 {
        TerrainType::Water
    } else {
        TerrainType::Mountain
    }
}

/// Land everywhere but on the border, which is mountain.
pub open spec fn fenced(width: int, height: int) -> Seq<TerrainType> {
    Seq::new(
        (width * height) as nat,
        |i: int|
            if on_border(i % width, i / width, width, height) {
                TerrainType::Mountain
            } else {
                TerrainType::Land
            },
    )
}

/// The terrain after one trial: its cell is overwritten, unless it is the spawn cell.
pub open spec fn scatter_one(terrain: Seq<TerrainType>, width: int, height: int, t: Trial) -> Seq<
    TerrainType,
> {
    if t.x == spawn_x(width) && t.y == spawn_y(height) {
        terrain
    } else {
        terrain.update(cell_index(t.x as int, t.y as int, width), trial_terrain(t.kind as int))
    }
}

/// The terrain after a run of trials, applied first to last.
pub open spec fn scattered(
    terrain: Seq<TerrainType>,
    width: int,
    height: int,
    trials: Seq<Trial>,
) -> Seq<TerrainType>
    decreases trials.len(),
{
    if trials.len() == 0 {
        terrain
    } else {
        scatter_one(
            scattered(terrain, width, height, trials.drop_last()),
            width,
            height,
            trials.last(),
        )
    }
}

/// Every trial of the run is on an interior cell, with a die of three sides.
pub open spec fn all_trials_ok(trials: Seq<Trial>, width: int, height: int) -> bool {
    forall|k: int| 0 <= k < trials.len() ==> trial_ok(#[trigger] trials[k], width, height)
}

/// A layer in which no cell is marked.
pub open spec fn unseen(width: int, height: int) -> Seq<bool> {
    Seq::new((width * height) as nat, |i: int| false)
}

/// The map that a run of trials generates: the fenced terrain with the trials
/// scattered over it, and nothing seen.
pub open spec fn generated(width: int, height: int, trials: Seq<Trial>) -> TileMapView {
    TileMapView {
        terrain: scattered(fenced(width, height), width, height, trials),
        width,
        height,
        known: unseen(width, height),
        visible: unseen(width, height),
    }
}

/// The map is what some run of trials generates: one trial for every five
/// cells, each on an interior cell.
pub open spec fn freshly_generated(map: TileMapView, width: int, height: int) -> bool {
    exists|trials: Seq<Trial>|
        {
            &&& trials.len() == trial_count(width, height)
            &&& all_trials_ok(trials, width, height)
            &&& map == #[trigger] generated(width, height, trials)
        }
}

/// Border cells are mountain and the spawn cell is land.
pub open spec fn fence_and_spawn_intact(terrain: Seq<TerrainType>, width: int, height: int) -> bool {
    &&& terrain.len() == width * height
    &&& forall|x: int, y: int|
        on_border(x, y, width, height) ==> #[trigger] terrain[cell_index(x, y, width)]
            == TerrainType::Mountain
    &&& terrain[cell_index(spawn_x(width), spawn_y(height), width)] == TerrainType::Land
}

/// The spawn cell of a grid with an interior is one of its interior cells.
pub proof fn lemma_spawn_is_interior(width: int, height: int)
    requires
        3 <= width,
        3 <= height,
    ensures
        1 <= spawn_x(width) <= width - 2,
        1 <= spawn_y(height) <= height - 2,
{
}

/// A fenced grid reads, cell by cell, mountain on the border and land inside.
pub proof fn lemma_fenced_cells(width: int, height: int)
    requires
        0 <= width,
        0 <= height,
    ensures
        fenced(width, height).len() == width * height,
        forall|x: int, y: int|
            on_grid(x, y, width, height) ==> #[trigger] fenced(width, height)[cell_index(
                x,
                y,
                width,
            )] == (if on_border(x, y, width, height) {
                TerrainType::Mountain
            } else {
                TerrainType::Land
            }),
{
    assert(0 <= width * height) by (nonlinear_arith)
        requires
            0 <= width,
            0 <= height,
    ;
    assert forall|x: int, y: int| on_grid(x, y, width, height) implies #[trigger] fenced(
        width,
        height,
    )[cell_index(x, y, width)] == (if on_border(x, y, width, height) {
        TerrainType::Mountain
    } else {
        TerrainType::Land
    }) by {
        lemma_cell_index_bounds(x, y, width, height);
        vstd::arithmetic::div_mod::lemma_fundamental_div_mod_converse(
            cell_index(x, y, width),
            width,
            y,
            x,
        );
    }
}

/// A trial on an interior cell leaves the fence and the spawn cell as they were.
pub proof fn lemma_scatter_keeps_fence(
    terrain: Seq<TerrainType>,
    width: int,
    height: int,
    t: Trial,
)
    requires
        3 <= width,
        3 <= height,
        trial_ok(t, width, height),
        fence_and_spawn_intact(terrain, width, height),
    ensures
        fence_and_spawn_intact(scatter_one(terrain, width, height, t), width, height),
{
    let after = scatter_one(terrain, width, height, t);
    lemma_spawn_is_interior(width, height);
    lemma_cell_index_bounds(t.x as int, t.y as int, width, height);
    lemma_cell_index_bounds(spawn_x(width), spawn_y(height), width, height);
    if !(t.x == spawn_x(width) && t.y == spawn_y(height)) {
        assert forall|x: int, y: int| on_border(x, y, width, height) implies #[trigger] after[cell_index(
            x,
            y,
            width,
        )] == TerrainType::Mountain by {
            lemma_cell_index_bounds(x, y, width, height);
            if cell_index(x, y, width) == cell_index(t.x as int, t.y as int, width) {
                lemma_cell_index_injective(x, y, t.x as int, t.y as int, width);
            }
        }
        if cell_index(spawn_x(width), spawn_y(height), width) == cell_index(
            t.x as int,
            t.y as int,
            width,
        ) {
            lemma_cell_index_injective(
                spawn_x(width),
                spawn_y(height),
                t.x as int,
                t.y as int,
                width,
            );
        }
    }
}

/// The generated map depends on nothing but the size and the rolls: two runs
/// of trials that agree roll for roll generate the same map.
pub proof fn lemma_same_trials_same_map(
    width: int,
    height: int,
    first: Seq<Trial>,
    second: Seq<Trial>,
)
    requires
        first.len() == second.len(),
        forall|k: int| 0 <= k < first.len() ==> first[k] == second[k],
    ensures
        generated(width, height, first) == generated(width, height, second),
{
    assert(first =~= second);
}

/// Whatever the trials, as long as each is on an interior cell, the generated
/// terrain has mountain on every border cell and land on the spawn cell.
pub proof fn lemma_generated_keeps_fence(width: int, height: int, trials: Seq<Trial>)
    requires
        3 <= width,
        3 <= height,
        all_trials_ok(trials, width, height),
    ensures
        fence_and_spawn_intact(
            scattered(fenced(width, height), width, height, trials),
            width,
            height,
        ),
    decreases trials.len(),
{
    lemma_fenced_cells(width, height);
    lemma_spawn_is_interior(width, height);
    if trials.len() == 0 {
        assert(!on_border(spawn_x(width), spawn_y(height), width, height));
        lemma_cell_index_bounds(spawn_x(width), spawn_y(height), width, height);
    } else {
        lemma_generated_keeps_fence(width, height, trials.drop_last());
        lemma_scatter_keeps_fence(
            scattered(fenced(width, height), width, height, trials.drop_last()),
            width,
            height,
            trials.last(),
        );
    }
}

/// The designated spawn cell of a grid.
pub fn spawn_point(width: i32, height: i32) -> (p: Coord)
    requires
        0 <= width,
        0 <= height,
    ensures
        p.x == spawn_x(width as int),
        p.y == spawn_y(height as int),
{
    let tall: i64 = height as i64;
    Coord { x: width / 2, y: (tall * 3 / 5) as i32 }
}

/// Draws the three rolls of one trial for a grid with an interior.
pub fn draw_trial(rng: &mut RandomNumberGenerator, width: i32, height: i32) -> (t: Trial)
    requires
        3 <= width,
        3 <= height,
    ensures
        trial_ok(t, width as int, height as int),
{
    let x: i32 = rng.roll_dice(1, width - 2);
    let y: i32 = rng.roll_dice(1, height - 2);
    let kind: i32 = rng.roll_dice(1, 3);
    Trial { x, y, kind }
}

/// Draws the trials for a grid with an interior: one for every five cells.
pub fn draw_trials(rng: &mut RandomNumberGenerator, width: i32, height: i32) -> (trials: Vec<Trial>)
    requires
        3 <= width,
        3 <= height,
        width * height <= i32::MAX,
    ensures
        trials@.len() == trial_count(width as int, height as int),
        all_trials_ok(trials@, width as int, height as int),
{
    let count: i32 = width * height / 5;
    let mut trials: Vec<Trial> = Vec::new();
    let mut done: i32 = 0;
    while done < count
        invariant
            0 <= done <= count,
            3 <= width,
            3 <= height,
            trials@.len() == done,
            all_trials_ok(trials@, width as int, height as int),
        decreases count - done,
    {
        let t = draw_trial(rng, width, height);
        trials.push(t);
        done += 1;
    }
    trials
}

impl TileMap {
    /// Land inside a fence of mountain, of which nothing has been seen yet.
    pub fn fenced(width: i32, height: i32) -> (map: TileMap)
        requires
            0 <= width,
            0 <= height,
            width * height <= i32::MAX,
        ensures
            map.wf(),
            map.width == width,
            map.height == height,
            map.terrain@ == fenced(width as int, height as int),
            map.terrain_known@ == unseen(width as int, height as int),
            map.terrain_visible@ == unseen(width as int, height as int),
    {
        let ghost w = width as int;
        let ghost h = height as int;
        let mut layer: Vec<TerrainType> = Vec::new();
        let mut known: Vec<bool> = Vec::new();
        let mut visible: Vec<bool> = Vec::new();
        let mut y: i32 = 0;
        proof {
            lemma_fenced_cells(w, h);
        }
        while y < height
            invariant
                0 <= y <= height,
                0 <= width,
                w == width,
                h == height,
                width * height <= i32::MAX,
                fenced(w, h).len() == w * h,
                layer@.len() == y * width,
                known@.len() == y * width,
                visible@.len() == y * width,
                forall|j: int| 0 <= j < layer@.len() ==> layer@[j] == fenced(w, h)[j],
                forall|j: int| 0 <= j < known@.len() ==> !known@[j],
                forall|j: int| 0 <= j < visible@.len() ==> !visible@[j],
            decreases height - y,
        {
            let mut x: i32 = 0;
            while x < width
                invariant
                    0 <= y < height,
                    0 <= x <= width,
                    w == width,
                    h == height,
                    width * height <= i32::MAX,
                    fenced(w, h).len() == w * h,
                    layer@.len() == y * width + x,
                    known@.len() == y * width + x,
                    visible@.len() == y * width + x,
                    forall|j: int| 0 <= j < layer@.len() ==> layer@[j] == fenced(w, h)[j],
                    forall|j: int| 0 <= j < known@.len() ==> !known@[j],
                    forall|j: int| 0 <= j < visible@.len() ==> !visible@[j],
                decreases width - x,
            {
                proof {
                    lemma_cell_index_bounds(x as int, y as int, w, h);
                    vstd::arithmetic::div_mod::lemma_fundamental_div_mod_converse(
                        cell_index(x as int, y as int, w),
                        w,
                        y as int,
                        x as int,
                    );
                }
                let edge = x == 0 || x == width - 1 || y == 0 || y == height - 1;
                layer.push(if edge { TerrainType::Mountain } else { TerrainType::Land });
                known.push(false);
                visible.push(false);
                x += 1;
            }
            assert((y + 1) * width == y * width + width) by (nonlinear_arith);
            y += 1;
        }
        assert(height * width == width * height) by (nonlinear_arith);
        assert(layer@ =~= fenced(w, h));
        assert(known@ =~= unseen(w, h));
        assert(visible@ =~= unseen(w, h));
        TileMap { terrain: layer, width, height, terrain_known: known, terrain_visible: visible }
    }

    /// The map that a run of trials makes: land inside the mountain fence, then
    /// each trial applied in turn. Nothing of the new map has been seen.
    pub fn from_trials(width: i32, height: i32, trials: &Vec<Trial>) -> (map: TileMap)
        requires
            3 <= width,
            3 <= height,
            width * height <= i32::MAX,
            all_trials_ok(trials@, width as int, height as int),
        ensures
            map.wf(),
            map@ == generated(width as int, height as int, trials@),
            fence_and_spawn_intact(map.terrain@, width as int, height as int),
    {
        let ghost w = width as int;
        let ghost h = height as int;
        let mut map = TileMap::fenced(width, height);
        proof {
            lemma_fenced_cells(w, h);
            lemma_spawn_is_interior(w, h);
            assert(!on_border(spawn_x(w), spawn_y(h), w, h));
            assert(trials@.take(0) =~= Seq::<Trial>::empty());
        }
        let mut done: usize = 0;
        while done < trials.len()
            invariant
                0 <= done <= trials@.len(),
                w == width,
                h == height,
                3 <= width,
                3 <= height,
                all_trials_ok(trials@, w, h),
                map.wf(),
                map.width == width,
                map.height == height,
                map.terrain_known@ == unseen(w, h),
                map.terrain_visible@ == unseen(w, h),
                map.terrain@ == scattered(fenced(w, h), w, h, trials@.take(done as int)),
                fence_and_spawn_intact(map.terrain@, w, h),
            decreases trials@.len() - done,
        {
            let t = trials[done];
            proof {
                lemma_scatter_keeps_fence(map.terrain@, w, h, t);
                assert(trials@.take(done + 1).drop_last() =~= trials@.take(done as int));
            }
            map.scatter(t);
            done += 1;
        }
        assert(trials@.take(done as int) =~= trials@);
        map
    }

    /// Creates a map: land inside the mountain fence, then one scatter trial for
    /// every five cells, each drawn from `rng` and applied in the order drawn.
    /// The spawn cell is never overwritten. Nothing of the new map has been seen.
    pub fn new_map(width: i32, height: i32, rng: &mut RandomNumberGenerator) -> (map: TileMap)
        requires
            3 <= width,
            3 <= height,
            width * height <= i32::MAX,
        ensures
            map.wf(),
            freshly_generated(map@, width as int, height as int),
            fence_and_spawn_intact(map.terrain@, width as int, height as int),
    {
        let trials = draw_trials(rng, width, height);
        TileMap::from_trials(width, height, &trials)
    }

    /// Applies one scatter trial: its cell takes the trial's terrain, unless it
    /// is the spawn cell, which is never overwritten.
    pub fn scatter(&mut self, t: Trial)
        requires
            old(self).wf(),
            3 <= old(self).width,
            3 <= old(self).height,
            trial_ok(t, old(self).width as int, old(self).height as int),
        ensures
            final(self).wf(),
            final(self)@ == (TileMapView {
                terrain: scatter_one(
                    old(self)@.terrain,
                    old(self).width as int,
                    old(self).height as int,
                    t,
                ),
                ..old(self)@
            }),
    {
        let spawn = spawn_point(self.width, self.height);
        if !(t.x == spawn.x && t.y == spawn.y) {
            let terrain = if t.kind == 1 {
                TerrainType::Water
            } else {
                TerrainType::Mountain
            };
            let r = self.set_terrain(Coord { x: t.x, y: t.y }, terrain);
            assert(r is Ok);
        }
    }
}

} // verus!
