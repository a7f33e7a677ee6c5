//! The board: a fixed grid of tiles with a permanent wall ring, and the
//! single-step head-movement transition for one worm.

use vstd::prelude::*;
use crate::geom::{coord, Coord, Direction};
use crate::messages::{PlayerId, SnakeGameEvent};
use crate::model::spec_first_empty_at;

verus! {

/// One cell of the board. The grid is the single source of truth for
/// occupancy.
#[derive(Copy, Clone, Debug, PartialEq, Eq, Structural)]
pub enum Tile {
    Empty,
    Wall,
    WormSegment { pid: PlayerId, dir: Direction },
    Food,
}

impl Tile {
    /// The owner of a worm-segment tile; meaningless on other tiles.
    pub open spec fn seg_pid(self) -> PlayerId {
        match self {
            Tile::WormSegment { pid, .. } => pid,
            _ => arbitrary(),
        }
    }

    /// The stored facing of a worm-segment tile; meaningless on other tiles.
    pub open spec fn seg_dir(self) -> Direction {
        match self {
            Tile::WormSegment { dir, .. } => dir,
            _ => arbitrary(),
        }
    }
}

/// How many food tiles a tile sequence holds.
pub open spec fn count_food(s: Seq<Tile>) -> int
    decreases s.len(),
{
    if s.len() == 0 {
        0
    } else {
        count_food(s.drop_last()) + (if s.last() is Food {
            1int
        } else {
            0int
        })
    }
}

/// The food count is bounded by the number of tiles.
pub proof fn lemma_count_food_bounds(s: Seq<Tile>)
    ensures
        0 <= count_food(s) <= s.len(),
    decreases s.len(),
{
    if s.len() > 0 {
        lemma_count_food_bounds(s.drop_last());
    }
}

/// Overwriting one tile changes the food count by the difference the two
/// tiles contribute.
pub proof fn lemma_count_food_update(s: Seq<Tile>, i: int, t: Tile)
    requires
        0 <= i < s.len(),
    ensures
        count_food(s.update(i, t)) == count_food(s) + (if t is Food {
            1int
        } else {
            0int
        }) - (if s[i] is Food {
            1int
        } else {
            0int
        }),
    decreases s.len(),
{
    let s2 = s.update(i, t);
    if i == s.len() - 1 {
        assert(s2.drop_last() =~= s.drop_last());
    } else {
        assert(s2.drop_last() =~= s.drop_last().update(i, t));
        lemma_count_food_update(s.drop_last(), i, t);
    }
}

/// A sequence without food tiles counts zero.
pub proof fn lemma_count_food_none(s: Seq<Tile>)
    requires
        forall|i: int| 0 <= i < s.len() ==> !((#[trigger] s[i]) is Food),
    ensures
        count_food(s) == 0,
    decreases s.len(),
{
    if s.len() > 0 {
        assert(forall|i: int| 0 <= i < s.len() - 1 ==> s.drop_last()[i] == s[i]);
        lemma_count_food_none(s.drop_last());
    }
}

/// Pointwise food-equal sequences count the same.
pub proof fn lemma_count_food_pointwise(s1: Seq<Tile>, s2: Seq<Tile>)
    requires
        s1.len() == s2.len(),
        forall|i: int| 0 <= i < s1.len() ==> ((#[trigger] s1[i]) is Food <==> (#[trigger] s2[i])
            is Food),
    ensures
        count_food(s1) == count_food(s2),
    decreases s1.len(),
{
    if s1.len() > 0 {
        assert(forall|i: int| 0 <= i < s1.len() - 1 ==> s1.drop_last()[i] == s1[i]
            && s2.drop_last()[i] == s2[i]);
        lemma_count_food_pointwise(s1.drop_last(), s2.drop_last());
    }
}

/// The food-conversion weight a wall death carries: roughly a tenth of the
/// full 32-bit range.
pub const DEATH_FOOD_PROB_WALL: u32 = 429496729;

/// The food-conversion weight a body collision carries: roughly nine tenths
/// of the full 32-bit range.
pub const DEATH_FOOD_PROB_COLLISION: u32 = 3865470565;

/// A `width` by `height` grid of tiles, stored flat and addressed by
/// `y * width + x`.
#[derive(Clone, Debug, PartialEq)]
pub struct Board {
    pub width: usize,
    pub height: usize,
    pub tiles: Vec<Tile>,
}

/// `0 <= y * w + x < w * h` whenever `(x, y)` lies in a `w` by `h` grid.
pub proof fn lemma_grid_index_bounds(w: int, h: int, x: int, y: int)
    requires
        0 <= x < w,
        0 <= y < h,
    ensures
        0 <= y * w + x,
        y * w + x < w * h,
{
    assert(0 <= y * w + x && y * w + x < w * h) by (nonlinear_arith)
        requires
            0 <= x < w,
            0 <= y < h,
    ;
}

/// Flat indices agree only for equal grid positions.
pub proof fn lemma_grid_index_injective(w: int, h: int, x1: int, y1: int, x2: int, y2: int)
    requires
        0 <= x1 < w,
        0 <= y1 < h,
        0 <= x2 < w,
        0 <= y2 < h,
    ensures
        (y1 * w + x1 == y2 * w + x2) <==> (x1 == x2 && y1 == y2),
{
    assert((y1 * w + x1 == y2 * w + x2) <==> (x1 == x2 && y1 == y2)) by (nonlinear_arith)
        requires
            0 <= x1 < w,
            0 <= y1 < h,
            0 <= x2 < w,
            0 <= y2 < h,
    ;
}

impl Board {
    /// Shape well-formedness: nonempty dimensions that fit grid arithmetic,
    /// and exactly one stored tile per cell.
    pub open spec fn wf(self) -> bool {
        &&& 1 <= self.width
        &&& 1 <= self.height
        &&& self.width <= isize::MAX
        &&& self.height <= isize::MAX
        &&& self.width * self.height <= usize::MAX
        &&& self.width * self.height <= 0x3fff_ffff_ffff_ffff
        &&& self.tiles@.len() == self.width * self.height
    }

    /// Whether grid position `(x, y)` lies on the board.
    pub open spec fn in_bounds_xy(self, x: int, y: int) -> bool {
        0 <= x < self.width && 0 <= y < self.height
    }

    /// Whether `c` lies on the board.
    pub open spec fn in_bounds(self, c: Coord) -> bool {
        self.in_bounds_xy(c.x as int, c.y as int)
    }

    /// The flat index of grid position `(x, y)`.
    pub open spec fn idx_xy(self, x: int, y: int) -> int {
        y * self.width + x
    }

    /// The tile at grid position `(x, y)`.
    pub open spec fn at(self, x: int, y: int) -> Tile {
        self.tiles@[self.idx_xy(x, y)]
    }

    /// The tile at `c`.
    pub open spec fn tile_at(self, c: Coord) -> Tile {
        self.at(c.x as int, c.y as int)
    }

    /// Whether `(x, y)` lies on the outermost ring.
    pub open spec fn on_border_xy(self, x: int, y: int) -> bool {
        x == 0 || y == 0 || x == self.width - 1 || y == self.height - 1
    }

    /// Whether `c` lies on the outermost ring.
    pub open spec fn on_border(self, c: Coord) -> bool {
        self.on_border_xy(c.x as int, c.y as int)
    }

    /// The permanent wall framing: every border cell is `Wall`.
    pub open spec fn walled(self) -> bool {
        forall|x: int, y: int|
            self.in_bounds_xy(x, y) && self.on_border_xy(x, y) ==> #[trigger] self.at(x, y)
                is Wall
    }

    /// The flat index of `c` in the tile storage.
    pub fn idx_of_coord(&self, c: Coord) -> (i: usize)
        requires
            self.wf(),
            self.in_bounds(c),
        ensures
            i == self.idx_xy(c.x as int, c.y as int),
            i < self.tiles@.len(),
    {
        proof {
            lemma_grid_index_bounds(
                self.width as int,
                self.height as int,
                c.x as int,
                c.y as int,
            );
        }
        c.y as usize * self.width + c.x as usize
    }

    /// Reads the tile at `c`.
    pub fn tile(&self, c: Coord) -> (t: Tile)
        requires
            self.wf(),
            self.in_bounds(c),
        ensures
            t == self.tile_at(c),
    {
        let i = self.idx_of_coord(c);
        self.tiles[i]
    }

    /// Overwrites the tile at `c`.
    pub fn set_tile(&mut self, c: Coord, t: Tile)
        requires
            old(self).wf(),
            old(self).in_bounds(c),
        ensures
            final(self).width == old(self).width,
            final(self).height == old(self).height,
            final(self).tiles@ == old(self).tiles@.update(
                old(self).idx_xy(c.x as int, c.y as int),
                t,
            ),
            final(self).wf(),
    {
        let i = self.idx_of_coord(c);
        self.tiles[i] = t;
    }

    /// Allocates an all-`Empty` board and overwrites the outermost ring with
    /// `Wall`.
    pub fn new(width: usize, height: usize) -> (r: Board)
        requires
            1 <= width <= isize::MAX,
            1 <= height <= isize::MAX,
            width * height <= usize::MAX,
            width * height <= 0x3fff_ffff_ffff_ffff,
        ensures
            r.wf(),
            r.width == width,
            r.height == height,
            r.walled(),
            forall|x: int, y: int|
                r.in_bounds_xy(x, y) && !r.on_border_xy(x, y) ==> #[trigger] r.at(x, y)
                    is Empty,
            forall|t: int| 0 <= t < r.tiles@.len() ==> !((#[trigger] r.tiles@[t]) is Food),
    {
        let tiles = vec![Tile::Empty; width * height];
        let mut ret = Board { width, height, tiles };
        proof {
            assert forall|x: int, y: int| ret.in_bounds_xy(x, y) implies #[trigger] ret.at(x, y)
                is Empty by {
                lemma_grid_index_bounds(width as int, height as int, x, y);
            }
        }
        let mut i: usize = 0;
        while i < width
            invariant
                ret.wf(),
                ret.width == width,
                ret.height == height,
                i <= width,
                forall|t: int| 0 <= t < ret.tiles@.len() ==> !((#[trigger] ret.tiles@[t]) is Food),
                forall|x: int, y: int|
                    ret.in_bounds_xy(x, y) ==> #[trigger] ret.at(x, y) == (if (y == 0 || y
                        == height - 1) && x < i {
                        Tile::Wall
                    } else {
                        Tile::Empty
                    }),
            decreases width - i,
        {
            let ghost prev = ret;
            let c_top = coord(i, 0);
            let c_bot = coord(i, height - 1);
            proof {
                lemma_grid_index_bounds(width as int, height as int, i as int, 0);
                lemma_grid_index_bounds(width as int, height as int, i as int, height - 1);
            }
            ret.set_tile(c_top, Tile::Wall);
            ret.set_tile(c_bot, Tile::Wall);
            proof {
                assert forall|x: int, y: int| ret.in_bounds_xy(x, y) implies #[trigger] ret.at(x, y)
                    == (if (y == 0 || y == height - 1) && x < i + 1 {
                    Tile::Wall
                } else {
                    Tile::Empty
                }) by {
                    lemma_grid_index_bounds(width as int, height as int, x, y);
                    lemma_grid_index_injective(width as int, height as int, x, y, i as int, 0);
                    lemma_grid_index_injective(
                        width as int,
                        height as int,
                        x,
                        y,
                        i as int,
                        height - 1,
                    );
                    assert(prev.in_bounds_xy(x, y) && prev.at(x, y) == (if (y == 0 || y == height
                        - 1) && x < i {
                        Tile::Wall
                    } else {
                        Tile::Empty
                    }));
                }
            }
            i = i + 1;
        }
        let mut j: usize = 0;
        while j < height
            invariant
                ret.wf(),
                ret.width == width,
                ret.height == height,
                j <= height,
                forall|t: int| 0 <= t < ret.tiles@.len() ==> !((#[trigger] ret.tiles@[t]) is Food),
                forall|x: int, y: int|
                    ret.in_bounds_xy(x, y) ==> #[trigger] ret.at(x, y) == (if (y == 0 || y
                        == height - 1) || ((x == 0 || x == width - 1) && y < j) {
                        Tile::Wall
                    } else {
                        Tile::Empty
                    }),
            decreases height - j,
        {
            let ghost prev = ret;
            let c_left = coord(0, j);
            let c_right = coord(width - 1, j);
            proof {
                lemma_grid_index_bounds(width as int, height as int, 0, j as int);
                lemma_grid_index_bounds(width as int, height as int, width - 1, j as int);
            }
            ret.set_tile(c_left, Tile::Wall);
            ret.set_tile(c_right, Tile::Wall);
            proof {
                assert forall|x: int, y: int| ret.in_bounds_xy(x, y) implies #[trigger] ret.at(x, y)
                    == (if (y == 0 || y == height - 1) || ((x == 0 || x == width - 1) && y < j
                    + 1) {
                    Tile::Wall
                } else {
                    Tile::Empty
                }) by {
                    lemma_grid_index_bounds(width as int, height as int, x, y);
                    lemma_grid_index_injective(width as int, height as int, x, y, 0, j as int);
                    lemma_grid_index_injective(
                        width as int,
                        height as int,
                        x,
                        y,
                        width - 1,
                        j as int,
                    );
                    assert(prev.in_bounds_xy(x, y) && prev.at(x, y) == (if (y == 0 || y == height
                        - 1) || ((x == 0 || x == width - 1) && y < j) {
                        Tile::Wall
                    } else {
                        Tile::Empty
                    }));
                }
            }
            j = j + 1;
        }
        ret
    }

    /// Whether the board holds at least one empty cell.
    pub open spec fn has_empty(self) -> bool {
        exists|x: int, y: int| self.in_bounds_xy(x, y) && (#[trigger] self.at(x, y)) is Empty
    }

    /// Scans the grid in row-major order for the first empty cell.
    pub fn find_empty_cell(&self) -> (r: Option<Coord>)
        requires
            self.wf(),
        ensures
            r == spec_first_empty_at(
                self.tiles@,
                self.width as int,
                self.height as int,
                0,
                0,
            ),
            match r {
                Some(c) => self.in_bounds(c) && self.tile_at(c) is Empty,
                None => !self.has_empty(),
            },
    {
        let ghost w = self.width as int;
        let ghost h = self.height as int;
        let mut y: usize = 0;
        while y < self.height
            invariant
                self.wf(),
                w == self.width as int,
                h == self.height as int,
                y <= self.height,
                spec_first_empty_at(self.tiles@, w, h, 0, 0) == spec_first_empty_at(
                    self.tiles@,
                    w,
                    h,
                    0,
                    y as int,
                ),
                forall|x2: int, y2: int|
                    self.in_bounds_xy(x2, y2) && y2 < y ==> !((#[trigger] self.at(x2, y2))
                        is Empty),
            decreases self.height - y,
        {
            let mut x: usize = 0;
            while x < self.width
                invariant
                    self.wf(),
                    w == self.width as int,
                    h == self.height as int,
                    y < self.height,
                    x <= self.width,
                    spec_first_empty_at(self.tiles@, w, h, 0, 0) == spec_first_empty_at(
                        self.tiles@,
                        w,
                        h,
                        x as int,
                        y as int,
                    ),
                    forall|x2: int, y2: int|
                        self.in_bounds_xy(x2, y2) && y2 < y ==> !((#[trigger] self.at(x2, y2))
                            is Empty),
                    forall|x2: int| 0 <= x2 < x ==> !((#[trigger] self.at(x2, y as int)) is Empty),
                decreases self.width - x,
            {
                let c = coord(x, y);
                if let Tile::Empty = self.tile(c) {
                    proof {
                        assert(spec_first_empty_at(self.tiles@, w, h, x as int, y as int)
                            == Some(c));
                    }
                    return Some(c);
                }
                proof {
                    assert(spec_first_empty_at(self.tiles@, w, h, x as int, y as int)
                        == spec_first_empty_at(self.tiles@, w, h, x + 1, y as int));
                }
                x = x + 1;
            }
            proof {
                assert(spec_first_empty_at(self.tiles@, w, h, x as int, y as int)
                    == spec_first_empty_at(self.tiles@, w, h, 0, y + 1));
            }
            y = y + 1;
        }
        None
    }

    /// The single-step transition for one worm's head. If `c` holds a worm
    /// segment, the head tries to advance one cell in its stored facing:
    /// an empty cell is occupied; food is occupied and eaten; a wall or a
    /// worm segment (any owner) kills, leaving the board untouched. Returns
    /// the events produced and the newly occupied cell, if any.
    pub fn move_head(&mut self, c: Coord) -> (r: (Vec<SnakeGameEvent>, Option<Coord>))
        requires
            old(self).wf(),
            old(self).in_bounds(c),
            old(self).tile_at(c) matches Tile::WormSegment { pid, dir } ==> old(self).in_bounds_xy(
                c.x + dir.dx(),
                c.y + dir.dy(),
            ),
        ensures
            final(self).wf(),
            final(self).width == old(self).width,
            final(self).height == old(self).height,
            !(old(self).tile_at(c) is WormSegment) ==> final(self).tiles@ == old(self).tiles@
                && r.0@.len() == 0 && r.1 is None,
            old(self).tile_at(c) matches Tile::WormSegment { pid, dir } ==> {
                let x2 = c.x + dir.dx();
                let y2 = c.y + dir.dy();
                match old(self).at(x2, y2) {
                    Tile::Empty => {
                        &&& final(self).tiles@ == old(self).tiles@.update(
                            old(self).idx_xy(x2, y2),
                            Tile::WormSegment { pid, dir },
                        )
                        &&& r.0@.len() == 0
                        &&& r.1 matches Some(c2) && c2.x == x2 && c2.y == y2
                    },
                    Tile::Wall => {
                        &&& final(self).tiles@ == old(self).tiles@
                        &&& r.0@.len() == 1
                        &&& r.0@[0] == SnakeGameEvent::PlayerDied(pid, DEATH_FOOD_PROB_WALL)
                        &&& r.1 is None
                    },
                    Tile::WormSegment { .. } => {
                        &&& final(self).tiles@ == old(self).tiles@
                        &&& r.0@.len() == 1
                        &&& r.0@[0] == SnakeGameEvent::PlayerDied(pid, DEATH_FOOD_PROB_COLLISION)
                        &&& r.1 is None
                    },
                    Tile::Food => {
                        &&& final(self).tiles@ == old(self).tiles@.update(
                            old(self).idx_xy(x2, y2),
                            Tile::WormSegment { pid, dir },
                        )
                        &&& r.0@.len() == 1
                        &&& r.0@[0] matches SnakeGameEvent::PlayerAteFood(p2, c2) && p2 == pid
                            && c2.x == x2 && c2.y == y2
                        &&& r.1 matches Some(c2) && c2.x == x2 && c2.y == y2
                    },
                }
            },
    {
        let mut events: Vec<SnakeGameEvent> = Vec::new();
        let t = self.tile(c);
        if let Tile::WormSegment { pid, dir } = t {
            let c2 = c.offset(dir);
            match self.tile(c2) {
                Tile::Empty => {
                    self.set_tile(c2, Tile::WormSegment { pid, dir });
                    (events, Some(c2))
                },
                Tile::Wall => {
                    events.push(SnakeGameEvent::PlayerDied(pid, DEATH_FOOD_PROB_WALL));
                    (events, None)
                },
                Tile::WormSegment { .. } => {
                    events.push(SnakeGameEvent::PlayerDied(pid, DEATH_FOOD_PROB_COLLISION));
                    (events, None)
                },
                Tile::Food => {
                    self.set_tile(c2, Tile::WormSegment { pid, dir });
                    events.push(SnakeGameEvent::PlayerAteFood(pid, c2));
                    (events, Some(c2))
                },
            }
        } else {
            (events, None)
        }
    }
}

} // verus!
