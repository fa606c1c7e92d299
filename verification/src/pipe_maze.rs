//! The pipe-maze solver: a rectangular grid of pipe tiles holds one closed
//! loop through a marked start cell.  The solver finds the start, walks the
//! loop to measure its length and collect its corners, and derives the
//! number of cells strictly enclosed by the loop from the shoelace formula
//! combined with Pick's theorem.

use vstd::prelude::*;
use crate::text::{spec_lines, to_chars, lines_of};

verus! {

/// One grid cell: a pipe shape with two open sides, the start marker, or
/// plain ground.
#[derive(Clone, Copy, Debug, PartialEq, Eq, Structural)]
pub enum Tile {
    /// `|`: opens north and south.
    Vertical,
    /// `-`: opens east and west.
    Horizontal,
    /// `L`: opens north and east.
    NorthEast,
    /// `J`: opens north and west.
    NorthWest,
    /// `F`: opens south and east.
    SouthEast,
    /// `7`: opens south and west.
    SouthWest,
    /// `S`: the start cell, of unknown shape.
    Start,
    /// `.`: no openings.
    Ground,
}

/// Why a computation on a grid failed.
#[derive(Clone, Copy, Debug, PartialEq, Eq, Structural)]
pub enum GridError {
    /// Rows of unequal length, or a character that names no tile.
    MalformedGrid,
    /// No start cell in the grid.
    NoStart,
    /// No neighbor of the start cell opens back toward it.
    NoValidStartDirection,
    /// A walked-into tile does not open toward the side it was entered
    /// from, or the walk would leave the grid.
    InvalidLoopTopology,
    /// The walk did not return to the start within the cell-count bound.
    NoTermination,
    /// The loop's double area was odd, or the interior count was not a
    /// representable nonnegative number.
    NonIntegralArea,
}

/// The tile named by one input character, if any.
pub open spec fn tile_of_char(c: char) -> Option<Tile> {
    if c == '|' {
        Some(Tile::Vertical)
    } else if c == '-' {
        Some(Tile::Horizontal)
    } else if c == 'L' {
        Some(Tile::NorthEast)
    } else if c == 'J' {
        Some(Tile::NorthWest)
    } else if c == 'F' {
        Some(Tile::SouthEast)
    } else if c == '7' {
        Some(Tile::SouthWest)
    } else if c == 'S' {
        Some(Tile::Start)
    } else if c == '.' {
        Some(Tile::Ground)
    } else {
        None
    }
}

/// Whether the text is a well-formed grid: every line as long as the
/// first, and every character naming a tile.
pub open spec fn grid_text_ok(s: Seq<char>) -> bool {
    let ls = spec_lines(s);
    &&& forall|i: int| 0 <= i < ls.len() ==> #[trigger] ls[i].len() == ls[0].len()
    &&& forall|i: int, j: int|
        0 <= i < ls.len() && 0 <= j < ls[i].len() ==> tile_of_char(#[trigger] ls[i][j]) is Some
}

/// The tile rows named by a grid text (meaningful when the text is a
/// well-formed grid).
pub open spec fn grid_of(s: Seq<char>) -> Seq<Seq<Tile>> {
    spec_lines(s).map_values(|l: Seq<char>| l.map_values(|c: char| tile_of_char(c)->Some_0))
}

/// The tile at a position of a tile grid, or nothing outside it.
pub open spec fn tile_at(g: Seq<Seq<Tile>>, p: (int, int)) -> Option<Tile> {
    if 0 <= p.0 < g.len() && 0 <= p.1 < g[p.0].len() {
        Some(g[p.0][p.1])
    } else {
        None
    }
}

/// The first start cell of a tile grid at or after row-major position
/// `(i, j)`.
pub open spec fn first_start_at(g: Seq<Seq<Tile>>, i: int, j: int) -> Option<(int, int)>
    decreases g.len() - i, g[i].len() - j
        when 0 <= i && 0 <= j
{
    if i >= g.len() {
        None
    } else if j >= g[i].len() {
        first_start_at(g, i + 1, 0)
    } else if g[i][j] == Tile::Start {
        Some((i, j))
    } else {
        first_start_at(g, i, j + 1)
    }
}

/// The first start cell of a tile grid in row-major order, if any.
pub open spec fn start_of(g: Seq<Seq<Tile>>) -> Option<(int, int)> {
    first_start_at(g, 0, 0)
}

/// An immutable rectangular tile grid.
#[derive(Debug)]
pub struct PipeMap {
    pub tiles: Vec<Vec<Tile>>,
}

impl PipeMap {
    /// The grid as a sequence of tile rows.
    pub open spec fn gview(self) -> Seq<Seq<Tile>> {
        self.tiles@.map_values(|r: Vec<Tile>| r@)
    }

    /// All rows have the same length.
    pub open spec fn wf(self) -> bool {
        forall|i: int|
            0 <= i < self.tiles@.len() ==> #[trigger] self.tiles@[i]@.len()
                == self.tiles@[0]@.len()
    }

    pub open spec fn spec_rows(self) -> int {
        self.tiles@.len() as int
    }

    pub open spec fn spec_cols(self) -> int {
        if self.tiles@.len() == 0 {
            0
        } else {
            self.tiles@[0]@.len() as int
        }
    }

    pub open spec fn in_bounds(self, p: (int, int)) -> bool {
        0 <= p.0 < self.spec_rows() && 0 <= p.1 < self.spec_cols()
    }

    /// The tile at a position, or nothing outside the grid.
    pub open spec fn spec_tile(self, p: (int, int)) -> Option<Tile> {
        tile_at(self.gview(), p)
    }

    /// Parse a text into a grid; rejects rows of unequal length and
    /// unrecognized characters.
    pub fn parse(input: &str) -> (r: Result<PipeMap, GridError>)
        ensures
            match r {
                Ok(m) => {
                    &&& grid_text_ok(input@)
                    &&& m.gview() == grid_of(input@)
                    &&& m.wf()
                    &&& m.tiles@.len() == spec_lines(input@).len()
                    &&& forall|i: int|
                        0 <= i < m.tiles@.len() ==> #[trigger] m.tiles@[i]@.len() == spec_lines(
                            input@,
                        )[i].len()
                    &&& forall|i: int, j: int|
                        0 <= i < m.tiles@.len() && 0 <= j < m.tiles@[i]@.len() ==> Some(
                            #[trigger] m.tiles@[i]@[j],
                        ) == tile_of_char(spec_lines(input@)[i][j])
                },
                Err(e) => e == GridError::MalformedGrid && !grid_text_ok(input@),
            },
    {
        let cs = to_chars(input);
        let lines = lines_of(&cs);
        let ghost ls = spec_lines(input@);
        let mut tiles: Vec<Vec<Tile>> = Vec::new();
        let mut i: usize = 0;
        #[verifier::loop_isolation(false)]
        while i < lines.len()
            invariant
                i <= lines@.len(),
                tiles@.len() == i,
                forall|k: int| 0 <= k < i ==> #[trigger] tiles@[k]@.len() == ls[k].len(),
                forall|k: int, j: int|
                    0 <= k < i && 0 <= j < tiles@[k]@.len() ==> Some(#[trigger] tiles@[k]@[j])
                        == tile_of_char(ls[k][j]),
                forall|k: int| 0 <= k < i ==> #[trigger] ls[k].len() == ls[0].len(),
            decreases lines@.len() - i,
        {
            let line = &lines[i];
            if i > 0 && line.len() != tiles[0].len() {
                return Err(GridError::MalformedGrid);
            }
            let mut row: Vec<Tile> = Vec::new();
            let mut j: usize = 0;
            #[verifier::loop_isolation(false)]
            while j < line.len()
                invariant
                    j <= line@.len(),
                    row@.len() == j,
                    forall|k: int|
                        0 <= k < j ==> Some(#[trigger] row@[k]) == tile_of_char(ls[i as int][k]),
                decreases line@.len() - j,
            {
                let c = line[j];
                let t = match c {
                    '|' => Tile::Vertical,
                    '-' => Tile::Horizontal,
                    'L' => Tile::NorthEast,
                    'J' => Tile::NorthWest,
                    'F' => Tile::SouthEast,
                    '7' => Tile::SouthWest,
                    'S' => Tile::Start,
                    '.' => Tile::Ground,
                    _ => {
                        return Err(GridError::MalformedGrid);
                    },
                };
                row.push(t);
                j = j + 1;
            }
            tiles.push(row);
            i = i + 1;
        }
        proof {
            assert forall|a: int, b: int|
                0 <= a < ls.len() && 0 <= b < ls[a].len() implies tile_of_char(
                #[trigger] ls[a][b],
            ) is Some by {
                assert(Some(tiles@[a]@[b]) == tile_of_char(ls[a][b]));
            }
            let m = PipeMap { tiles };
            assert forall|a: int| 0 <= a < ls.len() implies #[trigger] m.gview()[a] == grid_of(
                input@,
            )[a] by {
                assert(m.gview()[a] =~= grid_of(input@)[a]);
            }
            assert(m.gview() =~= grid_of(input@));
        }
        Ok(PipeMap { tiles })
    }

    /// Bounds-checked tile lookup.
    pub fn get(&self, row: usize, col: usize) -> (r: Option<Tile>)
        ensures
            r == self.spec_tile((row as int, col as int)),
    {
        if row < self.tiles.len() {
            let line = &self.tiles[row];
            if col < line.len() {
                return Some(line[col]);
            }
        }
        None
    }

    /// The first start cell at or after row-major position `(i, j)`.
    pub open spec fn first_start_from(self, i: int, j: int) -> Option<(int, int)> {
        first_start_at(self.gview(), i, j)
    }

    /// The first start cell in row-major order, if any.
    pub open spec fn spec_start(self) -> Option<(int, int)> {
        start_of(self.gview())
    }

    /// Find the start cell: the first `Start` tile in row-major order.
    pub fn get_s_pos(&self) -> (r: Result<(usize, usize), GridError>)
        ensures
            match r {
                Ok(p) => self.spec_start() == Some((p.0 as int, p.1 as int)) && self.spec_tile(
                    (p.0 as int, p.1 as int),
                ) == Some(Tile::Start),
                Err(e) => e == GridError::NoStart && self.spec_start() is None,
            },
    {
        let mut i: usize = 0;
        #[verifier::loop_isolation(false)]
        while i < self.tiles.len()
            invariant
                i <= self.tiles@.len(),
                self.first_start_from(0, 0) == self.first_start_from(i as int, 0),
            decreases self.tiles@.len() - i,
        {
            let line = &self.tiles[i];
            let mut j: usize = 0;
            #[verifier::loop_isolation(false)]
            while j < line.len()
                invariant
                    j <= line@.len(),
                    self.first_start_from(0, 0) == self.first_start_from(i as int, j as int),
                decreases line@.len() - j,
            {
                if line[j] == Tile::Start {
                    proof {
                        self.lemma_first_start_tile(i as int, j as int);
                    }
                    return Ok((i, j));
                }
                j = j + 1;
            }
            i = i + 1;
        }
        Err(GridError::NoStart)
    }

    proof fn lemma_first_start_tile(self, i: int, j: int)
        requires
            0 <= i < self.spec_rows(),
            0 <= j < self.tiles@[i]@.len(),
            self.tiles@[i]@[j] == Tile::Start,
        ensures
            self.first_start_from(i, j) == Some((i, j)),
    {
    }

    /// The first start cell found is indeed a start cell.
    pub proof fn lemma_spec_start_is_start(self)
        ensures
            match self.spec_start() {
                Some(s) => self.spec_tile(s) == Some(Tile::Start),
                None => true,
            },
    {
        self.lemma_first_start_from_is_start(0, 0);
    }

    proof fn lemma_first_start_from_is_start(self, i: int, j: int)
        requires
            0 <= i,
            0 <= j,
        ensures
            match self.first_start_from(i, j) {
                Some(s) => self.spec_tile(s) == Some(Tile::Start),
                None => true,
            },
        decreases self.spec_rows() - i, self.tiles@[i]@.len() - j,
    {
        if i >= self.spec_rows() {
        } else if j >= self.tiles@[i]@.len() {
            self.lemma_first_start_from_is_start(i + 1, 0);
        } else if self.tiles@[i]@[j] == Tile::Start {
        } else {
            self.lemma_first_start_from_is_start(i, j + 1);
        }
    }

    /// The grid holds at most one start cell.
    pub open spec fn unique_start(self) -> bool {
        unique_start_of(self.gview())
    }
}

/// A tile grid holds at most one start cell.
pub open spec fn unique_start_of(g: Seq<Seq<Tile>>) -> bool {
    forall|p: (int, int), q: (int, int)|
        #[trigger] tile_at(g, p) == Some(Tile::Start) && #[trigger] tile_at(g, q) == Some(
            Tile::Start,
        ) ==> p == q
}

/// A side of a cell.
#[derive(Clone, Copy, Debug, PartialEq, Eq, Structural)]
pub enum Dir {
    North,
    South,
    East,
    West,
}

pub open spec fn opposite(d: Dir) -> Dir {
    match d {
        Dir::North => Dir::South,
        Dir::South => Dir::North,
        Dir::East => Dir::West,
        Dir::West => Dir::East,
    }
}

/// The neighboring position on side `d`.
pub open spec fn neighbor(p: (int, int), d: Dir) -> (int, int) {
    match d {
        Dir::North => (p.0 - 1, p.1),
        Dir::South => (p.0 + 1, p.1),
        Dir::East => (p.0, p.1 + 1),
        Dir::West => (p.0, p.1 - 1),
    }
}

/// The transition table of the walk: a pipe entered on an open side is
/// left through its other open side; entering on a closed side has no
/// defined departure.
pub open spec fn exits(t: Tile, entered_from: Dir) -> Option<Dir> {
    match (t, entered_from) {
        (Tile::Vertical, Dir::North) => Some(Dir::South),
        (Tile::Vertical, Dir::South) => Some(Dir::North),
        (Tile::Horizontal, Dir::East) => Some(Dir::West),
        (Tile::Horizontal, Dir::West) => Some(Dir::East),
        (Tile::NorthEast, Dir::North) => Some(Dir::East),
        (Tile::NorthEast, Dir::East) => Some(Dir::North),
        (Tile::NorthWest, Dir::North) => Some(Dir::West),
        (Tile::NorthWest, Dir::West) => Some(Dir::North),
        (Tile::SouthEast, Dir::South) => Some(Dir::East),
        (Tile::SouthEast, Dir::East) => Some(Dir::South),
        (Tile::SouthWest, Dir::South) => Some(Dir::West),
        (Tile::SouthWest, Dir::West) => Some(Dir::South),
        _ => None,
    }
}

/// On which of `cur`'s sides the previous cell lies, if they are
/// orthogonal neighbors.
pub open spec fn side_of(cur: (int, int), prev: (int, int)) -> Option<Dir> {
    if prev == neighbor(cur, Dir::North) {
        Some(Dir::North)
    } else if prev == neighbor(cur, Dir::South) {
        Some(Dir::South)
    } else if prev == neighbor(cur, Dir::East) {
        Some(Dir::East)
    } else if prev == neighbor(cur, Dir::West) {
        Some(Dir::West)
    } else {
        None
    }
}

/// A corner tile changes the walk's direction.
pub open spec fn is_corner(t: Tile) -> bool {
    t == Tile::NorthEast || t == Tile::NorthWest || t == Tile::SouthEast || t == Tile::SouthWest
}

/// One step of the walk on a tile grid: where the walk goes next after
/// having come from `prev` into `cur`, if the tile at `cur` admits that
/// entry.
pub open spec fn step_next_at(g: Seq<Seq<Tile>>, prev: (int, int), cur: (int, int)) -> Option<
    (int, int),
> {
    match tile_at(g, cur) {
        None => None,
        Some(t) => match side_of(cur, prev) {
            None => None,
            Some(d) => match exits(t, d) {
                None => None,
                Some(e) => Some(neighbor(cur, e)),
            },
        },
    }
}

/// The neighbor of `s` on side `d` exists and opens toward `s`.
pub open spec fn opens_back_at(g: Seq<Seq<Tile>>, s: (int, int), d: Dir) -> bool {
    match tile_at(g, neighbor(s, d)) {
        Some(t) => exits(t, opposite(d)) is Some,
        None => false,
    }
}

/// The first neighbor of the start cell, in the order north, south,
/// west, east, whose tile opens back toward the start.
pub open spec fn start_step_of(g: Seq<Seq<Tile>>, s: (int, int)) -> Option<(int, int)> {
    if opens_back_at(g, s, Dir::North) {
        Some(neighbor(s, Dir::North))
    } else if opens_back_at(g, s, Dir::South) {
        Some(neighbor(s, Dir::South))
    } else if opens_back_at(g, s, Dir::West) {
        Some(neighbor(s, Dir::West))
    } else if opens_back_at(g, s, Dir::East) {
        Some(neighbor(s, Dir::East))
    } else {
        None
    }
}

/// The walk's iteration budget on a tile grid: one more than the number
/// of cells, capped so that a length counter always fits in `u32`.
pub open spec fn fuel_of(g: Seq<Seq<Tile>>) -> nat {
    let cells = g.len() * (if g.len() == 0 {
        0
    } else {
        g[0].len()
    }) + 1;
    if cells > 0xFFFF_FFFE {
        0xFFFF_FFFE as nat
    } else {
        cells as nat
    }
}

/// The walk from `cur` (entered from `prev`): the number of remaining
/// steps until a start tile is reached, and the corner cells passed on
/// the way, or nothing if the walk gets stuck or runs out of fuel.
pub open spec fn trace_from_at(
    g: Seq<Seq<Tile>>,
    prev: (int, int),
    cur: (int, int),
    fuel: nat,
) -> Option<(int, Seq<(int, int)>)>
    decreases fuel,
{
    if tile_at(g, cur) == Some(Tile::Start) {
        Some((0, Seq::empty()))
    } else if fuel == 0 {
        None
    } else {
        match step_next_at(g, prev, cur) {
            None => None,
            Some(nxt) => if tile_at(g, nxt) is None {
                None
            } else {
                match trace_from_at(g, cur, nxt, (fuel - 1) as nat) {
                    None => None,
                    Some((n, vs)) => Some(
                        (
                            n + 1,
                            (if is_corner(tile_at(g, cur)->Some_0) {
                                seq![cur]
                            } else {
                                Seq::empty()
                            }) + vs,
                        ),
                    ),
                }
            },
        }
    }
}

/// Whether the walk fails because of an undefined transition (rather
/// than by running out of fuel).
pub open spec fn trace_stuck_at(
    g: Seq<Seq<Tile>>,
    prev: (int, int),
    cur: (int, int),
    fuel: nat,
) -> bool
    decreases fuel,
{
    if tile_at(g, cur) == Some(Tile::Start) {
        false
    } else if fuel == 0 {
        false
    } else {
        match step_next_at(g, prev, cur) {
            None => true,
            Some(nxt) => if tile_at(g, nxt) is None {
                true
            } else {
                trace_stuck_at(g, cur, nxt, (fuel - 1) as nat)
            },
        }
    }
}

/// The start tile on which a successful walk ends.
pub open spec fn trace_end_at(
    g: Seq<Seq<Tile>>,
    prev: (int, int),
    cur: (int, int),
    fuel: nat,
) -> (int, int)
    decreases fuel,
{
    if tile_at(g, cur) == Some(Tile::Start) {
        cur
    } else if fuel == 0 {
        (0, 0)
    } else {
        match step_next_at(g, prev, cur) {
            None => (0, 0),
            Some(nxt) => if tile_at(g, nxt) is None {
                (0, 0)
            } else {
                trace_end_at(g, cur, nxt, (fuel - 1) as nat)
            },
        }
    }
}

impl PipeMap {
    /// One step of the walk: where the walk goes next after having come
    /// from `prev` into `cur`, if the tile at `cur` admits that entry.
    pub open spec fn step_next(self, prev: (int, int), cur: (int, int)) -> Option<(int, int)> {
        step_next_at(self.gview(), prev, cur)
    }

    /// The first neighbor of the start cell, in the order north, south,
    /// west, east, whose tile opens back toward the start.
    pub open spec fn spec_start_step(self, s: (int, int)) -> Option<(int, int)> {
        start_step_of(self.gview(), s)
    }

    /// The neighbor of `s` on side `d` exists and opens toward `s`.
    pub open spec fn opens_back(self, s: (int, int), d: Dir) -> bool {
        opens_back_at(self.gview(), s, d)
    }

    /// Resolve the loop's second position from the start cell.
    pub fn get_loop_start_pos(&self) -> (r: Result<(usize, usize), GridError>)
        ensures
            match r {
                Ok(p) => match self.spec_start() {
                    Some(s) => self.spec_start_step(s) == Some((p.0 as int, p.1 as int))
                        && self.spec_tile((p.0 as int, p.1 as int)) is Some,
                    None => false,
                },
                Err(e) => match self.spec_start() {
                    Some(s) => e == GridError::NoValidStartDirection && self.spec_start_step(
                        s,
                    ) is None,
                    None => e == GridError::NoStart,
                },
            },
    {
        let (i, j) = match self.get_s_pos() {
            Ok(p) => p,
            Err(e) => {
                return Err(e);
            },
        };
        let rows = self.tiles.len();
        proof {
            assert(i < rows && (j as int) < self.tiles@[i as int]@.len());
        }
        let row_len = self.tiles[i].len();
        if i > 0 {
            if let Some(t) = self.get(i - 1, j) {
                if matches!(t, Tile::Vertical | Tile::SouthWest | Tile::SouthEast) {
                    return Ok((i - 1, j));
                }
            }
        }
        if let Some(t) = self.get(i + 1, j) {
            if matches!(t, Tile::Vertical | Tile::NorthEast | Tile::NorthWest) {
                return Ok((i + 1, j));
            }
        }
        if j > 0 {
            if let Some(t) = self.get(i, j - 1) {
                if matches!(t, Tile::Horizontal | Tile::SouthEast | Tile::NorthEast) {
                    return Ok((i, j - 1));
                }
            }
        }
        if let Some(t) = self.get(i, j + 1) {
            if matches!(t, Tile::Horizontal | Tile::NorthWest | Tile::SouthWest) {
                return Ok((i, j + 1));
            }
        }
        Err(GridError::NoValidStartDirection)
    }

    /// The walk's iteration budget: one more than the number of cells,
    /// capped so that a length counter always fits in `u32`.
    pub open spec fn trace_fuel(self) -> nat {
        fuel_of(self.gview())
    }

    /// The walk from `cur` (entered from `prev`): the remaining steps to
    /// a start tile and the corner cells passed on the way.
    pub open spec fn trace_from(self, prev: (int, int), cur: (int, int), fuel: nat) -> Option<
        (int, Seq<(int, int)>),
    > {
        trace_from_at(self.gview(), prev, cur, fuel)
    }

    /// Whether the walk fails because of an undefined transition (rather
    /// than by running out of fuel).
    pub open spec fn trace_stuck(self, prev: (int, int), cur: (int, int), fuel: nat) -> bool {
        trace_stuck_at(self.gview(), prev, cur, fuel)
    }

    /// The start tile on which a successful walk ends.
    pub open spec fn trace_end(self, prev: (int, int), cur: (int, int), fuel: nat) -> (int, int) {
        trace_end_at(self.gview(), prev, cur, fuel)
    }
}

/// Positions as mathematical pairs.
pub open spec fn verts_int(vs: Seq<(usize, usize)>) -> Seq<(int, int)> {
    vs.map_values(|p: (usize, usize)| (p.0 as int, p.1 as int))
}

impl PipeMap {
    /// A defined step leads to an orthogonal neighbor of `cur` other
    /// than the cell the walk came from.
    proof fn lemma_step_props(self, prev: (int, int), cur: (int, int))
        ensures
            match self.step_next(prev, cur) {
                Some(nxt) => nxt != prev && (nxt == neighbor(cur, Dir::North) || nxt == neighbor(
                    cur,
                    Dir::South,
                ) || nxt == neighbor(cur, Dir::East) || nxt == neighbor(cur, Dir::West)),
                None => true,
            },
    {
    }

    /// Walk the loop from the start cell: its total length (the number of
    /// steps taken until the walk is back on a start tile) and the
    /// ordered corner cells, the start cell first.
    #[verifier::rlimit(100)]
    pub fn get_loop_length_and_vertices(&self) -> (r: Result<(u32, Vec<(usize, usize)>), GridError>)
        requires
            self.wf(),
        ensures
            match r {
                Ok(res) => self.spec_start() is Some && ({
                    let s = self.spec_start()->Some_0;
                    &&& self.spec_start_step(s) is Some
                    &&& match self.trace_from(
                        s,
                        self.spec_start_step(s)->Some_0,
                        self.trace_fuel(),
                    ) {
                        Some((n, vs)) => res.0 as int == n + 1 && verts_int(res.1@) == seq![s]
                            + vs,
                        None => false,
                    }
                    &&& (self.unique_start() ==> res.0 >= 4 && res.0 % 2 == 0 && res.1@.len()
                        >= 4 && self.trace_end(
                        s,
                        self.spec_start_step(s)->Some_0,
                        self.trace_fuel(),
                    ) == s)
                    &&& res.1@.len() >= 1
                    &&& res.1@.len() <= res.0
                    &&& forall|k: int|
                        0 <= k < res.1@.len() ==> self.spec_tile(
                            #[trigger] verts_int(res.1@)[k],
                        ) is Some
                }),
                Err(e) => match self.spec_start() {
                    None => e == GridError::NoStart,
                    Some(s) => match self.spec_start_step(s) {
                        None => e == GridError::NoValidStartDirection,
                        Some(sec) => self.trace_from(s, sec, self.trace_fuel()) is None && (if self
                            .trace_stuck(s, sec, self.trace_fuel()) {
                            e == GridError::InvalidLoopTopology
                        } else {
                            e == GridError::NoTermination
                        }),
                    },
                },
            },
    {
        let start = match self.get_s_pos() {
            Ok(p) => p,
            Err(e) => {
                return Err(e);
            },
        };
        let second = match self.get_loop_start_pos() {
            Ok(p) => p,
            Err(e) => {
                return Err(e);
            },
        };
        let ghost s0 = (start.0 as int, start.1 as int);
        let ghost sec0 = (second.0 as int, second.1 as int);
        let ghost f0 = self.trace_fuel();
        let rows = self.tiles.len();
        let cols = if rows == 0 {
            0
        } else {
            self.tiles[0].len()
        };
        let cap: usize = 0xFFFF_FFFE;
        let fuel0: u32 = match rows.checked_mul(cols) {
            Some(p) => if p >= cap {
                0xFFFF_FFFEu32
            } else {
                (p + 1) as u32
            },
            None => 0xFFFF_FFFEu32,
        };
        proof {
            assert(fuel0 as nat == f0);
        }
        let mut prev = start;
        let mut cur = second;
        let mut len: u32 = 1;
        let mut fuel: u32 = fuel0;
        let mut verts: Vec<(usize, usize)> = Vec::new();
        verts.push(start);
        proof {
            assert(verts_int(verts@) =~= seq![s0]);
        }
        #[verifier::loop_isolation(false)]
        loop
            invariant
                self.wf(),
                self.spec_start() == Some(s0),
                self.spec_start_step(s0) == Some(sec0),
                self.spec_tile((prev.0 as int, prev.1 as int)) is Some,
                self.spec_tile((cur.0 as int, cur.1 as int)) is Some,
                fuel as int <= f0,
                len as int == 1 + f0 - fuel as int,
                verts@.len() >= 1,
                verts@.len() <= len,
                verts_int(verts@)[0] == s0,
                forall|k: int|
                    0 <= k < verts@.len() ==> self.spec_tile(#[trigger] verts_int(verts@)[k])
                        is Some,
                match self.trace_from(
                    (prev.0 as int, prev.1 as int),
                    (cur.0 as int, cur.1 as int),
                    fuel as nat,
                ) {
                    Some((n, vs)) => match self.trace_from(s0, sec0, f0) {
                        Some((nf, vsf)) => nf == n + len - 1 && seq![s0] + vsf == verts_int(
                            verts@,
                        ) + vs,
                        None => false,
                    },
                    None => self.trace_from(s0, sec0, f0) is None,
                },
                self.trace_stuck(
                    (prev.0 as int, prev.1 as int),
                    (cur.0 as int, cur.1 as int),
                    fuel as nat,
                ) == self.trace_stuck(s0, sec0, f0),
            decreases fuel,
        {
            let ghost prev_g = (prev.0 as int, prev.1 as int);
            let ghost cur_g = (cur.0 as int, cur.1 as int);
            let t = self.tiles[cur.0][cur.1];
            if t == Tile::Start {
                proof {
                    assert(self.trace_from(prev_g, cur_g, fuel as nat) == Some(
                        (0int, Seq::<(int, int)>::empty()),
                    ));
                    assert(verts_int(verts@) + Seq::<(int, int)>::empty() =~= verts_int(verts@));
                    if self.unique_start() {
                        self.lemma_loop_is_long(s0, sec0);
                        self.lemma_trace_props(s0, sec0, f0);
                        self.lemma_spec_start_is_start();
                    }
                }
                return Ok((len, verts));
            }
            if fuel == 0 {
                proof {
                    assert(self.spec_tile(cur_g) != Some(Tile::Start));
                    assert(self.trace_from(prev_g, cur_g, 0) is None);
                    assert(!self.trace_stuck(prev_g, cur_g, 0));
                }
                return Err(GridError::NoTermination);
            }
            // The side of the current cell on which the previous cell lies.
            let d_in: Dir = if prev.1 == cur.1 && prev.0 + 1 == cur.0 {
                Dir::North
            } else if prev.1 == cur.1 && cur.0 + 1 == prev.0 {
                Dir::South
            } else if prev.0 == cur.0 && prev.1 + 1 == cur.1 {
                Dir::West
            } else if prev.0 == cur.0 && cur.1 + 1 == prev.1 {
                Dir::East
            } else {
                proof {
                    assert(side_of(cur_g, prev_g) is None);
                }
                return Err(GridError::InvalidLoopTopology);
            };
            proof {
                assert(side_of(cur_g, prev_g) == Some(d_in));
            }
            let e: Dir = match (t, d_in) {
                (Tile::Vertical, Dir::North) => Dir::South,
                (Tile::Vertical, Dir::South) => Dir::North,
                (Tile::Horizontal, Dir::East) => Dir::West,
                (Tile::Horizontal, Dir::West) => Dir::East,
                (Tile::NorthEast, Dir::North) => Dir::East,
                (Tile::NorthEast, Dir::East) => Dir::North,
                (Tile::NorthWest, Dir::North) => Dir::West,
                (Tile::NorthWest, Dir::West) => Dir::North,
                (Tile::SouthEast, Dir::South) => Dir::East,
                (Tile::SouthEast, Dir::East) => Dir::South,
                (Tile::SouthWest, Dir::South) => Dir::West,
                (Tile::SouthWest, Dir::West) => Dir::South,
                _ => {
                    proof {
                        assert(exits(t, d_in) is None);
                        assert(self.step_next(prev_g, cur_g) is None);
                    }
                    return Err(GridError::InvalidLoopTopology);
                },
            };
            proof {
                assert(exits(t, d_in) == Some(e));
                assert(self.step_next(prev_g, cur_g) == Some(neighbor(cur_g, e)));
            }
            let nxt: (usize, usize) = match e {
                Dir::North => {
                    if cur.0 == 0 {
                        proof {
                            assert(self.spec_tile(neighbor(cur_g, e)) is None);
                        }
                        return Err(GridError::InvalidLoopTopology);
                    }
                    (cur.0 - 1, cur.1)
                },
                Dir::South => {
                    if cur.0 + 1 >= self.tiles.len() {
                        proof {
                            assert(self.spec_tile(neighbor(cur_g, e)) is None);
                        }
                        return Err(GridError::InvalidLoopTopology);
                    }
                    (cur.0 + 1, cur.1)
                },
                Dir::West => {
                    if cur.1 == 0 {
                        proof {
                            assert(self.spec_tile(neighbor(cur_g, e)) is None);
                        }
                        return Err(GridError::InvalidLoopTopology);
                    }
                    (cur.0, cur.1 - 1)
                },
                Dir::East => {
                    if cur.1 + 1 >= self.tiles[cur.0].len() {
                        proof {
                            assert(self.spec_tile(neighbor(cur_g, e)) is None);
                        }
                        return Err(GridError::InvalidLoopTopology);
                    }
                    (cur.0, cur.1 + 1)
                },
            };
            proof {
                assert((nxt.0 as int, nxt.1 as int) == neighbor(cur_g, e));
                assert(self.spec_tile((nxt.0 as int, nxt.1 as int)) is Some);
            }
            let ghost vold = verts@;
            if matches!(t, Tile::NorthEast | Tile::NorthWest | Tile::SouthEast | Tile::SouthWest) {
                verts.push(cur);
                proof {
                    assert(verts_int(verts@) =~= verts_int(vold).push(cur_g));
                    assert forall|k: int|
                        0 <= k < verts@.len() implies self.spec_tile(
                        #[trigger] verts_int(verts@)[k],
                    ) is Some by {
                        if k < vold.len() {
                            assert(verts_int(verts@)[k] == verts_int(vold)[k]);
                        } else {
                            assert(verts_int(verts@)[k] == cur_g);
                        }
                    }
                }
            }
            prev = cur;
            cur = nxt;
            len = len + 1;
            fuel = fuel - 1;
            proof {
                if is_corner(t) {
                    assert(verts_int(verts@.subrange(0, verts@.len() - 1)) + (seq![cur_g]
                        + self.trace_from(cur_g, (cur.0 as int, cur.1 as int), fuel as nat)
                        ->Some_0.1) =~= verts_int(verts@) + self.trace_from(
                        cur_g,
                        (cur.0 as int, cur.1 as int),
                        fuel as nat,
                    )->Some_0.1);
                }
            }
        }
    }

    /// On a grid with a single start cell, a successful walk is a closed
    /// loop of even length at least four.
    /// A walk records a corner exactly where it makes a quarter turn:
    /// straight tiles keep the arrival direction, corner tiles swap the
    /// axis.  So a walk with no recorded corner moves along a straight
    /// line; one with a single corner has a nonzero sideways
    /// displacement and keeps the sign of its forward displacement; one
    /// with two corners still has a nonzero sideways displacement,
    /// since its third leg is parallel to the first.
    #[verifier::rlimit(100)]
    proof fn lemma_trace_turns(self, prev: (int, int), cur: (int, int), fuel: nat)
        requires
            self.spec_tile(cur) is Some,
            self.trace_from(prev, cur, fuel) is Some,
            side_of(cur, prev) is Some,
        ensures
            ({
                let (n, vs) = self.trace_from(prev, cur, fuel)->Some_0;
                let e = self.trace_end(prev, cur, fuel);
                let dr = cur.0 - prev.0;
                let dc = cur.1 - prev.1;
                &&& (vs.len() == 0 ==> {
                    &&& (dr == 1 ==> e.0 == cur.0 + n && e.1 == cur.1)
                    &&& (dr == -1 ==> e.0 == cur.0 - n && e.1 == cur.1)
                    &&& (dc == 1 ==> e.1 == cur.1 + n && e.0 == cur.0)
                    &&& (dc == -1 ==> e.1 == cur.1 - n && e.0 == cur.0)
                })
                &&& (vs.len() == 1 ==> {
                    &&& (dc == 0 ==> e.1 != cur.1 && (dr == 1 ==> e.0 >= cur.0) && (dr == -1
                        ==> e.0 <= cur.0))
                    &&& (dr == 0 ==> e.0 != cur.0 && (dc == 1 ==> e.1 >= cur.1) && (dc == -1
                        ==> e.1 <= cur.1))
                })
                &&& (vs.len() == 2 ==> {
                    &&& (dc == 0 ==> e.1 != cur.1)
                    &&& (dr == 0 ==> e.0 != cur.0)
                })
            }),
        decreases fuel,
    {
        if self.spec_tile(cur) == Some(Tile::Start) {
        } else {
            let nxt = self.step_next(prev, cur)->Some_0;
            self.lemma_trace_props(cur, nxt, (fuel - 1) as nat);
            self.lemma_trace_turns(cur, nxt, (fuel - 1) as nat);
        }
    }

    proof fn lemma_loop_is_long(self, s0: (int, int), sec0: (int, int))
        requires
            self.unique_start(),
            self.spec_start() == Some(s0),
            self.spec_start_step(s0) == Some(sec0),
            self.trace_from(s0, sec0, self.trace_fuel()) is Some,
        ensures
            ({
                let n = self.trace_from(s0, sec0, self.trace_fuel())->Some_0.0;
                let vs = self.trace_from(s0, sec0, self.trace_fuel())->Some_0.1;
                n % 2 == 1 && n >= 3 && vs.len() >= 3
            }),
    {
        let f = self.trace_fuel();
        let (n, vs) = self.trace_from(s0, sec0, f)->Some_0;
        self.lemma_spec_start_is_start();
        self.lemma_trace_props(s0, sec0, f);
        let e = self.trace_end(s0, sec0, f);
        assert(e == s0);
        assert((sec0.0 + sec0.1 + n) % 2 == (s0.0 + s0.1) % 2);
        assert(sec0.0 + sec0.1 == s0.0 + s0.1 + 1 || sec0.0 + sec0.1 == s0.0 + s0.1 - 1);
        assert(n % 2 == 1) by {
            let a = s0.0 + s0.1;
            let b = sec0.0 + sec0.1;
            assert((b + n) % 2 == a % 2);
            assert(b == a + 1 || b == a - 1);
        }
        if n == 1 {
            let nxt = self.step_next(s0, sec0)->Some_0;
            self.lemma_step_props(s0, sec0);
            assert(self.trace_from(sec0, nxt, (f - 1) as nat) is Some);
            assert(self.trace_from(sec0, nxt, (f - 1) as nat)->Some_0.0 == 0);
            self.lemma_trace_props(sec0, nxt, (f - 1) as nat);
            assert(self.spec_tile(nxt) == Some(Tile::Start));
            assert(nxt == s0);
            assert(false);
        }
        if vs.len() <= 2 {
            // A closed walk needs at least three recorded corners: with
            // fewer, the turn geometry leaves some displacement nonzero,
            // but the walk ends back on the start cell.
            assert(sec0 == neighbor(s0, Dir::North) || sec0 == neighbor(s0, Dir::South) || sec0
                == neighbor(s0, Dir::West) || sec0 == neighbor(s0, Dir::East));
            assert(side_of(sec0, s0) is Some);
            self.lemma_trace_turns(s0, sec0, f);
            assert(false);
        }
    }

    /// Halving the loop length gives the distance of the point farthest
    /// from the start along the loop.
    pub fn get_max_dist_from_s(&self) -> (r: Result<u32, GridError>)
        requires
            self.wf(),
        ensures
            match r {
                Ok(d) => match loop_of(self.gview()) {
                    Some((len, vs)) => d as int == len / 2,
                    None => false,
                },
                Err(e) => loop_of(self.gview()) is None && trace_error(self.gview()) == e,
            },
    {
        match self.get_loop_length_and_vertices() {
            Ok((len, _verts)) => Ok(len / 2),
            Err(e) => Err(e),
        }
    }

    /// The number of grid cells strictly enclosed by the loop, from the
    /// shoelace formula corrected by Pick's theorem.
    pub fn get_surface(&self) -> (r: Result<u32, GridError>)
        requires
            self.wf(),
            dims_ok(self.gview()),
        ensures
            match r {
                Ok(a) => match loop_of(self.gview()) {
                    Some((len, vs)) => {
                        &&& shoelace_sum(vs) % 2 == 0
                        &&& 0 <= spec_interior(vs, len) <= u32::MAX
                        &&& a as int == spec_interior(vs, len)
                    },
                    None => false,
                },
                Err(e) => match loop_of(self.gview()) {
                    Some((len, vs)) => e == GridError::NonIntegralArea && (shoelace_sum(vs) % 2
                        != 0 || spec_interior(vs, len) < 0 || spec_interior(vs, len) > u32::MAX),
                    None => trace_error(self.gview()) == e,
                },
            },
    {
        let (len, verts) = match self.get_loop_length_and_vertices() {
            Ok(lv) => lv,
            Err(e) => {
                return Err(e);
            },
        };
        proof {
            let g = self.gview();
            assert forall|k: int| 0 <= k < verts@.len() implies (#[trigger] verts_int(verts@)[k]).0
                <= 0x7FFF_FFFF && verts_int(verts@)[k].1 <= 0x7FFF_FFFF by {
                assert(tile_at(g, verts_int(verts@)[k]) is Some);
                assert(g[verts_int(verts@)[k].0].len() == g[0].len());
            }
        }
        enclosed_area(&verts, len)
    }
}

/// Whether both grid dimensions are small enough for the area
/// arithmetic to stay within machine bounds.
pub open spec fn dims_ok(g: Seq<Seq<Tile>>) -> bool {
    g.len() <= 0x8000_0000 && (g.len() == 0 || g[0].len() <= 0x8000_0000)
}

/// The loop found on a grid: its total length and its vertex cells (the
/// start cell first, then every corner in walking order).
pub open spec fn loop_of(g: Seq<Seq<Tile>>) -> Option<(int, Seq<(int, int)>)> {
    match start_of(g) {
        None => None,
        Some(s) => match start_step_of(g, s) {
            None => None,
            Some(sec) => match trace_from_at(g, s, sec, fuel_of(g)) {
                None => None,
                Some((n, vs)) => Some((n + 1, seq![s] + vs)),
            },
        },
    }
}

/// Which error a failed loop search reports.
pub open spec fn trace_error(g: Seq<Seq<Tile>>) -> GridError {
    match start_of(g) {
        None => GridError::NoStart,
        Some(s) => match start_step_of(g, s) {
            None => GridError::NoValidStartDirection,
            Some(sec) => if trace_stuck_at(g, s, sec, fuel_of(g)) {
                GridError::InvalidLoopTopology
            } else {
                GridError::NoTermination
            },
        },
    }
}

/// The cross product term of the shoelace formula, with the column as
/// the x coordinate and the row as the y coordinate.
pub open spec fn cross(a: (int, int), b: (int, int)) -> int {
    a.1 * b.0 - b.1 * a.0
}

/// The tail of the shoelace sum from vertex `i` on, with wraparound to
/// the first vertex.
pub open spec fn shoelace_from(vs: Seq<(int, int)>, i: int) -> int
    decreases vs.len() - i,
{
    if i < 0 || i >= vs.len() {
        0
    } else {
        cross(
            vs[i],
            vs[if i + 1 == vs.len() {
                0int
            } else {
                i + 1
            }],
        ) + shoelace_from(vs, i + 1)
    }
}

/// The signed double area of the closed polygon through `vs`.
pub open spec fn shoelace_sum(vs: Seq<(int, int)>) -> int {
    shoelace_from(vs, 0)
}

pub open spec fn abs_int(x: int) -> int {
    if x < 0 {
        -x
    } else {
        x
    }
}

/// Pick's theorem rearranged: the number of interior lattice points of a
/// simple lattice polygon with area `|shoelace|/2` and `b` boundary
/// points.
pub open spec fn spec_interior(vs: Seq<(int, int)>, b: int) -> int {
    abs_int(shoelace_sum(vs)) / 2 - b / 2 + 1
}

/// The enclosed-cell count of a loop with the given vertex cells and
/// length: the shoelace area corrected by Pick's theorem.  The bounds in
/// the preconditions keep every product inside `i128`.
pub fn enclosed_area(vertices: &Vec<(usize, usize)>, loop_len: u32) -> (r: Result<u32, GridError>)
    requires
        vertices@.len() <= 0xFFFF_FFFF,
        forall|k: int|
            0 <= k < vertices@.len() ==> (#[trigger] verts_int(vertices@)[k]).0 <= 0x7FFF_FFFF
                && verts_int(vertices@)[k].1 <= 0x7FFF_FFFF,
    ensures
        ({
            let vs = verts_int(vertices@);
            match r {
                Ok(a) => shoelace_sum(vs) % 2 == 0 && 0 <= spec_interior(vs, loop_len as int)
                    <= u32::MAX && a as int == spec_interior(vs, loop_len as int),
                Err(e) => e == GridError::NonIntegralArea && (shoelace_sum(vs) % 2 != 0
                    || spec_interior(vs, loop_len as int) < 0 || spec_interior(vs, loop_len as int)
                    > u32::MAX),
            }
        }),
{
    let ghost vs = verts_int(vertices@);
    let n = vertices.len();
    let mut sum: i128 = 0;
    let mut i: usize = 0;
    #[verifier::loop_isolation(false)]
    while i < n
        invariant
            i <= n,
            sum + shoelace_from(vs, i as int) == shoelace_sum(vs),
            -0x1_0000_0000_0000_0000i128 * (i as i128) <= sum <= 0x1_0000_0000_0000_0000i128 * (
            i as i128),
        decreases n - i,
    {
        let (r1, c1) = vertices[i];
        let j = if i + 1 == n {
            0
        } else {
            i + 1
        };
        let (r2, c2) = vertices[j];
        proof {
            assert(verts_int(vertices@)[i as int] == (r1 as int, c1 as int));
            assert(verts_int(vertices@)[j as int] == (r2 as int, c2 as int));
            assert(r1 <= 0x7FFF_FFFF && c1 <= 0x7FFF_FFFF && r2 <= 0x7FFF_FFFF && c2
                <= 0x7FFF_FFFF);
            assert forall|x: i128, y: i128|
                0 <= x <= 0x7FFF_FFFF && 0 <= y <= 0x7FFF_FFFF implies #[trigger] (x * y)
                <= 0x3FFF_FFFF_0000_0001i128 && x * y >= 0 by {
                vstd::arithmetic::mul::lemma_mul_upper_bound(
                    x as int,
                    0x7FFF_FFFFint,
                    y as int,
                    0x7FFF_FFFFint,
                );
                vstd::arithmetic::mul::lemma_mul_nonnegative(x as int, y as int);
            }
        }
        let term: i128 = (c1 as i128) * (r2 as i128) - (c2 as i128) * (r1 as i128);
        proof {
            assert(term == cross(vs[i as int], vs[j as int]));
            assert(-0x1_0000_0000_0000_0000i128 <= term <= 0x1_0000_0000_0000_0000i128);
            assert(-0x1_0000_0000_0000_0000i128 * ((i + 1) as i128) == -0x1_0000_0000_0000_0000i128
                * (i as i128) + -0x1_0000_0000_0000_0000i128) by (nonlinear_arith);
            assert(0x1_0000_0000_0000_0000i128 * ((i + 1) as i128) == 0x1_0000_0000_0000_0000i128 * (
            i as i128) + 0x1_0000_0000_0000_0000i128) by (nonlinear_arith);
        }
        sum = sum + term;
        i = i + 1;
    }
    let double_area: i128 = if sum < 0 {
        -sum
    } else {
        sum
    };
    proof {
        assert(shoelace_from(vs, n as int) == 0);
        assert(double_area == abs_int(shoelace_sum(vs)));
    }
    if double_area % 2 != 0 {
        return Err(GridError::NonIntegralArea);
    }
    let area = double_area / 2;
    let half_boundary = (loop_len / 2) as i128;
    let interior = area - half_boundary + 1;
    if interior < 0 || interior > 0xFFFF_FFFFi128 {
        return Err(GridError::NonIntegralArea);
    }
    Ok(interior as u32)
}

impl PipeMap {
    /// What holds of every successful walk: it ends on a start tile, its
    /// step count has the parity of the taxicab displacement, and every
    /// recorded corner is a corner tile of the grid.
    proof fn lemma_trace_props(self, prev: (int, int), cur: (int, int), fuel: nat)
        requires
            self.spec_tile(cur) is Some,
            self.trace_from(prev, cur, fuel) is Some,
        ensures
            ({
                let (n, vs) = self.trace_from(prev, cur, fuel)->Some_0;
                let e = self.trace_end(prev, cur, fuel);
                &&& n >= 0
                &&& (self.spec_tile(cur) != Some(Tile::Start) ==> n >= 1)
                &&& vs.len() <= n
                &&& self.spec_tile(e) == Some(Tile::Start)
                &&& (cur.0 + cur.1 + n) % 2 == (e.0 + e.1) % 2
                &&& forall|k: int|
                    0 <= k < vs.len() ==> #[trigger] self.spec_tile(vs[k]) is Some && is_corner(
                        self.spec_tile(vs[k])->Some_0,
                    )
            }),
        decreases fuel,
    {
        if self.spec_tile(cur) == Some(Tile::Start) {
        } else {
            let nxt = self.step_next(prev, cur)->Some_0;
            self.lemma_step_props(prev, cur);
            self.lemma_trace_props(cur, nxt, (fuel - 1) as nat);
        }
    }
}

/// Walk the whole maze from a text: the farthest distance from the start
/// along the loop, which is half the loop's length.
pub fn part_one(input: &str) -> (r: Option<u32>)
    ensures
        match r {
            Some(d) => grid_text_ok(input@) && match loop_of(grid_of(input@)) {
                Some((len, vs)) => d as int == len / 2,
                None => false,
            },
            None => !grid_text_ok(input@) || loop_of(grid_of(input@)) is None,
        },
{
    let m = match PipeMap::parse(input) {
        Ok(m) => m,
        Err(_) => {
            return None;
        },
    };
    match m.get_max_dist_from_s() {
        Ok(d) => Some(d),
        Err(_) => None,
    }
}

/// Walk the whole maze from a text: the number of cells strictly
/// enclosed by the loop.
pub fn part_two(input: &str) -> (r: Option<u32>)
    ensures
        match r {
            Some(a) => grid_text_ok(input@) && dims_ok(grid_of(input@)) && match loop_of(
                grid_of(input@),
            ) {
                Some((len, vs)) => shoelace_sum(vs) % 2 == 0 && 0 <= spec_interior(vs, len)
                    <= u32::MAX && a as int == spec_interior(vs, len),
                None => false,
            },
            None => !grid_text_ok(input@) || !dims_ok(grid_of(input@)) || match loop_of(
                grid_of(input@),
            ) {
                Some((len, vs)) => shoelace_sum(vs) % 2 != 0 || spec_interior(vs, len) < 0
                    || spec_interior(vs, len) > u32::MAX,
                None => true,
            },
        },
{
    let m = match PipeMap::parse(input) {
        Ok(m) => m,
        Err(_) => {
            return None;
        },
    };
    let rows = m.tiles.len();
    let limit: usize = 0x8000_0000;
    if rows > limit {
        return None;
    }
    if rows > 0 && m.tiles[0].len() > limit {
        return None;
    }
    match m.get_surface() {
        Ok(a) => Some(a),
        Err(_) => None,
    }
}

/// Whether the walk from `cur` (entered from `prev`) reads the cell
/// `p`: the cells it stands on, and the cell of every step it attempts,
/// including one that leaves the grid.
pub open spec fn walk_visits(
    g: Seq<Seq<Tile>>,
    prev: (int, int),
    cur: (int, int),
    fuel: nat,
    p: (int, int),
) -> bool
    decreases fuel,
{
    if cur == p {
        true
    } else if tile_at(g, cur) == Some(Tile::Start) {
        false
    } else if fuel == 0 {
        false
    } else {
        match step_next_at(g, prev, cur) {
            None => false,
            Some(nxt) => if nxt == p {
                true
            } else if tile_at(g, nxt) is None {
                false
            } else {
                walk_visits(g, cur, nxt, (fuel - 1) as nat, p)
            },
        }
    }
}

/// The walk reads nothing but the cells it visits: two grids that agree
/// on every visited cell of the first grid's walk trace identically.
pub proof fn lemma_trace_frame(
    g1: Seq<Seq<Tile>>,
    g2: Seq<Seq<Tile>>,
    prev: (int, int),
    cur: (int, int),
    fuel: nat,
)
    requires
        forall|p: (int, int)|
            #[trigger] walk_visits(g1, prev, cur, fuel, p) ==> tile_at(g1, p) == tile_at(g2, p),
    ensures
        trace_from_at(g1, prev, cur, fuel) == trace_from_at(g2, prev, cur, fuel),
    decreases fuel,
{
    assert(walk_visits(g1, prev, cur, fuel, cur));
    if tile_at(g1, cur) == Some(Tile::Start) {
    } else if fuel == 0 {
    } else {
        assert(step_next_at(g1, prev, cur) == step_next_at(g2, prev, cur));
        match step_next_at(g1, prev, cur) {
            None => {},
            Some(nxt) => {
                assert(walk_visits(g1, prev, cur, fuel, nxt));
                if tile_at(g1, nxt) is None {
                } else {
                    assert forall|p: (int, int)|
                        #[trigger] walk_visits(g1, cur, nxt, (fuel - 1) as nat, p) implies tile_at(
                        g1,
                        p,
                    ) == tile_at(g2, p) by {
                        assert(walk_visits(g1, prev, cur, fuel, p));
                    }
                    lemma_trace_frame(g1, g2, cur, nxt, (fuel - 1) as nat);
                }
            },
        }
    }
}

/// Decoy tiles never matter: two grids of the same size, with the same
/// first start cell, the same tiles on that cell's four neighbors, and
/// the same tiles at every cell the first grid's walk reads, find the
/// same loop — the same length and the same vertex cells.  Cells away
/// from the walk (disconnected pipe segments included) are free to
/// differ.
pub proof fn lemma_decoys_unchanged(g1: Seq<Seq<Tile>>, g2: Seq<Seq<Tile>>)
    requires
        g1.len() == g2.len(),
        g1.len() == 0 || g1[0].len() == g2[0].len(),
        start_of(g1) == start_of(g2),
        match start_of(g1) {
            Some(s) => {
                &&& tile_at(g1, neighbor(s, Dir::North)) == tile_at(g2, neighbor(s, Dir::North))
                &&& tile_at(g1, neighbor(s, Dir::South)) == tile_at(g2, neighbor(s, Dir::South))
                &&& tile_at(g1, neighbor(s, Dir::West)) == tile_at(g2, neighbor(s, Dir::West))
                &&& tile_at(g1, neighbor(s, Dir::East)) == tile_at(g2, neighbor(s, Dir::East))
                &&& match start_step_of(g1, s) {
                    Some(sec) => forall|p: (int, int)|
                        #[trigger] walk_visits(g1, s, sec, fuel_of(g1), p) ==> tile_at(g1, p)
                            == tile_at(g2, p),
                    None => true,
                }
            },
            None => true,
        },
    ensures
        loop_of(g1) == loop_of(g2),
{
    match start_of(g1) {
        None => {},
        Some(s) => {
            assert(opens_back_at(g1, s, Dir::North) == opens_back_at(g2, s, Dir::North));
            assert(opens_back_at(g1, s, Dir::South) == opens_back_at(g2, s, Dir::South));
            assert(opens_back_at(g1, s, Dir::West) == opens_back_at(g2, s, Dir::West));
            assert(opens_back_at(g1, s, Dir::East) == opens_back_at(g2, s, Dir::East));
            assert(start_step_of(g1, s) == start_step_of(g2, s));
            match start_step_of(g1, s) {
                None => {},
                Some(sec) => {
                    assert(fuel_of(g1) == fuel_of(g2));
                    lemma_trace_frame(g1, g2, s, sec, fuel_of(g1));
                },
            }
        },
    }
}

/// On a simple cycle of even length, the walking distance from the
/// start to the cell reached after `i` steps is `min(i, len - i)` (one
/// may go either way around), so the farthest cell lies at exactly
/// `len / 2` steps: the loop length halved.
pub proof fn lemma_cycle_max_distance(len: int)
    requires
        len >= 4,
        len % 2 == 0,
    ensures
        forall|i: int| 0 <= i <= len ==> #[trigger] vstd::math::min(i, len - i) <= len / 2,
        vstd::math::min(len / 2, len - len / 2) == len / 2,
{
}

/// One left rotation of a vertex list.
pub open spec fn rot1(vs: Seq<(int, int)>) -> Seq<(int, int)> {
    if vs.len() == 0 {
        vs
    } else {
        vs.drop_first().push(vs[0])
    }
}

/// `k` left rotations of a vertex list.
pub open spec fn rotate_left(vs: Seq<(int, int)>, k: nat) -> Seq<(int, int)>
    decreases k,
{
    if k == 0 {
        vs
    } else {
        rotate_left(rot1(vs), (k - 1) as nat)
    }
}

proof fn lemma_shoelace_rot1_from(vs: Seq<(int, int)>, i: int)
    requires
        vs.len() >= 2,
        0 <= i <= vs.len() - 1,
    ensures
        shoelace_from(rot1(vs), i) == shoelace_from(vs, i + 1) + cross(vs[0], vs[1]),
    decreases vs.len() - i,
{
    let n = vs.len() as int;
    let rot = rot1(vs);
    assert(rot.len() == n);
    if i == n - 1 {
        assert(rot[n - 1] == vs[0]);
        assert(rot[0] == vs[1]);
        assert(shoelace_from(rot, n) == 0);
        assert(shoelace_from(rot, n - 1) == cross(rot[n - 1], rot[0]) + shoelace_from(rot, n));
        assert(shoelace_from(vs, n) == 0);
    } else {
        lemma_shoelace_rot1_from(vs, i + 1);
        assert(rot[i] == vs[i + 1]);
        if i + 1 == n - 1 {
            assert(rot[i + 1] == vs[0]);
            assert(shoelace_from(vs, i + 1) == cross(vs[i + 1], vs[0]) + shoelace_from(vs, i + 2));
        } else {
            assert(rot[i + 1] == vs[i + 2]);
        }
    }
}

proof fn lemma_shoelace_rot1(vs: Seq<(int, int)>)
    ensures
        shoelace_sum(rot1(vs)) == shoelace_sum(vs),
{
    if vs.len() == 0 {
    } else if vs.len() == 1 {
        assert(rot1(vs) =~= vs);
    } else {
        lemma_shoelace_rot1_from(vs, 0);
        assert(shoelace_sum(vs) == cross(vs[0], vs[1]) + shoelace_from(vs, 1));
    }
}

/// The shoelace double area does not depend on which vertex the closed
/// polygon is listed from.
pub proof fn lemma_shoelace_rotation(vs: Seq<(int, int)>, k: nat)
    ensures
        shoelace_sum(rotate_left(vs, k)) == shoelace_sum(vs),
    decreases k,
{
    if k == 0 {
    } else {
        lemma_shoelace_rot1(vs);
        lemma_shoelace_rotation(rot1(vs), (k - 1) as nat);
    }
}

/// The partial shoelace sum over the first `j` edges, without the
/// wraparound edge.
pub open spec fn shoelace_upto(vs: Seq<(int, int)>, j: int) -> int
    decreases j,
{
    if j <= 0 {
        0
    } else {
        shoelace_upto(vs, j - 1) + cross(vs[j - 1], vs[j])
    }
}

proof fn lemma_shoelace_from_upto(vs: Seq<(int, int)>, i: int)
    requires
        vs.len() >= 1,
        0 <= i <= vs.len() - 1,
    ensures
        shoelace_from(vs, i) == shoelace_upto(vs, vs.len() - 1) + cross(vs[vs.len() - 1], vs[0])
            - shoelace_upto(vs, i),
    decreases vs.len() - i,
{
    let n = vs.len() as int;
    if i == n - 1 {
        assert(shoelace_from(vs, n - 1) == cross(vs[n - 1], vs[0]) + shoelace_from(vs, n));
    } else {
        lemma_shoelace_from_upto(vs, i + 1);
    }
}

proof fn lemma_shoelace_rev_from(vs: Seq<(int, int)>, i: int)
    requires
        vs.len() >= 1,
        0 <= i <= vs.len() - 1,
    ensures
        shoelace_from(vs.reverse(), i) == -(shoelace_upto(vs, vs.len() - 1 - i) + cross(
            vs[vs.len() - 1],
            vs[0],
        )),
    decreases vs.len() - i,
{
    let n = vs.len() as int;
    let rev = vs.reverse();
    assert(rev.len() == n);
    if i == n - 1 {
        assert(rev[n - 1] == vs[0]);
        assert(rev[0] == vs[n - 1]);
        assert(shoelace_from(rev, n - 1) == cross(vs[0], vs[n - 1]) + shoelace_from(rev, n));
    } else {
        lemma_shoelace_rev_from(vs, i + 1);
        assert(rev[i] == vs[n - 1 - i]);
        assert(rev[i + 1] == vs[n - 2 - i]);
        assert(shoelace_upto(vs, n - 1 - i) == shoelace_upto(vs, n - 2 - i) + cross(
            vs[n - 2 - i],
            vs[n - 1 - i],
        ));
    }
}

/// The shoelace double area changes sign, and keeps its magnitude, when
/// the closed polygon is traversed in the opposite direction.
pub proof fn lemma_shoelace_reversal(vs: Seq<(int, int)>)
    ensures
        shoelace_sum(vs.reverse()) == -shoelace_sum(vs),
{
    if vs.len() == 0 {
        assert(vs.reverse() =~= vs);
    } else {
        lemma_shoelace_rev_from(vs, 0);
        lemma_shoelace_from_upto(vs, 0);
    }
}

/// The absolute shoelace double area is invariant both to the starting
/// vertex of the listing and to the traversal direction.
pub proof fn lemma_shoelace_invariance(vs: Seq<(int, int)>, k: nat)
    ensures
        abs_int(shoelace_sum(rotate_left(vs, k))) == abs_int(shoelace_sum(vs)),
        abs_int(shoelace_sum(vs.reverse())) == abs_int(shoelace_sum(vs)),
{
    lemma_shoelace_rotation(vs, k);
    lemma_shoelace_reversal(vs);
}

/// A plain rectangular loop of `w` by `h` cells has double area
/// `2 (w-1) (h-1)`, and the area calculation yields exactly the
/// `(w-2) (h-2)` cells inside the rectangle's walls.
pub proof fn lemma_rectangle_loop(r0: int, c0: int, w: int, h: int)
    requires
        w >= 3,
        h >= 3,
    ensures
        ({
            let vs = seq![
                (r0, c0),
                (r0, c0 + w - 1),
                (r0 + h - 1, c0 + w - 1),
                (r0 + h - 1, c0),
            ];
            let b = 2 * (w - 1) + 2 * (h - 1);
            &&& shoelace_sum(vs) == 2 * (w - 1) * (h - 1)
            &&& shoelace_sum(vs) % 2 == 0
            &&& spec_interior(vs, b) == (w - 2) * (h - 2)
        }),
{
    let vs = seq![(r0, c0), (r0, c0 + w - 1), (r0 + h - 1, c0 + w - 1), (r0 + h - 1, c0)];
    let b = 2 * (w - 1) + 2 * (h - 1);
    let t0 = cross(vs[0], vs[1]);
    let t1 = cross(vs[1], vs[2]);
    let t2 = cross(vs[2], vs[3]);
    let t3 = cross(vs[3], vs[0]);
    assert(shoelace_from(vs, 4) == 0);
    assert(shoelace_from(vs, 3) == t3 + shoelace_from(vs, 4));
    assert(shoelace_from(vs, 2) == t2 + shoelace_from(vs, 3));
    assert(shoelace_from(vs, 1) == t1 + shoelace_from(vs, 2));
    assert(shoelace_from(vs, 0) == t0 + shoelace_from(vs, 1));
    assert(t0 == c0 * r0 - (c0 + w - 1) * r0);
    assert(t1 == (c0 + w - 1) * (r0 + h - 1) - (c0 + w - 1) * r0);
    assert(t2 == (c0 + w - 1) * (r0 + h - 1) - c0 * (r0 + h - 1));
    assert(t3 == c0 * r0 - c0 * (r0 + h - 1));
    let prod = (w - 1) * (h - 1);
    assert(t0 + t1 + t2 + t3 == 2 * prod) by (nonlinear_arith)
        requires
            t0 == c0 * r0 - (c0 + w - 1) * r0,
            t1 == (c0 + w - 1) * (r0 + h - 1) - (c0 + w - 1) * r0,
            t2 == (c0 + w - 1) * (r0 + h - 1) - c0 * (r0 + h - 1),
            t3 == c0 * r0 - c0 * (r0 + h - 1),
            prod == (w - 1) * (h - 1),
    ;
    assert(prod >= 0) by (nonlinear_arith)
        requires
            w >= 3,
            h >= 3,
            prod == (w - 1) * (h - 1),
    ;
    assert(shoelace_sum(vs) == 2 * prod);
    assert((2 * prod) % 2 == 0) by (nonlinear_arith);
    assert((2 * prod) / 2 == prod) by (nonlinear_arith);
    assert(abs_int(shoelace_sum(vs)) == 2 * prod);
    assert(b / 2 == (w - 1) + (h - 1));
    assert(prod - ((w - 1) + (h - 1)) + 1 == (w - 2) * (h - 2)) by (nonlinear_arith)
        requires
            prod == (w - 1) * (h - 1),
    ;
    assert(shoelace_sum(vs) == 2 * (w - 1) * (h - 1)) by (nonlinear_arith)
        requires
            shoelace_sum(vs) == 2 * prod,
            prod == (w - 1) * (h - 1),
    ;
}

} // verus!
