use vstd::prelude::*;

verus! {

/// One of the four grid-adjacency directions, or the absent direction.
#[derive(Clone, Copy, Debug, PartialEq, Eq, Structural)]
pub enum DirectionEnum {
    Absent,
    Up,
    Down,
    Left,
    Right,
}

/// A wall cell: plain, or carrying a directional numeric hint.
///
/// A hint count below zero (the encoding uses -2) means that the hint gives a
/// direction but no number.
#[derive(Clone, Copy, Debug, PartialEq, Eq, Structural)]
pub enum WallEnum {
    Wall,
    Hint(DirectionEnum, i64),
}

/// The state of one grid cell.
#[derive(Clone, Copy, Debug, PartialEq, Eq, Structural)]
pub enum CellEnum {
    Wall(WallEnum),
    Space(Option<DirectionEnum>, Option<DirectionEnum>),
    Unknown,
}

/// A rectangular grid of cells, stored row by row.
#[derive(Clone, Debug, PartialEq, Eq)]
pub struct Board(pub Vec<Vec<CellEnum>>);

/// The grid as a sequence of rows.
pub type Grid = Seq<Seq<CellEnum>>;

impl View for Board {
    type V = Grid;

    open spec fn view(&self) -> Grid {
        Seq::new(self.0@.len(), |i: int| self.0@[i]@)
    }
}

/// Row and column offset of one step in direction `d`.
pub open spec fn delta(d: DirectionEnum) -> (int, int) {
    match d {
        DirectionEnum::Absent => (0, 0),
        DirectionEnum::Up => (-1, 0),
        DirectionEnum::Down => (1, 0),
        DirectionEnum::Left => (0, -1),
        DirectionEnum::Right => (0, 1),
    }
}

pub open spec fn opposite(d: DirectionEnum) -> DirectionEnum {
    match d {
        DirectionEnum::Absent => DirectionEnum::Absent,
        DirectionEnum::Up => DirectionEnum::Down,
        DirectionEnum::Down => DirectionEnum::Up,
        DirectionEnum::Left => DirectionEnum::Right,
        DirectionEnum::Right => DirectionEnum::Left,
    }
}

/// The direction that a direction code names: 1 up, 2 down, 3 left, 4 right,
/// anything else none.
pub open spec fn direction_of_code(code: int) -> DirectionEnum {
    if code == 1 {
        DirectionEnum::Up
    } else if code == 2 {
        DirectionEnum::Down
    } else if code == 3 {
        DirectionEnum::Left
    } else if code == 4 {
        DirectionEnum::Right
    } else {
        DirectionEnum::Absent
    }
}

impl DirectionEnum {
    /// The unit row/column offset of the direction.
    pub fn to_vector(&self) -> (r: (i32, i32))
        ensures
            (r.0 as int, r.1 as int) == delta(*self),
    {
        match self {
            DirectionEnum::Absent => (0, 0),
            DirectionEnum::Up => (-1, 0),
            DirectionEnum::Down => (1, 0),
            DirectionEnum::Left => (0, -1),
            DirectionEnum::Right => (0, 1),
        }
    }

    /// The opposite direction; none stays none.
    pub fn reverse(&self) -> (r: DirectionEnum)
        ensures
            r == opposite(*self),
    {
        match self {
            DirectionEnum::Absent => DirectionEnum::Absent,
            DirectionEnum::Up => DirectionEnum::Down,
            DirectionEnum::Down => DirectionEnum::Up,
            DirectionEnum::Left => DirectionEnum::Right,
            DirectionEnum::Right => DirectionEnum::Left,
        }
    }
}

/// Maps a direction code to its direction (see `direction_of_code`).
pub fn dir_to_direction_enum(dir: u32) -> (r: DirectionEnum)
    ensures
        r == direction_of_code(dir as int),
{
    match dir {
        1 => DirectionEnum::Up,
        2 => DirectionEnum::Down,
        3 => DirectionEnum::Left,
        4 => DirectionEnum::Right,
        _ => DirectionEnum::Absent,
    }
}

/// The arrow that shows a direction; a blank for none.
pub fn dir_to_char(dir: DirectionEnum) -> (r: char)
    ensures
        r == match dir {
            DirectionEnum::Up => '\u{2191}',
            DirectionEnum::Down => '\u{2193}',
            DirectionEnum::Left => '\u{2190}',
            DirectionEnum::Right => '\u{2192}',
            DirectionEnum::Absent => ' ',
        },
{
    match dir {
        DirectionEnum::Up => '\u{2191}',
        DirectionEnum::Down => '\u{2193}',
        DirectionEnum::Left => '\u{2190}',
        DirectionEnum::Right => '\u{2192}',
        DirectionEnum::Absent => ' ',
    }
}

pub open spec fn height(b: Grid) -> int {
    b.len() as int
}

pub open spec fn width(b: Grid) -> int {
    if b.len() > 0 {
        b[0].len() as int
    } else {
        0
    }
}

/// Every row has the width of the first.
pub open spec fn is_rect(b: Grid) -> bool {
    forall|i: int| 0 <= i < b.len() ==> #[trigger] b[i].len() == width(b)
}

pub open spec fn in_grid(b: Grid, r: int, c: int) -> bool {
    0 <= r < height(b) && 0 <= c < width(b)
}

pub open spec fn is_wall_kind(c: CellEnum) -> bool {
    c is Wall
}

/// `b` with the cell at `(r, c)` replaced by `x`.
pub open spec fn with_cell(b: Grid, r: int, c: int, x: CellEnum) -> Grid {
    b.update(r, b[r].update(c, x))
}

/// The cell one step from `(r, c)` in direction `d`, if it lies on the grid.
pub open spec fn step_target(b: Grid, r: int, c: int, d: DirectionEnum) -> Option<(int, int)> {
    let t = (r + delta(d).0, c + delta(d).1);
    if d != DirectionEnum::Absent && in_grid(b, t.0, t.1) {
        Some(t)
    } else {
        None
    }
}

/// The grid of a board, if there is one.
pub open spec fn board_view(o: Option<Board>) -> Option<Grid> {
    match o {
        Some(b) => Some(b@),
        None => None,
    }
}

impl Board {
    pub open spec fn wf(&self) -> bool {
        is_rect(self@)
    }

    /// Number of rows.
    pub fn height(&self) -> (r: usize)
        ensures
            r as int == height(self@),
    {
        self.0.len()
    }

    /// Number of columns (zero for a board without rows).
    pub fn width(&self) -> (r: usize)
        ensures
            r as int == width(self@),
    {
        if self.0.len() > 0 {
            self.0[0].len()
        } else {
            0
        }
    }

    /// The cell at row `r`, column `c`.
    pub fn get(&self, r: usize, c: usize) -> (x: CellEnum)
        requires
            self.wf(),
            in_grid(self@, r as int, c as int),
        ensures
            x == self@[r as int][c as int],
    {
        self.0[r][c]
    }

    /// Replaces the cell at row `r`, column `c`.
    pub fn set(&mut self, r: usize, c: usize, x: CellEnum)
        requires
            old(self).wf(),
            in_grid(old(self)@, r as int, c as int),
        ensures
            final(self).wf(),
            final(self)@ == with_cell(old(self)@, r as int, c as int, x),
    {
        assert(self@[r as int].len() == width(self@));
        self.0[r][c] = x;
        assert(self@ =~= with_cell(old(self)@, r as int, c as int, x));
    }

    /// An independent copy of the board.
    pub fn copy(&self) -> (r: Board)
        ensures
            r@ == self@,
    {
        let mut rows: Vec<Vec<CellEnum>> = Vec::new();
        let mut i: usize = 0;
        while i < self.0.len()
            invariant
                i <= self.0@.len(),
                rows@.len() == i,
                forall|k: int| 0 <= k < i ==> #[trigger] rows@[k]@ == self@[k],
            decreases self.0@.len() - i,
        {
            let src = &self.0[i];
            let mut row: Vec<CellEnum> = Vec::new();
            let mut j: usize = 0;
            while j < src.len()
                invariant
                    j <= src@.len(),
                    row@ == src@.subrange(0, j as int),
                decreases src@.len() - j,
            {
                row.push(src[j]);
                j += 1;
                assert(row@ =~= src@.subrange(0, j as int));
            }
            assert(row@ =~= src@);
            rows.push(row);
            i += 1;
        }
        let r = Board(rows);
        assert(r@ =~= self@);
        r
    }
}

/// The cell one step from `(i, j)` in direction `d`, if it lies on a grid of
/// `h` rows and `w` columns.
pub fn step_toward(h: usize, w: usize, i: usize, j: usize, d: DirectionEnum) -> (r: Option<(usize, usize)>)
    requires
        i < h,
        j < w,
    ensures
        forall|b: Grid|
            height(b) == h && width(b) == w ==> #[trigger] step_target(b, i as int, j as int, d)
                == match r {
                Some(t) => Some((t.0 as int, t.1 as int)),
                None => None::<(int, int)>,
            },
{
    match d {
        DirectionEnum::Absent => None,
        DirectionEnum::Up => if i > 0 {
            Some((i - 1, j))
        } else {
            None
        },
        DirectionEnum::Down => if i + 1 < h {
            Some((i + 1, j))
        } else {
            None
        },
        DirectionEnum::Left => if j > 0 {
            Some((i, j - 1))
        } else {
            None
        },
        DirectionEnum::Right => if j + 1 < w {
            Some((i, j + 1))
        } else {
            None
        },
    }
}

} // verus!
