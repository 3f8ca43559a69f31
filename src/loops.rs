use vstd::prelude::*;
use crate::grid::{Board, CellEnum, DirectionEnum, Grid, height, width, in_grid, opposite, step_target, step_toward};

verus! {

pub open spec fn is_space(x: CellEnum) -> bool {
    x is Space
}

pub open spec fn row_spaces(s: Seq<CellEnum>) -> nat
    decreases s.len(),
{
    if s.len() == 0 {
        0
    } else {
        row_spaces(s.drop_last()) + if is_space(s.last()) {
            1nat
        } else {
            0
        }
    }
}

/// Number of space cells on the board.
pub open spec fn space_count(b: Grid) -> nat
    decreases b.len(),
{
    if b.len() == 0 {
        0
    } else {
        space_count(b.drop_last()) + row_spaces(b.last())
    }
}

/// The first space cell before `(r, c)` in row-major order.
pub open spec fn space_before(b: Grid, r: nat, c: nat) -> Option<(int, int)>
    decreases r, c,
{
    if c > 0 {
        match space_before(b, r, (c - 1) as nat) {
            Some(p) => Some(p),
            None => if is_space(b[r as int][c - 1]) {
                Some((r as int, c - 1))
            } else {
                None
            },
        }
    } else if r > 0 {
        space_before(b, (r - 1) as nat, width(b) as nat)
    } else {
        None
    }
}

pub open spec fn first_space(b: Grid) -> Option<(int, int)> {
    space_before(b, height(b) as nat, 0)
}

/// A walker at `(r, c)` that arrived by moving in direction `came` leaves
/// by the first link of the cell unless that link leads back, else by the
/// second. `None` when the cell is not a doubly linked space or the link
/// leaves the grid.
pub open spec fn walk_step(b: Grid, r: int, c: int, came: DirectionEnum) -> Option<(int, int, DirectionEnum)> {
    match b[r][c] {
        CellEnum::Space(Some(p), Some(q)) => {
            let out = if p != opposite(came) {
                p
            } else {
                q
            };
            match step_target(b, r, c, out) {
                Some(t) => Some((t.0, t.1, out)),
                None => None,
            }
        },
        _ => None,
    }
}

/// Where the walker is after `k` steps from `(r, c)`, having arrived there
/// by moving in direction `came`.
pub open spec fn walk(b: Grid, r: int, c: int, came: DirectionEnum, k: nat) -> Option<(int, int, DirectionEnum)>
    decreases k,
{
    if k == 0 {
        Some((r, c, came))
    } else {
        match walk(b, r, c, came, (k - 1) as nat) {
            Some(s) => walk_step(b, s.0, s.1, s.2),
            None => None,
        }
    }
}

/// The direction from which a walk starting at `x` is taken to arrive, so
/// that it leaves by the first link.
pub open spec fn start_dir(x: CellEnum) -> DirectionEnum {
    match x {
        CellEnum::Space(_, Some(q)) => opposite(q),
        _ => DirectionEnum::Absent,
    }
}

/// The walk along links from the first space cell comes back to it for the
/// first time after exactly as many steps as the board has space cells.
pub open spec fn single_loop(b: Grid) -> bool {
    match first_space(b) {
        None => false,
        Some(s) => {
            let came = start_dir(b[s.0][s.1]);
            let n = space_count(b);
            &&& walk(b, s.0, s.1, came, n) matches Some(e) && e.0 == s.0 && e.1 == s.1
            &&& forall|k: nat|
                0 < k < n ==> (#[trigger] walk(b, s.0, s.1, came, k) matches Some(m) && (m.0
                    != s.0 || m.1 != s.1))
        },
    }
}

proof fn lemma_walk_stuck(b: Grid, r: int, c: int, came: DirectionEnum, k: nat, m: nat)
    requires
        walk(b, r, c, came, k) is None,
        k <= m,
    ensures
        walk(b, r, c, came, m) is None,
    decreases m,
{
    if k < m {
        lemma_walk_stuck(b, r, c, came, k, (m - 1) as nat);
    }
}

proof fn lemma_space_found_stays(b: Grid, r: nat, c: nat, r2: nat, c2: nat)
    requires
        space_before(b, r, c) is Some,
        r < r2 || (r == r2 && c <= c2),
        c <= width(b),
    ensures
        space_before(b, r2, c2) == space_before(b, r, c),
    decreases r2, c2,
{
    if r == r2 && c == c2 {
    } else if c2 > 0 {
        lemma_space_found_stays(b, r, c, r2, (c2 - 1) as nat);
    } else {
        lemma_space_found_stays(b, r, c, (r2 - 1) as nat, width(b) as nat);
    }
}

fn first_space_cell(board: &Board) -> (r: Option<(usize, usize)>)
    requires
        board.wf(),
    ensures
        match r {
            Some(p) => first_space(board@) == Some((p.0 as int, p.1 as int)) && in_grid(
                board@,
                p.0 as int,
                p.1 as int,
            ),
            None => first_space(board@) is None,
        },
{
    let h = board.height();
    let w = board.width();
    let mut i: usize = 0;
    while i < h
        invariant
            board.wf(),
            h == height(board@),
            w == width(board@),
            i <= h,
            space_before(board@, i as nat, 0) is None,
        decreases h - i,
    {
        let mut j: usize = 0;
        while j < w
            invariant
                board.wf(),
                h == height(board@),
                w == width(board@),
                i < h,
                j <= w,
                space_before(board@, i as nat, j as nat) is None,
            decreases w - j,
        {
            if let CellEnum::Space(_, _) = board.get(i, j) {
                assert(space_before(board@, i as nat, (j + 1) as nat) == Some((i as int, j as int)));
                proof {
                    lemma_space_found_stays(board@, i as nat, (j + 1) as nat, h as nat, 0);
                }
                return Some((i, j));
            }
            j += 1;
        }
        assert(space_before(board@, (i + 1) as nat, 0) == space_before(board@, i as nat, w as nat));
        i += 1;
    }
    None
}

/// Number of space cells; it fits in `u128` since each row and the number
/// of rows fit in `usize`.
fn count_spaces(board: &Board) -> (n: u128)
    requires
        board.wf(),
    ensures
        n == space_count(board@),
{
    let ghost g = board@;
    let h = board.height();
    let w = board.width();
    let mut total: u128 = 0;
    let mut i: usize = 0;
    while i < h
        invariant
            board.wf(),
            g == board@,
            h == height(g),
            w == width(g),
            i <= h,
            total == space_count(g.subrange(0, i as int)),
            total <= i * w,
        decreases h - i,
    {
        let ghost row = g[i as int];
        assert(row.len() == w);
        let mut count: usize = 0;
        let mut j: usize = 0;
        while j < w
            invariant
                board.wf(),
                g == board@,
                h == height(g),
                w == width(g),
                row == g[i as int],
                row.len() == w,
                i < h,
                j <= w,
                count == row_spaces(row.subrange(0, j as int)),
                count <= j,
            decreases w - j,
        {
            assert(row.subrange(0, j + 1).drop_last() =~= row.subrange(0, j as int));
            if let CellEnum::Space(_, _) = board.get(i, j) {
                count += 1;
            }
            j += 1;
        }
        assert(row.subrange(0, w as int) =~= row);
        assert(g.subrange(0, i + 1).drop_last() =~= g.subrange(0, i as int));
        assert(total + count <= (i + 1) * w) by (nonlinear_arith)
            requires
                total <= i * w,
                count <= w,
        ;
        assert((i + 1) * w <= usize::MAX * usize::MAX) by (nonlinear_arith)
            requires
                i < h,
                h <= usize::MAX,
                w <= usize::MAX,
        ;
        total = total + count as u128;
        i += 1;
    }
    assert(g.subrange(0, h as int) =~= g);
    total
}

/// One step of the walk (see `walk_step`).
fn walk_step_at(board: &Board, r: usize, c: usize, came: DirectionEnum) -> (s: Option<(usize, usize, DirectionEnum)>)
    requires
        board.wf(),
        in_grid(board@, r as int, c as int),
    ensures
        match s {
            Some(t) => walk_step(board@, r as int, c as int, came) == Some(
                (t.0 as int, t.1 as int, t.2),
            ) && in_grid(board@, t.0 as int, t.1 as int),
            None => walk_step(board@, r as int, c as int, came) is None,
        },
{
    match board.get(r, c) {
        CellEnum::Space(Some(p), Some(q)) => {
            let out = if p != came.reverse() {
                p
            } else {
                q
            };
            match step_toward(board.height(), board.width(), r, c, out) {
                Some(t) => {
                    assert(step_target(board@, r as int, c as int, out) == Some(
                        (t.0 as int, t.1 as int),
                    ));
                    Some((t.0, t.1, out))
                },
                None => {
                    assert(step_target(board@, r as int, c as int, out) is None);
                    None
                },
            }
        },
        _ => None,
    }
}

/// A stricter check for complete boards: whether the links join every
/// space cell into one closed loop. It walks the links from the first space
/// cell in row-major order and holds exactly when the walk first comes back
/// to that cell after as many steps as the board has space cells (see
/// `single_loop`). `check` does not look at this.
pub fn is_single_loop(board: &Board) -> (r: bool)
    requires
        board.wf(),
    ensures
        r == single_loop(board@),
{
    let n = count_spaces(board);
    let (si, sj) = match first_space_cell(board) {
        Some(p) => p,
        None => {
            return false;
        },
    };
    let came0 = match board.get(si, sj) {
        CellEnum::Space(_, Some(q)) => q.reverse(),
        _ => DirectionEnum::Absent,
    };
    let ghost b = board@;
    let ghost (sr, sc) = (si as int, sj as int);
    let mut r = si;
    let mut c = sj;
    let mut came = came0;
    let mut k: u128 = 0;
    while k < n
        invariant
            board.wf(),
            b == board@,
            sr == si,
            sc == sj,
            n == space_count(b),
            first_space(b) == Some((sr, sc)),
            came0 == start_dir(b[sr][sc]),
            k <= n,
            in_grid(b, r as int, c as int),
            walk(b, sr, sc, came0, k as nat) == Some((r as int, c as int, came)),
            forall|m: nat|
                0 < m <= k && m < n ==> (#[trigger] walk(b, sr, sc, came0, m) matches Some(x) && (x.0
                    != sr || x.1 != sc)),
        decreases n - k,
    {
        match walk_step_at(board, r, c, came) {
            None => {
                proof {
                    lemma_walk_stuck(b, sr, sc, came0, (k + 1) as nat, n as nat);
                }
                return false;
            },
            Some(t) => {
                r = t.0;
                c = t.1;
                came = t.2;
            },
        }
        k += 1;
        if k < n && r == si && c == sj {
            assert(walk(b, sr, sc, came0, k as nat) matches Some(x) && x.0 == sr && x.1 == sc);
            return false;
        }
    }
    r == si && c == sj
}

} // verus!
