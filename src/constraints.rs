use vstd::prelude::*;
use crate::grid::{
    Board, CellEnum, DirectionEnum, Grid, WallEnum, height, width, in_grid, is_rect,
    is_wall_kind, opposite, step_target, step_toward, delta,
};

verus! {

/// The contradiction that `check` reports, with its row and column.
#[derive(Clone, Copy, Debug, PartialEq, Eq, Structural)]
pub enum CheckResultInvalidEnum {
    /// Two wall-kind cells touch; the first of them in row-major order.
    AdjacentWall(usize, usize),
    /// A hint count or a link cannot be satisfied at this cell.
    Hint(usize, usize),
    /// The search found no completion of the board.
    NoAnswer,
}

/// The classification of a board.
#[derive(Clone, Copy, Debug, PartialEq, Eq, Structural)]
pub enum CheckResultEnum {
    /// No contradiction, but some cell is still open.
    Valid,
    Invalid(CheckResultInvalidEnum),
    /// Every cell is settled and no contradiction holds.
    Complete,
}

/// The cells strictly beyond `(r, c)` in direction `d`, up to the grid edge,
/// nearest first.
pub open spec fn ray(b: Grid, r: int, c: int, d: DirectionEnum) -> Seq<CellEnum> {
    match d {
        DirectionEnum::Absent => Seq::empty(),
        DirectionEnum::Up => Seq::new(r as nat, |k: int| b[r - 1 - k][c]),
        DirectionEnum::Down => Seq::new((height(b) - 1 - r) as nat, |k: int| b[r + 1 + k][c]),
        DirectionEnum::Left => Seq::new(c as nat, |k: int| b[r][c - 1 - k]),
        DirectionEnum::Right => Seq::new((width(b) - 1 - c) as nat, |k: int| b[r][c + 1 + k]),
    }
}

/// Walls and possible walls along a ray, as `(walls, open_unknowns)`.
///
/// Every wall-kind cell counts as a wall. An unknown cell counts as a
/// possible wall unless the cell before it was a wall or a counted unknown,
/// since walls never touch. `after` says whether the cell before `s` was one
/// of those.
pub open spec fn tally(s: Seq<CellEnum>, after: bool) -> (int, int)
    decreases s.len(),
{
    if s.len() == 0 {
        (0, 0)
    } else {
        let rest = s.drop_first();
        match s[0] {
            CellEnum::Wall(_) => {
                let t = tally(rest, true);
                (t.0 + 1, t.1)
            },
            CellEnum::Unknown => if after {
                tally(rest, false)
            } else {
                let t = tally(rest, true);
                (t.0, t.1 + 1)
            },
            CellEnum::Space(_, _) => tally(rest, false),
        }
    }
}

/// A hint pointing in `d` with count `n` can no longer be met: it has a
/// direction and a count, and the walls along its ray already exceed the
/// count, or cannot reach it even if every possible wall becomes one.
pub open spec fn hint_broken(b: Grid, r: int, c: int, d: DirectionEnum, n: int) -> bool {
    let t = tally(ray(b, r, c, d), false);
    d != DirectionEnum::Absent && n >= 0 && (t.0 > n || t.0 + t.1 < n)
}

/// The neighbor of `(r, c)` in direction `d` is a wall-kind cell.
pub open spec fn wall_toward(b: Grid, r: int, c: int, d: DirectionEnum) -> bool {
    match step_target(b, r, c, d) {
        Some(t) => is_wall_kind(b[t.0][t.1]),
        None => false,
    }
}

pub open spec fn touches_wall(b: Grid, r: int, c: int) -> bool {
    ||| wall_toward(b, r, c, DirectionEnum::Up)
    ||| wall_toward(b, r, c, DirectionEnum::Down)
    ||| wall_toward(b, r, c, DirectionEnum::Left)
    ||| wall_toward(b, r, c, DirectionEnum::Right)
}

/// A cell that can hold a link in direction `back`: a space that already
/// has that link, or that has a free link slot.
pub open spec fn accepts_link(x: CellEnum, back: DirectionEnum) -> bool {
    match x {
        CellEnum::Space(p, q) => p == Some(back) || q == Some(back) || p is None || q is None,
        _ => false,
    }
}

/// The link `l` of the space at `(r, c)` is contradicted: it names no
/// neighbor on the grid, or the neighbor cannot link back.
pub open spec fn link_broken(b: Grid, r: int, c: int, l: Option<DirectionEnum>) -> bool {
    match l {
        None => false,
        Some(d) => match step_target(b, r, c, d) {
            None => true,
            Some(t) => !accepts_link(b[t.0][t.1], opposite(d)),
        },
    }
}

/// The contradiction found at `(r, c)`, if any.
pub open spec fn cell_fault(b: Grid, r: int, c: int) -> Option<CheckResultInvalidEnum> {
    match b[r][c] {
        CellEnum::Wall(w) => if touches_wall(b, r, c) {
            Some(CheckResultInvalidEnum::AdjacentWall(r as usize, c as usize))
        } else if w matches WallEnum::Hint(d, n) && hint_broken(b, r, c, d, n as int) {
            Some(CheckResultInvalidEnum::Hint(r as usize, c as usize))
        } else {
            None
        },
        CellEnum::Space(p, q) => if link_broken(b, r, c, p) || link_broken(b, r, c, q) {
            Some(CheckResultInvalidEnum::Hint(r as usize, c as usize))
        } else {
            None
        },
        CellEnum::Unknown => None,
    }
}

/// A wall-kind cell, or a space with two distinct links.
pub open spec fn is_settled(x: CellEnum) -> bool {
    match x {
        CellEnum::Wall(_) => true,
        CellEnum::Space(Some(p), Some(q)) => p != q,
        _ => false,
    }
}

/// The classification after one more cell: the first contradiction stays;
/// a new one is reported; otherwise the board stays complete only while
/// every cell is settled.
pub open spec fn next_verdict(prev: CheckResultEnum, b: Grid, r: int, c: int) -> CheckResultEnum {
    match prev {
        CheckResultEnum::Invalid(x) => CheckResultEnum::Invalid(x),
        _ => match cell_fault(b, r, c) {
            Some(f) => CheckResultEnum::Invalid(f),
            None => if prev is Complete && is_settled(b[r][c]) {
                CheckResultEnum::Complete
            } else {
                CheckResultEnum::Valid
            },
        },
    }
}

/// The classification of the cells before `(r, c)` in row-major order: the
/// rows above `r` and the first `c` cells of row `r`.
pub open spec fn scan(b: Grid, r: nat, c: nat) -> CheckResultEnum
    decreases r, c,
{
    if c > 0 {
        next_verdict(scan(b, r, (c - 1) as nat), b, r as int, c - 1)
    } else if r > 0 {
        scan(b, (r - 1) as nat, width(b) as nat)
    } else {
        CheckResultEnum::Complete
    }
}

/// The classification of the whole board.
pub open spec fn verdict(b: Grid) -> CheckResultEnum {
    scan(b, height(b) as nat, 0)
}

/// Classifies the board: the first contradiction in row-major order, else
/// complete when every cell is settled, else valid.
pub fn check(board: &Board) -> (r: CheckResultEnum)
    requires
        board.wf(),
    ensures
        r == verdict(board@),
{
    let h = board.height();
    let w = board.width();
    let mut complete_flag = true;
    let mut i: usize = 0;
    while i < h
        invariant
            board.wf(),
            h == height(board@),
            w == width(board@),
            i <= h,
            scan(board@, i as nat, 0) == if complete_flag {
                CheckResultEnum::Complete
            } else {
                CheckResultEnum::Valid
            },
        decreases h - i,
    {
        let mut j: usize = 0;
        while j < w
            invariant
                board.wf(),
                h == height(board@),
                w == width(board@),
                i < h,
                j <= w,
                scan(board@, i as nat, j as nat) == if complete_flag {
                    CheckResultEnum::Complete
                } else {
                    CheckResultEnum::Valid
                },
            decreases w - j,
        {
            match cell_fault_at(board, i, j) {
                Some(f) => {
                    assert(scan(board@, i as nat, (j + 1) as nat) == CheckResultEnum::Invalid(f));
                    proof {
                        lemma_invalid_persists(board@, i as nat, (j + 1) as nat, h as nat, 0);
                    }
                    return CheckResultEnum::Invalid(f);
                },
                None => {
                    if !is_settled_cell(board.get(i, j)) {
                        complete_flag = false;
                    }
                },
            }
            j += 1;
        }
        assert(scan(board@, (i + 1) as nat, 0) == scan(board@, i as nat, w as nat));
        i += 1;
    }
    if complete_flag {
        CheckResultEnum::Complete
    } else {
        CheckResultEnum::Valid
    }
}

/// Once the scan has met a contradiction, the classification of any later
/// position is that contradiction.
pub proof fn lemma_invalid_persists(b: Grid, r: nat, c: nat, r2: nat, c2: nat)
    requires
        scan(b, r, c) is Invalid,
        r < r2 || (r == r2 && c <= c2),
        c <= width(b),
    ensures
        scan(b, r2, c2) == scan(b, r, c),
    decreases r2, c2,
{
    if r == r2 && c == c2 {
    } else if c2 > 0 {
        lemma_invalid_persists(b, r, c, r2, (c2 - 1) as nat);
    } else {
        lemma_invalid_persists(b, r, c, (r2 - 1) as nat, width(b) as nat);
    }
}

fn is_settled_cell(x: CellEnum) -> (r: bool)
    ensures
        r == is_settled(x),
{
    match x {
        CellEnum::Wall(_) => true,
        CellEnum::Space(Some(p), Some(q)) => p != q,
        _ => false,
    }
}

/// Whether the neighbor of `(i, j)` in direction `d` is a wall-kind cell.
fn wall_toward_at(board: &Board, i: usize, j: usize, d: DirectionEnum) -> (r: bool)
    requires
        board.wf(),
        in_grid(board@, i as int, j as int),
    ensures
        r == wall_toward(board@, i as int, j as int, d),
{
    match step_toward(board.height(), board.width(), i, j, d) {
        Some(t) => {
            assert(step_target(board@, i as int, j as int, d) == Some((t.0 as int, t.1 as int)));
            match board.get(t.0, t.1) {
                CellEnum::Wall(_) => true,
                _ => false,
            }
        },
        None => {
            assert(step_target(board@, i as int, j as int, d) is None);
            false
        },
    }
}

/// The cell `k + 1` steps from `(i, j)` in direction `d`.
fn ray_cell(board: &Board, i: usize, j: usize, d: DirectionEnum, k: usize) -> (x: CellEnum)
    requires
        board.wf(),
        in_grid(board@, i as int, j as int),
        k < ray(board@, i as int, j as int, d).len(),
    ensures
        x == ray(board@, i as int, j as int, d)[k as int],
{
    proof {
        vstd::std_specs::vec::axiom_spec_len(&board.0);
        vstd::std_specs::vec::axiom_spec_len(&board.0@[i as int]);
    }
    match d {
        DirectionEnum::Absent => board.get(i, j),
        DirectionEnum::Up => board.get(i - 1 - k, j),
        DirectionEnum::Down => board.get(i + 1 + k, j),
        DirectionEnum::Left => board.get(i, j - 1 - k),
        DirectionEnum::Right => board.get(i, j + 1 + k),
    }
}

/// Number of cells strictly beyond `(i, j)` in direction `d`.
fn ray_len(board: &Board, i: usize, j: usize, d: DirectionEnum) -> (n: usize)
    requires
        board.wf(),
        in_grid(board@, i as int, j as int),
    ensures
        n == ray(board@, i as int, j as int, d).len(),
{
    match d {
        DirectionEnum::Absent => 0,
        DirectionEnum::Up => i,
        DirectionEnum::Down => board.height() - 1 - i,
        DirectionEnum::Left => j,
        DirectionEnum::Right => board.width() - 1 - j,
    }
}

/// Whether a hint at `(i, j)` pointing in `d` with count `n` is broken.
fn hint_broken_at(board: &Board, i: usize, j: usize, d: DirectionEnum, n: i64) -> (r: bool)
    requires
        board.wf(),
        in_grid(board@, i as int, j as int),
    ensures
        r == hint_broken(board@, i as int, j as int, d, n as int),
{
    if d == DirectionEnum::Absent || n < 0 {
        return false;
    }
    let ghost s = ray(board@, i as int, j as int, d);
    let len = ray_len(board, i, j, d);
    let mut wall_count: usize = 0;
    let mut unknown_count: usize = 0;
    let mut prev_wall_flag = false;
    let mut k: usize = 0;
    assert(s.skip(0) =~= s);
    while k < len
        invariant
            board.wf(),
            in_grid(board@, i as int, j as int),
            s == ray(board@, i as int, j as int, d),
            len == s.len(),
            k <= len,
            wall_count + unknown_count <= k,
            tally(s, false) == ({
                let t = tally(s.skip(k as int), prev_wall_flag);
                (wall_count + t.0, unknown_count + t.1)
            }),
        decreases len - k,
    {
        let x = ray_cell(board, i, j, d, k);
        assert(s.skip(k as int).drop_first() =~= s.skip(k + 1));
        assert(s.skip(k as int)[0] == x);
        match x {
            CellEnum::Wall(_) => {
                wall_count += 1;
                prev_wall_flag = true;
            },
            CellEnum::Unknown => {
                if !prev_wall_flag {
                    unknown_count += 1;
                    prev_wall_flag = true;
                } else {
                    prev_wall_flag = false;
                }
            },
            CellEnum::Space(_, _) => {
                prev_wall_flag = false;
            },
        }
        k += 1;
    }
    assert(s.skip(len as int).len() == 0);
    let walls = wall_count as u64;
    let unknowns = unknown_count as u64;
    let num = n as u64;
    walls > num || walls + unknowns < num
}

/// Whether the link `direction`, read from the cell at `next`, leads to
/// `target`.
pub fn check_direction_and_continue(
    direction: &Option<DirectionEnum>,
    next: (usize, usize),
    target: (usize, usize),
) -> (r: bool)
    ensures
        r == (*direction matches Some(d) && next.0 + delta(d).0 == target.0 && next.1 + delta(
            d,
        ).1 == target.1),
{
    match direction {
        Some(DirectionEnum::Absent) => next.0 == target.0 && next.1 == target.1,
        Some(DirectionEnum::Up) => next.0 > 0 && next.0 - 1 == target.0 && next.1 == target.1,
        Some(DirectionEnum::Down) => target.0 > 0 && next.0 == target.0 - 1 && next.1 == target.1,
        Some(DirectionEnum::Left) => next.1 > 0 && next.0 == target.0 && next.1 - 1 == target.1,
        Some(DirectionEnum::Right) => target.1 > 0 && next.0 == target.0 && next.1 == target.1 - 1,
        None => false,
    }
}

/// Checks one link of the space at `(i, j)`: `Valid` when it is absent or
/// its neighbor can link back, else the hint contradiction at `(i, j)`.
pub fn check_direction_and_return_result(
    direction: &Option<DirectionEnum>,
    i: usize,
    j: usize,
    board: &Board,
) -> (r: CheckResultEnum)
    requires
        board.wf(),
        in_grid(board@, i as int, j as int),
    ensures
        r == if link_broken(board@, i as int, j as int, *direction) {
            CheckResultEnum::Invalid(CheckResultInvalidEnum::Hint(i, j))
        } else {
            CheckResultEnum::Valid
        },
{
    match direction {
        Some(now) => {
            match step_toward(board.height(), board.width(), i, j, *now) {
                None => {
                    assert(step_target(board@, i as int, j as int, *now) is None);
                    CheckResultEnum::Invalid(CheckResultInvalidEnum::Hint(i, j))
                },
                Some(next) => {
                    assert(step_target(board@, i as int, j as int, *now) == Some(
                        (next.0 as int, next.1 as int),
                    ));
                    match board.get(next.0, next.1) {
                        CellEnum::Space(another_one, another_two) => {
                            if check_direction_and_continue(&another_one, next, (i, j))
                                || check_direction_and_continue(&another_two, next, (i, j))
                                || another_one.is_none() || another_two.is_none() {
                                CheckResultEnum::Valid
                            } else {
                                CheckResultEnum::Invalid(CheckResultInvalidEnum::Hint(i, j))
                            }
                        },
                        _ => CheckResultEnum::Invalid(CheckResultInvalidEnum::Hint(i, j)),
                    }
                },
            }
        },
        None => CheckResultEnum::Valid,
    }
}

/// The contradiction at `(i, j)`, if any.
fn cell_fault_at(board: &Board, i: usize, j: usize) -> (r: Option<CheckResultInvalidEnum>)
    requires
        board.wf(),
        in_grid(board@, i as int, j as int),
    ensures
        r == cell_fault(board@, i as int, j as int),
{
    match board.get(i, j) {
        CellEnum::Wall(wall) => {
            if wall_toward_at(board, i, j, DirectionEnum::Up) || wall_toward_at(
                board,
                i,
                j,
                DirectionEnum::Down,
            ) || wall_toward_at(board, i, j, DirectionEnum::Left) || wall_toward_at(
                board,
                i,
                j,
                DirectionEnum::Right,
            ) {
                return Some(CheckResultInvalidEnum::AdjacentWall(i, j));
            }
            match wall {
                WallEnum::Hint(dir, num) => {
                    if hint_broken_at(board, i, j, dir, num) {
                        Some(CheckResultInvalidEnum::Hint(i, j))
                    } else {
                        None
                    }
                },
                WallEnum::Wall => None,
            }
        },
        CellEnum::Space(one, two) => {
            if let CheckResultEnum::Invalid(_) = check_direction_and_return_result(&one, i, j, board) {
                return Some(CheckResultInvalidEnum::Hint(i, j));
            }
            if let CheckResultEnum::Invalid(_) = check_direction_and_return_result(&two, i, j, board) {
                return Some(CheckResultInvalidEnum::Hint(i, j));
            }
            None
        },
        CellEnum::Unknown => None,
    }
}

/// Number of wall-kind cells in `s`.
pub open spec fn wall_count(s: Seq<CellEnum>) -> int
    decreases s.len(),
{
    if s.len() == 0 {
        0
    } else {
        wall_count(s.drop_first()) + if is_wall_kind(s[0]) {
            1int
        } else {
            0
        }
    }
}

/// Every cell before `(r, c)` in row-major order is free of contradiction and
/// settled when the scan up to there says complete.
proof fn lemma_complete_prefix(b: Grid, r: nat, c: nat)
    requires
        scan(b, r, c) == CheckResultEnum::Complete,
        c <= width(b),
    ensures
        forall|i: int, j: int|
            (0 <= i < r && 0 <= j < width(b)) || (i == r && 0 <= j < c) ==> {
                &&& #[trigger] cell_fault(b, i, j) is None
                &&& is_settled(b[i][j])
            },
    decreases r, c,
{
    if c > 0 {
        let p = scan(b, r, (c - 1) as nat);
        assert(p is Complete) by {
            if p is Valid {
            }
        }
        lemma_complete_prefix(b, r, (c - 1) as nat);
    } else if r > 0 {
        lemma_complete_prefix(b, (r - 1) as nat, width(b) as nat);
    }
}

/// On a complete board every cell is free of contradiction and settled.
pub proof fn lemma_complete_cells(b: Grid)
    requires
        verdict(b) == CheckResultEnum::Complete,
    ensures
        forall|i: int, j: int|
            in_grid(b, i, j) ==> {
                &&& #[trigger] cell_fault(b, i, j) is None
                &&& is_settled(b[i][j])
            },
{
    lemma_complete_prefix(b, height(b) as nat, 0);
}

/// Along a sequence without unknown cells the tally counts the walls and
/// no possible walls.
proof fn lemma_tally_settled(s: Seq<CellEnum>, after: bool)
    requires
        forall|k: int| 0 <= k < s.len() ==> !(#[trigger] s[k] is Unknown),
    ensures
        tally(s, after) == (wall_count(s), 0int),
    decreases s.len(),
{
    if s.len() > 0 {
        let rest = s.drop_first();
        assert forall|k: int| 0 <= k < rest.len() implies !(#[trigger] rest[k] is Unknown) by {
            assert(rest[k] == s[k + 1]);
        }
        lemma_tally_settled(rest, true);
        lemma_tally_settled(rest, false);
    }
}

/// On a complete board no two wall-kind cells are orthogonally adjacent.
pub proof fn complete_board_walls_apart(b: Grid)
    requires
        is_rect(b),
        verdict(b) == CheckResultEnum::Complete,
    ensures
        forall|r: int, c: int, d: DirectionEnum|
            in_grid(b, r, c) && is_wall_kind(b[r][c]) ==> !#[trigger] wall_toward(b, r, c, d),
{
    lemma_complete_cells(b);
    assert forall|r: int, c: int, d: DirectionEnum|
        in_grid(b, r, c) && is_wall_kind(b[r][c]) implies !#[trigger] wall_toward(b, r, c, d) by {
        assert(cell_fault(b, r, c) is None);
    }
}

/// A hint at `(r, c)` that has a direction and a count sees exactly that many
/// wall-kind cells between itself and the grid edge; other cells pass.
pub open spec fn hint_met(b: Grid, r: int, c: int) -> bool {
    match b[r][c] {
        CellEnum::Wall(WallEnum::Hint(d, n)) => d == DirectionEnum::Absent || n < 0 || wall_count(
            ray(b, r, c, d),
        ) == n,
        _ => true,
    }
}

/// The link `l` of the cell at `(r, c)` leads to a space on the grid that
/// links back.
pub open spec fn link_returns(b: Grid, r: int, c: int, l: Option<DirectionEnum>) -> bool {
    match l {
        None => true,
        Some(d) => match step_target(b, r, c, d) {
            None => false,
            Some(t) => match b[t.0][t.1] {
                CellEnum::Space(p, q) => p == Some(opposite(d)) || q == Some(opposite(d)),
                _ => false,
            },
        },
    }
}

/// Every link of a space at `(r, c)` leads to a space that links back; other
/// cells pass.
pub open spec fn links_reciprocal(b: Grid, r: int, c: int) -> bool {
    match b[r][c] {
        CellEnum::Space(p, q) => link_returns(b, r, c, p) && link_returns(b, r, c, q),
        _ => true,
    }
}

/// On a complete board every hint with a direction and a count sees exactly
/// that many wall-kind cells between itself and the grid edge.
pub proof fn complete_board_hints_met(b: Grid)
    requires
        is_rect(b),
        verdict(b) == CheckResultEnum::Complete,
    ensures
        forall|r: int, c: int| in_grid(b, r, c) ==> #[trigger] hint_met(b, r, c),
{
    lemma_complete_cells(b);
    assert forall|r: int, c: int| in_grid(b, r, c) implies #[trigger] hint_met(b, r, c) by {
        assert(cell_fault(b, r, c) is None);
        if let CellEnum::Wall(WallEnum::Hint(d, n)) = b[r][c] {
            let s = ray(b, r, c, d);
            assert forall|k: int| 0 <= k < s.len() implies !(#[trigger] s[k] is Unknown) by {
                let (rr, cc) = match d {
                    DirectionEnum::Up => (r - 1 - k, c),
                    DirectionEnum::Down => (r + 1 + k, c),
                    DirectionEnum::Left => (r, c - 1 - k),
                    _ => (r, c + 1 + k),
                };
                assert(in_grid(b, rr, cc));
                assert(s[k] == b[rr][cc]);
                assert(cell_fault(b, rr, cc) is None);
            }
            lemma_tally_settled(s, false);
        }
    }
}

/// The link `l` of a space on a complete board leads back.
proof fn lemma_link_returns(b: Grid, r: int, c: int, l: Option<DirectionEnum>)
    requires
        is_rect(b),
        in_grid(b, r, c),
        !link_broken(b, r, c, l),
        forall|i: int, j: int| in_grid(b, i, j) ==> is_settled(#[trigger] b[i][j]),
    ensures
        link_returns(b, r, c, l),
{
    if let Some(d) = l {
        let t = step_target(b, r, c, d)->0;
        assert(is_settled(b[t.0][t.1]));
    }
}

/// On a complete board every link of a space leads to a space on the grid
/// that links back.
pub proof fn complete_board_links_reciprocal(b: Grid)
    requires
        is_rect(b),
        verdict(b) == CheckResultEnum::Complete,
    ensures
        forall|r: int, c: int| in_grid(b, r, c) ==> #[trigger] links_reciprocal(b, r, c),
{
    lemma_complete_cells(b);
    assert forall|i: int, j: int| in_grid(b, i, j) implies is_settled(#[trigger] b[i][j]) by {
        assert(cell_fault(b, i, j) is None);
    }
    assert forall|r: int, c: int| in_grid(b, r, c) implies #[trigger] links_reciprocal(b, r, c) by {
        assert(cell_fault(b, r, c) is None);
        if let CellEnum::Space(p, q) = b[r][c] {
            lemma_link_returns(b, r, c, p);
            lemma_link_returns(b, r, c, q);
        }
    }
}

proof fn lemma_scan_shape(b: Grid, r: nat, c: nat)
    requires
        is_rect(b),
        r < height(b) ==> c <= width(b),
        r == height(b) ==> c == 0,
        r <= height(b),
    ensures
        scan(b, r, c) matches CheckResultEnum::Invalid(x) ==> match x {
            CheckResultInvalidEnum::AdjacentWall(i, j) => in_grid(b, i as int, j as int),
            CheckResultInvalidEnum::Hint(i, j) => in_grid(b, i as int, j as int),
            CheckResultInvalidEnum::NoAnswer => false,
        },
        (forall|i: int, j: int|
            (0 <= i < r && 0 <= j < width(b)) || (i == r && 0 <= j < c) ==> {
                &&& #[trigger] cell_fault(b, i, j) is None
                &&& is_settled(b[i][j])
            }) ==> scan(b, r, c) == CheckResultEnum::Complete,
    decreases r, c,
{
    if c > 0 {
        lemma_scan_shape(b, r, (c - 1) as nat);
        assert(r < height(b));
        assert(b[r as int].len() == width(b));
        if forall|i: int, j: int|
            (0 <= i < r && 0 <= j < width(b)) || (i == r && 0 <= j < c) ==> {
                &&& #[trigger] cell_fault(b, i, j) is None
                &&& is_settled(b[i][j])
            } {
            assert(cell_fault(b, r as int, c - 1) is None);
        }
    } else if r > 0 {
        lemma_scan_shape(b, (r - 1) as nat, width(b) as nat);
    }
}

/// `check` calls a board complete exactly when every cell is free of
/// contradiction and settled.
pub proof fn complete_iff_all_settled(b: Grid)
    requires
        is_rect(b),
    ensures
        verdict(b) == CheckResultEnum::Complete <==> forall|i: int, j: int|
            in_grid(b, i, j) ==> {
                &&& #[trigger] cell_fault(b, i, j) is None
                &&& is_settled(b[i][j])
            },
{
    lemma_scan_shape(b, height(b) as nat, 0);
    if verdict(b) == CheckResultEnum::Complete {
        lemma_complete_cells(b);
    }
}

/// A contradiction that `check` reports is a touching wall or a broken hint
/// or link at a cell on the grid, never `NoAnswer`.
pub proof fn check_error_on_grid(b: Grid)
    requires
        is_rect(b),
    ensures
        verdict(b) matches CheckResultEnum::Invalid(x) ==> match x {
            CheckResultInvalidEnum::AdjacentWall(i, j) => in_grid(b, i as int, j as int),
            CheckResultInvalidEnum::Hint(i, j) => in_grid(b, i as int, j as int),
            CheckResultInvalidEnum::NoAnswer => false,
        },
{
    lemma_scan_shape(b, height(b) as nat, 0);
}

} // verus!
