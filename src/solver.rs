use vstd::prelude::*;
use crate::grid::{
    board_view, delta, Board, CellEnum, DirectionEnum, Grid, WallEnum, height, width, in_grid, is_rect,
    is_wall_kind, opposite, step_target, step_toward, with_cell,
};
use crate::constraints::{
    CheckResultEnum, CheckResultInvalidEnum, check, complete_board_hints_met,
    complete_board_links_reciprocal, complete_board_walls_apart, hint_met, links_reciprocal,
    verdict, wall_toward,
};

verus! {

/// A cell that the search still has to decide: unknown, or a space with a
/// free link slot.
pub open spec fn is_open(x: CellEnum) -> bool {
    match x {
        CellEnum::Unknown => true,
        CellEnum::Space(p, q) => p is None || q is None,
        _ => false,
    }
}

/// The first open cell before `(r, c)` in row-major order.
pub open spec fn open_before(b: Grid, r: nat, c: nat) -> Option<(int, int)>
    decreases r, c,
{
    if c > 0 {
        match open_before(b, r, (c - 1) as nat) {
            Some(p) => Some(p),
            None => if is_open(b[r as int][c - 1]) {
                Some((r as int, c - 1))
            } else {
                None
            },
        }
    } else if r > 0 {
        open_before(b, (r - 1) as nat, width(b) as nat)
    } else {
        None
    }
}

/// The first open cell of the board in row-major order.
pub open spec fn first_open(b: Grid) -> Option<(int, int)> {
    open_before(b, height(b) as nat, 0)
}

/// `x` with one more link, toward `d`, in its first free slot.
pub open spec fn linked(x: CellEnum, d: DirectionEnum) -> CellEnum {
    match x {
        CellEnum::Space(Some(a), None) => CellEnum::Space(Some(a), Some(d)),
        CellEnum::Space(None, Some(a)) => CellEnum::Space(Some(d), Some(a)),
        _ => CellEnum::Space(Some(d), None),
    }
}

/// The trials for an open cell, in order: `None` makes it a wall, `Some(d)`
/// links it toward `d`. Only an unknown cell may become a wall.
pub open spec fn trials(x: CellEnum) -> Seq<Option<DirectionEnum>> {
    let links = seq![
        Some(DirectionEnum::Up),
        Some(DirectionEnum::Down),
        Some(DirectionEnum::Left),
        Some(DirectionEnum::Right),
    ];
    match x {
        CellEnum::Unknown => seq![None].add(links),
        CellEnum::Space(p, q) => if p is None || q is None {
            links
        } else {
            Seq::empty()
        },
        _ => Seq::empty(),
    }
}

/// `x` already holds a link toward `d`.
pub open spec fn has_link(x: CellEnum, d: DirectionEnum) -> bool {
    match x {
        CellEnum::Space(p, q) => p == Some(d) || q == Some(d),
        _ => false,
    }
}

/// The wall placed at `(i, j)` forces the unknown cell `(r, c)` to be a
/// space: it is an orthogonal neighbor, or a diagonal neighbor pinched
/// between the new wall and another wall-kind cell (or the grid edge) two
/// cells from it in a straight line.
pub open spec fn forced_space(b: Grid, i: int, j: int, r: int, c: int) -> bool {
    let dr = r - i;
    let dc = c - j;
    ||| (dr == 0 && (dc == 1 || dc == -1)) || (dc == 0 && (dr == 1 || dr == -1))
    ||| (dr == 1 || dr == -1) && (dc == 1 || dc == -1) && (pinched(b, i + 2 * dr, j) || pinched(
        b,
        i,
        j + 2 * dc,
    ))
}

/// The position `(r, c)` is a wall-kind cell, or lies just beyond an edge.
pub open spec fn pinched(b: Grid, r: int, c: int) -> bool {
    ||| in_grid(b, r, c) && is_wall_kind(b[r][c])
    ||| r == -1 || r == height(b) || c == -1 || c == width(b)
}

/// The board after making `(i, j)` a plain wall: unknown cells that cannot
/// be walls beside it become unlinked spaces.
pub open spec fn place_wall(b: Grid, i: int, j: int) -> Grid {
    Seq::new(
        b.len(),
        |r: int|
            Seq::new(
                b[r].len(),
                |c: int|
                    if r == i && c == j {
                        CellEnum::Wall(WallEnum::Wall)
                    } else if b[r][c] is Unknown && forced_space(b, i, j, r, c) {
                        CellEnum::Space(None, None)
                    } else {
                        b[r][c]
                    },
            ),
    )
}

/// The board after one trial at `(i, j)`, or `None` when the trial does not
/// apply: a link that the cell already has, one off the grid, or one toward
/// a neighbor that cannot take a link back. A link also gives the neighbor
/// its link back.
pub open spec fn apply_trial(b: Grid, i: int, j: int, t: Option<DirectionEnum>) -> Option<Grid> {
    match t {
        None => Some(place_wall(b, i, j)),
        Some(d) => if has_link(b[i][j], d) {
            None
        } else {
            match step_target(b, i, j, d) {
                None => None,
                Some(n) => if is_open(b[n.0][n.1]) {
                    Some(
                        with_cell(
                            with_cell(b, n.0, n.1, linked(b[n.0][n.1], opposite(d))),
                            i,
                            j,
                            linked(b[i][j], d),
                        ),
                    )
                } else {
                    None
                },
            }
        },
    }
}

/// How much is left to decide in a cell: three for an unknown cell, one for
/// each free link slot of a space.
pub open spec fn cell_weight(x: CellEnum) -> nat {
    match x {
        CellEnum::Unknown => 3,
        CellEnum::Space(p, q) => (if p is None {
            1nat
        } else {
            0
        }) + (if q is None {
            1nat
        } else {
            0
        }),
        CellEnum::Wall(_) => 0,
    }
}

pub open spec fn row_weight(s: Seq<CellEnum>) -> nat
    decreases s.len(),
{
    if s.len() == 0 {
        0
    } else {
        row_weight(s.drop_last()) + cell_weight(s.last())
    }
}

/// How much is left to decide on the board; every trial lowers it.
pub open spec fn grid_weight(b: Grid) -> nat
    decreases b.len(),
{
    if b.len() == 0 {
        0
    } else {
        grid_weight(b.drop_last()) + row_weight(b.last())
    }
}

/// The outcome of the depth-first search from `b`: the board's own
/// contradiction, the board itself when complete, else the first complete
/// board reached by the trials of its first open cell, in order, or no
/// answer.
pub open spec fn search(b: Grid) -> (CheckResultEnum, Option<Grid>)
    decreases grid_weight(b), 6int,
    when is_rect(b)
{
    match verdict(b) {
        CheckResultEnum::Invalid(x) => (CheckResultEnum::Invalid(x), None),
        CheckResultEnum::Complete => (CheckResultEnum::Complete, Some(b)),
        CheckResultEnum::Valid => match first_open(b) {
            None => (CheckResultEnum::Invalid(CheckResultInvalidEnum::NoAnswer), None),
            Some(p) => {
                proof {
                    lemma_first_open(b);
                }
                search_from(b, p.0, p.1, 0)
            },
        },
    }
}

/// The outcome of the search from `b` when the trials before the `k`-th at
/// `(i, j)` have found nothing.
pub open spec fn search_from(b: Grid, i: int, j: int, k: nat) -> (CheckResultEnum, Option<Grid>)
    decreases grid_weight(b), 5 - k,
    when is_rect(b) && in_grid(b, i, j) && is_open(b[i][j]) && k <= 5
{
    let ts = trials(b[i][j]);
    if k >= ts.len() {
        (CheckResultEnum::Invalid(CheckResultInvalidEnum::NoAnswer), None)
    } else {
        match apply_trial(b, i, j, ts[k as int]) {
            None => search_from(b, i, j, k + 1),
            Some(nb) => {
                proof {
                    lemma_trial_lowers_weight(b, i, j, ts[k as int]);
                }
                let r = search(nb);
                if r.0 is Complete {
                    r
                } else {
                    search_from(b, i, j, k + 1)
                }
            },
        }
    }
}

proof fn lemma_open_before(b: Grid, r: nat, c: nat)
    requires
        is_rect(b),
        r <= height(b),
        c <= width(b),
        r == height(b) ==> c == 0,
    ensures
        open_before(b, r, c) matches Some(p) ==> in_grid(b, p.0, p.1) && is_open(b[p.0][p.1]),
    decreases r, c,
{
    if c > 0 {
        lemma_open_before(b, r, (c - 1) as nat);
    } else if r > 0 {
        lemma_open_before(b, (r - 1) as nat, width(b) as nat);
    }
}

/// The first open cell lies on the grid and is open.
pub proof fn lemma_first_open(b: Grid)
    requires
        is_rect(b),
    ensures
        first_open(b) matches Some(p) ==> in_grid(b, p.0, p.1) && is_open(b[p.0][p.1]),
{
    lemma_open_before(b, height(b) as nat, 0);
}

proof fn lemma_row_weight_le(s: Seq<CellEnum>, t: Seq<CellEnum>)
    requires
        s.len() == t.len(),
        forall|k: int| 0 <= k < s.len() ==> cell_weight(#[trigger] t[k]) <= cell_weight(s[k]),
    ensures
        row_weight(t) <= row_weight(s),
        (exists|k: int| 0 <= k < s.len() && cell_weight(#[trigger] t[k]) < cell_weight(s[k]))
            ==> row_weight(t) < row_weight(s),
    decreases s.len(),
{
    if s.len() > 0 {
        let s2 = s.drop_last();
        let t2 = t.drop_last();
        assert forall|k: int| 0 <= k < s2.len() implies cell_weight(#[trigger] t2[k]) <= cell_weight(
            s2[k],
        ) by {
            assert(t2[k] == t[k] && s2[k] == s[k]);
        }
        lemma_row_weight_le(s2, t2);
        if exists|k: int| 0 <= k < s.len() && cell_weight(#[trigger] t[k]) < cell_weight(s[k]) {
            let k = choose|k: int| 0 <= k < s.len() && cell_weight(#[trigger] t[k]) < cell_weight(
                s[k],
            );
            if k < s2.len() {
                assert(t2[k] == t[k] && s2[k] == s[k]);
            }
        }
    }
}

/// A board whose cells each weigh no more than those of `b`, and one of
/// them less, weighs less than `b`.
proof fn lemma_grid_weight_lt(b: Grid, nb: Grid, i: int, j: int)
    requires
        b.len() == nb.len(),
        forall|r: int| 0 <= r < b.len() ==> #[trigger] nb[r].len() == b[r].len(),
        forall|r: int, c: int|
            0 <= r < b.len() && 0 <= c < b[r].len() ==> cell_weight(#[trigger] nb[r][c])
                <= cell_weight(b[r][c]),
        0 <= i < b.len(),
        0 <= j < b[i].len(),
        cell_weight(nb[i][j]) < cell_weight(b[i][j]),
    ensures
        grid_weight(nb) < grid_weight(b),
    decreases b.len(),
{
    let last = b.len() - 1;
    let b2 = b.drop_last();
    let nb2 = nb.drop_last();
    assert forall|c: int| 0 <= c < b[last].len() implies cell_weight(#[trigger] nb[last][c])
        <= cell_weight(b[last][c]) by {}
    lemma_row_weight_le(b[last], nb[last]);
    if i == last {
        assert(cell_weight(nb[last][j]) < cell_weight(b[last][j]));
        lemma_grid_weight_le(b2, nb2);
    } else {
        assert forall|r: int| 0 <= r < b2.len() implies #[trigger] nb2[r].len() == b2[r].len() by {
            assert(nb2[r] == nb[r] && b2[r] == b[r]);
        }
        assert forall|r: int, c: int|
            0 <= r < b2.len() && 0 <= c < b2[r].len() implies cell_weight(#[trigger] nb2[r][c])
            <= cell_weight(b2[r][c]) by {
            assert(nb2[r] == nb[r] && b2[r] == b[r]);
        }
        lemma_grid_weight_lt(b2, nb2, i, j);
    }
}

proof fn lemma_grid_weight_le(b: Grid, nb: Grid)
    requires
        b.len() == nb.len(),
        forall|r: int| 0 <= r < b.len() ==> #[trigger] nb[r].len() == b[r].len(),
        forall|r: int, c: int|
            0 <= r < b.len() && 0 <= c < b[r].len() ==> cell_weight(#[trigger] nb[r][c])
                <= cell_weight(b[r][c]),
    ensures
        grid_weight(nb) <= grid_weight(b),
    decreases b.len(),
{
    if b.len() > 0 {
        let last = b.len() - 1;
        let b2 = b.drop_last();
        let nb2 = nb.drop_last();
        assert forall|c: int| 0 <= c < b[last].len() implies cell_weight(#[trigger] nb[last][c])
            <= cell_weight(b[last][c]) by {}
        lemma_row_weight_le(b[last], nb[last]);
        assert forall|r: int| 0 <= r < b2.len() implies #[trigger] nb2[r].len() == b2[r].len() by {
            assert(nb2[r] == nb[r] && b2[r] == b[r]);
        }
        assert forall|r: int, c: int|
            0 <= r < b2.len() && 0 <= c < b2[r].len() implies cell_weight(#[trigger] nb2[r][c])
            <= cell_weight(b2[r][c]) by {
            assert(nb2[r] == nb[r] && b2[r] == b[r]);
        }
        lemma_grid_weight_le(b2, nb2);
    }
}

/// A trial that applies keeps the board rectangular and lowers its weight.
pub proof fn lemma_trial_lowers_weight(b: Grid, i: int, j: int, t: Option<DirectionEnum>)
    requires
        is_rect(b),
        in_grid(b, i, j),
        is_open(b[i][j]),
        trials(b[i][j]).contains(t),
        apply_trial(b, i, j, t) is Some,
    ensures
        ({
            let nb = apply_trial(b, i, j, t)->0;
            &&& is_rect(nb)
            &&& height(nb) == height(b)
            &&& width(nb) == width(b)
            &&& grid_weight(nb) < grid_weight(b)
        }),
{
    let nb = apply_trial(b, i, j, t)->0;
    assert(b[i].len() == width(b));
    match t {
        None => {
            assert(b[i][j] is Unknown);
        },
        Some(d) => {
            let n = step_target(b, i, j, d)->0;
            assert(b[n.0].len() == width(b));
        },
    }
    assert(nb.len() == b.len());
    assert forall|r: int| 0 <= r < b.len() implies #[trigger] nb[r].len() == b[r].len() by {}
    assert(is_rect(nb));
    lemma_grid_weight_lt(b, nb, i, j);
}

fn is_open_cell(x: CellEnum) -> (r: bool)
    ensures
        r == is_open(x),
{
    match x {
        CellEnum::Unknown => true,
        CellEnum::Space(p, q) => p.is_none() || q.is_none(),
        _ => false,
    }
}

fn has_link_cell(x: CellEnum, d: DirectionEnum) -> (r: bool)
    ensures
        r == has_link(x, d),
{
    match x {
        CellEnum::Space(p, q) => p == Some(d) || q == Some(d),
        _ => false,
    }
}

fn linked_cell(x: CellEnum, d: DirectionEnum) -> (r: CellEnum)
    ensures
        r == linked(x, d),
{
    match x {
        CellEnum::Space(Some(a), None) => CellEnum::Space(Some(a), Some(d)),
        CellEnum::Space(None, Some(a)) => CellEnum::Space(Some(d), Some(a)),
        _ => CellEnum::Space(Some(d), None),
    }
}

fn trial_list(x: CellEnum) -> (r: Vec<Option<DirectionEnum>>)
    ensures
        r@ == trials(x),
{
    let mut r: Vec<Option<DirectionEnum>> = Vec::new();
    if !is_open_cell(x) {
        assert(r@ =~= trials(x));
        return r;
    }
    if let CellEnum::Unknown = x {
        r.push(None);
    }
    r.push(Some(DirectionEnum::Up));
    r.push(Some(DirectionEnum::Down));
    r.push(Some(DirectionEnum::Left));
    r.push(Some(DirectionEnum::Right));
    assert(r@ =~= trials(x));
    r
}

/// The first open cell in row-major order.
fn first_open_cell(board: &Board) -> (r: Option<(usize, usize)>)
    requires
        board.wf(),
    ensures
        match r {
            Some(p) => first_open(board@) == Some((p.0 as int, p.1 as int)),
            None => first_open(board@) is None,
        },
{
    let h = board.height();
    let w = board.width();
    let mut i: usize = 0;
    while i < h
        invariant
            board.wf(),
            h == height(board@),
            w == width(board@),
            i <= h,
            open_before(board@, i as nat, 0) is None,
        decreases h - i,
    {
        let mut j: usize = 0;
        while j < w
            invariant
                board.wf(),
                h == height(board@),
                w == width(board@),
                i < h,
                j <= w,
                open_before(board@, i as nat, j as nat) is None,
            decreases w - j,
        {
            if is_open_cell(board.get(i, j)) {
                assert(open_before(board@, i as nat, (j + 1) as nat) == Some((i as int, j as int)));
                proof {
                    lemma_found_stays(board@, i as nat, (j + 1) as nat, h as nat, 0);
                }
                return Some((i, j));
            }
            j += 1;
        }
        assert(open_before(board@, (i + 1) as nat, 0) == open_before(board@, i as nat, w as nat));
        i += 1;
    }
    None
}

/// Once an open cell is found, later positions find the same one.
proof fn lemma_found_stays(b: Grid, r: nat, c: nat, r2: nat, c2: nat)
    requires
        open_before(b, r, c) is Some,
        r < r2 || (r == r2 && c <= c2),
        c <= width(b),
    ensures
        open_before(b, r2, c2) == open_before(b, r, c),
    decreases r2, c2,
{
    if r == r2 && c == c2 {
    } else if c2 > 0 {
        lemma_found_stays(b, r, c, r2, (c2 - 1) as nat);
    } else {
        lemma_found_stays(b, r, c, (r2 - 1) as nat, width(b) as nat);
    }
}

/// Whether the position two steps from `(i, j)` in direction `d` is a
/// wall-kind cell or lies just beyond the edge.
fn pinched_toward(board: &Board, i: usize, j: usize, d: DirectionEnum) -> (r: bool)
    requires
        board.wf(),
        in_grid(board@, i as int, j as int),
        step_target(board@, i as int, j as int, d) is Some,
    ensures
        r == pinched(board@, i + 2 * delta(d).0, j + 2 * delta(d).1),
{
    let h = board.height();
    let w = board.width();
    let target = match d {
        DirectionEnum::Up => if i >= 2 {
            Some((i - 2, j))
        } else {
            None
        },
        DirectionEnum::Down => if h - i > 2 {
            Some((i + 2, j))
        } else {
            None
        },
        DirectionEnum::Left => if j >= 2 {
            Some((i, j - 2))
        } else {
            None
        },
        _ => if w - j > 2 {
            Some((i, j + 2))
        } else {
            None
        },
    };
    match target {
        Some(t) => match board.get(t.0, t.1) {
            CellEnum::Wall(_) => true,
            _ => false,
        },
        None => true,
    }
}

/// Whether placing a wall at `(i, j)` forces the cell `(r, c)` to be a space.
fn forced_space_at(board: &Board, i: usize, j: usize, r: usize, c: usize) -> (f: bool)
    requires
        board.wf(),
        in_grid(board@, i as int, j as int),
        in_grid(board@, r as int, c as int),
    ensures
        f == forced_space(board@, i as int, j as int, r as int, c as int),
{
    let up = i > 0 && r == i - 1;
    let down = r > 0 && r - 1 == i;
    let left = j > 0 && c == j - 1;
    let right = c > 0 && c - 1 == j;
    if (r == i && (left || right)) || (c == j && (up || down)) {
        return true;
    }
    if (up || down) && (left || right) {
        let vertical = if up {
            DirectionEnum::Up
        } else {
            DirectionEnum::Down
        };
        let horizontal = if left {
            DirectionEnum::Left
        } else {
            DirectionEnum::Right
        };
        pinched_toward(board, i, j, vertical) || pinched_toward(board, i, j, horizontal)
    } else {
        false
    }
}

/// The board after making `(i, j)` a plain wall (see `place_wall`).
fn place_wall_at(board: &Board, i: usize, j: usize) -> (nb: Board)
    requires
        board.wf(),
        in_grid(board@, i as int, j as int),
    ensures
        nb@ == place_wall(board@, i as int, j as int),
{
    let ghost target = place_wall(board@, i as int, j as int);
    let h = board.height();
    let w = board.width();
    let mut rows: Vec<Vec<CellEnum>> = Vec::new();
    let mut r: usize = 0;
    while r < h
        invariant
            board.wf(),
            h == height(board@),
            w == width(board@),
            in_grid(board@, i as int, j as int),
            target == place_wall(board@, i as int, j as int),
            r <= h,
            rows@.len() == r,
            forall|k: int| 0 <= k < r ==> #[trigger] rows@[k]@ == target[k],
        decreases h - r,
    {
        assert(board@[r as int].len() == w);
        let mut row: Vec<CellEnum> = Vec::new();
        let mut c: usize = 0;
        while c < w
            invariant
                board.wf(),
                h == height(board@),
                w == width(board@),
                in_grid(board@, i as int, j as int),
                target == place_wall(board@, i as int, j as int),
                r < h,
                board@[r as int].len() == w,
                c <= w,
                row@ == target[r as int].subrange(0, c as int),
            decreases w - c,
        {
            let x = board.get(r, c);
            let y = if r == i && c == j {
                CellEnum::Wall(WallEnum::Wall)
            } else if x == CellEnum::Unknown && forced_space_at(board, i, j, r, c) {
                CellEnum::Space(None, None)
            } else {
                x
            };
            row.push(y);
            c += 1;
            assert(row@ =~= target[r as int].subrange(0, c as int));
        }
        assert(row@ =~= target[r as int]);
        rows.push(row);
        r += 1;
    }
    let nb = Board(rows);
    assert(nb@ =~= target);
    nb
}

/// The board after one trial at `(i, j)` (see `apply_trial`).
fn apply_trial_at(board: &Board, i: usize, j: usize, t: Option<DirectionEnum>) -> (r: Option<Board>)
    requires
        board.wf(),
        in_grid(board@, i as int, j as int),
    ensures
        board_view(r) == apply_trial(board@, i as int, j as int, t),
{
    match t {
        None => Some(place_wall_at(board, i, j)),
        Some(d) => {
            let x = board.get(i, j);
            if has_link_cell(x, d) {
                return None;
            }
            match step_toward(board.height(), board.width(), i, j, d) {
                None => {
                    assert(step_target(board@, i as int, j as int, d) is None);
                    None
                },
                Some(n) => {
                    assert(step_target(board@, i as int, j as int, d) == Some(
                        (n.0 as int, n.1 as int),
                    ));
                    let y = board.get(n.0, n.1);
                    if !is_open_cell(y) {
                        return None;
                    }
                    let mut nb = board.copy();
                    nb.set(n.0, n.1, linked_cell(y, d.reverse()));
                    nb.set(i, j, linked_cell(x, d));
                    Some(nb)
                },
            }
        },
    }
}

/// Searches depth-first for a complete board that extends `board`.
///
/// A contradiction of the board itself is returned as it is, with no
/// board. A complete board is returned with a copy of itself. Otherwise the
/// first open cell in row-major order is tried, in order, as a wall (only
/// when unknown) and as a link up, down, left and right; each trial that
/// applies is searched on its own copy, and the first complete result is
/// returned. When none is found the result is `NoAnswer` with no board.
pub fn solve(board: &Board) -> (r: (CheckResultEnum, Option<Board>))
    requires
        board.wf(),
    ensures
        r.0 == search(board@).0,
        board_view(r.1) == search(board@).1,
        r.1 matches Some(nb) ==> nb.wf(),
    decreases grid_weight(board@),
{
    let result = check(board);
    match result {
        CheckResultEnum::Invalid(_) => {
            return (result, None);
        },
        CheckResultEnum::Complete => {
            return (result, Some(board.copy()));
        },
        CheckResultEnum::Valid => {},
    }
    proof {
        lemma_first_open(board@);
    }
    match first_open_cell(board) {
        None => (CheckResultEnum::Invalid(CheckResultInvalidEnum::NoAnswer), None),
        Some(p) => {
            let (i, j) = p;
            let ts = trial_list(board.get(i, j));
            let mut k: usize = 0;
            while k < ts.len()
                invariant
                    board.wf(),
                    in_grid(board@, i as int, j as int),
                    is_open(board@[i as int][j as int]),
                    ts@ == trials(board@[i as int][j as int]),
                    k <= ts@.len(),
                    search(board@) == search_from(board@, i as int, j as int, k as nat),
                decreases ts@.len() - k,
            {
                let t = ts[k];
                match apply_trial_at(board, i, j, t) {
                    None => {},
                    Some(nb) => {
                        proof {
                            assert(trials(board@[i as int][j as int])[k as int] == t);
                            lemma_trial_lowers_weight(board@, i as int, j as int, t);
                        }
                        let (res, found) = solve(&nb);
                        if let CheckResultEnum::Complete = res {
                            return (res, found);
                        }
                    },
                }
                k += 1;
            }
            (CheckResultEnum::Invalid(CheckResultInvalidEnum::NoAnswer), None)
        },
    }
}

/// What the search can end in: a complete, rectangular board, or a
/// contradiction with no board.
pub open spec fn search_result_ok(r: (CheckResultEnum, Option<Grid>)) -> bool {
    match r.1 {
        Some(nb) => r.0 == CheckResultEnum::Complete && is_rect(nb) && verdict(nb)
            == CheckResultEnum::Complete,
        None => r.0 is Invalid,
    }
}

/// No two wall-kind cells of `b` are orthogonally adjacent.
pub open spec fn walls_apart(b: Grid) -> bool {
    forall|r: int, c: int, d: DirectionEnum|
        in_grid(b, r, c) && is_wall_kind(b[r][c]) ==> !#[trigger] wall_toward(b, r, c, d)
}

/// Every hint of `b` with a direction and a count is met.
pub open spec fn hints_met(b: Grid) -> bool {
    forall|r: int, c: int| in_grid(b, r, c) ==> #[trigger] hint_met(b, r, c)
}

/// Every link of every space of `b` is returned.
pub open spec fn links_returned(b: Grid) -> bool {
    forall|r: int, c: int| in_grid(b, r, c) ==> #[trigger] links_reciprocal(b, r, c)
}

proof fn lemma_search_result(b: Grid)
    requires
        is_rect(b),
    ensures
        search_result_ok(search(b)),
        verdict(b) is Valid ==> search(b).0 == CheckResultEnum::Complete || search(b).0
            == CheckResultEnum::Invalid(CheckResultInvalidEnum::NoAnswer),
    decreases grid_weight(b), 6int,
{
    if verdict(b) is Valid {
        lemma_first_open(b);
        if let Some(p) = first_open(b) {
            lemma_search_from_result(b, p.0, p.1, 0);
        }
    }
}

proof fn lemma_search_from_result(b: Grid, i: int, j: int, k: nat)
    requires
        is_rect(b),
        in_grid(b, i, j),
        is_open(b[i][j]),
        k <= 5,
    ensures
        search_result_ok(search_from(b, i, j, k)),
        search_from(b, i, j, k).0 == CheckResultEnum::Complete || search_from(b, i, j, k).0
            == CheckResultEnum::Invalid(CheckResultInvalidEnum::NoAnswer),
    decreases grid_weight(b), 5 - k,
{
    let ts = trials(b[i][j]);
    if k < ts.len() {
        lemma_search_from_result(b, i, j, k + 1);
        if let Some(nb) = apply_trial(b, i, j, ts[k as int]) {
            assert(ts.contains(ts[k as int]));
            lemma_trial_lowers_weight(b, i, j, ts[k as int]);
            lemma_search_result(nb);
        }
    }
}

/// The search ends in exactly one of two ways: a complete board, on which
/// no two walls touch, every hint with a count is met and every link is
/// returned; or a contradiction with no board, which is `NoAnswer` whenever
/// the board given was itself free of contradiction. (That it ends at all is
/// the `decreases` of `solve`: every trial lowers `grid_weight`.)
pub proof fn search_ends_complete_or_no_answer(b: Grid)
    requires
        is_rect(b),
    ensures
        match search(b).1 {
            Some(nb) => {
                &&& search(b).0 == CheckResultEnum::Complete
                &&& is_rect(nb)
                &&& verdict(nb) == CheckResultEnum::Complete
                &&& walls_apart(nb)
                &&& hints_met(nb)
                &&& links_returned(nb)
            },
            None => search(b).0 is Invalid,
        },
        verdict(b) is Valid ==> search(b).0 == CheckResultEnum::Complete || search(b).0
            == CheckResultEnum::Invalid(CheckResultInvalidEnum::NoAnswer),
{
    lemma_search_result(b);
    if let Some(nb) = search(b).1 {
        complete_board_walls_apart(nb);
        complete_board_hints_met(nb);
        complete_board_links_reciprocal(nb);
    }
}

/// Two searches from boards with the same cells give the same
/// classification and the same board.
pub proof fn search_is_deterministic(b1: Grid, b2: Grid)
    requires
        b1 == b2,
    ensures
        search(b1) == search(b2),
{
}

/// `y` keeps what `x` fixed: the same wall or hint; the same doubly linked
/// space; for a space with one link, a space with that link in the same
/// slot; for an unlinked space, a space.
pub open spec fn keeps(x: CellEnum, y: CellEnum) -> bool {
    match x {
        CellEnum::Wall(_) => y == x,
        CellEnum::Space(Some(_), Some(_)) => y == x,
        CellEnum::Space(Some(p), None) => y matches CellEnum::Space(Some(p2), _) && p2 == p,
        CellEnum::Space(None, Some(q)) => y matches CellEnum::Space(_, Some(q2)) && q2 == q,
        CellEnum::Space(None, None) => y is Space,
        CellEnum::Unknown => true,
    }
}

/// `nb` has the shape of `b` and keeps each of its cells.
pub open spec fn extends(b: Grid, nb: Grid) -> bool {
    &&& nb.len() == b.len()
    &&& forall|r: int| 0 <= r < b.len() ==> #[trigger] nb[r].len() == b[r].len()
    &&& forall|r: int, c: int| 0 <= r < b.len() && 0 <= c < b[r].len() ==> keeps(b[r][c], #[trigger] nb[r][c])
}

proof fn lemma_extends_trans(a: Grid, b: Grid, c: Grid)
    requires
        extends(a, b),
        extends(b, c),
    ensures
        extends(a, c),
{
    assert forall|r: int, k: int| 0 <= r < a.len() && 0 <= k < a[r].len() implies keeps(
        a[r][k],
        #[trigger] c[r][k],
    ) by {
        assert(keeps(a[r][k], b[r][k]));
        assert(keeps(b[r][k], c[r][k]));
    }
}

proof fn lemma_extends_refl(b: Grid)
    ensures
        extends(b, b),
{
    assert forall|r: int, k: int| 0 <= r < b.len() && 0 <= k < b[r].len() implies keeps(
        b[r][k],
        #[trigger] b[r][k],
    ) by {}
}

proof fn lemma_trial_extends(b: Grid, i: int, j: int, t: Option<DirectionEnum>)
    requires
        is_rect(b),
        in_grid(b, i, j),
        is_open(b[i][j]),
        trials(b[i][j]).contains(t),
        apply_trial(b, i, j, t) is Some,
    ensures
        extends(b, apply_trial(b, i, j, t)->0),
{
    let nb = apply_trial(b, i, j, t)->0;
    lemma_trial_lowers_weight(b, i, j, t);
    assert(b[i].len() == width(b));
    assert forall|r: int, c: int| 0 <= r < b.len() && 0 <= c < b[r].len() implies keeps(
        b[r][c],
        #[trigger] nb[r][c],
    ) by {
        assert(b[r].len() == width(b));
        match t {
            None => {
                assert(b[i][j] is Unknown);
            },
            Some(d) => {
                let n = step_target(b, i, j, d)->0;
                assert(b[n.0].len() == width(b));
            },
        }
    }
}

proof fn lemma_search_extends(b: Grid)
    requires
        is_rect(b),
    ensures
        search(b).1 matches Some(nb) ==> extends(b, nb),
    decreases grid_weight(b), 6int,
{
    if verdict(b) is Complete {
        lemma_extends_refl(b);
    } else if verdict(b) is Valid {
        lemma_first_open(b);
        if let Some(p) = first_open(b) {
            lemma_search_from_extends(b, p.0, p.1, 0);
        }
    }
}

proof fn lemma_search_from_extends(b: Grid, i: int, j: int, k: nat)
    requires
        is_rect(b),
        in_grid(b, i, j),
        is_open(b[i][j]),
        k <= 5,
    ensures
        search_from(b, i, j, k).1 matches Some(nb) ==> extends(b, nb),
    decreases grid_weight(b), 5 - k,
{
    let ts = trials(b[i][j]);
    if k < ts.len() {
        lemma_search_from_extends(b, i, j, k + 1);
        if let Some(nb) = apply_trial(b, i, j, ts[k as int]) {
            assert(ts.contains(ts[k as int]));
            lemma_trial_lowers_weight(b, i, j, ts[k as int]);
            lemma_trial_extends(b, i, j, ts[k as int]);
            lemma_search_extends(nb);
            if let Some(f) = search(nb).1 {
                lemma_extends_trans(b, nb, f);
            }
        }
    }
}

/// The board that the search returns has the shape of the board it started
/// from and keeps every wall, every hint and every link that was given,
/// each link in its slot (see `keeps`).
pub proof fn solution_keeps_givens(b: Grid)
    requires
        is_rect(b),
    ensures
        search(b).1 matches Some(nb) ==> extends(b, nb),
{
    lemma_search_extends(b);
}

proof fn lemma_row_weight_bound(s: Seq<CellEnum>)
    ensures
        row_weight(s) <= 3 * s.len(),
    decreases s.len(),
{
    if s.len() > 0 {
        lemma_row_weight_bound(s.drop_last());
    }
}

proof fn lemma_grid_weight_bound(b: Grid, w: int)
    requires
        w >= 0,
        forall|r: int| 0 <= r < b.len() ==> #[trigger] b[r].len() == w,
    ensures
        grid_weight(b) <= 3 * w * b.len(),
    decreases b.len(),
{
    if b.len() > 0 {
        let b2 = b.drop_last();
        assert forall|r: int| 0 <= r < b2.len() implies #[trigger] b2[r].len() == w by {
            assert(b2[r] == b[r]);
        }
        lemma_grid_weight_bound(b2, w);
        lemma_row_weight_bound(b.last());
        let n = b.len() as int;
        assert(3 * w * (n - 1) + 3 * w == 3 * w * n) by (nonlinear_arith);
    }
}

/// The search nests at most three calls per cell deep: a board weighs at
/// most three per cell, and every trial that the search follows lowers the
/// weight (`lemma_trial_lowers_weight`), which stays a natural number.
pub proof fn search_depth_bound(b: Grid)
    requires
        is_rect(b),
    ensures
        grid_weight(b) <= 3 * height(b) * width(b),
{
    lemma_grid_weight_bound(b, width(b));
    assert(3 * width(b) * b.len() == 3 * height(b) * width(b)) by (nonlinear_arith);
}

} // verus!
