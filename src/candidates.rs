use vstd::prelude::*;
use crate::grid::{Board, CellEnum, DirectionEnum, Grid, WallEnum, in_grid, step_target, step_toward};

verus! {

/// The neighbor of `(r, c)` in direction `d` lies on the grid and can take a
/// link: it is unknown, or a space whose second link slot is free.
pub open spec fn link_available(b: Grid, r: int, c: int, d: DirectionEnum) -> bool {
    match step_target(b, r, c, d) {
        Some(t) => match b[t.0][t.1] {
            CellEnum::Unknown => true,
            CellEnum::Space(_, None) => true,
            _ => false,
        },
        None => false,
    }
}

/// `x` alone when `p` holds, else nothing.
pub open spec fn only_if(p: bool, x: CellEnum) -> Seq<CellEnum> {
    if p {
        seq![x]
    } else {
        Seq::empty()
    }
}

/// The second link toward `d` for a space whose one link points to `a`.
pub open spec fn second_link(b: Grid, r: int, c: int, a: DirectionEnum, d: DirectionEnum, first: bool) -> Seq<CellEnum> {
    only_if(
        d != a && link_available(b, r, c, d),
        if first {
            CellEnum::Space(Some(a), Some(d))
        } else {
            CellEnum::Space(Some(d), Some(a))
        },
    )
}

/// Completions of a space with one link `a`: one per other available
/// direction, up, down, left, right. `first` says whether `a` is held in the
/// first slot, where it stays.
pub open spec fn half_linked_candidates(b: Grid, r: int, c: int, a: DirectionEnum, first: bool) -> Seq<CellEnum> {
    second_link(b, r, c, a, DirectionEnum::Up, first) + second_link(b, r, c, a, DirectionEnum::Down, first)
        + second_link(b, r, c, a, DirectionEnum::Left, first) + second_link(b, r, c, a, DirectionEnum::Right, first)
}

pub open spec fn link_pair(b: Grid, r: int, c: int, x: DirectionEnum, y: DirectionEnum) -> Seq<CellEnum> {
    only_if(
        link_available(b, r, c, x) && link_available(b, r, c, y),
        CellEnum::Space(Some(x), Some(y)),
    )
}

/// One candidate per unordered pair of distinct available directions, in
/// the order up, down, left, right.
pub open spec fn unlinked_candidates(b: Grid, r: int, c: int) -> Seq<CellEnum> {
    link_pair(b, r, c, DirectionEnum::Up, DirectionEnum::Down) + link_pair(b, r, c, DirectionEnum::Up, DirectionEnum::Left)
        + link_pair(b, r, c, DirectionEnum::Up, DirectionEnum::Right) + link_pair(b, r, c, DirectionEnum::Down, DirectionEnum::Left)
        + link_pair(b, r, c, DirectionEnum::Down, DirectionEnum::Right) + link_pair(b, r, c, DirectionEnum::Left, DirectionEnum::Right)
}

/// The states that the cell `(r, c)` may take next, the other cells held
/// fixed.
pub open spec fn candidate_cells(b: Grid, r: int, c: int) -> Seq<CellEnum> {
    match b[r][c] {
        CellEnum::Wall(_) => Seq::empty(),
        CellEnum::Space(Some(_), Some(_)) => Seq::empty(),
        CellEnum::Space(Some(a), None) => half_linked_candidates(b, r, c, a, true),
        CellEnum::Space(None, Some(a)) => half_linked_candidates(b, r, c, a, false),
        CellEnum::Space(None, None) => unlinked_candidates(b, r, c),
        CellEnum::Unknown => unlinked_candidates(b, r, c).push(CellEnum::Wall(WallEnum::Wall)),
    }
}

fn link_available_at(board: &Board, i: usize, j: usize, d: DirectionEnum) -> (r: bool)
    requires
        board.wf(),
        in_grid(board@, i as int, j as int),
    ensures
        r == link_available(board@, i as int, j as int, d),
{
    match step_toward(board.height(), board.width(), i, j, d) {
        Some(t) => {
            assert(step_target(board@, i as int, j as int, d) == Some((t.0 as int, t.1 as int)));
            match board.get(t.0, t.1) {
                CellEnum::Unknown => true,
                CellEnum::Space(_, None) => true,
                _ => false,
            }
        },
        None => {
            assert(step_target(board@, i as int, j as int, d) is None);
            false
        },
    }
}

fn push_if(out: &mut Vec<CellEnum>, p: bool, x: CellEnum)
    ensures
        final(out)@ == old(out)@ + only_if(p, x),
{
    if p {
        out.push(x);
    }
    assert(final(out)@ =~= old(out)@ + only_if(p, x));
}

fn push_second_link(
    out: &mut Vec<CellEnum>,
    board: &Board,
    i: usize,
    j: usize,
    a: DirectionEnum,
    d: DirectionEnum,
    first: bool,
)
    requires
        board.wf(),
        in_grid(board@, i as int, j as int),
    ensures
        final(out)@ == old(out)@ + second_link(board@, i as int, j as int, a, d, first),
{
    let cell = if first {
        CellEnum::Space(Some(a), Some(d))
    } else {
        CellEnum::Space(Some(d), Some(a))
    };
    let ok = d != a && link_available_at(board, i, j, d);
    push_if(out, ok, cell);
}

fn push_second_links(out: &mut Vec<CellEnum>, board: &Board, i: usize, j: usize, a: DirectionEnum, first: bool)
    requires
        board.wf(),
        in_grid(board@, i as int, j as int),
    ensures
        final(out)@ == old(out)@ + half_linked_candidates(board@, i as int, j as int, a, first),
{
    let ghost start = out@;
    push_second_link(out, board, i, j, a, DirectionEnum::Up, first);
    push_second_link(out, board, i, j, a, DirectionEnum::Down, first);
    push_second_link(out, board, i, j, a, DirectionEnum::Left, first);
    push_second_link(out, board, i, j, a, DirectionEnum::Right, first);
    assert(out@ =~= start + half_linked_candidates(board@, i as int, j as int, a, first));
}

/// The concrete states that the cell `(i, j)` may take next, given the other
/// cells of the board: nothing for a wall-kind or doubly linked cell; the
/// second links toward available neighbors for a space with one link; one
/// candidate per unordered pair of available directions for an unlinked
/// space; for an unknown cell those pairs followed by a plain wall. A
/// direction is available when its neighbor is on the grid and is unknown
/// or a space with a free second slot.
pub fn candidates(board: &Board, i: usize, j: usize) -> (r: Vec<CellEnum>)
    requires
        board.wf(),
        in_grid(board@, i as int, j as int),
    ensures
        r@ == candidate_cells(board@, i as int, j as int),
{
    let mut out: Vec<CellEnum> = Vec::new();
    let x = board.get(i, j);
    match x {
        CellEnum::Wall(_) | CellEnum::Space(Some(_), Some(_)) => {},
        CellEnum::Space(Some(a), None) => {
            push_second_links(&mut out, board, i, j, a, true);
        },
        CellEnum::Space(None, Some(a)) => {
            push_second_links(&mut out, board, i, j, a, false);
        },
        CellEnum::Space(None, None) | CellEnum::Unknown => {
            let up = link_available_at(board, i, j, DirectionEnum::Up);
            let down = link_available_at(board, i, j, DirectionEnum::Down);
            let left = link_available_at(board, i, j, DirectionEnum::Left);
            let right = link_available_at(board, i, j, DirectionEnum::Right);
            push_if(&mut out, up && down, CellEnum::Space(Some(DirectionEnum::Up), Some(DirectionEnum::Down)));
            push_if(&mut out, up && left, CellEnum::Space(Some(DirectionEnum::Up), Some(DirectionEnum::Left)));
            push_if(&mut out, up && right, CellEnum::Space(Some(DirectionEnum::Up), Some(DirectionEnum::Right)));
            push_if(&mut out, down && left, CellEnum::Space(Some(DirectionEnum::Down), Some(DirectionEnum::Left)));
            push_if(&mut out, down && right, CellEnum::Space(Some(DirectionEnum::Down), Some(DirectionEnum::Right)));
            push_if(&mut out, left && right, CellEnum::Space(Some(DirectionEnum::Left), Some(DirectionEnum::Right)));
            assert(out@ =~= unlinked_candidates(board@, i as int, j as int));
            if let CellEnum::Unknown = x {
                out.push(CellEnum::Wall(WallEnum::Wall));
            }
        },
    }
    assert(out@ =~= candidate_cells(board@, i as int, j as int));
    out
}

} // verus!
