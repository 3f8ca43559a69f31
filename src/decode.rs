use vstd::prelude::*;
use vstd::string::StrSliceExecFns;
use crate::grid::{Board, CellEnum, DirectionEnum, Grid, WallEnum, direction_of_code, dir_to_direction_enum};

verus! {

/// Why a puzzle string could not be decoded.
#[derive(Clone, Copy, Debug, PartialEq, Eq, Structural)]
pub enum DecodeError {
    /// The string lacks the `width/height/body` fields.
    MissingField,
    /// A width or height is not an unsigned decimal number that fits in
    /// `usize`, or the number of cells does not.
    BadDimension,
    /// The body holds a character that starts no token, or a token is cut
    /// short or holds a non-hex digit.
    BadToken,
    /// The body describes more cells than the grid holds.
    TooManyCells,
}

/// The hint count that a hint token without a number carries.
pub const UNSPECIFIED_COUNT: i64 = -2;

/// The value of a hexadecimal digit, either case.
pub open spec fn hex_value(c: char) -> Option<int> {
    if '0' <= c && c <= '9' {
        Some(c as int - '0' as int)
    } else if 'a' <= c && c <= 'f' {
        Some(c as int - 'a' as int + 10)
    } else if 'A' <= c && c <= 'F' {
        Some(c as int - 'A' as int + 10)
    } else {
        None
    }
}

/// `p` in front of the decoded rest, when the rest decodes.
pub open spec fn prepend(p: Seq<CellEnum>, rest: Option<Seq<CellEnum>>) -> Option<Seq<CellEnum>> {
    match rest {
        Some(r) => Some(p + r),
        None => None,
    }
}

pub open spec fn hint(code: int, count: int) -> CellEnum {
    CellEnum::Wall(WallEnum::Hint(direction_of_code(code), count as i64))
}

/// The cells that a body encodes, token by token, or `None` when it is
/// malformed:
/// - `0`-`4`, then a hex digit or `.`: a hint with that direction code and
///   that count (`.`, or the end of the body, for no count);
/// - `5`-`9`, then two hex digits: a hint with direction code digit - 5 and a
///   two-digit count;
/// - `-`, then four hex digits: a hint with the first as direction code and
///   a three-digit count;
/// - `a`-`z`: a run of 1 to 26 unknown cells.
pub open spec fn decode_body(s: Seq<char>) -> Option<Seq<CellEnum>>
    decreases s.len(),
{
    if s.len() == 0 {
        Some(Seq::empty())
    } else {
        let c = s[0];
        if '0' <= c && c <= '4' {
            let code = c as int - '0' as int;
            if s.len() == 1 {
                Some(seq![hint(code, UNSPECIFIED_COUNT as int)])
            } else if s[1] == '.' {
                prepend(seq![hint(code, UNSPECIFIED_COUNT as int)], decode_body(s.skip(2)))
            } else {
                match hex_value(s[1]) {
                    Some(n) => prepend(seq![hint(code, n)], decode_body(s.skip(2))),
                    None => None,
                }
            }
        } else if '5' <= c && c <= '9' {
            if s.len() >= 3 && hex_value(s[1]) is Some && hex_value(s[2]) is Some {
                let n = hex_value(s[1])->0 * 16 + hex_value(s[2])->0;
                prepend(seq![hint(c as int - '5' as int, n)], decode_body(s.skip(3)))
            } else {
                None
            }
        } else if c == '-' {
            if s.len() >= 5 && hex_value(s[1]) is Some && hex_value(s[2]) is Some && hex_value(
                s[3],
            ) is Some && hex_value(s[4]) is Some {
                let n = hex_value(s[2])->0 * 256 + hex_value(s[3])->0 * 16 + hex_value(s[4])->0;
                prepend(seq![hint(hex_value(s[1])->0, n)], decode_body(s.skip(5)))
            } else {
                None
            }
        } else if 'a' <= c && c <= 'z' {
            let n = c as int - 'a' as int + 1;
            prepend(Seq::new(n as nat, |k: int| CellEnum::Unknown), decode_body(s.skip(1)))
        } else {
            None
        }
    }
}

fn hex_digit(c: char) -> (r: Option<u32>)
    ensures
        match r {
            Some(v) => hex_value(c) == Some(v as int),
            None => hex_value(c) is None,
        },
{
    if '0' <= c && c <= '9' {
        Some((c as u32) - ('0' as u32))
    } else if 'a' <= c && c <= 'f' {
        Some((c as u32) - ('a' as u32) + 10)
    } else if 'A' <= c && c <= 'F' {
        Some((c as u32) - ('A' as u32) + 10)
    } else {
        None
    }
}

/// Decodes a puzzle body into its flat list of cells (see `decode_body`);
/// `None` when the body is malformed.
#[verifier::rlimit(40)]
pub fn create_board_sub(chars: &Vec<char>) -> (r: Option<Vec<CellEnum>>)
    ensures
        match r {
            Some(v) => decode_body(chars@) == Some(v@),
            None => decode_body(chars@) is None,
        },
{
    let ghost s = chars@;
    let n = chars.len();
    let mut out: Vec<CellEnum> = Vec::new();
    let mut pos: usize = 0;
    assert(s.skip(0) =~= s);
    while pos < n
        invariant
            s == chars@,
            n == s.len(),
            pos <= n,
            decode_body(s) == prepend(out@, decode_body(s.skip(pos as int))),
        decreases n - pos,
    {
        let ghost t = s.skip(pos as int);
        let ghost before = out@;
        let c = chars[pos];
        assert(t[0] == c);
        let used: usize;
        if '0' <= c && c <= '4' {
            let dir = dir_to_direction_enum((c as u32) - ('0' as u32));
            let count: i64;
            if pos + 1 == n {
                count = UNSPECIFIED_COUNT;
                used = 1;
            } else if chars[pos + 1] == '.' {
                count = UNSPECIFIED_COUNT;
                used = 2;
            } else {
                match hex_digit(chars[pos + 1]) {
                    Some(v) => {
                        count = v as i64;
                        used = 2;
                    },
                    None => {
                        assert(t[1] == s[pos + 1]);
                        assert(decode_body(t) is None);
                        return None;
                    },
                }
            }
            assert(pos + 1 < n ==> t[1] == s[pos + 1]);
            out.push(CellEnum::Wall(WallEnum::Hint(dir, count)));
        } else if '5' <= c && c <= '9' {
            if n - pos < 3 {
                return None;
            }
            assert(t[1] == s[pos + 1] && t[2] == s[pos + 2]);
            let hi = hex_digit(chars[pos + 1]);
            let lo = hex_digit(chars[pos + 2]);
            match (hi, lo) {
                (Some(h), Some(l)) => {
                    let dir = dir_to_direction_enum((c as u32) - ('5' as u32));
                    out.push(CellEnum::Wall(WallEnum::Hint(dir, (h * 16 + l) as i64)));
                    used = 3;
                },
                _ => {
                    return None;
                },
            }
        } else if c == '-' {
            if n - pos < 5 {
                return None;
            }
            assert(t[1] == s[pos + 1] && t[2] == s[pos + 2] && t[3] == s[pos + 3] && t[4] == s[pos
                + 4]);
            let d = hex_digit(chars[pos + 1]);
            let a = hex_digit(chars[pos + 2]);
            let b = hex_digit(chars[pos + 3]);
            let e = hex_digit(chars[pos + 4]);
            match (d, a, b, e) {
                (Some(d), Some(a), Some(b), Some(e)) => {
                    let dir = dir_to_direction_enum(d);
                    out.push(CellEnum::Wall(WallEnum::Hint(dir, (a * 256 + b * 16 + e) as i64)));
                    used = 5;
                },
                _ => {
                    return None;
                },
            }
        } else if 'a' <= c && c <= 'z' {
            let run = (c as u32) - ('a' as u32) + 1;
            let mut k: u32 = 0;
            while k < run
                invariant
                    k <= run,
                    out@ == before + Seq::new(k as nat, |x: int| CellEnum::Unknown),
                decreases run - k,
            {
                out.push(CellEnum::Unknown);
                k += 1;
                assert(out@ =~= before + Seq::new(k as nat, |x: int| CellEnum::Unknown));
            }
            used = 1;
        } else {
            return None;
        }
        assert(t.skip(used as int) =~= s.skip(pos + used));
        assert(out@ =~= before + (out@.skip(before.len() as int)));
        proof {
            let p = out@.skip(before.len() as int);
            assert(decode_body(t) == prepend(p, decode_body(s.skip(pos + used))));
            match decode_body(s.skip(pos + used)) {
                Some(rest) => {
                    assert(before + (p + rest) =~= out@ + rest);
                },
                None => {},
            }
        }
        pos = pos + used;
    }
    assert(s.skip(n as int).len() == 0);
    assert(out@ + Seq::<CellEnum>::empty() =~= out@);
    Some(out)
}

/// Index of the first `/` at or after `from`, or the length of `s`.
pub open spec fn slash_from(s: Seq<char>, from: int) -> int
    decreases s.len() - from,
{
    if from >= s.len() || from < 0 {
        s.len() as int
    } else if s[from] == '/' {
        from
    } else {
        slash_from(s, from + 1)
    }
}

pub open spec fn is_digit(c: char) -> bool {
    '0' <= c && c <= '9'
}

/// The value of a string of decimal digits.
pub open spec fn decimal(s: Seq<char>) -> int
    decreases s.len(),
{
    if s.len() == 0 {
        0
    } else {
        10 * decimal(s.drop_last()) + (s.last() as int - '0' as int)
    }
}

/// A width or height: a non-empty string of decimal digits whose value
/// fits in `usize`. Zero is allowed and gives a board without cells.
pub open spec fn dimension(s: Seq<char>) -> Option<int> {
    if s.len() > 0 && (forall|k: int| 0 <= k < s.len() ==> is_digit(#[trigger] s[k])) && decimal(
        s,
    ) <= usize::MAX {
        Some(decimal(s))
    } else {
        None
    }
}

/// The flat cell list laid out in `h` rows of `w`, padded with unknown cells.
pub open spec fn shape(cells: Seq<CellEnum>, w: int, h: int) -> Grid {
    Seq::new(
        h as nat,
        |r: int|
            Seq::new(
                w as nat,
                |c: int|
                    if r * w + c < cells.len() {
                        cells[r * w + c]
                    } else {
                        CellEnum::Unknown
                    },
            ),
    )
}

/// The board that a puzzle string `width/height/body` describes. The body
/// ends at the next `/`, if any; what follows it is ignored.
pub open spec fn decode_puzzle(s: Seq<char>) -> Result<Grid, DecodeError> {
    let first_slash = slash_from(s, 0);
    let second_slash = slash_from(s, first_slash + 1);
    let body_end = slash_from(s, second_slash + 1);
    if first_slash >= s.len() || second_slash >= s.len() {
        Err(DecodeError::MissingField)
    } else {
        match (dimension(s.subrange(0, first_slash)), dimension(s.subrange(first_slash + 1, second_slash))) {
            (Some(w), Some(h)) => if w * h > usize::MAX {
                Err(DecodeError::BadDimension)
            } else {
                match decode_body(s.subrange(second_slash + 1, body_end)) {
                    None => Err(DecodeError::BadToken),
                    Some(cells) => if cells.len() > w * h {
                        Err(DecodeError::TooManyCells)
                    } else {
                        Ok(shape(cells, w, h))
                    },
                }
            },
            _ => Err(DecodeError::BadDimension),
        }
    }
}

/// Index of the first `/` at or after `from`, or the length.
fn find_slash(chars: &Vec<char>, from: usize) -> (r: usize)
    requires
        from <= chars@.len(),
    ensures
        r == slash_from(chars@, from as int),
        from <= r <= chars@.len(),
{
    let mut k = from;
    while k < chars.len()
        invariant
            from <= k <= chars@.len(),
            slash_from(chars@, from as int) == slash_from(chars@, k as int),
        decreases chars@.len() - k,
    {
        if chars[k] == '/' {
            return k;
        }
        k += 1;
    }
    k
}

/// Parses `chars[from..to]` as a dimension (see `dimension`).
fn parse_dimension(chars: &Vec<char>, from: usize, to: usize) -> (r: Option<usize>)
    requires
        from <= to <= chars@.len(),
    ensures
        match r {
            Some(v) => dimension(chars@.subrange(from as int, to as int)) == Some(v as int),
            None => dimension(chars@.subrange(from as int, to as int)) is None,
        },
{
    let ghost s = chars@.subrange(from as int, to as int);
    if from == to {
        return None;
    }
    let mut value: usize = 0;
    let mut too_big = false;
    let mut k = from;
    while k < to
        invariant
            from <= k <= to <= chars@.len(),
            s == chars@.subrange(from as int, to as int),
            forall|x: int| 0 <= x < k - from ==> is_digit(#[trigger] s[x]),
            too_big ==> decimal(s.subrange(0, k - from)) > usize::MAX,
            !too_big ==> decimal(s.subrange(0, k - from)) == value,
            decimal(s.subrange(0, k - from)) >= 0,
        decreases to - k,
    {
        let c = chars[k];
        if !('0' <= c && c <= '9') {
            assert(s[k - from] == c);
            return None;
        }
        let d = (c as u32 - '0' as u32) as usize;
        let ghost prev = decimal(s.subrange(0, k - from));
        assert(s.subrange(0, k - from + 1).drop_last() =~= s.subrange(0, k - from));
        assert(s[k - from] == c);
        assert(decimal(s.subrange(0, k - from + 1)) == 10 * prev + d);
        if !too_big {
            if value > (usize::MAX - d) / 10 {
                too_big = true;
                assert(10 * prev + d > usize::MAX) by (nonlinear_arith)
                    requires
                        prev == value,
                        value > (usize::MAX - d) / 10,
                        d <= 9,
                ;
            } else {
                assert(value * 10 + d <= usize::MAX) by (nonlinear_arith)
                    requires
                        value <= (usize::MAX - d) / 10,
                        d <= 9,
                ;
                value = value * 10 + d;
            }
        }
        k += 1;
    }
    assert(s.subrange(0, to - from) =~= s);
    if too_big {
        None
    } else {
        Some(value)
    }
}

/// A copy of `chars[from..to]`.
fn slice_chars(chars: &Vec<char>, from: usize, to: usize) -> (r: Vec<char>)
    requires
        from <= to <= chars@.len(),
    ensures
        r@ == chars@.subrange(from as int, to as int),
{
    let mut out: Vec<char> = Vec::new();
    let mut k = from;
    while k < to
        invariant
            from <= k <= to <= chars@.len(),
            out@ == chars@.subrange(from as int, k as int),
        decreases to - k,
    {
        out.push(chars[k]);
        k += 1;
        assert(out@ =~= chars@.subrange(from as int, k as int));
    }
    out
}

/// The characters of `s`.
fn chars_of(s: &str) -> (r: Vec<char>)
    ensures
        r@ == s@,
{
    let n = s.unicode_len();
    let mut out: Vec<char> = Vec::new();
    let mut k: usize = 0;
    while k < n
        invariant
            n == s@.len(),
            k <= n,
            out@ == s@.subrange(0, k as int),
        decreases n - k,
    {
        out.push(s.get_char(k));
        k += 1;
        assert(out@ =~= s@.subrange(0, k as int));
    }
    assert(out@ =~= s@);
    out
}

/// Lays the flat cell list out in `h` rows of `w`, padded with unknown cells.
fn shape_cells(cells: &Vec<CellEnum>, w: usize, h: usize) -> (b: Board)
    requires
        w * h <= usize::MAX,
    ensures
        b@ == shape(cells@, w as int, h as int),
        b.wf(),
{
    let ghost target = shape(cells@, w as int, h as int);
    let mut rows: Vec<Vec<CellEnum>> = Vec::new();
    let mut r: usize = 0;
    while r < h
        invariant
            w * h <= usize::MAX,
            target == shape(cells@, w as int, h as int),
            r <= h,
            rows@.len() == r,
            forall|k: int| 0 <= k < r ==> #[trigger] rows@[k]@ == target[k],
        decreases h - r,
    {
        let mut row: Vec<CellEnum> = Vec::new();
        let mut c: usize = 0;
        while c < w
            invariant
                w * h <= usize::MAX,
                target == shape(cells@, w as int, h as int),
                r < h,
                c <= w,
                row@ == target[r as int].subrange(0, c as int),
            decreases w - c,
        {
            assert(r * w + c < w * h) by (nonlinear_arith)
                requires
                    r < h,
                    c < w,
            ;
            let idx = r * w + c;
            let x = if idx < cells.len() {
                cells[idx]
            } else {
                CellEnum::Unknown
            };
            row.push(x);
            c += 1;
            assert(row@ =~= target[r as int].subrange(0, c as int));
        }
        assert(row@ =~= target[r as int]);
        rows.push(row);
        r += 1;
    }
    let b = Board(rows);
    assert(b@ =~= target);
    b
}

/// Decodes a puzzle string `width/height/body` into its board (see
/// `decode_puzzle`): the body's cells, row by row, padded with unknown cells.
pub fn create_board(problem: &str) -> (r: Result<Board, DecodeError>)
    ensures
        match r {
            Ok(b) => decode_puzzle(problem@) == Ok::<Grid, DecodeError>(b@) && b.wf(),
            Err(e) => decode_puzzle(problem@) == Err::<Grid, DecodeError>(e),
        },
{
    let chars = chars_of(problem);
    let n = chars.len();
    let first_slash = find_slash(&chars, 0);
    if first_slash >= n {
        return Err(DecodeError::MissingField);
    }
    let second_slash = find_slash(&chars, first_slash + 1);
    if second_slash >= n {
        return Err(DecodeError::MissingField);
    }
    let body_end = find_slash(&chars, second_slash + 1);
    let width = parse_dimension(&chars, 0, first_slash);
    let height = parse_dimension(&chars, first_slash + 1, second_slash);
    let (w, h) = match (width, height) {
        (Some(w), Some(h)) => (w, h),
        _ => {
            return Err(DecodeError::BadDimension);
        },
    };
    let size = match w.checked_mul(h) {
        Some(size) => size,
        None => {
            return Err(DecodeError::BadDimension);
        },
    };
    let body = slice_chars(&chars, second_slash + 1, body_end);
    let cells = match create_board_sub(&body) {
        Some(cells) => cells,
        None => {
            return Err(DecodeError::BadToken);
        },
    };
    if cells.len() > size {
        return Err(DecodeError::TooManyCells);
    }
    Ok(shape_cells(&cells, w, h))
}

/// The direction code of a direction: 0 for none, 1 up, 2 down, 3 left,
/// 4 right.
pub open spec fn code_of(d: DirectionEnum) -> int {
    match d {
        DirectionEnum::Absent => 0,
        DirectionEnum::Up => 1,
        DirectionEnum::Down => 2,
        DirectionEnum::Left => 3,
        DirectionEnum::Right => 4,
    }
}

/// The lower-case hex digit of `v`, for `0 <= v < 16`.
pub open spec fn hex_char(v: int) -> char {
    seq!['0', '1', '2', '3', '4', '5', '6', '7', '8', '9', 'a', 'b', 'c', 'd', 'e', 'f'][v]
}

/// The cells that the encoding can write: unknown cells, and hints whose
/// count is unspecified (-2) or below 4096.
pub open spec fn encodable(x: CellEnum) -> bool {
    match x {
        CellEnum::Unknown => true,
        CellEnum::Wall(WallEnum::Hint(_, n)) => n == UNSPECIFIED_COUNT || 0 <= n < 4096,
        _ => false,
    }
}

/// The token that writes one encodable cell: a run of one for an unknown
/// cell; for a hint the shortest form that holds its count.
pub open spec fn encode_cell(x: CellEnum) -> Seq<char> {
    match x {
        CellEnum::Wall(WallEnum::Hint(d, n)) => {
            let code = code_of(d);
            let m = n as int;
            if n == UNSPECIFIED_COUNT {
                seq![hex_char(code), '.']
            } else if m < 16 {
                seq![hex_char(code), hex_char(m)]
            } else if m < 256 {
                seq![hex_char(code + 5), hex_char(m / 16), hex_char(m % 16)]
            } else {
                seq![
                    '-',
                    hex_char(code),
                    hex_char(m / 256),
                    hex_char((m % 256) / 16),
                    hex_char(m % 16),
                ]
            }
        },
        _ => seq!['a'],
    }
}

/// The letter that writes a run of `n` unknown cells, for `1 <= n <= 26`.
pub open spec fn run_letter(n: nat) -> char {
    seq![
        'a', 'b', 'c', 'd', 'e', 'f', 'g', 'h', 'i', 'j', 'k', 'l', 'm', 'n', 'o', 'p', 'q', 'r',
        's', 't', 'u', 'v', 'w', 'x', 'y', 'z',
    ][n - 1]
}

/// Number of unknown cells at the front of `cells`, at most `limit`.
pub open spec fn unknown_run(cells: Seq<CellEnum>, limit: nat) -> nat
    decreases limit,
{
    if limit == 0 || cells.len() == 0 || !(cells[0] is Unknown) {
        0
    } else {
        1 + unknown_run(cells.drop_first(), (limit - 1) as nat)
    }
}

/// The body that writes a list of encodable cells: each run of unknown
/// cells, up to 26 at a time, as one letter, and each hint as one token.
pub open spec fn encode_body(cells: Seq<CellEnum>) -> Seq<char>
    decreases cells.len(),
{
    if cells.len() == 0 {
        Seq::empty()
    } else if cells[0] is Unknown {
        let n = unknown_run(cells, 26);
        proof {
            lemma_unknown_run(cells, 26);
        }
        seq![run_letter(n)] + encode_body(cells.skip(n as int))
    } else {
        encode_cell(cells[0]) + encode_body(cells.drop_first())
    }
}

/// The front run of unknown cells is within the limit and the list, and
/// holds only unknown cells; it is not empty when the list starts with one.
pub proof fn lemma_unknown_run(cells: Seq<CellEnum>, limit: nat)
    ensures
        unknown_run(cells, limit) <= limit,
        unknown_run(cells, limit) <= cells.len(),
        forall|k: int| 0 <= k < unknown_run(cells, limit) ==> #[trigger] cells[k] is Unknown,
        limit > 0 && cells.len() > 0 && cells[0] is Unknown ==> unknown_run(cells, limit) >= 1,
    decreases limit,
{
    if !(limit == 0 || cells.len() == 0 || !(cells[0] is Unknown)) {
        let rest = cells.drop_first();
        lemma_unknown_run(rest, (limit - 1) as nat);
        assert forall|k: int| 0 <= k < unknown_run(cells, limit) implies #[trigger] cells[k] is Unknown by {
            if k > 0 {
                assert(cells[k] == rest[k - 1]);
            }
        }
    }
}

proof fn lemma_run_letter(n: nat)
    requires
        1 <= n <= 26,
    ensures
        'a' <= run_letter(n) && run_letter(n) <= 'z',
        run_letter(n) as int - 'a' as int + 1 == n,
{
}

proof fn lemma_hex_char(v: int)
    requires
        0 <= v < 16,
    ensures
        hex_value(hex_char(v)) == Some(v),
        hex_char(v) != '.',
        hex_char(v) != '/',
        v < 10 ==> is_digit(hex_char(v)) && hex_char(v) as int - '0' as int == v,
{
}

proof fn lemma_decode_cell(x: CellEnum, rest: Seq<char>)
    requires
        encodable(x),
    ensures
        decode_body(encode_cell(x) + rest) == prepend(seq![x], decode_body(rest)),
{
    let t = encode_cell(x);
    let s = t + rest;
    assert(s.skip(t.len() as int) =~= rest);
    match x {
        CellEnum::Wall(WallEnum::Hint(d, n)) => {
            let code = code_of(d);
            lemma_hex_char(code);
            assert(direction_of_code(code) == d);
            let m = n as int;
            if n == UNSPECIFIED_COUNT {
            } else if m < 16 {
                lemma_hex_char(m);
            } else if m < 256 {
                lemma_hex_char(code + 5);
                lemma_hex_char(m / 16);
                lemma_hex_char(m % 16);
                assert(m == (m / 16) * 16 + m % 16);
            } else {
                lemma_hex_char(m / 256);
                lemma_hex_char((m % 256) / 16);
                lemma_hex_char(m % 16);
                assert(m == (m / 256) * 256 + ((m % 256) / 16) * 16 + m % 16);
            }
            assert(s[0] == t[0]);
        },
        _ => {
            assert(Seq::new(1, |k: int| CellEnum::Unknown) =~= seq![x]);
        },
    }
}

/// Writing a list of encodable cells as a body and decoding that body gives
/// the same cells back.
pub proof fn decode_round_trip(cells: Seq<CellEnum>)
    requires
        forall|k: int| 0 <= k < cells.len() ==> encodable(#[trigger] cells[k]),
    ensures
        decode_body(encode_body(cells)) == Some(cells),
    decreases cells.len(),
{
    if cells.len() > 0 {
        if cells[0] is Unknown {
            let n = unknown_run(cells, 26);
            lemma_unknown_run(cells, 26);
            lemma_run_letter(n);
            let rest = cells.skip(n as int);
            assert forall|k: int| 0 <= k < rest.len() implies encodable(#[trigger] rest[k]) by {
                assert(rest[k] == cells[k + n]);
            }
            decode_round_trip(rest);
            let t = seq![run_letter(n)] + encode_body(rest);
            assert(t.skip(1) =~= encode_body(rest));
            assert(t[0] == run_letter(n));
            assert(Seq::new(n, |k: int| CellEnum::Unknown) + rest =~= cells);
        } else {
            let rest = cells.drop_first();
            assert forall|k: int| 0 <= k < rest.len() implies encodable(#[trigger] rest[k]) by {
                assert(rest[k] == cells[k + 1]);
            }
            decode_round_trip(rest);
            lemma_decode_cell(cells[0], encode_body(rest));
            assert(seq![cells[0]] + rest =~= cells);
        }
    }
}

/// The decimal digits of `n`, most significant first.
pub open spec fn decimal_digits(n: nat) -> Seq<char>
    decreases n,
{
    if n < 10 {
        seq![hex_char(n as int)]
    } else {
        decimal_digits(n / 10).push(hex_char((n % 10) as int))
    }
}

/// The puzzle string `width/height/body` that writes `cells` on a board of
/// `w` columns and `h` rows.
pub open spec fn encode_puzzle(w: nat, h: nat, cells: Seq<CellEnum>) -> Seq<char> {
    decimal_digits(w) + seq!['/'] + decimal_digits(h) + seq!['/'] + encode_body(cells)
}

proof fn lemma_decimal_digits(n: nat)
    ensures
        decimal_digits(n).len() > 0,
        forall|k: int| 0 <= k < decimal_digits(n).len() ==> is_digit(#[trigger] decimal_digits(n)[k]),
        decimal(decimal_digits(n)) == n,
    decreases n,
{
    let d = decimal_digits(n);
    if n < 10 {
        lemma_hex_char(n as int);
        assert(d.drop_last() =~= Seq::<char>::empty());
        assert(decimal(Seq::<char>::empty()) == 0);
        assert(d.last() == hex_char(n as int));
        assert(decimal(d) == 10 * decimal(d.drop_last()) + (d.last() as int - '0' as int));
    } else {
        lemma_decimal_digits(n / 10);
        lemma_hex_char((n % 10) as int);
        assert(d.drop_last() =~= decimal_digits(n / 10));
        assert(d.last() == hex_char((n % 10) as int));
        assert(decimal(d) == 10 * decimal(d.drop_last()) + (d.last() as int - '0' as int));
        assert(n == 10 * (n / 10) + n % 10);
        assert forall|k: int| 0 <= k < d.len() implies is_digit(#[trigger] d[k]) by {
            if k < d.len() - 1 {
                assert(d[k] == decimal_digits(n / 10)[k]);
            }
        }
    }
}

proof fn lemma_encode_cell_no_slash(x: CellEnum)
    requires
        encodable(x),
    ensures
        forall|k: int| 0 <= k < encode_cell(x).len() ==> #[trigger] encode_cell(x)[k] != '/',
{
    let e = encode_cell(x);
    if let CellEnum::Wall(WallEnum::Hint(d, n)) = x {
        let m = n as int;
        let code = code_of(d);
        lemma_hex_char(code);
        if n == UNSPECIFIED_COUNT {
            assert(e[0] != '/' && e[1] != '/');
        } else if m < 16 {
            lemma_hex_char(m);
            assert(e[0] != '/' && e[1] != '/');
        } else if m < 256 {
            lemma_hex_char(code + 5);
            lemma_hex_char(m / 16);
            lemma_hex_char(m % 16);
            assert(e[0] != '/' && e[1] != '/' && e[2] != '/');
        } else {
            lemma_hex_char(m / 256);
            lemma_hex_char((m % 256) / 16);
            lemma_hex_char(m % 16);
            assert(e[0] != '/' && e[1] != '/' && e[2] != '/' && e[3] != '/' && e[4] != '/');
        }
    } else {
        assert(e[0] != '/');
    }
}

proof fn lemma_encode_body_no_slash(cells: Seq<CellEnum>)
    requires
        forall|k: int| 0 <= k < cells.len() ==> encodable(#[trigger] cells[k]),
    ensures
        forall|k: int| 0 <= k < encode_body(cells).len() ==> #[trigger] encode_body(cells)[k] != '/',
    decreases cells.len(),
{
    if cells.len() > 0 {
        let e = encode_body(cells);
        let (t, rest) = if cells[0] is Unknown {
            let n = unknown_run(cells, 26);
            lemma_unknown_run(cells, 26);
            lemma_run_letter(n);
            (seq![run_letter(n)], cells.skip(n as int))
        } else {
            lemma_encode_cell_no_slash(cells[0]);
            (encode_cell(cells[0]), cells.drop_first())
        };
        assert(e == t + encode_body(rest));
        assert forall|k: int| 0 <= k < rest.len() implies encodable(#[trigger] rest[k]) by {
            assert(rest[k] == cells[k + cells.len() - rest.len()]);
        }
        lemma_encode_body_no_slash(rest);
        assert forall|k: int| 0 <= k < e.len() implies #[trigger] e[k] != '/' by {
            if k < t.len() {
                assert(e[k] == t[k]);
            } else {
                assert(e[k] == encode_body(rest)[k - t.len()]);
            }
        }
    }
}

proof fn lemma_slash_at(s: Seq<char>, from: int, t: int)
    requires
        0 <= from <= t <= s.len(),
        forall|k: int| from <= k < t ==> #[trigger] s[k] != '/',
        t < s.len() ==> s[t] == '/',
    ensures
        slash_from(s, from) == t,
    decreases t - from,
{
    if from < t {
        lemma_slash_at(s, from + 1, t);
    }
}

/// Writing encodable cells as a puzzle string, with the width and height in
/// decimal, and decoding it with `create_board` gives the board of those
/// cells, padded with unknown cells.
pub proof fn decode_puzzle_round_trip(w: nat, h: nat, cells: Seq<CellEnum>)
    requires
        forall|k: int| 0 <= k < cells.len() ==> encodable(#[trigger] cells[k]),
        w * h <= usize::MAX,
        w <= usize::MAX,
        h <= usize::MAX,
        cells.len() <= w * h,
    ensures
        decode_puzzle(encode_puzzle(w, h, cells)) == Ok::<Grid, DecodeError>(shape(cells, w as int, h as int)),
{
    let s = encode_puzzle(w, h, cells);
    let dw = decimal_digits(w);
    let dh = decimal_digits(h);
    let body = encode_body(cells);
    lemma_decimal_digits(w);
    lemma_decimal_digits(h);
    lemma_encode_body_no_slash(cells);
    decode_round_trip(cells);
    let first = dw.len() as int;
    let second = first + 1 + dh.len();
    assert forall|k: int| 0 <= k < first implies #[trigger] s[k] != '/' by {
        assert(s[k] == dw[k]);
    }
    assert(s[first] == '/');
    lemma_slash_at(s, 0, first);
    assert forall|k: int| first + 1 <= k < second implies #[trigger] s[k] != '/' by {
        assert(s[k] == dh[k - first - 1]);
    }
    assert(s[second] == '/');
    lemma_slash_at(s, first + 1, second);
    assert forall|k: int| second + 1 <= k < s.len() implies #[trigger] s[k] != '/' by {
        assert(s[k] == body[k - second - 1]);
    }
    lemma_slash_at(s, second + 1, s.len() as int);
    assert(s.subrange(0, first) =~= dw);
    assert(s.subrange(first + 1, second) =~= dh);
    assert(s.subrange(second + 1, s.len() as int) =~= body);
}

} // verus!
