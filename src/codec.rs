//! The Esri-style D8 pointer codes and the neighbour offsets they stand for.
use vstd::prelude::*;

verus! {

/// Code of a cell that has no outflow (a sink or a flat).
pub const NO_OUTFLOW: u8 = 0;

/// Code of a cell outside the analysed domain.
pub const NO_DATA: u8 = 255;

/// One of the eight codes that point at a neighbour.
pub open spec fn is_pointer(code: u8) -> bool {
    code == 1 || code == 2 || code == 4 || code == 8 || code == 16 || code == 32 || code == 64
        || code == 128
}

/// A code a direction raster may hold: a pointer, no outflow, or no data.
pub open spec fn is_known(code: u8) -> bool {
    is_pointer(code) || code == NO_OUTFLOW || code == NO_DATA
}

/// The pointer code of the `k`-th neighbour in scan order: east, then clockwise.
pub open spec fn code_of(k: int) -> u8 {
    if k == 0 {
        1
    } else if k == 1 {
        2
    } else if k == 2 {
        4
    } else if k == 3 {
        8
    } else if k == 4 {
        16
    } else if k == 5 {
        32
    } else if k == 6 {
        64
    } else {
        128
    }
}

/// The (row, column) offset a pointer code stands for; `(0, 0)` for any other code.
pub open spec fn offset(code: u8) -> (int, int) {
    if code == 1 {
        (0, 1)
    } else if code == 2 {
        (1, 1)
    } else if code == 4 {
        (1, 0)
    } else if code == 8 {
        (1, -1)
    } else if code == 16 {
        (0, -1)
    } else if code == 32 {
        (-1, -1)
    } else if code == 64 {
        (-1, 0)
    } else if code == 128 {
        (-1, 1)
    } else {
        (0, 0)
    }
}

/// The `k`-th neighbour offset in scan order.
pub open spec fn neighbor(k: int) -> (int, int) {
    offset(code_of(k))
}

/// A cell at `(r, c)` with `code` sends its flow to `(tr, tc)`.
pub open spec fn points_to(code: u8, r: int, c: int, tr: int, tc: int) -> bool {
    is_pointer(code) && r + offset(code).0 == tr && c + offset(code).1 == tc
}

/// Whether a raster may hold `code`.
pub fn is_known_code(code: u8) -> (b: bool)
    ensures
        b == is_known(code),
{
    code == 1 || code == 2 || code == 4 || code == 8 || code == 16 || code == 32 || code == 64
        || code == 128 || code == NO_OUTFLOW || code == NO_DATA
}

/// Every code of a raster is one it may hold.
pub open spec fn all_known(cells: Seq<u8>) -> bool {
    forall|i: int| 0 <= i < cells.len() ==> is_known(#[trigger] cells[i])
}

/// Whether every code of a raster is one it may hold.
pub fn codes_known(cells: &Vec<u8>) -> (b: bool)
    ensures
        b == all_known(cells@),
{
    let n = cells.len();
    let mut i: usize = 0;
    while i < n
        invariant
            i <= n,
            n == cells@.len(),
            forall|j: int| 0 <= j < i ==> is_known(#[trigger] cells@[j]),
        decreases n - i,
    {
        if !is_known_code(cells[i]) {
            assert(!is_known(cells@[i as int]));
            return false;
        }
        i = i + 1;
    }
    true
}

/// Which of the eight neighbours a code points at, if it is a pointer.
pub fn direction_index(code: u8) -> (k: Option<usize>)
    ensures
        k is Some <==> is_pointer(code),
        k matches Some(k) ==> k < 8 && code_of(k as int) == code,
{
    match code {
        1 => Some(0),
        2 => Some(1),
        4 => Some(2),
        8 => Some(3),
        16 => Some(4),
        32 => Some(5),
        64 => Some(6),
        128 => Some(7),
        _ => None,
    }
}

/// The offset of the `k`-th neighbour in scan order.
pub fn neighbor_offset(k: usize) -> (o: (i8, i8))
    requires
        k < 8,
    ensures
        (o.0 as int, o.1 as int) == neighbor(k as int),
        -1 <= o.0 <= 1 && -1 <= o.1 <= 1,
{
    let rows: [i8; 8] = [0, 1, 1, 1, 0, -1, -1, -1];
    let cols: [i8; 8] = [1, 1, 0, -1, -1, -1, 0, 1];
    (rows[k], cols[k])
}

/// The offset a code stands for, or `None` when it points nowhere.
pub fn decode(code: u8) -> (o: Option<(i8, i8)>)
    ensures
        o is Some <==> is_pointer(code),
        o matches Some(o) ==> (o.0 as int, o.1 as int) == offset(code) && -1 <= o.0 <= 1 && -1
            <= o.1 <= 1,
{
    match direction_index(code) {
        Some(k) => Some(neighbor_offset(k)),
        None => None,
    }
}

/// `x + d`, when it is a valid index.
pub fn shift(x: usize, d: i8) -> (y: Option<usize>)
    requires
        -1 <= d <= 1,
    ensures
        y is Some <==> 0 <= x + d <= usize::MAX,
        y matches Some(y) ==> y == x + d,
{
    if d < 0 {
        if x == 0 {
            None
        } else {
            Some(x - 1)
        }
    } else if d > 0 {
        x.checked_add(1)
    } else {
        Some(x)
    }
}

/// Whether a cell at `(r, c)` holding `code` sends its flow to `(tr, tc)`.
pub fn flows_into(code: u8, r: usize, c: usize, tr: usize, tc: usize) -> (b: bool)
    ensures
        b == points_to(code, r as int, c as int, tr as int, tc as int),
{
    match decode(code) {
        Some(o) => match (shift(r, o.0), shift(c, o.1)) {
            (Some(nr), Some(nc)) => nr == tr && nc == tc,
            _ => false,
        },
        None => false,
    }
}

} // verus!
