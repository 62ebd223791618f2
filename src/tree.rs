//! The drainage tree: a labelling of the raster by main-stem channel paths.
//!
//! Cells are taken as seeds in order of descending accumulation; on equal
//! accumulation the cell that comes first in row-major order goes first. A seed
//! that no earlier path has claimed starts a new path, which climbs upstream,
//! at each cell to the inflowing neighbour of largest accumulation (on equal
//! accumulation the later one in scan order: east, then clockwise).
//!
//! A trace stops at a cell of zero accumulation, at a cell that no neighbour
//! flows into, on entering a no-outflow cell, or when the chosen neighbour
//! already belongs to a path. The last rule keeps every label write-once and
//! ends every trace, also on rasters whose directions form a cycle; a trace
//! never takes more steps than the raster has cells.
use crate::codec::{
    NO_DATA, NO_OUTFLOW, all_known, codes_known, is_pointer, neighbor, neighbor_offset, flows_into,
    points_to, shift,
};
use crate::grid::{Grid, flat, lemma_dims, lemma_flat_in_range, lemma_flat_inverse};
use vstd::prelude::*;
use vstd::relations::{sorted_by, total_ordering};

verus! {

/// One traced path. The origin is the seed the path started from; the terminus
/// is the upstream cell where the trace stopped.
#[derive(Clone, Copy, Debug, PartialEq, Eq)]
pub struct PathRecord {
    pub terminus_row: u32,
    pub terminus_col: u32,
    pub origin_row: u32,
    pub origin_col: u32,
    pub cell_count: u32,
    pub origin_accumulation: u32,
    pub path_length_meters: u32,
}

#[derive(Clone, Copy, Debug, PartialEq, Eq)]
pub enum TreeError {
    /// The rasters differ in shape, a raster's cells do not fill it, or the
    /// step-length table has neither zero entries nor one per cell.
    ShapeMismatch,
    /// A direction code is neither a pointer, nor no-outflow, nor no-data.
    InvalidDirection,
    /// The raster has `u32::MAX` cells or more, too many for the path table.
    TooLarge,
}

/// Accumulation of the `k`-th neighbour of `(r, c)`.
pub open spec fn upstream_acc(acc: Grid<u32>, r: int, c: int, k: int) -> u32 {
    acc.at(r + neighbor(k).0, c + neighbor(k).1)
}

/// The `k`-th neighbour of `(r, c)` lies on the raster and flows into `(r, c)`.
pub open spec fn feeds(dir: Grid<u8>, r: int, c: int, k: int) -> bool {
    let nr = r + neighbor(k).0;
    let nc = c + neighbor(k).1;
    dir.contains(nr, nc) && points_to(dir.at(nr, nc), nr, nc, r, c)
}

/// Among the first `k` neighbours of `(r, c)` that flow into it, the one of
/// largest accumulation, the later one on a tie.
pub open spec fn pick(acc: Grid<u32>, dir: Grid<u8>, r: int, c: int, k: nat) -> Option<int>
    decreases k,
{
    if k == 0 {
        None
    } else {
        let j = k - 1;
        let best = pick(acc, dir, r, c, j as nat);
        if feeds(dir, r, c, j) && (best matches Some(b) ==> upstream_acc(acc, r, c, j)
            >= upstream_acc(acc, r, c, b)) {
            Some(j)
        } else {
            best
        }
    }
}

pub open spec fn sat_add(a: u32, b: u32) -> u32 {
    if a + b > u32::MAX {
        u32::MAX
    } else {
        (a + b) as u32
    }
}

/// Meters from cell `i` to its `k`-th neighbour; an empty table means no lengths.
pub open spec fn step_meters(lens: Seq<[u32; 8]>, i: int, k: int) -> u32 {
    if lens.len() == 0 {
        0
    } else {
        lens[i]@[k]
    }
}

/// A trace, as (labels, terminus row, terminus column, cells, meters), from
/// `(r, c)` with the given running totals and at most `fuel` further steps.
pub open spec fn trace(
    acc: Grid<u32>,
    dir: Grid<u8>,
    lens: Seq<[u32; 8]>,
    labels: Seq<u32>,
    id: u32,
    r: int,
    c: int,
    count: nat,
    len: u32,
    fuel: nat,
) -> (Seq<u32>, int, int, nat, u32)
    decreases fuel,
{
    if fuel == 0 || acc.at(r, c) == 0 {
        (labels, r, c, count, len)
    } else {
        match pick(acc, dir, r, c, 8) {
            None => (labels, r, c, count, len),
            Some(k) => {
                let nr = r + neighbor(k).0;
                let nc = c + neighbor(k).1;
                let i = flat(dir.cols as int, nr, nc);
                if labels[i] != 0 {
                    (labels, r, c, count, len)
                } else {
                    let labels2 = labels.update(i, id);
                    let len2 = sat_add(len, step_meters(lens, flat(dir.cols as int, r, c), k));
                    if dir.at(nr, nc) == NO_OUTFLOW {
                        (labels2, nr, nc, count + 1, len2)
                    } else {
                        trace(acc, dir, lens, labels2, id, nr, nc, count + 1, len2, (fuel - 1) as nat)
                    }
                }
            },
        }
    }
}

/// What taking cell `i` from the frontier does to (labels, paths).
pub open spec fn visit(
    acc: Grid<u32>,
    dir: Grid<u8>,
    lens: Seq<[u32; 8]>,
    state: (Seq<u32>, Seq<PathRecord>),
    i: int,
) -> (Seq<u32>, Seq<PathRecord>) {
    let labels = state.0;
    let paths = state.1;
    if dir.cells@[i] == NO_DATA || labels[i] != 0 {
        state
    } else {
        let id = (paths.len() + 1) as u32;
        let r = i / (dir.cols as int);
        let c = i % (dir.cols as int);
        let t = trace(acc, dir, lens, labels.update(i, id), id, r, c, 1, 0, dir.cells@.len());
        (
            t.0,
            paths.push(
                PathRecord {
                    terminus_row: t.1 as u32,
                    terminus_col: t.2 as u32,
                    origin_row: r as u32,
                    origin_col: c as u32,
                    cell_count: t.3 as u32,
                    origin_accumulation: acc.cells@[i],
                    path_length_meters: t.4,
                },
            ),
        )
    }
}

/// Frontier key of cell `i`: smaller keys come first.
pub open spec fn priority_key(acc: Grid<u32>, i: int) -> (u32, usize) {
    ((u32::MAX - acc.cells@[i]) as u32, i as usize)
}

pub open spec fn key_le(a: (u32, usize), b: (u32, usize)) -> bool {
    a.0 < b.0 || (a.0 == b.0 && a.1 <= b.1)
}

pub open spec fn key_order() -> spec_fn((u32, usize), (u32, usize)) -> bool {
    |a: (u32, usize), b: (u32, usize)| key_le(a, b)
}

/// Every cell, in the order in which the frontier hands them out.
pub open spec fn frontier(acc: Grid<u32>) -> Seq<(u32, usize)> {
    Seq::new(acc.cells@.len(), |i: int| priority_key(acc, i)).sort_by(key_order())
}

/// (labels, paths) after the first `j` cells of `order` were taken.
pub open spec fn grow(
    acc: Grid<u32>,
    dir: Grid<u8>,
    lens: Seq<[u32; 8]>,
    order: Seq<(u32, usize)>,
    j: nat,
) -> (Seq<u32>, Seq<PathRecord>)
    decreases j,
{
    if j == 0 {
        (Seq::new(dir.cells@.len(), |i: int| 0u32), Seq::empty())
    } else {
        visit(acc, dir, lens, grow(acc, dir, lens, order, (j - 1) as nat), order[j - 1].1 as int)
    }
}

/// (labels, paths) after the first `j` seeds of the frontier were taken.
pub open spec fn stage(acc: Grid<u32>, dir: Grid<u8>, lens: Seq<[u32; 8]>, j: nat) -> (
    Seq<u32>,
    Seq<PathRecord>,
) {
    grow(acc, dir, lens, frontier(acc), j)
}

/// The drainage tree: (labels, paths) once the frontier is empty.
pub open spec fn drainage_tree(acc: Grid<u32>, dir: Grid<u8>, lens: Seq<[u32; 8]>) -> (
    Seq<u32>,
    Seq<PathRecord>,
) {
    stage(acc, dir, lens, frontier(acc).len())
}

/// Why the inputs are refused, if they are.
pub open spec fn tree_input_error(acc: Grid<u32>, dir: Grid<u8>, lens: Seq<[u32; 8]>) -> Option<
    TreeError,
> {
    if !acc.wf() || !dir.wf() || acc.rows != dir.rows || acc.cols != dir.cols || (lens.len() != 0
        && lens.len() != dir.cells@.len()) {
        Some(TreeError::ShapeMismatch)
    } else if dir.cells@.len() >= u32::MAX {
        Some(TreeError::TooLarge)
    } else if !all_known(dir.cells@) {
        Some(TreeError::InvalidDirection)
    } else {
        None
    }
}

/// Inputs the spec functions above are meant for.
pub open spec fn tree_inputs(acc: Grid<u32>, dir: Grid<u8>, lens: Seq<[u32; 8]>) -> bool {
    tree_input_error(acc, dir, lens) is None
}


proof fn lemma_pick(acc: Grid<u32>, dir: Grid<u8>, r: int, c: int, k: nat)
    ensures
        pick(acc, dir, r, c, k) matches Some(b) ==> 0 <= b < k && feeds(dir, r, c, b),
    decreases k,
{
    if k > 0 {
        lemma_pick(acc, dir, r, c, (k - 1) as nat);
    }
}

/// A trace writes only to unlabelled cells, only its own id, and only on
/// cells whose code is a pointer; it ends on the raster.
pub proof fn lemma_trace_write_once(
    acc: Grid<u32>,
    dir: Grid<u8>,
    lens: Seq<[u32; 8]>,
    labels: Seq<u32>,
    id: u32,
    r: int,
    c: int,
    count: nat,
    len: u32,
    fuel: nat,
)
    requires
        tree_inputs(acc, dir, lens),
        dir.contains(r, c),
        labels.len() == dir.cells@.len(),
    ensures
        ({
            let t = trace(acc, dir, lens, labels, id, r, c, count, len, fuel);
            &&& t.0.len() == labels.len()
            &&& dir.contains(t.1, t.2)
            &&& t.3 <= count + fuel
            &&& forall|i: int|
                0 <= i < labels.len() && labels[i] != 0 ==> #[trigger] t.0[i] == labels[i]
            &&& forall|i: int|
                0 <= i < labels.len() && #[trigger] t.0[i] != labels[i] ==> t.0[i] == id
                    && is_pointer(dir.cells@[i])
        }),
    decreases fuel,
{
    if fuel == 0 || acc.at(r, c) == 0 {
    } else {
        lemma_pick(acc, dir, r, c, 8);
        match pick(acc, dir, r, c, 8) {
            None => {},
            Some(k) => {
                let nr = r + neighbor(k).0;
                let nc = c + neighbor(k).1;
                lemma_flat_in_range(dir.rows as int, dir.cols as int, nr, nc);
                let i = flat(dir.cols as int, nr, nc);
                if labels[i] == 0 {
                    let labels2 = labels.update(i, id);
                    let len2 = sat_add(len, step_meters(lens, flat(dir.cols as int, r, c), k));
                    if dir.at(nr, nc) != NO_OUTFLOW {
                        lemma_trace_write_once(
                            acc,
                            dir,
                            lens,
                            labels2,
                            id,
                            nr,
                            nc,
                            count + 1,
                            len2,
                            (fuel - 1) as nat,
                        );
                    }
                }
            },
        }
    }
}

/// The inflowing neighbour of largest accumulation, as [`pick`] chooses it.
fn pick_upstream(acc: &Grid<u32>, dir: &Grid<u8>, r: usize, c: usize) -> (best: Option<usize>)
    requires
        acc.wf(),
        dir.wf(),
        acc.rows == dir.rows,
        acc.cols == dir.cols,
        dir.contains(r as int, c as int),
    ensures
        best matches Some(b) ==> pick(*acc, *dir, r as int, c as int, 8) == Some(b as int),
        best is None ==> pick(*acc, *dir, r as int, c as int, 8) is None,
{
    let mut best: Option<usize> = None;
    let mut amax: u32 = 0;
    let mut k: usize = 0;
    while k < 8
        invariant
            k <= 8,
            acc.wf(),
            dir.wf(),
            acc.rows == dir.rows,
            acc.cols == dir.cols,
            best matches Some(b) ==> pick(*acc, *dir, r as int, c as int, k as nat) == Some(
                b as int,
            ) && amax == upstream_acc(*acc, r as int, c as int, b as int),
            best is None ==> pick(*acc, *dir, r as int, c as int, k as nat) is None,
        decreases 8 - k,
    {
        let (dr, dc) = neighbor_offset(k);
        assert(pick(*acc, *dir, r as int, c as int, (k + 1) as nat) == {
            let best0 = pick(*acc, *dir, r as int, c as int, k as nat);
            if feeds(*dir, r as int, c as int, k as int) && (best0 matches Some(b) ==> upstream_acc(
                *acc,
                r as int,
                c as int,
                k as int,
            ) >= upstream_acc(*acc, r as int, c as int, b)) {
                Some(k as int)
            } else {
                best0
            }
        });
        match (shift(r, dr), shift(c, dc)) {
            (Some(nr), Some(nc)) => {
                if nr < dir.rows && nc < dir.cols {
                    let code = dir.get(nr, nc);
                    if flows_into(code, nr, nc, r, c) {
                        let a = acc.get(nr, nc);
                        match best {
                            None => {
                                best = Some(k);
                                amax = a;
                            },
                            Some(_) => {
                                if a >= amax {
                                    best = Some(k);
                                    amax = a;
                                }
                            },
                        }
                    }
                }
            },
            _ => {},
        }
        k = k + 1;
    }
    best
}

/// Runs one trace, writing `id` into the cells it claims.
fn trace_path(
    acc: &Grid<u32>,
    dir: &Grid<u8>,
    lens: &Vec<[u32; 8]>,
    labels: &mut Vec<u32>,
    id: u32,
    r0: usize,
    c0: usize,
) -> (out: (usize, usize, u32, u32))
    requires
        tree_inputs(*acc, *dir, lens@),
        dir.contains(r0 as int, c0 as int),
        old(labels)@.len() == dir.cells@.len(),
    ensures
        ({
            let t = trace(
                *acc,
                *dir,
                lens@,
                old(labels)@,
                id,
                r0 as int,
                c0 as int,
                1,
                0,
                dir.cells@.len(),
            );
            &&& final(labels)@ == t.0
            &&& out.0 == t.1
            &&& out.1 == t.2
            &&& out.2 == t.3
            &&& out.3 == t.4
        }),
{
    let n = dir.cells.len();
    let ghost whole = trace(*acc, *dir, lens@, labels@, id, r0 as int, c0 as int, 1, 0, n as nat);
    let mut r = r0;
    let mut c = c0;
    let mut count: u32 = 1;
    let mut len: u32 = 0;
    let mut fuel: usize = n;
    loop
        invariant
            tree_inputs(*acc, *dir, lens@),
            n == dir.cells@.len(),
            dir.contains(r as int, c as int),
            labels@.len() == n,
            count as nat + fuel as nat == n as nat + 1,
            trace(*acc, *dir, lens@, labels@, id, r as int, c as int, count as nat, len, fuel as nat)
                == whole,
        ensures
            whole == (labels@, r as int, c as int, count as nat, len),
        decreases fuel,
    {
        if fuel == 0 || acc.get(r, c) == 0 {
            break ;
        }
        let best = pick_upstream(acc, dir, r, c);
        proof {
            lemma_pick(*acc, *dir, r as int, c as int, 8);
        }
        match best {
            None => {
                break ;
            },
            Some(k) => {
                let (dr, dc) = neighbor_offset(k);
                let nr = shift(r, dr).unwrap();
                let nc = shift(c, dc).unwrap();
                proof {
                    lemma_flat_in_range(dir.rows as int, dir.cols as int, nr as int, nc as int);
                    lemma_flat_in_range(dir.rows as int, dir.cols as int, r as int, c as int);
                }
                let ni = nr * dir.cols + nc;
                if labels[ni] != 0 {
                    break ;
                }
                labels.set(ni, id);
                let step: u32 = if lens.len() == 0 {
                    0
                } else {
                    lens[r * dir.cols + c][k]
                };
                len =
                match len.checked_add(step) {
                    Some(s) => s,
                    None => u32::MAX,
                };
                count = count + 1;
                fuel = fuel - 1;
                r = nr;
                c = nc;
                if dir.get(nr, nc) == NO_OUTFLOW {
                    break ;
                }
            },
        }
    }
    (r, c, count, len)
}


proof fn lemma_key_order_total()
    ensures
        total_ordering(key_order()),
{
}

spec fn in_frontier(acc: Grid<u32>, i: int) -> bool {
    exists|j: int| 0 <= j < frontier(acc).len() && (#[trigger] frontier(acc)[j]).1 == i
}

/// The frontier holds every cell.
proof fn lemma_frontier(acc: Grid<u32>)
    requires
        acc.cells@.len() <= usize::MAX,
    ensures
        frontier(acc).len() == acc.cells@.len(),
        forall|j: int|
            0 <= j < frontier(acc).len() ==> (#[trigger] frontier(acc)[j]).1 < acc.cells@.len(),
        forall|i: int| 0 <= i < acc.cells@.len() ==> #[trigger] in_frontier(acc, i),
        sorted_by(frontier(acc), key_order()),
        forall|j: int|
            0 <= j < frontier(acc).len() ==> #[trigger] frontier(acc)[j] == priority_key(
                acc,
                frontier(acc)[j].1 as int,
            ),
{
    broadcast use vstd::seq_lib::group_to_multiset_ensures;

    let all = Seq::new(acc.cells@.len(), |i: int| priority_key(acc, i));
    lemma_key_order_total();
    all.lemma_sort_by_ensures(key_order());
    let f = frontier(acc);
    assert(f.to_multiset().len() == all.to_multiset().len());
    assert forall|j: int| 0 <= j < f.len() implies (#[trigger] f[j]).1 < acc.cells@.len() by {
        assert(f.contains(f[j]));
        let i = choose|i: int| 0 <= i < all.len() && all[i] == f[j];
    }
    assert forall|j: int| 0 <= j < f.len() implies #[trigger] f[j] == priority_key(
        acc,
        f[j].1 as int,
    ) by {
        assert(f.contains(f[j]));
        let i = choose|i: int| 0 <= i < all.len() && all[i] == f[j];
    }
    assert forall|i: int| 0 <= i < acc.cells@.len() implies #[trigger] in_frontier(acc, i) by {
        assert(all[i] == priority_key(acc, i));
        assert(all.contains(all[i]));
        assert(all.to_multiset().count(all[i]) > 0);
        assert(f.contains(all[i]));
        let j = choose|j: int| 0 <= j < f.len() && f[j] == all[i];
        assert(f[j].1 == i);
    }
}

/// Relies on `slice::sort_unstable`: it leaves the same items in ascending
/// order, and tuples compare lexicographically.
#[verifier::external_body]
fn sort_keys(keys: &mut Vec<(u32, usize)>)
    ensures
        final(keys)@.to_multiset() == old(keys)@.to_multiset(),
        sorted_by(final(keys)@, key_order()),
{
    keys.sort_unstable();
}

/// The cells in frontier order.
fn frontier_order(acc: &Grid<u32>) -> (keys: Vec<(u32, usize)>)
    ensures
        keys@ == frontier(*acc),
{
    let n = acc.cells.len();
    let mut keys: Vec<(u32, usize)> = Vec::new();
    let mut i: usize = 0;
    while i < n
        invariant
            i <= n,
            n == acc.cells@.len(),
            keys@ == Seq::new(i as nat, |j: int| priority_key(*acc, j)),
        decreases n - i,
    {
        keys.push((u32::MAX - acc.cells[i], i));
        i = i + 1;
        assert(keys@ =~= Seq::new(i as nat, |j: int| priority_key(*acc, j)));
    }
    let ghost all = keys@;
    sort_keys(&mut keys);
    proof {
        lemma_key_order_total();
        all.lemma_sort_by_ensures(key_order());
        vstd::seq_lib::lemma_sorted_unique(keys@, all.sort_by(key_order()), key_order());
    }
    keys
}

/// Labels stay within the raster's cells, and only cells with data get one.
proof fn lemma_grow(
    acc: Grid<u32>,
    dir: Grid<u8>,
    lens: Seq<[u32; 8]>,
    order: Seq<(u32, usize)>,
    j: nat,
)
    requires
        tree_inputs(acc, dir, lens),
        acc.cells@.len() == dir.cells@.len(),
        j <= order.len(),
        forall|k: int| 0 <= k < order.len() ==> (#[trigger] order[k]).1 < dir.cells@.len(),
    ensures
        grow(acc, dir, lens, order, j).0.len() == dir.cells@.len(),
        grow(acc, dir, lens, order, j).1.len() <= j,
        forall|i: int|
            0 <= i < dir.cells@.len() && #[trigger] grow(acc, dir, lens, order, j).0[i] != 0
                ==> dir.cells@[i] != NO_DATA,
    decreases j,
{
    if j > 0 {
        let prev = grow(acc, dir, lens, order, (j - 1) as nat);
        lemma_grow(acc, dir, lens, order, (j - 1) as nat);
        let i = order[j - 1].1 as int;
        if dir.cells@[i] != NO_DATA && prev.0[i] == 0 {
            let n = dir.cells@.len() as int;
            lemma_dims(dir.rows as int, dir.cols as int);
            lemma_flat_inverse(dir.rows as int, dir.cols as int, i);
            let id = (prev.1.len() + 1) as u32;
            let r = i / (dir.cols as int);
            let c = i % (dir.cols as int);
            lemma_trace_write_once(acc, dir, lens, prev.0.update(i, id), id, r, c, 1, 0, n as nat);
        }
    }
}

/// Write-once, frontier step by frontier step: a label set after `j1` seeds is
/// still the same after `j2 >= j1` seeds.
pub proof fn lemma_labels_write_once(
    acc: Grid<u32>,
    dir: Grid<u8>,
    lens: Seq<[u32; 8]>,
    j1: nat,
    j2: nat,
)
    requires
        tree_inputs(acc, dir, lens),
        acc.cells@.len() == dir.cells@.len(),
        j1 <= j2 <= frontier(acc).len(),
    ensures
        forall|i: int|
            0 <= i < dir.cells@.len() && #[trigger] stage(acc, dir, lens, j1).0[i] != 0 ==> stage(
                acc,
                dir,
                lens,
                j2,
            ).0[i] == stage(acc, dir, lens, j1).0[i],
    decreases j2,
{
    lemma_frontier(acc);
    if j2 > j1 {
        lemma_labels_write_once(acc, dir, lens, j1, (j2 - 1) as nat);
        lemma_grow_step(acc, dir, lens, frontier(acc), (j2 - 1) as nat);
    }
}

/// One frontier step keeps every label that was set, and labels the seed it takes
/// when that seed has data.
proof fn lemma_grow_step(
    acc: Grid<u32>,
    dir: Grid<u8>,
    lens: Seq<[u32; 8]>,
    order: Seq<(u32, usize)>,
    j: nat,
)
    requires
        tree_inputs(acc, dir, lens),
        acc.cells@.len() == dir.cells@.len(),
        j < order.len(),
        order.len() <= dir.cells@.len(),
        forall|k: int| 0 <= k < order.len() ==> (#[trigger] order[k]).1 < dir.cells@.len(),
    ensures
        forall|i: int|
            0 <= i < dir.cells@.len() && #[trigger] grow(acc, dir, lens, order, j).0[i] != 0
                ==> grow(acc, dir, lens, order, j + 1).0[i] == grow(acc, dir, lens, order, j).0[i],
        dir.cells@[order[j as int].1 as int] != NO_DATA ==> grow(acc, dir, lens, order, j + 1).0[order[j as int].1 as int] != 0,
{
    let prev = grow(acc, dir, lens, order, j);
    lemma_grow(acc, dir, lens, order, j);
    let i = order[j as int].1 as int;
    if dir.cells@[i] != NO_DATA && prev.0[i] == 0 {
        let n = dir.cells@.len() as int;
        lemma_dims(dir.rows as int, dir.cols as int);
        lemma_flat_inverse(dir.rows as int, dir.cols as int, i);
        let id = (prev.1.len() + 1) as u32;
        let r = i / (dir.cols as int);
        let c = i % (dir.cols as int);
        assert(id != 0);
        let start = prev.0.update(i, id);
        lemma_trace_write_once(acc, dir, lens, start, id, r, c, 1, 0, n as nat);
        assert(start[i] != 0);
    }
}

/// Every cell with data ends up on a path, and no other cell does.
pub proof fn lemma_tree_covers(acc: Grid<u32>, dir: Grid<u8>, lens: Seq<[u32; 8]>)
    requires
        tree_inputs(acc, dir, lens),
        acc.cells@.len() == dir.cells@.len(),
    ensures
        drainage_tree(acc, dir, lens).0.len() == dir.cells@.len(),
        forall|i: int|
            0 <= i < dir.cells@.len() ==> (#[trigger] drainage_tree(acc, dir, lens).0[i] != 0
                <==> dir.cells@[i] != NO_DATA),
{
    lemma_frontier(acc);
    let f = frontier(acc);
    let n = f.len();
    lemma_grow(acc, dir, lens, f, n);
    assert forall|i: int|
        0 <= i < dir.cells@.len() && dir.cells@[i] != NO_DATA implies #[trigger] drainage_tree(
        acc,
        dir,
        lens,
    ).0[i] != 0 by {
        assert(in_frontier(acc, i));
        let j = choose|j: int| 0 <= j < f.len() && (#[trigger] f[j]).1 == i;
        lemma_grow_step(acc, dir, lens, f, j as nat);
        assert(stage(acc, dir, lens, (j + 1) as nat).0[i] != 0);
        lemma_labels_write_once(acc, dir, lens, (j + 1) as nat, n);
        assert(drainage_tree(acc, dir, lens).0[i] == stage(acc, dir, lens, (j + 1) as nat).0[i]);
    }
}


/// What the builder owes on `acc`, `dir` and `lens`: the error the inputs call
/// for, or the drainage tree.
pub open spec fn builds(
    acc: Grid<u32>,
    dir: Grid<u8>,
    lens: Seq<[u32; 8]>,
    res: Result<(Grid<u32>, Vec<PathRecord>), TreeError>,
) -> bool {
    match tree_input_error(acc, dir, lens) {
        Some(e) => res matches Err(f) && f == e,
        None => res matches Ok(out) && out.0.rows == dir.rows && out.0.cols == dir.cols
            && out.0.wf() && (out.0.cells@, out.1@) == drainage_tree(acc, dir, lens),
    }
}

/// Labels the raster with drainage paths and lists the paths in the order they
/// were started.
///
/// `step_lengths` is empty, and then every path length is 0, or holds for each
/// cell the meters to each of its eight neighbours, in scan order.
pub fn build_drainage_tree(acc: &Grid<u32>, dir: &Grid<u8>, step_lengths: &Vec<[u32; 8]>) -> (res:
    Result<(Grid<u32>, Vec<PathRecord>), TreeError>)
    ensures
        builds(*acc, *dir, step_lengths@, res),
        res matches Ok(out) ==> forall|i: int|
            0 <= i < out.0.cells@.len() ==> (#[trigger] out.0.cells@[i] != 0 <==> dir.cells@[i]
                != NO_DATA),
{
    if !acc.is_wf() || !dir.is_wf() || acc.rows != dir.rows || acc.cols != dir.cols || (
    step_lengths.len() != 0 && step_lengths.len() != dir.cells.len()) {
        return Err(TreeError::ShapeMismatch);
    }
    let n = dir.cells.len();
    if n >= 4294967295 {
        return Err(TreeError::TooLarge);
    }
    if !codes_known(&dir.cells) {
        return Err(TreeError::InvalidDirection);
    }
    let ghost lens = step_lengths@;
    let keys = frontier_order(acc);
    proof {
        lemma_frontier(*acc);
    }
    let mut labels: Vec<u32> = Vec::new();
    let mut i: usize = 0;
    while i < n
        invariant
            i <= n,
            labels@ == Seq::new(i as nat, |j: int| 0u32),
        decreases n - i,
    {
        labels.push(0);
        i = i + 1;
        assert(labels@ =~= Seq::new(i as nat, |j: int| 0u32));
    }
    let mut paths: Vec<PathRecord> = Vec::new();
    let mut j: usize = 0;
    assert((labels@, paths@) =~= grow(*acc, *dir, lens, keys@, 0));
    while j < n
        invariant
            tree_inputs(*acc, *dir, lens),
            lens == step_lengths@,
            acc.cells@.len() == n,
            n == dir.cells@.len(),
            keys@ == frontier(*acc),
            keys@.len() == n,
            j <= n,
            forall|k: int| 0 <= k < n ==> (#[trigger] keys@[k]).1 < n,
            (labels@, paths@) == grow(*acc, *dir, lens, keys@, j as nat),
        decreases n - j,
    {
        proof {
            lemma_grow(*acc, *dir, lens, keys@, j as nat);
        }
        let i = keys[j].1;
        if dir.cells[i] != NO_DATA && labels[i] == 0 {
            proof {
                lemma_dims(dir.rows as int, dir.cols as int);
                lemma_flat_inverse(dir.rows as int, dir.cols as int, i as int);
            }
            let id = (paths.len() + 1) as u32;
            let r = i / dir.cols;
            let c = i % dir.cols;
            labels.set(i, id);
            let (er, ec, count, len) = trace_path(acc, dir, step_lengths, &mut labels, id, r, c);
            proof {
                lemma_trace_write_once(
                    *acc,
                    *dir,
                    lens,
                    grow(*acc, *dir, lens, keys@, j as nat).0.update(i as int, id),
                    id,
                    r as int,
                    c as int,
                    1,
                    0,
                    n as nat,
                );
            }
            paths.push(
                PathRecord {
                    terminus_row: er as u32,
                    terminus_col: ec as u32,
                    origin_row: r as u32,
                    origin_col: c as u32,
                    cell_count: count,
                    origin_accumulation: acc.cells[i],
                    path_length_meters: len,
                },
            );
        }
        j = j + 1;
    }
    proof {
        lemma_tree_covers(*acc, *dir, lens);
    }
    Ok((Grid { rows: dir.rows, cols: dir.cols, cells: labels }, paths))
}

/// Two runs on the same inputs give the same labels and the same path table.
pub proof fn lemma_build_deterministic(
    acc: Grid<u32>,
    dir: Grid<u8>,
    lens: Seq<[u32; 8]>,
    a: Result<(Grid<u32>, Vec<PathRecord>), TreeError>,
    b: Result<(Grid<u32>, Vec<PathRecord>), TreeError>,
)
    requires
        builds(acc, dir, lens, a),
        builds(acc, dir, lens, b),
    ensures
        a matches Ok(x) ==> b matches Ok(y) && x.0.rows == y.0.rows && x.0.cols == y.0.cols
            && x.0.cells@ == y.0.cells@ && x.1@ == y.1@,
        a matches Err(e) ==> b matches Err(f) && e == f,
{
}


proof fn lemma_trace_no_lengths(
    acc: Grid<u32>,
    dir: Grid<u8>,
    labels: Seq<u32>,
    id: u32,
    r: int,
    c: int,
    count: nat,
    fuel: nat,
)
    ensures
        trace(acc, dir, Seq::empty(), labels, id, r, c, count, 0, fuel).4 == 0,
    decreases fuel,
{
    if fuel > 0 && acc.at(r, c) != 0 {
        if let Some(k) = pick(acc, dir, r, c, 8) {
            let nr = r + neighbor(k).0;
            let nc = c + neighbor(k).1;
            let i = flat(dir.cols as int, nr, nc);
            assert(sat_add(0, step_meters(Seq::empty(), flat(dir.cols as int, r, c), k)) == 0);
            lemma_trace_no_lengths(
                acc,
                dir,
                labels.update(i, id),
                id,
                nr,
                nc,
                count + 1,
                (fuel - 1) as nat,
            );
        }
    }
}

proof fn lemma_grow_no_lengths(
    acc: Grid<u32>,
    dir: Grid<u8>,
    order: Seq<(u32, usize)>,
    j: nat,
)
    ensures
        forall|k: int|
            0 <= k < grow(acc, dir, Seq::empty(), order, j).1.len() ==> (#[trigger] grow(
                acc,
                dir,
                Seq::empty(),
                order,
                j,
            ).1[k]).path_length_meters == 0,
    decreases j,
{
    if j > 0 {
        let prev = grow(acc, dir, Seq::empty(), order, (j - 1) as nat);
        lemma_grow_no_lengths(acc, dir, order, (j - 1) as nat);
        let i = order[j - 1].1 as int;
        let id = (prev.1.len() + 1) as u32;
        lemma_trace_no_lengths(
            acc,
            dir,
            prev.0.update(i, id),
            id,
            i / (dir.cols as int),
            i % (dir.cols as int),
            1,
            dir.cells@.len(),
        );
    }
}

/// Without step lengths (no transform), every path has length 0.
pub proof fn lemma_no_lengths_zero(acc: Grid<u32>, dir: Grid<u8>)
    ensures
        forall|k: int|
            0 <= k < drainage_tree(acc, dir, Seq::empty()).1.len() ==> (#[trigger] drainage_tree(
                acc,
                dir,
                Seq::empty(),
            ).1[k]).path_length_meters == 0,
{
    lemma_grow_no_lengths(acc, dir, frontier(acc), frontier(acc).len());
}


proof fn lemma_grow_sorted(
    acc: Grid<u32>,
    dir: Grid<u8>,
    lens: Seq<[u32; 8]>,
    order: Seq<(u32, usize)>,
    j: nat,
)
    requires
        sorted_by(order, key_order()),
        j <= order.len(),
        forall|k: int|
            0 <= k < order.len() ==> (#[trigger] order[k]).1 < acc.cells@.len() && order[k]
                == priority_key(acc, order[k].1 as int),
    ensures
        ({
            let ps = grow(acc, dir, lens, order, j).1;
            &&& forall|a: int, b: int|
                0 <= a < b < ps.len() ==> (#[trigger] ps[a]).origin_accumulation >= (
                #[trigger] ps[b]).origin_accumulation
            &&& forall|a: int, m: int|
                0 <= a < ps.len() && j <= m < order.len() ==> (#[trigger] ps[a]).origin_accumulation
                    >= u32::MAX - (#[trigger] order[m]).0
        }),
    decreases j,
{
    if j > 0 {
        lemma_grow_sorted(acc, dir, lens, order, (j - 1) as nat);
        let prev = grow(acc, dir, lens, order, (j - 1) as nat);
        let ps = grow(acc, dir, lens, order, j).1;
        let i = order[j - 1].1 as int;
        assert(order[j - 1] == priority_key(acc, i));
        assert forall|a: int, m: int|
            0 <= a < ps.len() && j <= m < order.len() implies (#[trigger] ps[a]).origin_accumulation
            >= u32::MAX - (#[trigger] order[m]).0 by {
            assert((key_order())(order[j - 1], order[m]));
            assert(key_le(order[j - 1], order[m]));
        }
    }
}

/// Paths are listed in order of descending origin accumulation.
pub proof fn lemma_paths_by_accumulation(acc: Grid<u32>, dir: Grid<u8>, lens: Seq<[u32; 8]>)
    requires
        acc.cells@.len() <= usize::MAX,
    ensures
        forall|a: int, b: int|
            0 <= a < b < drainage_tree(acc, dir, lens).1.len() ==> (#[trigger] drainage_tree(
                acc,
                dir,
                lens,
            ).1[a]).origin_accumulation >= (#[trigger] drainage_tree(
                acc,
                dir,
                lens,
            ).1[b]).origin_accumulation,
{
    lemma_frontier(acc);
    lemma_grow_sorted(acc, dir, lens, frontier(acc), frontier(acc).len());
}

} // verus!
