//! Scores how closely a coarse direction raster follows each path of a drainage
//! tree traced on a fine one.
//!
//! For a path, the coarse course is every coarse cell reached by following the
//! coarse directions from the coarse cell that holds the path's upstream end.
//! The fine path is then walked downstream from that end to the path's origin,
//! and each fine cell is looked up in the coarse course. The starting cell
//! counts as a step and as a match, so a score is `matched / total` with
//! `1 <= matched <= total`.
use crate::codec::{all_known, codes_known, decode, is_pointer, offset, shift};
use crate::grid::{Grid, flat, lemma_flat_in_range, lemma_flat_injective};
use crate::tree::PathRecord;
use vstd::prelude::*;

verus! {

/// The score of one path: `matched` of its `total` cells fall on the coarse course.
#[derive(Clone, Copy, Debug, PartialEq, Eq)]
pub struct Overlap {
    pub matched: usize,
    pub total: usize,
}

#[derive(Clone, Copy, Debug, PartialEq, Eq)]
pub enum CompareError {
    /// A raster's cells do not fill it, or the fine raster is not the coarse
    /// one scaled by a positive integer in both dimensions.
    ShapeMismatch,
    /// A direction code is neither a pointer, nor no-outflow, nor no-data.
    InvalidDirection,
    /// A path's ends lie off the fine raster, or the fine directions do not
    /// lead from its upstream end to its origin.
    BrokenPath,
}

/// How many fine cells a coarse cell spans along each side, if the shapes agree.
pub open spec fn scale(fine: Grid<u8>, coarse: Grid<u8>) -> Option<int> {
    if coarse.rows > 0 && coarse.cols > 0 && fine.rows % coarse.rows == 0 && fine.rows
        / coarse.rows >= 1 && fine.cols == (fine.rows / coarse.rows) * coarse.cols {
        Some((fine.rows / coarse.rows) as int)
    } else {
        None
    }
}

/// One step downstream; a cell that points nowhere or off the raster stays put.
pub open spec fn step(g: Grid<u8>, p: (int, int)) -> (int, int) {
    let code = g.at(p.0, p.1);
    let q = (p.0 + offset(code).0, p.1 + offset(code).1);
    if g.contains(p.0, p.1) && is_pointer(code) && g.contains(q.0, q.1) {
        q
    } else {
        p
    }
}

/// Where `k` steps downstream from `s` lead.
pub open spec fn walk(g: Grid<u8>, s: (int, int), k: nat) -> (int, int)
    decreases k,
{
    if k == 0 {
        s
    } else {
        step(g, walk(g, s, (k - 1) as nat))
    }
}

/// `p` is reached from `s` within `m` steps.
pub open spec fn reached(g: Grid<u8>, s: (int, int), m: nat, p: (int, int)) -> bool {
    exists|k: nat| k <= m && #[trigger] walk(g, s, k) == p
}

/// `p` lies on the course downstream of `s`: it is reached in fewer steps than
/// the raster has cells, which is every cell it ever reaches.
pub open spec fn on_course(g: Grid<u8>, s: (int, int), p: (int, int)) -> bool {
    g.cells@.len() > 0 && reached(g, s, (g.cells@.len() - 1) as nat, p)
}

/// (matches, steps) on the fine walk from `p` to `end` within `fuel` steps, each
/// cell after `p` matched against the coarse course from `s`.
pub open spec fn fine_run(
    fine: Grid<u8>,
    coarse: Grid<u8>,
    ratio: int,
    s: (int, int),
    p: (int, int),
    end: (int, int),
    fuel: nat,
) -> Option<(nat, nat)>
    decreases fuel,
{
    if p == end {
        Some((0, 0))
    } else if fuel == 0 {
        None
    } else {
        let code = fine.at(p.0, p.1);
        let q = (p.0 + offset(code).0, p.1 + offset(code).1);
        if !is_pointer(code) || !fine.contains(q.0, q.1) {
            None
        } else {
            match fine_run(fine, coarse, ratio, s, q, end, (fuel - 1) as nat) {
                None => None,
                Some(ht) => Some(
                    (
                        ht.0 + if on_course(coarse, s, (q.0 / ratio, q.1 / ratio)) {
                            1nat
                        } else {
                            0nat
                        },
                        ht.1 + 1,
                    ),
                ),
            }
        }
    }
}

/// (matched, total) for one path, or `None` when it cannot be walked.
pub open spec fn path_overlap(fine: Grid<u8>, coarse: Grid<u8>, ratio: int, p: PathRecord) -> Option<
    (nat, nat),
> {
    let start = (p.terminus_row as int, p.terminus_col as int);
    let end = (p.origin_row as int, p.origin_col as int);
    if !fine.contains(start.0, start.1) || !fine.contains(end.0, end.1) {
        None
    } else {
        match fine_run(
            fine,
            coarse,
            ratio,
            (start.0 / ratio, start.1 / ratio),
            start,
            end,
            (fine.cells@.len() - 1) as nat,
        ) {
            None => None,
            Some(ht) => Some((ht.0 + 1, ht.1 + 1)),
        }
    }
}

/// Why the rasters are refused, if they are.
pub open spec fn compare_input_error(fine: Grid<u8>, coarse: Grid<u8>) -> Option<CompareError> {
    if !fine.wf() || !coarse.wf() || scale(fine, coarse) is None {
        Some(CompareError::ShapeMismatch)
    } else if !all_known(fine.cells@) || !all_known(coarse.cells@) {
        Some(CompareError::InvalidDirection)
    } else {
        None
    }
}

/// What the comparator owes: the error the inputs call for, or one score per path.
pub open spec fn compares(
    fine: Grid<u8>,
    coarse: Grid<u8>,
    paths: Seq<PathRecord>,
    res: Result<Vec<Overlap>, CompareError>,
) -> bool {
    match compare_input_error(fine, coarse) {
        Some(e) => res matches Err(f) && f == e,
        None => {
            let ratio = scale(fine, coarse).unwrap();
            if forall|k: int|
                0 <= k < paths.len() ==> (#[trigger] path_overlap(fine, coarse, ratio, paths[k]))
                    is Some {
                res matches Ok(v) && v@.len() == paths.len() && forall|k: int|
                    0 <= k < paths.len() ==> #[trigger] path_overlap(fine, coarse, ratio, paths[k])
                        == Some((v@[k].matched as nat, v@[k].total as nat))
            } else {
                res matches Err(f) && f == CompareError::BrokenPath
            }
        },
    }
}


proof fn lemma_walk_on_grid(g: Grid<u8>, s: (int, int), k: nat)
    requires
        g.contains(s.0, s.1),
    ensures
        g.contains(walk(g, s, k).0, walk(g, s, k).1),
    decreases k,
{
    if k > 0 {
        lemma_walk_on_grid(g, s, (k - 1) as nat);
    }
}

proof fn lemma_reached_succ(g: Grid<u8>, s: (int, int), m: nat, p: (int, int))
    ensures
        reached(g, s, m + 1, p) <==> (reached(g, s, m, p) || walk(g, s, m + 1) == p),
{
    if reached(g, s, m + 1, p) && walk(g, s, m + 1) != p {
        let k = choose|k: nat| k <= m + 1 && #[trigger] walk(g, s, k) == p;
        assert(k <= m);
    }
    if reached(g, s, m, p) {
        let k = choose|k: nat| k <= m && #[trigger] walk(g, s, k) == p;
        assert(k <= m + 1 && walk(g, s, k) == p);
    }
    if walk(g, s, m + 1) == p {
        assert(reached(g, s, m + 1, p));
    }
}

/// Once the next step of a walk lands on a cell already reached, the walk
/// reaches nothing new.
proof fn lemma_course_closed(g: Grid<u8>, s: (int, int), m: nat, k: nat)
    requires
        reached(g, s, m, step(g, walk(g, s, m))),
    ensures
        reached(g, s, m, walk(g, s, k)),
    decreases k,
{
    if k <= m {
        assert(walk(g, s, k) == walk(g, s, k));
    } else {
        lemma_course_closed(g, s, m, (k - 1) as nat);
        let j = choose|j: nat| j <= m && #[trigger] walk(g, s, j) == walk(g, s, (k - 1) as nat);
        assert(walk(g, s, k) == step(g, walk(g, s, j)));
        if j < m {
            assert(walk(g, s, (j + 1) as nat) == step(g, walk(g, s, j)));
        }
    }
}

proof fn lemma_scale(fine: Grid<u8>, coarse: Grid<u8>, ratio: int, r: int, c: int)
    requires
        scale(fine, coarse) == Some(ratio),
        fine.contains(r, c),
    ensures
        ratio >= 1,
        fine.rows == ratio * coarse.rows,
        coarse.contains(r / ratio, c / ratio),
{
    let rows2 = coarse.rows as int;
    let cols2 = coarse.cols as int;
    assert(fine.rows == (fine.rows / coarse.rows) * coarse.rows) by (nonlinear_arith)
        requires
            fine.rows % coarse.rows == 0,
            coarse.rows > 0,
    ;
    assert(r / ratio < rows2 && 0 <= r / ratio) by (nonlinear_arith)
        requires
            0 <= r < ratio * rows2,
            ratio >= 1,
    ;
    assert(c / ratio < cols2 && 0 <= c / ratio) by (nonlinear_arith)
        requires
            0 <= c < ratio * cols2,
            ratio >= 1,
    ;
}

/// Marks, by flat index, every coarse cell on the course downstream of `(sr, sc)`.
fn coarse_course(coarse: &Grid<u8>, sr: usize, sc: usize) -> (marks: Vec<bool>)
    requires
        coarse.wf(),
        coarse.contains(sr as int, sc as int),
    ensures
        marks@.len() == coarse.cells@.len(),
        forall|r: int, c: int|
            coarse.contains(r, c) ==> (#[trigger] marks@[flat(coarse.cols as int, r, c)]
                <==> on_course(*coarse, (sr as int, sc as int), (r, c))),
{
    let ghost s = (sr as int, sc as int);
    let ghost cols = coarse.cols as int;
    let n = coarse.cells.len();
    let mut marks: Vec<bool> = Vec::new();
    let mut i: usize = 0;
    while i < n
        invariant
            i <= n,
            marks@ == Seq::new(i as nat, |j: int| false),
        decreases n - i,
    {
        marks.push(false);
        i = i + 1;
        assert(marks@ =~= Seq::new(i as nat, |j: int| false));
    }
    proof {
        lemma_flat_in_range(coarse.rows as int, cols, sr as int, sc as int);
    }
    marks.set(sr * coarse.cols + sc, true);
    proof {
        assert forall|r: int, c: int| coarse.contains(r, c) implies (#[trigger] marks@[flat(
            cols,
            r,
            c,
        )] <==> reached(*coarse, s, 0, (r, c))) by {
            lemma_flat_in_range(coarse.rows as int, cols, r, c);
            if marks@[flat(cols, r, c)] {
                lemma_flat_injective(coarse.rows as int, cols, r, c, sr as int, sc as int);
                assert(walk(*coarse, s, 0) == (r, c));
            }
            if reached(*coarse, s, 0, (r, c)) {
                let k = choose|k: nat| k <= 0 && #[trigger] walk(*coarse, s, k) == (r, c);
            }
        }
    }
    let mut r = sr;
    let mut c = sc;
    let mut m: usize = 0;
    loop
        invariant
            coarse.wf(),
            n == coarse.cells@.len(),
            cols == coarse.cols,
            marks@.len() == n,
            m < n,
            (r as int, c as int) == walk(*coarse, s, m as nat),
            coarse.contains(r as int, c as int),
            forall|rr: int, cc: int|
                coarse.contains(rr, cc) ==> (#[trigger] marks@[flat(cols, rr, cc)] <==> reached(
                    *coarse,
                    s,
                    m as nat,
                    (rr, cc),
                )),
        ensures
            m + 1 == n || reached(*coarse, s, m as nat, step(*coarse, walk(*coarse, s, m as nat))),
        decreases n - m,
    {
        if m + 1 == n {
            break ;
        }
        let ghost here = (r as int, c as int);
        let code = coarse.get(r, c);
        let o = decode(code);
        let mut next: Option<(usize, usize)> = None;
        if let Some(o) = o {
            if let (Some(nr), Some(nc)) = (shift(r, o.0), shift(c, o.1)) {
                if nr < coarse.rows && nc < coarse.cols {
                    next = Some((nr, nc));
                }
            }
        }
        match next {
            None => {
                assert(step(*coarse, here) == here);
                assert(walk(*coarse, s, m as nat) == here);
                break ;
            },
            Some((nr, nc)) => {
                proof {
                    lemma_flat_in_range(coarse.rows as int, cols, nr as int, nc as int);
                }
                let q = nr * coarse.cols + nc;
                assert(step(*coarse, here) == (nr as int, nc as int));
                if marks[q] {
                    break ;
                }
                marks.set(q, true);
                proof {
                    let m1 = (m + 1) as nat;
                    assert(walk(*coarse, s, m1) == (nr as int, nc as int));
                    assert forall|rr: int, cc: int| coarse.contains(rr, cc) implies (
                    #[trigger] marks@[flat(cols, rr, cc)] <==> reached(*coarse, s, m1, (rr, cc))) by {
                        lemma_reached_succ(*coarse, s, m as nat, (rr, cc));
                        lemma_flat_in_range(coarse.rows as int, cols, rr, cc);
                        if flat(cols, rr, cc) == q {
                            lemma_flat_injective(
                                coarse.rows as int,
                                cols,
                                rr,
                                cc,
                                nr as int,
                                nc as int,
                            );
                        }
                    }
                }
                r = nr;
                c = nc;
                m = m + 1;
            },
        }
    }
    proof {
        let last = (n - 1) as nat;
        assert forall|rr: int, cc: int| coarse.contains(rr, cc) implies (#[trigger] marks@[flat(
            cols,
            rr,
            cc,
        )] <==> on_course(*coarse, s, (rr, cc))) by {
            if reached(*coarse, s, m as nat, (rr, cc)) {
                let k = choose|k: nat| k <= m && #[trigger] walk(*coarse, s, k) == (rr, cc);
                assert(k <= last);
            }
            if on_course(*coarse, s, (rr, cc)) && m + 1 != n {
                let k = choose|k: nat| k <= last && #[trigger] walk(*coarse, s, k) == (rr, cc);
                lemma_course_closed(*coarse, s, m as nat, k);
            }
        }
    }
    marks
}


/// Scores one path, or `None` when it cannot be walked.
fn overlap_of(fine: &Grid<u8>, coarse: &Grid<u8>, ratio: usize, p: PathRecord) -> (o: Option<
    Overlap,
>)
    requires
        fine.wf(),
        coarse.wf(),
        scale(*fine, *coarse) == Some(ratio as int),
    ensures
        o matches Some(v) ==> path_overlap(*fine, *coarse, ratio as int, p) == Some(
            (v.matched as nat, v.total as nat),
        ),
        o is None ==> path_overlap(*fine, *coarse, ratio as int, p) is None,
{
    let r1 = p.terminus_row as usize;
    let c1 = p.terminus_col as usize;
    let r2 = p.origin_row as usize;
    let c2 = p.origin_col as usize;
    if !(r1 < fine.rows && c1 < fine.cols && r2 < fine.rows && c2 < fine.cols) {
        return None;
    }
    proof {
        lemma_scale(*fine, *coarse, ratio as int, r1 as int, c1 as int);
        lemma_flat_in_range(fine.rows as int, fine.cols as int, r1 as int, c1 as int);
    }
    let ghost s = ((r1 / ratio) as int, (c1 / ratio) as int);
    let ghost end = (r2 as int, c2 as int);
    let marks = coarse_course(coarse, r1 / ratio, c1 / ratio);
    let n = fine.cells.len();
    let ghost whole = fine_run(
        *fine,
        *coarse,
        ratio as int,
        s,
        (r1 as int, c1 as int),
        end,
        (n - 1) as nat,
    );
    assert(s == ((p.terminus_row as int) / (ratio as int), (p.terminus_col as int) / (ratio as int)));
    assert(path_overlap(*fine, *coarse, ratio as int, p) == match whole {
        None => None,
        Some(ht) => Some((ht.0 + 1, ht.1 + 1)),
    });
    let n2 = coarse.cells.len();
    let mut fuel: usize = n - 1;
    let mut r = r1;
    let mut c = c1;
    let mut matched: usize = 1;
    let mut total: usize = 1;
    loop
        invariant
            fine.wf(),
            coarse.wf(),
            scale(*fine, *coarse) == Some(ratio as int),
            n == fine.cells@.len(),
            n2 == coarse.cells@.len(),
            end == (r2 as int, c2 as int),
            path_overlap(*fine, *coarse, ratio as int, p) == match whole {
                None => None,
                Some(ht) => Some((ht.0 + 1, ht.1 + 1)),
            },
            marks@.len() == coarse.cells@.len(),
            forall|rr: int, cc: int|
                coarse.contains(rr, cc) ==> (#[trigger] marks@[flat(coarse.cols as int, rr, cc)]
                    <==> on_course(*coarse, s, (rr, cc))),
            fine.contains(r as int, c as int),
            total - 1 + fuel == n - 1,
            1 <= matched <= total,
            match fine_run(*fine, *coarse, ratio as int, s, (r as int, c as int), end, fuel as nat) {
                None => whole is None,
                Some(ht) => whole == Some(((ht.0 + matched - 1) as nat, (ht.1 + total - 1) as nat)),
            },
        ensures
            whole == Some(((matched - 1) as nat, (total - 1) as nat)),
            1 <= matched <= total,
        decreases fuel,
    {
        if r == r2 && c == c2 {
            break ;
        }
        assert((r as int, c as int) != end);
        if fuel == 0 {
            assert(fine_run(*fine, *coarse, ratio as int, s, (r as int, c as int), end, 0) is None);
            return None;
        }
        let code = fine.get(r, c);
        let mut next: Option<(usize, usize)> = None;
        if let Some(o) = decode(code) {
            if let (Some(nr), Some(nc)) = (shift(r, o.0), shift(c, o.1)) {
                if nr < fine.rows && nc < fine.cols {
                    next = Some((nr, nc));
                }
            }
        }
        match next {
            None => {
                return None;
            },
            Some((nr, nc)) => {
                proof {
                    lemma_scale(*fine, *coarse, ratio as int, nr as int, nc as int);
                    lemma_flat_in_range(
                        coarse.rows as int,
                        coarse.cols as int,
                        (nr / ratio) as int,
                        (nc / ratio) as int,
                    );
                }
                let hit = marks[(nr / ratio) * coarse.cols + nc / ratio];
                total = total + 1;
                if hit {
                    matched = matched + 1;
                }
                fuel = fuel - 1;
                r = nr;
                c = nc;
            },
        }
    }
    Some(Overlap { matched, total })
}

/// Scores each path of `paths`, traced on `fine`, against the course that
/// `coarse` gives it.
pub fn compare_flow_paths(fine: &Grid<u8>, coarse: &Grid<u8>, paths: &Vec<PathRecord>) -> (res:
    Result<Vec<Overlap>, CompareError>)
    ensures
        compares(*fine, *coarse, paths@, res),
{
    if !fine.is_wf() || !coarse.is_wf() || coarse.rows == 0 || coarse.cols == 0 {
        return Err(CompareError::ShapeMismatch);
    }
    let ratio = fine.rows / coarse.rows;
    if fine.rows % coarse.rows != 0 || ratio < 1 {
        return Err(CompareError::ShapeMismatch);
    }
    match ratio.checked_mul(coarse.cols) {
        Some(w) => {
            if w != fine.cols {
                return Err(CompareError::ShapeMismatch);
            }
        },
        None => {
            return Err(CompareError::ShapeMismatch);
        },
    }
    if !codes_known(&fine.cells) || !codes_known(&coarse.cells) {
        return Err(CompareError::InvalidDirection);
    }
    let ghost rt = ratio as int;
    let mut out: Vec<Overlap> = Vec::new();
    let mut k: usize = 0;
    while k < paths.len()
        invariant
            fine.wf(),
            coarse.wf(),
            scale(*fine, *coarse) == Some(rt),
            all_known(fine.cells@),
            all_known(coarse.cells@),
            rt == ratio,
            k <= paths@.len(),
            out@.len() == k,
            forall|j: int|
                0 <= j < k ==> #[trigger] path_overlap(*fine, *coarse, rt, paths@[j]) == Some(
                    (out@[j].matched as nat, out@[j].total as nat),
                ),
        decreases paths@.len() - k,
    {
        match overlap_of(fine, coarse, ratio, paths[k]) {
            None => {
                assert(scale(*fine, *coarse).unwrap() == rt);
                assert(path_overlap(*fine, *coarse, rt, paths@[k as int]) is None);
                return Err(CompareError::BrokenPath);
            },
            Some(o) => {
                out.push(o);
            },
        }
        k = k + 1;
    }
    assert(scale(*fine, *coarse).unwrap() == rt);
    Ok(out)
}


proof fn lemma_fine_run_bounded(
    fine: Grid<u8>,
    coarse: Grid<u8>,
    ratio: int,
    s: (int, int),
    p: (int, int),
    end: (int, int),
    fuel: nat,
)
    ensures
        fine_run(fine, coarse, ratio, s, p, end, fuel) matches Some(ht) ==> ht.0 <= ht.1,
    decreases fuel,
{
    if p != end && fuel > 0 {
        let code = fine.at(p.0, p.1);
        let q = (p.0 + offset(code).0, p.1 + offset(code).1);
        lemma_fine_run_bounded(fine, coarse, ratio, s, q, end, (fuel - 1) as nat);
    }
}

/// Every score lies in [0, 1]: at least one cell matches, and no more cells
/// match than are walked.
pub proof fn lemma_overlap_bounds(fine: Grid<u8>, coarse: Grid<u8>, ratio: int, p: PathRecord)
    ensures
        path_overlap(fine, coarse, ratio, p) matches Some(ht) ==> 1 <= ht.0 <= ht.1,
{
    let start = (p.terminus_row as int, p.terminus_col as int);
    let end = (p.origin_row as int, p.origin_col as int);
    lemma_fine_run_bounded(
        fine,
        coarse,
        ratio,
        (start.0 / ratio, start.1 / ratio),
        start,
        end,
        (fine.cells@.len() - 1) as nat,
    );
}

proof fn lemma_fine_run_on_course(
    g: Grid<u8>,
    s: (int, int),
    m: nat,
    end: (int, int),
    fuel: nat,
)
    requires
        g.cells@.len() > 0,
        g.contains(s.0, s.1),
        m + fuel <= g.cells@.len() - 1,
    ensures
        fine_run(g, g, 1, s, walk(g, s, m), end, fuel) matches Some(ht) ==> ht.0 == ht.1,
    decreases fuel,
{
    let p = walk(g, s, m);
    lemma_walk_on_grid(g, s, m);
    if p != end && fuel > 0 {
        let code = g.at(p.0, p.1);
        let q = (p.0 + offset(code).0, p.1 + offset(code).1);
        if is_pointer(code) && g.contains(q.0, q.1) {
            assert(walk(g, s, m + 1) == q);
            assert(reached(g, s, (g.cells@.len() - 1) as nat, q));
            assert((q.0 / 1, q.1 / 1) == q);
            lemma_fine_run_on_course(g, s, m + 1, end, (fuel - 1) as nat);
        }
    }
}

/// A coarse raster identical to the fine one (a scale of 1) reproduces every
/// walkable path: all its cells match.
pub proof fn lemma_identical_rasters_full_overlap(g: Grid<u8>, p: PathRecord)
    requires
        g.wf(),
        g.rows > 0 && g.cols > 0,
    ensures
        scale(g, g) == Some(1int),
        path_overlap(g, g, 1, p) matches Some(ht) ==> ht.0 == ht.1,
{
    let start = (p.terminus_row as int, p.terminus_col as int);
    assert((g.rows as int) / (g.rows as int) == 1) by (nonlinear_arith)
        requires
            g.rows > 0,
    ;
    assert((g.rows as int) % (g.rows as int) == 0) by (nonlinear_arith)
        requires
            g.rows > 0,
    ;
    if g.contains(start.0, start.1) {
        lemma_flat_in_range(g.rows as int, g.cols as int, start.0, start.1);
        assert((start.0 / 1, start.1 / 1) == start);
        assert(walk(g, start, 0) == start);
        lemma_fine_run_on_course(
            g,
            start,
            0,
            (p.origin_row as int, p.origin_col as int),
            (g.cells@.len() - 1) as nat,
        );
    }
}

} // verus!
