//! Table cells from edge intersections.
//!
//! The intersection points are given in increasing `(x, y)` order, each
//! with the vertical and horizontal edges that meet there; coordinates are
//! integers that order as the page coordinates do. A cell is found at each
//! point: the nearest point below it and, for that one, the nearest point
//! to its right, such that the four corners of the rectangle are points and
//! its sides are connected by edges.
use vstd::prelude::*;
use std::collections::HashMap;
use crate::table::{HEdgeId, IntersectionIdx, VEdgeId};

verus! {

/// `a` comes before `b` in `(x, y)` order.
pub open spec fn point_lt(a: (u64, u64), b: (u64, u64)) -> bool {
    a.0 < b.0 || (a.0 == b.0 && a.1 < b.1)
}

/// The points are in strictly increasing `(x, y)` order.
pub open spec fn points_sorted(points: Seq<(u64, u64)>) -> bool {
    forall|i: int, j: int| 0 <= i < j < points.len() ==> point_lt(#[trigger] points[i], #[trigger] points[j])
}

/// The vertical edge ids of an intersection.
pub open spec fn v_ids(inter: IntersectionIdx) -> Seq<u32> {
    inter.v@.map_values(|e: VEdgeId| e.0)
}

/// The horizontal edge ids of an intersection.
pub open spec fn h_ids(inter: IntersectionIdx) -> Seq<u32> {
    inter.h@.map_values(|e: HEdgeId| e.0)
}

/// The merge walk over two id lists from positions `i` and `j`: it meets
/// when the current ids are equal, and otherwise advances past the smaller.
pub open spec fn walk_meets(a: Seq<u32>, b: Seq<u32>, i: int, j: int) -> bool
    decreases a.len() - i + b.len() - j,
{
    if i < 0 || j < 0 || i >= a.len() || j >= b.len() {
        false
    } else if a[i] == b[j] {
        true
    } else if a[i] < b[j] {
        walk_meets(a, b, i + 1, j)
    } else {
        walk_meets(a, b, i, j + 1)
    }
}

/// The two lists hold a common id.
pub open spec fn shares_id(a: Seq<u32>, b: Seq<u32>) -> bool {
    exists|s: int, t: int| 0 <= s < a.len() && 0 <= t < b.len() && a[s] == b[t]
}

/// Points `p` and `q` are joined: on one vertical line by the walk over
/// their vertical edges, on one horizontal line by the walk over their
/// horizontal edges.
pub open spec fn connects(points: Seq<(u64, u64)>, inters: Seq<IntersectionIdx>, p: int, q: int) -> bool {
    if points[p].0 == points[q].0 {
        walk_meets(v_ids(inters[p]), v_ids(inters[q]), 0, 0)
    } else if points[p].1 == points[q].1 {
        walk_meets(h_ids(inters[p]), h_ids(inters[q]), 0, 0)
    } else {
        false
    }
}

/// Point `b` below point `p` and point `r` to its right close a cell with
/// `p`: `b` lies further down the same vertical line on an edge shared with
/// `p`, `r` further right on the same horizontal line on an edge shared
/// with `p`, both are joined to `p`, and the bottom-right corner is a point
/// joined to both.
pub open spec fn completes(points: Seq<(u64, u64)>, inters: Seq<IntersectionIdx>, p: int, b: int, r: int) -> bool {
    let n = points.len();
    &&& 0 <= p < b < n
    &&& points[b].0 == points[p].0
    &&& shares_id(v_ids(inters[p]), v_ids(inters[b]))
    &&& connects(points, inters, p, b)
    &&& 0 <= p < r < n
    &&& points[r].1 == points[p].1
    &&& points[r].0 > points[p].0
    &&& shares_id(h_ids(inters[p]), h_ids(inters[r]))
    &&& connects(points, inters, p, r)
    &&& exists|c: int|
        0 <= c < n && #[trigger] points[c] == (points[r].0, points[b].1) && connects(points, inters, c, r)
            && connects(points, inters, c, b)
}

/// `(b, r)` is the first pair that closes a cell at `p`: no pair with a
/// nearer bottom point, or with the same bottom point and a nearer right
/// point, does.
pub open spec fn first_cell(points: Seq<(u64, u64)>, inters: Seq<IntersectionIdx>, p: int, b: int, r: int) -> bool {
    &&& completes(points, inters, p, b, r)
    &&& forall|b2: int, r2: int|
        (b2 < b || (b2 == b && r2 < r)) ==> !#[trigger] completes(points, inters, p, b2, r2)
}

/// Some pair closes a cell at `p`.
pub open spec fn has_cell(points: Seq<(u64, u64)>, inters: Seq<IntersectionIdx>, p: int) -> bool {
    exists|b: int, r: int| #[trigger] completes(points, inters, p, b, r)
}

/// The cells at the first `k` points, as (top-left, top-right, bottom-left)
/// point indices.
pub open spec fn cells_upto(points: Seq<(u64, u64)>, inters: Seq<IntersectionIdx>, k: int) -> Seq<(int, int, int)>
    decreases k,
{
    if k <= 0 {
        Seq::empty()
    } else {
        let p = k - 1;
        cells_upto(points, inters, p) + if has_cell(points, inters, p) {
            let pair = choose|pair: (int, int)| first_cell(points, inters, p, pair.0, pair.1);
            seq![(p, pair.1, pair.0)]
        } else {
            Seq::empty()
        }
    }
}

/// Each cell found is a rectangle of points: its top-right corner lies on
/// the top-left corner's row further right, its bottom-left corner in its
/// column further down, the bottom-right corner is a point too, and the
/// cells come in increasing order of their top-left corner, one at most
/// per point.
pub proof fn lemma_cells_are_rectangles(points: Seq<(u64, u64)>, inters: Seq<IntersectionIdx>, k: int)
    requires
        0 <= k <= points.len(),
    ensures
        forall|t: int|
            0 <= t < cells_upto(points, inters, k).len() ==> {
                let (p, r, b) = #[trigger] cells_upto(points, inters, k)[t];
                &&& 0 <= p < k
                &&& completes(points, inters, p, b, r)
                &&& points[r].1 == points[p].1 && points[r].0 > points[p].0
                &&& points[b].0 == points[p].0 && p < b
                &&& exists|c: int| 0 <= c < points.len() && #[trigger] points[c] == (points[r].0, points[b].1)
            },
        forall|t1: int, t2: int|
            0 <= t1 < t2 < cells_upto(points, inters, k).len() ==> #[trigger] cells_upto(points, inters, k)[t1].0
                < #[trigger] cells_upto(points, inters, k)[t2].0,
    decreases k,
{
    if k > 0 {
        lemma_cells_are_rectangles(points, inters, k - 1);
        let prev = cells_upto(points, inters, k - 1);
        let cur = cells_upto(points, inters, k);
        if has_cell(points, inters, k - 1) {
            let pair = choose|pair: (int, int)| first_cell(points, inters, k - 1, pair.0, pair.1);
            let (b0, r0) = choose|b: int, r: int| #[trigger] completes(points, inters, k - 1, b, r);
            assert(completes(points, inters, k - 1, b0, r0));
            assert(first_cell(points, inters, k - 1, pair.0, pair.1)) by {
                lemma_first_cell_exists(points, inters, k - 1, b0, r0);
            }
            assert(cur == prev.push((k - 1, pair.1, pair.0)));
            assert forall|t: int| 0 <= t < cur.len() implies {
                let (p, r, b) = #[trigger] cur[t];
                &&& 0 <= p < k
                &&& completes(points, inters, p, b, r)
                &&& points[r].1 == points[p].1 && points[r].0 > points[p].0
                &&& points[b].0 == points[p].0 && p < b
                &&& exists|c: int| 0 <= c < points.len() && #[trigger] points[c] == (points[r].0, points[b].1)
            } by {
                if t < prev.len() {
                    assert(cur[t] == prev[t]);
                }
            }
            assert forall|t1: int, t2: int| 0 <= t1 < t2 < cur.len() implies #[trigger] cur[t1].0 < #[trigger] cur[t2].0 by {
                assert(cur[t1] == prev[t1]);
                if t2 < prev.len() {
                    assert(cur[t2] == prev[t2]);
                }
            }
        } else {
            assert(cur =~= prev);
        }
    }
}

proof fn lemma_first_cell_exists(points: Seq<(u64, u64)>, inters: Seq<IntersectionIdx>, p: int, b: int, r: int)
    requires
        completes(points, inters, p, b, r),
    ensures
        exists|pair: (int, int)| first_cell(points, inters, p, pair.0, pair.1),
    decreases b, r,
{
    if exists|b2: int, r2: int| (b2 < b || (b2 == b && r2 < r)) && #[trigger] completes(points, inters, p, b2, r2) {
        let (b2, r2) = choose|b2: int, r2: int| (b2 < b || (b2 == b && r2 < r)) && #[trigger] completes(points, inters, p, b2, r2);
        assert(0 <= b2 && 0 <= r2);
        lemma_first_cell_exists(points, inters, p, b2, r2);
    } else {
        assert(first_cell(points, inters, p, (b, r).0, (b, r).1));
    }
}

/// A table cell by the points at its corners: the top-left one, the one on
/// its right and the one below it.
#[derive(Debug, Copy, Clone, PartialEq, Eq, Structural)]
pub struct CellCorners {
    pub top_left: usize,
    pub top_right: usize,
    pub bottom_left: usize,
}

/// The cells as index triples.
pub open spec fn corners_view(cells: Seq<CellCorners>) -> Seq<(int, int, int)> {
    cells.map_values(|c: CellCorners| (c.top_left as int, c.top_right as int, c.bottom_left as int))
}

fn walk_lists(a: &Vec<u32>, b: &Vec<u32>) -> (r: bool)
    ensures
        r == walk_meets(a@, b@, 0, 0),
{
    let mut i: usize = 0;
    let mut j: usize = 0;
    while i < a.len() && j < b.len()
        invariant
            i <= a.len(),
            j <= b.len(),
            walk_meets(a@, b@, i as int, j as int) == walk_meets(a@, b@, 0, 0),
        decreases a.len() - i + b.len() - j,
    {
        if a[i] == b[j] {
            return true;
        }
        if a[i] < b[j] {
            i = i + 1;
        } else {
            j = j + 1;
        }
    }
    false
}

fn lists_share(a: &Vec<u32>, b: &Vec<u32>) -> (r: bool)
    ensures
        r == shares_id(a@, b@),
{
    let mut s: usize = 0;
    while s < a.len()
        invariant
            s <= a.len(),
            forall|s2: int, t2: int| 0 <= s2 < s && 0 <= t2 < b.len() ==> a@[s2] != b@[t2],
        decreases a.len() - s,
    {
        let mut t: usize = 0;
        while t < b.len()
            invariant
                s < a.len(),
                t <= b.len(),
                forall|t2: int| 0 <= t2 < t ==> a@[s as int] != b@[t2],
            decreases b.len() - t,
        {
            if a[s] == b[t] {
                return true;
            }
            t = t + 1;
        }
        s = s + 1;
    }
    false
}

fn find_point(points: &Vec<(u64, u64)>, key: (u64, u64)) -> (r: Option<usize>)
    requires
        points_sorted(points@),
    ensures
        match r {
            Some(i) => i < points.len() && points@[i as int] == key,
            None => forall|i: int| 0 <= i < points.len() ==> points@[i] != key,
        },
{
    let mut lo: usize = 0;
    let mut hi: usize = points.len();
    while lo < hi
        invariant
            lo <= hi <= points.len(),
            points_sorted(points@),
            forall|i: int| 0 <= i < lo ==> point_lt(#[trigger] points@[i], key),
            forall|i: int| hi <= i < points.len() ==> point_lt(key, #[trigger] points@[i]),
        decreases hi - lo,
    {
        let mid = lo + (hi - lo) / 2;
        let m = points[mid];
        if m.0 == key.0 && m.1 == key.1 {
            return Some(mid);
        }
        if m.0 < key.0 || (m.0 == key.0 && m.1 < key.1) {
            assert forall|i: int| 0 <= i < mid + 1 implies point_lt(#[trigger] points@[i], key) by {
                if i < mid {
                    assert(point_lt(points@[i], points@[mid as int]));
                }
            }
            lo = mid + 1;
        } else {
            assert forall|i: int| mid <= i < points.len() implies point_lt(key, #[trigger] points@[i]) by {
                if i > mid {
                    assert(point_lt(points@[mid as int], points@[i]));
                }
            }
            hi = mid;
        }
    }
    None
}

proof fn lemma_first_cell_unique(
    points: Seq<(u64, u64)>,
    inters: Seq<IntersectionIdx>,
    p: int,
    b: int,
    r: int,
    b2: int,
    r2: int,
)
    requires
        first_cell(points, inters, p, b, r),
        first_cell(points, inters, p, b2, r2),
    ensures
        b == b2 && r == r2,
{
    if b2 < b || (b2 == b && r2 < r) {
        assert(!completes(points, inters, p, b2, r2));
    }
    if b < b2 || (b == b2 && r < r2) {
        assert(!completes(points, inters, p, b, r));
    }
}

fn id_lists(inters: &Vec<IntersectionIdx>) -> (r: (Vec<Vec<u32>>, Vec<Vec<u32>>))
    ensures
        r.0.len() == inters.len(),
        r.1.len() == inters.len(),
        forall|p: int| 0 <= p < inters.len() ==> #[trigger] r.0@[p]@ == v_ids(inters@[p]),
        forall|p: int| 0 <= p < inters.len() ==> #[trigger] r.1@[p]@ == h_ids(inters@[p]),
{
    let mut vs: Vec<Vec<u32>> = Vec::new();
    let mut hs: Vec<Vec<u32>> = Vec::new();
    let mut p: usize = 0;
    while p < inters.len()
        invariant
            p <= inters.len(),
            vs.len() == p,
            hs.len() == p,
            forall|q: int| 0 <= q < p ==> #[trigger] vs@[q]@ == v_ids(inters@[q]),
            forall|q: int| 0 <= q < p ==> #[trigger] hs@[q]@ == h_ids(inters@[q]),
        decreases inters.len() - p,
    {
        let inter = &inters[p];
        let mut v: Vec<u32> = Vec::new();
        let mut k: usize = 0;
        while k < inter.v.len()
            invariant
                k <= inter.v.len(),
                v@ == v_ids(*inter).take(k as int),
            decreases inter.v.len() - k,
        {
            v.push(inter.v[k].0);
            assert(v_ids(*inter).take(k + 1) =~= v_ids(*inter).take(k as int).push(inter.v@[k as int].0));
            k = k + 1;
        }
        assert(v_ids(*inter).take(inter.v.len() as int) =~= v_ids(*inter));
        let mut h: Vec<u32> = Vec::new();
        let mut k: usize = 0;
        while k < inter.h.len()
            invariant
                k <= inter.h.len(),
                h@ == h_ids(*inter).take(k as int),
            decreases inter.h.len() - k,
        {
            h.push(inter.h[k].0);
            assert(h_ids(*inter).take(k + 1) =~= h_ids(*inter).take(k as int).push(inter.h@[k as int].0));
            k = k + 1;
        }
        assert(h_ids(*inter).take(inter.h.len() as int) =~= h_ids(*inter));
        vs.push(v);
        hs.push(h);
        p = p + 1;
    }
    (vs, hs)
}

/// The per-point id lists agree with the intersections.
pub open spec fn lists_match(
    inters: Seq<IntersectionIdx>,
    vs: Seq<Vec<u32>>,
    hs: Seq<Vec<u32>>,
) -> bool {
    &&& vs.len() == inters.len()
    &&& hs.len() == inters.len()
    &&& forall|p: int| 0 <= p < inters.len() ==> #[trigger] vs[p]@ == v_ids(inters[p])
    &&& forall|p: int| 0 <= p < inters.len() ==> #[trigger] hs[p]@ == h_ids(inters[p])
}

fn joins(
    points: &Vec<(u64, u64)>,
    vs: &Vec<Vec<u32>>,
    hs: &Vec<Vec<u32>>,
    p: usize,
    q: usize,
    inters: Ghost<Seq<IntersectionIdx>>,
) -> (r: bool)
    requires
        points.len() == inters@.len(),
        lists_match(inters@, vs@, hs@),
        p < points.len(),
        q < points.len(),
    ensures
        r == connects(points@, inters@, p as int, q as int),
{
    assert(vs@[p as int]@ == v_ids(inters@[p as int]));
    assert(vs@[q as int]@ == v_ids(inters@[q as int]));
    assert(hs@[p as int]@ == h_ids(inters@[p as int]));
    assert(hs@[q as int]@ == h_ids(inters@[q as int]));
    if points[p].0 == points[q].0 {
        walk_lists(&vs[p], &vs[q])
    } else if points[p].1 == points[q].1 {
        walk_lists(&hs[p], &hs[q])
    } else {
        false
    }
}

fn first_cell_at(
    points: &Vec<(u64, u64)>,
    vs: &Vec<Vec<u32>>,
    hs: &Vec<Vec<u32>>,
    p: usize,
    inters: Ghost<Seq<IntersectionIdx>>,
) -> (r: Option<(usize, usize)>)
    requires
        points.len() == inters@.len(),
        points_sorted(points@),
        lists_match(inters@, vs@, hs@),
        p < points.len(),
    ensures
        match r {
            Some((b, rr)) => first_cell(points@, inters@, p as int, b as int, rr as int),
            None => !has_cell(points@, inters@, p as int),
        },
{
    let ghost pts = points@;
    let ghost its = inters@;
    let n = points.len();
    let px = points[p].0;
    let py = points[p].1;
    assert(vs@[p as int]@ == v_ids(its[p as int]));
    assert(hs@[p as int]@ == h_ids(its[p as int]));
    let mut found: Option<(usize, usize)> = None;
    let mut b: usize = p + 1;
    while found.is_none() && b < n && points[b].0 == px
        invariant
            p < b <= n == pts.len(),
            pts == points@,
            its == inters@,
            n == its.len(),
            px == pts[p as int].0,
            py == pts[p as int].1,
            points_sorted(pts),
            lists_match(its, vs@, hs@),
            found is None ==> forall|b2: int, r2: int| b2 < b ==> !#[trigger] completes(pts, its, p as int, b2, r2),
            match found {
                Some((fb, fr)) => first_cell(pts, its, p as int, fb as int, fr as int),
                None => true,
            },
        decreases n - b,
    {
        assert(vs@[b as int]@ == v_ids(its[b as int]));
        if lists_share(&vs[p], &vs[b]) && joins(points, vs, hs, p, b, inters) {
            let mut r: usize = p + 1;
            while found.is_none() && r < n
                invariant
                    p < b < n == pts.len(),
                    p < r <= n,
                    pts == points@,
                    its == inters@,
                    n == its.len(),
                    px == pts[p as int].0,
                    py == pts[p as int].1,
                    pts[b as int].0 == px,
                    shares_id(v_ids(its[p as int]), v_ids(its[b as int])),
                    connects(pts, its, p as int, b as int),
                    points_sorted(pts),
                    lists_match(its, vs@, hs@),
                    found is None ==> forall|b2: int, r2: int| b2 < b ==> !#[trigger] completes(pts, its, p as int, b2, r2),
                    found is None ==> forall|r2: int| r2 < r ==> !#[trigger] completes(pts, its, p as int, b as int, r2),
                    match found {
                        Some((fb, fr)) => first_cell(pts, its, p as int, fb as int, fr as int),
                        None => true,
                    },
                decreases n - r,
            {
                assert(hs@[r as int]@ == h_ids(its[r as int]));
                if points[r].1 == py && points[r].0 > px && lists_share(&hs[p], &hs[r]) && joins(
                    points,
                    vs,
                    hs,
                    p,
                    r,
                    inters,
                ) {
                    let key = (points[r].0, points[b].1);
                    match find_point(points, key) {
                        Some(c) => {
                            if joins(points, vs, hs, c, r, inters) && joins(points, vs, hs, c, b, inters) {
                                assert(completes(pts, its, p as int, b as int, r as int));
                                found = Some((b, r));
                            } else {
                                assert(!completes(pts, its, p as int, b as int, r as int)) by {
                                    assert forall|c2: int|
                                        0 <= c2 < n && #[trigger] pts[c2] == key implies !(connects(pts, its, c2, r as int)
                                            && connects(pts, its, c2, b as int)) by {
                                        if c2 != c as int {
                                            if c2 < c as int {
                                                assert(point_lt(pts[c2], pts[c as int]));
                                            } else {
                                                assert(point_lt(pts[c as int], pts[c2]));
                                            }
                                        }
                                    }
                                }
                            }
                        },
                        None => {
                            assert(!completes(pts, its, p as int, b as int, r as int));
                        },
                    }
                }
                r = r + 1;
            }
        }
        b = b + 1;
    }
    if found.is_none() {
        assert forall|b2: int, r2: int| !#[trigger] completes(pts, its, p as int, b2, r2) by {
            if b2 >= b && completes(pts, its, p as int, b2, r2) {
                assert(b < n);
                assert(pts[b as int].0 != px);
                if b2 > b {
                    assert(point_lt(pts[b as int], pts[b2]));
                }
                assert(point_lt(pts[p as int], pts[b as int]));
            }
        }
    }
    found
}

/// Finds the table cells of the intersection points: at each point in
/// order, the first point below it, and for that one the first point to
/// its right, that close a cell with it.
pub fn build_cells(points: &Vec<(u64, u64)>, inters: &Vec<IntersectionIdx>) -> (r: Vec<CellCorners>)
    requires
        points.len() == inters.len(),
        points_sorted(points@),
    ensures
        corners_view(r@) == cells_upto(points@, inters@, points.len() as int),
{
    let (vs, hs) = id_lists(inters);
    let n = points.len();
    let mut cells: Vec<CellCorners> = Vec::new();
    let mut p: usize = 0;
    assert(corners_view(cells@) =~= cells_upto(points@, inters@, 0));
    while p < n
        invariant
            p <= n == points.len() == inters.len(),
            points_sorted(points@),
            lists_match(inters@, vs@, hs@),
            corners_view(cells@) == cells_upto(points@, inters@, p as int),
        decreases n - p,
    {
        let ghost before = corners_view(cells@);
        match first_cell_at(points, &vs, &hs, p, Ghost(inters@)) {
            Some((b, r)) => {
                proof {
                    assert(has_cell(points@, inters@, p as int));
                    assert(first_cell(points@, inters@, p as int, (b as int, r as int).0, (b as int, r as int).1));
                    let pair = choose|pair: (int, int)| first_cell(points@, inters@, p as int, pair.0, pair.1);
                    lemma_first_cell_unique(points@, inters@, p as int, b as int, r as int, pair.0, pair.1);
                }
                cells.push(CellCorners { top_left: p, top_right: r, bottom_left: b });
                assert(corners_view(cells@) =~= before.push((p as int, r as int, b as int)));
            },
            None => {
                assert(corners_view(cells@) =~= before + Seq::<(int, int, int)>::empty());
            },
        }
        p = p + 1;
    }
    cells
}

/// A cell by its rectangle `(x0, top, x1, bottom)` in integer coordinates.
pub type CellRect = (u64, u64, u64, u64);

/// Corner `k` of a cell: top-left, bottom-left, top-right, bottom-right.
pub open spec fn corner_at(c: CellRect, k: int) -> (u64, u64) {
    if k == 0 {
        (c.0, c.1)
    } else if k == 1 {
        (c.0, c.3)
    } else if k == 2 {
        (c.2, c.1)
    } else {
        (c.2, c.3)
    }
}

/// Point `p` is a corner of the cell.
pub open spec fn has_corner(c: CellRect, p: (u64, u64)) -> bool {
    corner_at(c, 0) == p || corner_at(c, 1) == p || corner_at(c, 2) == p || corner_at(c, 3) == p
}

/// Among the first `j` cells, those with corner `p` not yet visited, in
/// order: the visited flags with them marked, and them.
pub open spec fn scan_corner(cells: Seq<CellRect>, p: (u64, u64), visited: Seq<bool>, j: int) -> (
    Seq<bool>,
    Seq<usize>,
)
    decreases j,
{
    if j <= 0 {
        (visited, Seq::empty())
    } else {
        let (v, added) = scan_corner(cells, p, visited, j - 1);
        let c = j - 1;
        if has_corner(cells[c], p) && !v[c] {
            (v.update(c, true), added.push(c as usize))
        } else {
            (v, added)
        }
    }
}

/// The unvisited cells reached from the first `k` corners of cell `idx`,
/// corner after corner.
pub open spec fn scan_corners(cells: Seq<CellRect>, idx: usize, visited: Seq<bool>, k: int) -> (
    Seq<bool>,
    Seq<usize>,
)
    decreases k,
{
    if k <= 0 {
        (visited, Seq::empty())
    } else {
        let (v, added) = scan_corners(cells, idx, visited, k - 1);
        let (v2, added2) = scan_corner(cells, corner_at(cells[idx as int], k - 1), v, cells.len() as int);
        (v2, added + added2)
    }
}

/// The breadth-first search over cells that share a corner, for at most
/// `fuel` more steps: each step takes the first queued cell into the group
/// and queues the unvisited cells at its corners.
pub open spec fn bfs(cells: Seq<CellRect>, visited: Seq<bool>, queue: Seq<usize>, group: Seq<usize>, fuel: nat) -> (
    Seq<bool>,
    Seq<usize>,
)
    decreases fuel,
{
    if fuel == 0 || queue.len() == 0 {
        (visited, group)
    } else {
        let idx = queue[0];
        let (v, added) = scan_corners(cells, idx, visited, 4);
        bfs(cells, v, queue.drop_first() + added, group.push(idx), (fuel - 1) as nat)
    }
}

/// The groups of cells found from the first `s` cells: each cell not yet
/// reached starts a search of its own.
pub open spec fn components(cells: Seq<CellRect>, s: int) -> (Seq<bool>, Seq<Seq<usize>>)
    decreases s,
{
    if s <= 0 {
        (Seq::new(cells.len(), |i: int| false), Seq::empty())
    } else {
        let (v, groups) = components(cells, s - 1);
        let st = s - 1;
        if v[st] {
            (v, groups)
        } else {
            let (v2, g) = bfs(cells, v.update(st, true), seq![st as usize], Seq::empty(), cells.len());
            (v2, groups.push(g))
        }
    }
}

/// Every entry is a cell index, and no index repeats.
pub open spec fn distinct_below(s: Seq<usize>, n: int) -> bool {
    &&& forall|i: int| 0 <= i < s.len() ==> #[trigger] s[i] < n
    &&& forall|i: int, j: int| 0 <= i < j < s.len() ==> #[trigger] s[i] != #[trigger] s[j]
}

proof fn lemma_distinct_below_len(s: Seq<usize>, n: int)
    requires
        distinct_below(s, n),
        0 <= n,
    ensures
        s.len() <= n,
{
    let ints = s.map_values(|x: usize| x as int);
    assert(ints.no_duplicates()) by {
        assert forall|i: int, j: int| 0 <= i < ints.len() && 0 <= j < ints.len() && i != j implies ints[i] != ints[j] by {
            if i < j {
                assert(s[i] != s[j]);
            } else {
                assert(s[j] != s[i]);
            }
        }
    }
    ints.unique_seq_to_set();
    vstd::set_lib::lemma_int_range(0, n);
    assert(ints.to_set().subset_of(vstd::set_lib::set_int_range(0, n))) by {
        assert forall|x: int| ints.to_set().contains(x) implies vstd::set_lib::set_int_range(0, n).contains(x) by {
            let i = choose|i: int| 0 <= i < ints.len() && ints[i] == x;
            assert(s[i] < n);
        }
    }
    vstd::set_lib::lemma_len_subset(ints.to_set(), vstd::set_lib::set_int_range(0, n));
}

/// A scan from flags `v` to flags `v2` marked exactly the cells `added`,
/// each once, none of them marked before.
pub open spec fn marks(v: Seq<bool>, v2: Seq<bool>, added: Seq<usize>) -> bool {
    &&& v2.len() == v.len()
    &&& distinct_below(added, v.len() as int)
    &&& forall|i: int| 0 <= i < added.len() ==> !v[#[trigger] added[i] as int] && v2[added[i] as int]
    &&& forall|c: int| 0 <= c < v.len() && #[trigger] v[c] ==> v2[c]
}

proof fn lemma_marks_compose(v: Seq<bool>, v1: Seq<bool>, a1: Seq<usize>, v2: Seq<bool>, a2: Seq<usize>)
    requires
        marks(v, v1, a1),
        marks(v1, v2, a2),
    ensures
        marks(v, v2, a1 + a2),
{
    let a = a1 + a2;
    assert forall|i: int| 0 <= i < a.len() implies !v[#[trigger] a[i] as int] && v2[a[i] as int] by {
        if i < a1.len() {
            assert(a[i] == a1[i]);
            assert(v1[a1[i] as int]);
        } else {
            assert(a[i] == a2[i - a1.len()]);
            if v[a2[i - a1.len()] as int] {
                assert(v1[a2[i - a1.len()] as int]);
            }
        }
    }
    assert forall|i: int, j: int| 0 <= i < j < a.len() implies #[trigger] a[i] != #[trigger] a[j] by {
        if j < a1.len() {
            assert(a[i] == a1[i] && a[j] == a1[j]);
        } else if i >= a1.len() {
            assert(a[i] == a2[i - a1.len()] && a[j] == a2[j - a1.len()]);
        } else {
            assert(a[i] == a1[i] && a[j] == a2[j - a1.len()]);
            assert(v1[a1[i] as int]);
            assert(!v1[a2[j - a1.len()] as int]);
        }
    }
    assert forall|i: int| 0 <= i < a.len() implies #[trigger] a[i] < v.len() by {
        if i < a1.len() {
            assert(a[i] == a1[i]);
        } else {
            assert(a[i] == a2[i - a1.len()]);
        }
    }
}

proof fn lemma_scan_corner_marks(cells: Seq<CellRect>, p: (u64, u64), v: Seq<bool>, j: int)
    requires
        v.len() == cells.len() <= usize::MAX,
        0 <= j <= cells.len(),
    ensures
        marks(v, scan_corner(cells, p, v, j).0, scan_corner(cells, p, v, j).1),
    decreases j,
{
    if j > 0 {
        lemma_scan_corner_marks(cells, p, v, j - 1);
        let (v1, a1) = scan_corner(cells, p, v, j - 1);
        let c = j - 1;
        if has_corner(cells[c], p) && !v1[c] {
            let v2 = v1.update(c, true);
            let a2 = seq![c as usize];
            assert(a2[0] as int == c);
            assert(marks(v1, v2, a2));
            lemma_marks_compose(v, v1, a1, v2, a2);
            assert(a1.push(c as usize) =~= a1 + a2);
        }
    }
}

proof fn lemma_scan_corners_marks(cells: Seq<CellRect>, idx: usize, v: Seq<bool>, k: int)
    requires
        v.len() == cells.len() <= usize::MAX,
        idx < cells.len(),
        0 <= k,
    ensures
        marks(v, scan_corners(cells, idx, v, k).0, scan_corners(cells, idx, v, k).1),
    decreases k,
{
    if k <= 0 {
        assert(marks(v, v, Seq::<usize>::empty()));
    } else {
        lemma_scan_corners_marks(cells, idx, v, k - 1);
        let (v1, a1) = scan_corners(cells, idx, v, k - 1);
        let p = corner_at(cells[idx as int], k - 1);
        lemma_scan_corner_marks(cells, p, v1, cells.len() as int);
        let (v2, a2) = scan_corner(cells, p, v1, cells.len() as int);
        lemma_marks_compose(v, v1, a1, v2, a2);
    }
}

/// The cells share a corner.
pub open spec fn touches(a: CellRect, b: CellRect) -> bool {
    has_corner(b, corner_at(a, 0)) || has_corner(b, corner_at(a, 1)) || has_corner(b, corner_at(a, 2))
        || has_corner(b, corner_at(a, 3))
}

/// How many flags are unset.
pub open spec fn count_false(v: Seq<bool>) -> nat
    decreases v.len(),
{
    if v.len() == 0 {
        0
    } else {
        count_false(v.drop_last()) + if v.last() {
            0nat
        } else {
            1nat
        }
    }
}

proof fn lemma_count_false_update(v: Seq<bool>, c: int)
    requires
        0 <= c < v.len(),
        !v[c],
    ensures
        count_false(v.update(c, true)) + 1 == count_false(v),
    decreases v.len(),
{
    let w = v.update(c, true);
    if c == v.len() - 1 {
        assert(w.drop_last() =~= v.drop_last());
    } else {
        assert(w.drop_last() =~= v.drop_last().update(c, true));
        lemma_count_false_update(v.drop_last(), c);
    }
}

/// A scan from flags `v` to `v2` set exactly the flags of `added`, and
/// those unset before.
pub open spec fn marks_exactly(v: Seq<bool>, v2: Seq<bool>, added: Seq<usize>) -> bool {
    &&& marks(v, v2, added)
    &&& forall|c: int| 0 <= c < v.len() && #[trigger] v2[c] ==> v[c] || added.contains(c as usize)
    &&& count_false(v2) + added.len() == count_false(v)
}

proof fn lemma_marks_exactly_compose(v: Seq<bool>, v1: Seq<bool>, a1: Seq<usize>, v2: Seq<bool>, a2: Seq<usize>)
    requires
        marks_exactly(v, v1, a1),
        marks_exactly(v1, v2, a2),
    ensures
        marks_exactly(v, v2, a1 + a2),
{
    lemma_marks_compose(v, v1, a1, v2, a2);
    let a = a1 + a2;
    assert forall|c: int| 0 <= c < v.len() && #[trigger] v2[c] implies v[c] || a.contains(c as usize) by {
        if !v1[c] {
            let i = choose|i: int| 0 <= i < a2.len() && a2[i] == c as usize;
            assert(a[a1.len() + i] == c as usize);
        } else if !v[c] {
            let i = choose|i: int| 0 <= i < a1.len() && a1[i] == c as usize;
            assert(a[i] == c as usize);
        }
    }
}

proof fn lemma_scan_corner_exact(cells: Seq<CellRect>, p: (u64, u64), v: Seq<bool>, j: int)
    requires
        v.len() == cells.len() <= usize::MAX,
        0 <= j <= cells.len(),
    ensures
        marks_exactly(v, scan_corner(cells, p, v, j).0, scan_corner(cells, p, v, j).1),
        forall|c: int| 0 <= c < j && has_corner(#[trigger] cells[c], p) ==> scan_corner(cells, p, v, j).0[c],
    decreases j,
{
    if j == 0 {
        assert(marks_exactly(v, v, Seq::<usize>::empty()));
    } else {
        lemma_scan_corner_exact(cells, p, v, j - 1);
        let (v1, a1) = scan_corner(cells, p, v, j - 1);
        let c = j - 1;
        if has_corner(cells[c], p) && !v1[c] {
            let v2 = v1.update(c, true);
            let a2 = seq![c as usize];
            assert(a2[0] as int == c);
            lemma_count_false_update(v1, c);
            assert(marks(v1, v2, a2));
            assert forall|x: int| 0 <= x < v1.len() && #[trigger] v2[x] implies v1[x] || a2.contains(x as usize) by {
                if x == c {
                    assert(a2[0] == x as usize);
                }
            }
            lemma_marks_exactly_compose(v, v1, a1, v2, a2);
            assert(a1.push(c as usize) =~= a1 + a2);
        }
    }
}

proof fn lemma_scan_corners_exact(cells: Seq<CellRect>, idx: usize, v: Seq<bool>, k: int)
    requires
        v.len() == cells.len() <= usize::MAX,
        idx < cells.len(),
        0 <= k <= 4,
    ensures
        marks_exactly(v, scan_corners(cells, idx, v, k).0, scan_corners(cells, idx, v, k).1),
        forall|k2: int, c: int|
            0 <= k2 < k && 0 <= c < cells.len() && #[trigger] has_corner(cells[c], corner_at(cells[idx as int], k2))
                ==> scan_corners(cells, idx, v, k).0[c],
    decreases k,
{
    if k == 0 {
        assert(marks_exactly(v, v, Seq::<usize>::empty()));
    } else {
        lemma_scan_corners_exact(cells, idx, v, k - 1);
        let (v1, a1) = scan_corners(cells, idx, v, k - 1);
        let p = corner_at(cells[idx as int], k - 1);
        lemma_scan_corner_exact(cells, p, v1, cells.len() as int);
        let (v2, a2) = scan_corner(cells, p, v1, cells.len() as int);
        lemma_marks_exactly_compose(v, v1, a1, v2, a2);
        assert forall|k2: int, c: int|
            0 <= k2 < k && 0 <= c < cells.len() && #[trigger] has_corner(cells[c], corner_at(cells[idx as int], k2))
                implies v2[c] by {
            if k2 < k - 1 {
                assert(v1[c]);
            }
        }
    }
}

/// Every cell of `s` after the first shares a corner with one of the first
/// `m` cells that comes before it.
pub open spec fn chained(cells: Seq<CellRect>, s: Seq<usize>, m: int) -> bool {
    forall|i: int| 1 <= i < s.len() ==> #[trigger] touches_earlier(cells, s, m, i)
}

/// Cell `s[i]` shares a corner with one of the first `m` cells of `s`
/// before it.
pub open spec fn touches_earlier(cells: Seq<CellRect>, s: Seq<usize>, m: int, i: int) -> bool {
    exists|j: int| 0 <= j < i && j < m && #[trigger] touches(cells[s[j] as int], cells[s[i] as int])
}

proof fn lemma_scan_corner_touch(cells: Seq<CellRect>, p: (u64, u64), v: Seq<bool>, j: int)
    requires
        0 <= j <= cells.len() <= usize::MAX,
    ensures
        forall|i: int|
            0 <= i < scan_corner(cells, p, v, j).1.len() ==> has_corner(
                cells[#[trigger] scan_corner(cells, p, v, j).1[i] as int],
                p,
            ),
    decreases j,
{
    if j > 0 {
        lemma_scan_corner_touch(cells, p, v, j - 1);
        let (v1, a1) = scan_corner(cells, p, v, j - 1);
        let c = j - 1;
        if has_corner(cells[c], p) && !v1[c] {
            let a = a1.push(c as usize);
            assert forall|i: int| 0 <= i < a.len() implies has_corner(cells[#[trigger] a[i] as int], p) by {
                if i < a1.len() {
                    assert(a[i] == a1[i]);
                }
            }
        }
    }
}

proof fn lemma_scan_corners_touch(cells: Seq<CellRect>, idx: usize, v: Seq<bool>, k: int)
    requires
        cells.len() <= usize::MAX,
        idx < cells.len(),
        0 <= k <= 4,
    ensures
        forall|i: int|
            0 <= i < scan_corners(cells, idx, v, k).1.len() ==> touches(
                cells[idx as int],
                cells[#[trigger] scan_corners(cells, idx, v, k).1[i] as int],
            ),
    decreases k,
{
    if k > 0 {
        lemma_scan_corners_touch(cells, idx, v, k - 1);
        let (v1, a1) = scan_corners(cells, idx, v, k - 1);
        let p = corner_at(cells[idx as int], k - 1);
        lemma_scan_corner_touch(cells, p, v1, cells.len() as int);
        let (v2, a2) = scan_corner(cells, p, v1, cells.len() as int);
        let a = a1 + a2;
        assert forall|i: int| 0 <= i < a.len() implies touches(cells[idx as int], cells[#[trigger] a[i] as int]) by {
            if i < a1.len() {
                assert(a[i] == a1[i]);
            } else {
                assert(a[i] == a2[i - a1.len()]);
                assert(has_corner(cells[a2[i - a1.len()] as int], p));
            }
        }
    }
}

/// The state of a search that started from flags `old_v`: each popped or
/// queued cell was unvisited then and is visited now, once; a cell is
/// visited now only if it was then or is popped or queued; and a cell that
/// touches a popped one is popped, queued, or was visited then.
pub open spec fn bfs_inv(
    cells: Seq<CellRect>,
    old_v: Seq<bool>,
    v: Seq<bool>,
    popped: Seq<usize>,
    queue: Seq<usize>,
) -> bool {
    let n = cells.len();
    let all = popped + queue;
    &&& v.len() == n
    &&& old_v.len() == n
    &&& distinct_below(all, n as int)
    &&& forall|i: int| 0 <= i < all.len() ==> !old_v[#[trigger] all[i] as int] && v[all[i] as int]
    &&& forall|c: int| 0 <= c < n && #[trigger] v[c] ==> old_v[c] || all.contains(c as usize)
    &&& forall|c: int| 0 <= c < n && #[trigger] old_v[c] ==> v[c]
    &&& forall|i: int, b: int|
        0 <= i < popped.len() && 0 <= b < n && #[trigger] touches(cells[popped[i] as int], cells[b]) ==> all.contains(
            b as usize,
        ) || old_v[b]
    &&& chained(cells, all, popped.len() as int)
}

proof fn lemma_bfs_runs(
    cells: Seq<CellRect>,
    old_v: Seq<bool>,
    v: Seq<bool>,
    popped: Seq<usize>,
    queue: Seq<usize>,
    fuel: nat,
)
    requires
        cells.len() <= usize::MAX,
        bfs_inv(cells, old_v, v, popped, queue),
        queue.len() + count_false(v) <= fuel,
    ensures
        ({
            let (v2, g) = bfs(cells, v, queue, popped, fuel);
            &&& bfs_inv(cells, old_v, v2, g, Seq::empty())
            &&& forall|i: int| 0 <= i < (popped + queue).len() ==> g.contains(#[trigger] (popped + queue)[i])
        }),
    decreases fuel,
{
    let n = cells.len();
    if queue.len() == 0 {
        assert(popped + queue =~= popped);
        assert(popped + Seq::<usize>::empty() =~= popped);
        assert forall|i: int| 0 <= i < (popped + queue).len() implies popped.contains(#[trigger] (popped + queue)[i]) by {
            assert((popped + queue)[i] == popped[i]);
        }
    } else {
        let x = queue[0];
        let all = popped + queue;
        assert(all[popped.len() as int] == x);
        let (v1, added) = scan_corners(cells, x, v, 4);
        lemma_scan_corners_exact(cells, x, v, 4);
        lemma_scan_corners_touch(cells, x, v, 4);
        let p2 = popped.push(x);
        let q2 = queue.drop_first() + added;
        let all2 = p2 + q2;
        assert(all2 =~= all + added);
        assert forall|b: int| 0 <= b < n && touches(cells[x as int], cells[b]) implies v1[b] by {
            if has_corner(cells[b], corner_at(cells[x as int], 0)) {
                assert(has_corner(cells[b], corner_at(cells[x as int], 0)));
            } else if has_corner(cells[b], corner_at(cells[x as int], 1)) {
                assert(has_corner(cells[b], corner_at(cells[x as int], 1)));
            } else if has_corner(cells[b], corner_at(cells[x as int], 2)) {
                assert(has_corner(cells[b], corner_at(cells[x as int], 2)));
            } else {
                assert(has_corner(cells[b], corner_at(cells[x as int], 3)));
            }
        }
        assert(distinct_below(all2, n as int)) by {
            assert forall|i: int| 0 <= i < all2.len() implies #[trigger] all2[i] < n by {
                if i < all.len() {
                    assert(all2[i] == all[i]);
                } else {
                    assert(all2[i] == added[i - all.len()]);
                }
            }
            assert forall|i: int, j: int| 0 <= i < j < all2.len() implies #[trigger] all2[i] != #[trigger] all2[j] by {
                if j < all.len() {
                    assert(all2[i] == all[i] && all2[j] == all[j]);
                } else if i >= all.len() {
                    assert(all2[i] == added[i - all.len()] && all2[j] == added[j - all.len()]);
                } else {
                    assert(all2[i] == all[i] && all2[j] == added[j - all.len()]);
                    assert(v[all[i] as int]);
                }
            }
        }
        assert forall|i: int| 0 <= i < all2.len() implies !old_v[#[trigger] all2[i] as int] && v1[all2[i] as int] by {
            if i < all.len() {
                assert(all2[i] == all[i]);
            } else {
                assert(all2[i] == added[i - all.len()]);
                if old_v[added[i - all.len()] as int] {
                    assert(v[added[i - all.len()] as int]);
                }
            }
        }
        assert forall|c: int| 0 <= c < n && #[trigger] v1[c] implies old_v[c] || all2.contains(c as usize) by {
            if added.contains(c as usize) {
                let i = choose|i: int| 0 <= i < added.len() && added[i] == c as usize;
                assert(all2[all.len() + i] == c as usize);
            } else if v[c] && !old_v[c] {
                let i = choose|i: int| 0 <= i < all.len() && all[i] == c as usize;
                assert(all2[i] == c as usize);
            }
        }
        assert forall|i: int, b: int|
            0 <= i < p2.len() && 0 <= b < n && #[trigger] touches(cells[p2[i] as int], cells[b]) implies all2.contains(
            b as usize,
        ) || old_v[b] by {
            if i < popped.len() {
                assert(p2[i] == popped[i]);
                if all.contains(b as usize) {
                    let w = choose|w: int| 0 <= w < all.len() && all[w] == b as usize;
                    assert(all2[w] == b as usize);
                }
            } else {
                assert(p2[i] == x);
                assert(v1[b]);
            }
        }
        assert forall|i: int| 1 <= i < all2.len() implies #[trigger] touches_earlier(cells, all2, p2.len() as int, i) by {
            if i < all.len() {
                assert(touches_earlier(cells, all, popped.len() as int, i));
                let j = choose|j: int|
                    0 <= j < i && j < popped.len() && #[trigger] touches(cells[all[j] as int], cells[all[i] as int]);
                assert(all2[j] == all[j] && all2[i] == all[i]);
                assert(touches(cells[all2[j] as int], cells[all2[i] as int]));
            } else {
                let j = popped.len() as int;
                let k = i - all.len();
                assert(all2[j] == x);
                assert(all2[i] == added[k]);
                assert(scan_corners(cells, x, v, 4).1[k] == added[k]);
                assert(touches(cells[x as int], cells[added[k] as int]));
                assert(touches(cells[all2[j] as int], cells[all2[i] as int]));
            }
        }
        assert(chained(cells, all2, p2.len() as int));
        assert(bfs_inv(cells, old_v, v1, p2, q2));
        assert(fuel > 0);
        lemma_bfs_runs(cells, old_v, v1, p2, q2, (fuel - 1) as nat);
        let (v2, g) = bfs(cells, v1, q2, p2, (fuel - 1) as nat);
        assert(bfs(cells, v, queue, popped, fuel) == (v2, g));
        assert forall|i: int| 0 <= i < all.len() implies g.contains(#[trigger] all[i]) by {
            assert(all2[i] == all[i]);
        }
    }
}

proof fn lemma_count_false_le(v: Seq<bool>)
    ensures
        count_false(v) <= v.len(),
    decreases v.len(),
{
    if v.len() > 0 {
        lemma_count_false_le(v.drop_last());
    }
}

/// Some group holds cell `c`.
pub open spec fn in_some_group(groups: Seq<Seq<usize>>, c: usize) -> bool {
    exists|t: int| 0 <= t < groups.len() && #[trigger] groups[t].contains(c)
}

/// The groups found from the first `s` cells with flags `v`: those cells
/// are visited, a cell is visited exactly when a group holds it, the groups
/// hold distinct cells and none in common, and a group holds every cell
/// that touches one of its cells.
pub open spec fn comps_inv(cells: Seq<CellRect>, v: Seq<bool>, groups: Seq<Seq<usize>>, s: int) -> bool {
    let n = cells.len();
    &&& v.len() == n
    &&& forall|c: int| 0 <= c < s ==> #[trigger] v[c]
    &&& forall|c: int| 0 <= c < n && #[trigger] v[c] ==> in_some_group(groups, c as usize)
    &&& forall|t: int, i: int|
        0 <= t < groups.len() && 0 <= i < groups[t].len() ==> #[trigger] groups[t][i] < n && v[groups[t][i] as int]
    &&& forall|t: int| 0 <= t < groups.len() ==> distinct_below(#[trigger] groups[t], n as int)
    &&& forall|t1: int, t2: int, c: usize|
        0 <= t1 < t2 < groups.len() && #[trigger] groups[t1].contains(c) ==> !#[trigger] groups[t2].contains(c)
    &&& forall|t: int, i: int, b: int|
        0 <= t < groups.len() && 0 <= i < groups[t].len() && 0 <= b < n && #[trigger] touches(
            cells[groups[t][i] as int],
            cells[b],
        ) ==> groups[t].contains(b as usize)
    &&& forall|t: int| 0 <= t < groups.len() ==> chained(cells, #[trigger] groups[t], groups[t].len() as int)
}

proof fn lemma_components_inv(cells: Seq<CellRect>, s: int)
    requires
        cells.len() <= usize::MAX,
        0 <= s <= cells.len(),
    ensures
        comps_inv(cells, components(cells, s).0, components(cells, s).1, s),
    decreases s,
{
    let n = cells.len();
    if s == 0 {
        let (v, groups) = components(cells, 0);
        assert(groups =~= Seq::<Seq<usize>>::empty());
    } else {
        lemma_components_inv(cells, s - 1);
        let (v, groups) = components(cells, s - 1);
        let st = s - 1;
        if !v[st] {
            let v0 = v.update(st, true);
            let q = seq![st as usize];
            assert(q[0] as int == st);
            assert(Seq::<usize>::empty() + q =~= q);
            assert(bfs_inv(cells, v, v0, Seq::empty(), q)) by {
                assert((Seq::<usize>::empty() + q).len() == 1);
                assert forall|c: int| 0 <= c < n && #[trigger] v0[c] implies v[c] || (Seq::<usize>::empty() + q).contains(
                    c as usize,
                ) by {
                    if c == st {
                        assert((Seq::<usize>::empty() + q)[0] == c as usize);
                    }
                }
            }
            lemma_count_false_update(v, st);
            lemma_count_false_le(v);
            lemma_bfs_runs(cells, v, v0, Seq::empty(), q, n as nat);
            let (v2, g) = bfs(cells, v0, q, Seq::empty(), n as nat);
            let groups2 = groups.push(g);
            assert(components(cells, s) == (v2, groups2));
            assert(g + Seq::<usize>::empty() =~= g);
            assert(g.contains(st as usize)) by {
                assert((Seq::<usize>::empty() + q)[0] == st as usize);
            }
            assert forall|c: int| 0 <= c < s implies #[trigger] v2[c] by {
                if c < st {
                    assert(v[c]);
                } else {
                    let i = choose|i: int| 0 <= i < g.len() && g[i] == st as usize;
                    assert((g + Seq::<usize>::empty())[i] == g[i]);
                }
            }
            assert forall|c: int| 0 <= c < n && #[trigger] v2[c] implies in_some_group(groups2, c as usize) by {
                if v[c] {
                    let t = choose|t: int| 0 <= t < groups.len() && #[trigger] groups[t].contains(c as usize);
                    assert(groups2[t] == groups[t]);
                } else {
                    assert(groups2[groups.len() as int] == g);
                }
            }
            assert forall|t: int, i: int|
                0 <= t < groups2.len() && 0 <= i < groups2[t].len() implies #[trigger] groups2[t][i] < n && v2[groups2[t][i] as int] by {
                if t < groups.len() {
                    assert(groups2[t] == groups[t]);
                } else {
                    assert(groups2[t] == g);
                    assert((g + Seq::<usize>::empty())[i] == g[i]);
                }
            }
            assert forall|t: int| 0 <= t < groups2.len() implies distinct_below(#[trigger] groups2[t], n as int) by {
                if t < groups.len() {
                    assert(groups2[t] == groups[t]);
                } else {
                    assert(groups2[t] == g);
                    assert forall|i: int| 0 <= i < g.len() implies #[trigger] g[i] < n by {
                        assert((g + Seq::<usize>::empty())[i] == g[i]);
                    }
                    assert forall|i: int, j: int| 0 <= i < j < g.len() implies #[trigger] g[i] != #[trigger] g[j] by {
                        assert((g + Seq::<usize>::empty())[i] == g[i]);
                        assert((g + Seq::<usize>::empty())[j] == g[j]);
                    }
                }
            }
            assert forall|t1: int, t2: int, c: usize|
                0 <= t1 < t2 < groups2.len() && #[trigger] groups2[t1].contains(c) implies !#[trigger] groups2[t2].contains(c) by {
                assert(groups2[t1] == groups[t1]);
                if t2 < groups.len() {
                    assert(groups2[t2] == groups[t2]);
                } else if groups2[t2].contains(c) {
                    assert(groups2[t2] == g);
                    let i = choose|i: int| 0 <= i < groups[t1].len() && groups[t1][i] == c;
                    assert(v[groups[t1][i] as int]);
                    let j = choose|j: int| 0 <= j < g.len() && g[j] == c;
                    assert((g + Seq::<usize>::empty())[j] == g[j]);
                }
            }
            assert forall|t: int, i: int, b: int|
                0 <= t < groups2.len() && 0 <= i < groups2[t].len() && 0 <= b < n && #[trigger] touches(
                    cells[groups2[t][i] as int],
                    cells[b],
                ) implies groups2[t].contains(b as usize) by {
                if t < groups.len() {
                    assert(groups2[t] == groups[t]);
                } else {
                    assert(groups2[t] == g);
                    let a = g[i];
                    assert((g + Seq::<usize>::empty())[i] == a);
                    assert(!v[a as int]);
                    if v[b] {
                        let t0 = choose|t0: int| 0 <= t0 < groups.len() && #[trigger] groups[t0].contains(b as usize);
                        let i0 = choose|i0: int| 0 <= i0 < groups[t0].len() && groups[t0][i0] == b as usize;
                        assert(touches(cells[groups[t0][i0] as int], cells[a as int]));
                        assert(groups[t0].contains(a));
                        let i1 = choose|i1: int| 0 <= i1 < groups[t0].len() && groups[t0][i1] == a;
                        assert(v[groups[t0][i1] as int]);
                    } else {
                        assert(touches(cells[g[i] as int], cells[b]));
                    }
                }
            }
            assert forall|t: int| 0 <= t < groups2.len() implies chained(cells, #[trigger] groups2[t], groups2[t].len() as int) by {
                if t < groups.len() {
                    assert(groups2[t] == groups[t]);
                } else {
                    assert(groups2[t] == g);
                    assert(chained(cells, g + Seq::<usize>::empty(), g.len() as int));
                }
            }
        } else {
            assert(components(cells, s) == (v, groups));
        }
    }
}

/// The search groups are the connected parts of the cells: every cell is
/// in exactly one group, once; a group holds every cell that shares a
/// corner with one of its cells; and each cell of a group after the first
/// shares a corner with an earlier one.
pub proof fn lemma_components_partition(cells: Seq<CellRect>)
    requires
        cells.len() <= usize::MAX,
    ensures
        ({
            let groups = components(cells, cells.len() as int).1;
            &&& forall|c: usize| c < cells.len() ==> #[trigger] in_some_group(groups, c)
            &&& forall|t1: int, t2: int, c: usize|
                0 <= t1 < t2 < groups.len() && #[trigger] groups[t1].contains(c) ==> !#[trigger] groups[t2].contains(c)
            &&& forall|t: int| 0 <= t < groups.len() ==> distinct_below(#[trigger] groups[t], cells.len() as int)
            &&& forall|t: int, a: usize, b: usize|
                0 <= t < groups.len() && groups[t].contains(a) && b < cells.len() && #[trigger] touches(
                    cells[a as int],
                    cells[b as int],
                ) ==> #[trigger] groups[t].contains(b)
            &&& forall|t: int| 0 <= t < groups.len() ==> chained(cells, #[trigger] groups[t], groups[t].len() as int)
        }),
{
    let n = cells.len();
    lemma_components_inv(cells, n as int);
    let (v, groups) = components(cells, n as int);
    assert forall|c: usize| c < n implies #[trigger] in_some_group(groups, c) by {
        assert(v[c as int]);
    }
    assert forall|t: int, a: usize, b: usize|
        0 <= t < groups.len() && groups[t].contains(a) && b < n && #[trigger] touches(cells[a as int], cells[b as int])
            implies #[trigger] groups[t].contains(b) by {
        let i = choose|i: int| 0 <= i < groups[t].len() && groups[t][i] == a;
        assert(touches(cells[groups[t][i] as int], cells[b as int]));
    }
}

/// The cells among the first `j` with corner `p`, in order.
pub open spec fn corner_cells(cells: Seq<CellRect>, p: (u64, u64), j: int) -> Seq<usize>
    decreases j,
{
    if j <= 0 {
        Seq::empty()
    } else if has_corner(cells[j - 1], p) {
        corner_cells(cells, p, j - 1).push((j - 1) as usize)
    } else {
        corner_cells(cells, p, j - 1)
    }
}

/// The key of point `p` in the corner index.
pub open spec fn corner_key(p: (u64, u64)) -> u128 {
    (p.0 as int * 0x1_0000_0000_0000_0000 + p.1 as int) as u128
}

/// The point whose key is `k`.
pub open spec fn key_point(k: u128) -> (u64, u64) {
    ((k as int / 0x1_0000_0000_0000_0000) as u64, (k as int % 0x1_0000_0000_0000_0000) as u64)
}

proof fn lemma_corner_key(p: (u64, u64), k: u128)
    ensures
        key_point(corner_key(p)) == p,
        corner_key(key_point(k)) == k,
{
    let m: int = 0x1_0000_0000_0000_0000;
    let x = p.0 as int;
    let y = p.1 as int;
    assert(0 <= x * m + y < m * m) by (nonlinear_arith)
        requires
            0 <= x < m,
            0 <= y < m,
            m == 0x1_0000_0000_0000_0000,
    ;
    assert((x * m + y) / m == x && (x * m + y) % m == y) by (nonlinear_arith)
        requires
            0 <= x < m,
            0 <= y < m,
            m > 0,
    ;
    let kk = k as int;
    assert(kk == (kk / m) * m + kk % m && 0 <= kk % m < m && 0 <= kk / m < m) by (nonlinear_arith)
        requires
            0 <= kk < m * m,
            m > 0,
    ;
}

/// The cells listed in the index under key `k`, or none.
pub open spec fn indexed(index: Map<u128, Vec<usize>>, k: u128) -> Seq<usize> {
    if index.contains_key(k) {
        index[k]@
    } else {
        Seq::empty()
    }
}

/// The index lists, under the key of each point, the cells among the first
/// `j` with that corner.
pub open spec fn index_ok(index: Map<u128, Vec<usize>>, cells: Seq<CellRect>, j: int) -> bool {
    forall|k: u128| #[trigger] indexed(index, k) == corner_cells(cells, key_point(k), j)
}

fn corner_key_exec(x: u64, y: u64) -> (k: u128)
    ensures
        k == corner_key((x, y)),
{
    assert((x as int) * 0x1_0000_0000_0000_0000 + (y as int) < 0x1_0000_0000_0000_0000 * 0x1_0000_0000_0000_0000)
        by (nonlinear_arith)
        requires
            x < 0x1_0000_0000_0000_0000,
            y < 0x1_0000_0000_0000_0000,
    ;
    (x as u128) * 0x1_0000_0000_0000_0000u128 + (y as u128)
}

/// The distinct keys of the corners of `c`.
fn corner_keys(c: CellRect) -> (r: Vec<u128>)
    ensures
        forall|k: u128| r@.contains(k) <==> has_corner(c, key_point(k)),
        forall|a: int, b: int| 0 <= a < b < r.len() ==> r@[a] != r@[b],
{
    let mut r: Vec<u128> = Vec::new();
    let all = [
        corner_key_exec(c.0, c.1),
        corner_key_exec(c.0, c.3),
        corner_key_exec(c.2, c.1),
        corner_key_exec(c.2, c.3),
    ];
    let mut t: usize = 0;
    while t < 4
        invariant
            t <= 4,
            all@ == seq![
                corner_key((c.0, c.1)),
                corner_key((c.0, c.3)),
                corner_key((c.2, c.1)),
                corner_key((c.2, c.3)),
            ],
            forall|k: u128| r@.contains(k) <==> exists|u: int| 0 <= u < t && all@[u] == k,
            forall|a: int, b: int| 0 <= a < b < r.len() ==> r@[a] != r@[b],
        decreases 4 - t,
    {
        let k = all[t];
        let mut seen = false;
        let mut u: usize = 0;
        while u < r.len()
            invariant
                u <= r.len(),
                seen <==> exists|v: int| 0 <= v < u && r@[v] == k,
            decreases r.len() - u,
        {
            if r[u] == k {
                seen = true;
            }
            u += 1;
        }
        let ghost before = r@;
        if !seen {
            r.push(k);
            assert forall|a: int, b: int| 0 <= a < b < r.len() implies r@[a] != r@[b] by {
                if b == r.len() - 1 {
                    assert(r@[a] == before[a]);
                    assert(before.contains(r@[a]));
                }
            }
        }
        assert forall|kk: u128| r@.contains(kk) <==> exists|u: int| 0 <= u < t + 1 && all@[u] == kk by {
            if r@.contains(kk) && !before.contains(kk) {
                let i = choose|i: int| 0 <= i < r.len() && r@[i] == kk;
                assert(i == before.len());
            }
            if before.contains(kk) {
                let i = choose|i: int| 0 <= i < before.len() && before[i] == kk;
                assert(r@[i] == kk);
            }
            if exists|u: int| 0 <= u < t + 1 && all@[u] == kk {
                if all@[t as int] == kk && !before.contains(kk) {
                    assert(r@[r.len() - 1] == kk);
                }
            }
        }
        t += 1;
    }
    proof {
        assert forall|k: u128| r@.contains(k) <==> has_corner(c, key_point(k)) by {
            lemma_corner_key(corner_at(c, 0), k);
            lemma_corner_key(corner_at(c, 1), k);
            lemma_corner_key(corner_at(c, 2), k);
            lemma_corner_key(corner_at(c, 3), k);
            if has_corner(c, key_point(k)) {
                if corner_at(c, 0) == key_point(k) {
                    assert(all@[0] == k);
                } else if corner_at(c, 1) == key_point(k) {
                    assert(all@[1] == k);
                } else if corner_at(c, 2) == key_point(k) {
                    assert(all@[2] == k);
                } else {
                    assert(all@[3] == k);
                }
            }
        }
    }
    r
}

/// The corner index of `cells`: under each corner's key, the cells with
/// that corner, in order.
fn corner_index(cells: &Vec<CellRect>) -> (index: HashMap<u128, Vec<usize>>)
    ensures
        index_ok(index@, cells@, cells.len() as int),
{
    broadcast use vstd::std_specs::hash::group_hash_axioms;

    let mut index: HashMap<u128, Vec<usize>> = HashMap::new();
    let mut i: usize = 0;
    while i < cells.len()
        invariant
            i <= cells.len(),
            index_ok(index@, cells@, i as int),
        decreases cells.len() - i,
    {
        let keys = corner_keys(cells[i]);
        let ghost m0 = index@;
        let mut t: usize = 0;
        while t < keys.len()
            invariant
                i < cells.len(),
                t <= keys.len(),
                forall|a: int, b: int| 0 <= a < b < keys.len() ==> keys@[a] != keys@[b],
                forall|k: u128| #[trigger] indexed(index@, k) == if keys@.take(t as int).contains(k) {
                    indexed(m0, k).push(i)
                } else {
                    indexed(m0, k)
                },
            decreases keys.len() - t,
        {
            let k = keys[t];
            let ghost before = index@;
            let mut list = match index.remove(&k) {
                Some(l) => l,
                None => Vec::new(),
            };
            assert(list@ == indexed(before, k));
            list.push(i);
            index.insert(k, list);
            assert forall|kk: u128| #[trigger] indexed(index@, kk) == if keys@.take(t + 1).contains(kk) {
                indexed(m0, kk).push(i)
            } else {
                indexed(m0, kk)
            } by {
                if kk == k {
                    assert(keys@.take(t + 1)[t as int] == kk);
                    assert(keys@.take(t + 1).contains(kk));
                    if keys@.take(t as int).contains(kk) {
                        let a = choose|a: int| 0 <= a < t && #[trigger] keys@.take(t as int)[a] == kk;
                        assert(keys@[a] == keys@[t as int]);
                    }
                } else {
                    assert(indexed(index@, kk) == indexed(before, kk));
                    if keys@.take(t + 1).contains(kk) {
                        let a = choose|a: int| 0 <= a < t + 1 && #[trigger] keys@.take(t + 1)[a] == kk;
                        assert(keys@.take(t as int).contains(kk)) by {
                            assert(keys@.take(t as int)[a] == kk);
                        }
                    }
                    if keys@.take(t as int).contains(kk) {
                        let a = choose|a: int| 0 <= a < t && #[trigger] keys@.take(t as int)[a] == kk;
                        assert(keys@.take(t + 1)[a] == kk);
                    }
                }
            }
            t += 1;
        }
        assert(keys@.take(keys.len() as int) =~= keys@);
        i += 1;
        assert forall|k: u128| #[trigger] indexed(index@, k) == corner_cells(cells@, key_point(k), i as int) by {
            assert(indexed(m0, k) == corner_cells(cells@, key_point(k), i - 1));
        }
    }
    index
}

/// Visiting the cells listed in `list` from the first `m` on: each one not
/// yet visited is marked and queued.
pub open spec fn scan_list(visited: Seq<bool>, list: Seq<usize>, m: int) -> (Seq<bool>, Seq<usize>)
    decreases m,
{
    if m <= 0 {
        (visited, Seq::empty())
    } else {
        let (v, added) = scan_list(visited, list, m - 1);
        let c = list[m - 1];
        if !v[c as int] {
            (v.update(c as int, true), added.push(c))
        } else {
            (v, added)
        }
    }
}

proof fn lemma_scan_list_prefix(visited: Seq<bool>, a: Seq<usize>, b: Seq<usize>, m: int)
    requires
        0 <= m <= a.len(),
        m <= b.len(),
        forall|i: int| 0 <= i < m ==> a[i] == b[i],
    ensures
        scan_list(visited, a, m) == scan_list(visited, b, m),
    decreases m,
{
    if m > 0 {
        lemma_scan_list_prefix(visited, a, b, m - 1);
    }
}

/// Visiting the cells with corner `p` through their list is the same as
/// scanning every cell for the corner.
proof fn lemma_scan_list_corner(cells: Seq<CellRect>, p: (u64, u64), visited: Seq<bool>, j: int)
    requires
        0 <= j <= cells.len() <= usize::MAX,
    ensures
        scan_list(visited, corner_cells(cells, p, j), corner_cells(cells, p, j).len() as int) == scan_corner(
            cells,
            p,
            visited,
            j,
        ),
        forall|i: int| 0 <= i < corner_cells(cells, p, j).len() ==> #[trigger] corner_cells(cells, p, j)[i] < j,
    decreases j,
{
    if j > 0 {
        lemma_scan_list_corner(cells, p, visited, j - 1);
        let prev = corner_cells(cells, p, j - 1);
        if has_corner(cells[j - 1], p) {
            let cur = prev.push((j - 1) as usize);
            assert(corner_cells(cells, p, j) == cur);
            lemma_scan_list_prefix(visited, prev, cur, prev.len() as int);
            assert(cur[prev.len() as int] == (j - 1) as usize);
            let (v, added) = scan_list(visited, cur, prev.len() as int);
            assert(scan_list(visited, cur, cur.len() as int) == (if !v[j - 1] {
                (v.update(j - 1, true), added.push((j - 1) as usize))
            } else {
                (v, added)
            }));
        } else {
            assert(corner_cells(cells, p, j) == prev);
        }
    }
}

fn scan_corner_indexed(
    cells: &Vec<CellRect>,
    index: &HashMap<u128, Vec<usize>>,
    p: (u64, u64),
    visited: &mut Vec<bool>,
    queue: &mut Vec<usize>,
)
    requires
        old(visited).len() == cells.len(),
        index_ok(index@, cells@, cells.len() as int),
    ensures
        final(visited)@ == scan_corner(cells@, p, old(visited)@, cells.len() as int).0,
        final(queue)@ == old(queue)@ + scan_corner(cells@, p, old(visited)@, cells.len() as int).1,
        final(visited).len() == cells.len(),
{
    broadcast use vstd::std_specs::hash::group_hash_axioms;

    let ghost v0 = visited@;
    let ghost q0 = queue@;
    let k = corner_key_exec(p.0, p.1);
    proof {
        lemma_corner_key(p, k);
        assert(indexed(index@, k) == corner_cells(cells@, p, cells.len() as int));
        lemma_scan_list_corner(cells@, p, v0, cells.len() as int);
    }
    let ghost list = corner_cells(cells@, p, cells.len() as int);
    if let Some(found) = index.get(&k) {
        assert(found@ == list);
        let mut m: usize = 0;
        while m < found.len()
            invariant
                m <= found.len(),
                found@ == list,
                visited.len() == cells.len(),
                forall|i: int| 0 <= i < list.len() ==> #[trigger] list[i] < cells.len(),
                visited@ == scan_list(v0, list, m as int).0,
                queue@ == q0 + scan_list(v0, list, m as int).1,
            decreases found.len() - m,
        {
            let c = found[m];
            assert(list[m as int] == c);
            if !visited[c] {
                visited.set(c, true);
                queue.push(c);
            }
            m += 1;
            assert(queue@ =~= q0 + scan_list(v0, list, m as int).1);
        }
    } else {
        assert(list.len() == 0);
    }
}

fn search_from(
    cells: &Vec<CellRect>,
    index: &HashMap<u128, Vec<usize>>,
    start: usize,
    visited: &mut Vec<bool>,
) -> (g: Vec<usize>)
    requires
        index_ok(index@, cells@, cells.len() as int),
        start < cells.len(),
        old(visited).len() == cells.len(),
        !old(visited)@[start as int],
    ensures
        (final(visited)@, g@) == bfs(
            cells@,
            old(visited)@.update(start as int, true),
            seq![start],
            Seq::empty(),
            cells.len() as nat,
        ),
        final(visited).len() == cells.len(),
        g.len() >= 1,
        forall|i: int| 0 <= i < g.len() ==> #[trigger] g@[i] < cells.len(),
{
    let n = cells.len();
    let ghost init = bfs(cells@, old(visited)@.update(start as int, true), seq![start], Seq::empty(), n as nat);
    visited.set(start, true);
    let mut queue: Vec<usize> = Vec::new();
    queue.push(start);
    let mut group: Vec<usize> = Vec::new();
    let mut head: usize = 0;
    assert(queue@.skip(0) =~= seq![start]);
    assert(group@ =~= Seq::<usize>::empty());
    while head < queue.len()
        invariant
            n == cells.len(),
            index_ok(index@, cells@, cells.len() as int),
            visited.len() == n,
            head <= queue.len(),
            distinct_below(queue@, n as int),
            forall|i: int| 0 <= i < queue.len() ==> visited@[#[trigger] queue@[i] as int],
            bfs(cells@, visited@, queue@.skip(head as int), group@, (n - head) as nat) == init,
            queue.len() >= 1,
            group.len() == head,
            forall|i: int| 0 <= i < group.len() ==> #[trigger] group@[i] < n,
        decreases n - head,
    {
        proof {
            lemma_distinct_below_len(queue@, n as int);
        }
        let idx = queue[head];
        let ghost v0 = visited@;
        let ghost q0 = queue@;
        assert(queue@.skip(head as int)[0] == idx);
        assert(queue@.skip(head as int).drop_first() =~= queue@.skip(head + 1));
        let cell = cells[idx];
        scan_corner_indexed(cells, index, (cell.0, cell.1), visited, &mut queue);
        scan_corner_indexed(cells, index, (cell.0, cell.3), visited, &mut queue);
        scan_corner_indexed(cells, index, (cell.2, cell.1), visited, &mut queue);
        scan_corner_indexed(cells, index, (cell.2, cell.3), visited, &mut queue);
        proof {
            let (v4, a4) = scan_corners(cells@, idx, v0, 4);
            let (v3, a3) = scan_corners(cells@, idx, v0, 3);
            let (v2, a2) = scan_corners(cells@, idx, v0, 2);
            let (v1, a1) = scan_corners(cells@, idx, v0, 1);
            assert(scan_corners(cells@, idx, v0, 0) == (v0, Seq::<usize>::empty()));
            assert(a1 =~= Seq::<usize>::empty() + scan_corner(cells@, corner_at(cells@[idx as int], 0), v0, n as int).1);
            assert(visited@ == v4);
            assert(queue@ =~= q0 + a4);
            lemma_scan_corners_marks(cells@, idx, v0, 4);
            assert forall|i: int| 0 <= i < queue.len() implies visited@[#[trigger] queue@[i] as int] by {
                if i < q0.len() {
                    assert(queue@[i] == q0[i]);
                    assert(v0[q0[i] as int]);
                } else {
                    assert(queue@[i] == a4[i - q0.len()]);
                }
            }
            assert forall|i: int, j: int| 0 <= i < j < queue.len() implies #[trigger] queue@[i] != #[trigger] queue@[j] by {
                if j < q0.len() {
                    assert(queue@[i] == q0[i] && queue@[j] == q0[j]);
                } else if i >= q0.len() {
                    assert(queue@[i] == a4[i - q0.len()] && queue@[j] == a4[j - q0.len()]);
                } else {
                    assert(queue@[i] == q0[i] && queue@[j] == a4[j - q0.len()]);
                    assert(v0[q0[i] as int]);
                }
            }
            assert forall|i: int| 0 <= i < queue.len() implies #[trigger] queue@[i] < n by {
                if i < q0.len() {
                    assert(queue@[i] == q0[i]);
                } else {
                    assert(queue@[i] == a4[i - q0.len()]);
                }
            }
            assert(queue@.skip(head + 1) =~= q0.skip(head + 1) + a4);
        }
        group.push(idx);
        head = head + 1;
    }
    assert(group.len() >= 1);
    assert(queue@.skip(head as int) =~= Seq::<usize>::empty());
    group
}

/// The groups as sequences.
pub open spec fn groups_view(groups: Seq<Vec<usize>>) -> Seq<Seq<usize>> {
    groups.map_values(|g: Vec<usize>| g@)
}

fn cell_components(cells: &Vec<CellRect>) -> (r: Vec<Vec<usize>>)
    ensures
        groups_view(r@) == components(cells@, cells.len() as int).1,
        forall|t: int| 0 <= t < r.len() ==> (#[trigger] r@[t]).len() >= 1 && forall|i: int|
            0 <= i < r@[t].len() ==> #[trigger] r@[t]@[i] < cells.len(),
{
    let n = cells.len();
    let mut visited: Vec<bool> = Vec::new();
    let mut m: usize = 0;
    while m < n
        invariant
            m <= n,
            visited@ == Seq::new(m as nat, |i: int| false),
        decreases n - m,
    {
        visited.push(false);
        assert(visited@ =~= Seq::new((m + 1) as nat, |i: int| false));
        m = m + 1;
    }
    let index = corner_index(cells);
    let mut groups: Vec<Vec<usize>> = Vec::new();
    assert(groups_view(groups@) =~= Seq::<Seq<usize>>::empty());
    let mut st: usize = 0;
    while st < n
        invariant
            st <= n == cells.len(),
            index_ok(index@, cells@, cells.len() as int),
            visited.len() == n,
            (visited@, groups_view(groups@)) == components(cells@, st as int),
            forall|t: int| 0 <= t < groups.len() ==> (#[trigger] groups@[t]).len() >= 1 && forall|i: int|
                0 <= i < groups@[t].len() ==> #[trigger] groups@[t]@[i] < n,
        decreases n - st,
    {
        if !visited[st] {
            let ghost before = groups_view(groups@);
            let g = search_from(cells, &index, st, &mut visited);
            let ghost gv = g@;
            groups.push(g);
            assert(groups_view(groups@) =~= before.push(gv));
        }
        st = st + 1;
    }
    groups
}

/// The smaller of two `(top, x0)` keys.
pub open spec fn min_key(a: (u64, u64), b: (u64, u64)) -> (u64, u64) {
    if point_lt(b, a) {
        b
    } else {
        a
    }
}

/// The least `(top, x0)` among the first `k` cells of a group.
pub open spec fn key_upto(cells: Seq<CellRect>, g: Seq<usize>, k: int) -> (u64, u64)
    decreases k,
{
    let c = cells[g[k - 1] as int];
    if k <= 1 {
        (cells[g[0] as int].1, cells[g[0] as int].0)
    } else {
        min_key(key_upto(cells, g, k - 1), (c.1, c.0))
    }
}

/// A group's sort key: the least `(top, x0)` of its cells.
pub open spec fn group_key(cells: Seq<CellRect>, g: Seq<usize>) -> (u64, u64) {
    key_upto(cells, g, g.len() as int)
}

/// Where a group with key `k` goes among groups with keys `keys`: before
/// the first one from `i` on whose key is greater.
pub open spec fn insert_pos(keys: Seq<(u64, u64)>, k: (u64, u64), i: int) -> int
    decreases keys.len() - i,
{
    if i >= keys.len() {
        keys.len() as int
    } else if point_lt(k, keys[i]) {
        i
    } else {
        insert_pos(keys, k, i + 1)
    }
}

/// The groups stably sorted by key: each group in turn goes after every
/// earlier group whose key is not greater than its own.
pub open spec fn sort_groups(cells: Seq<CellRect>, gs: Seq<Seq<usize>>) -> Seq<Seq<usize>>
    decreases gs.len(),
{
    if gs.len() == 0 {
        Seq::empty()
    } else {
        let sorted = sort_groups(cells, gs.drop_last());
        let g = gs.last();
        let keys = sorted.map_values(|h: Seq<usize>| group_key(cells, h));
        sorted.insert(insert_pos(keys, group_key(cells, g), 0), g)
    }
}

proof fn lemma_insert_pos(keys: Seq<(u64, u64)>, k: (u64, u64), i: int)
    requires
        0 <= i <= keys.len(),
    ensures
        i <= insert_pos(keys, k, i) <= keys.len(),
        forall|j: int| i <= j < insert_pos(keys, k, i) ==> !point_lt(k, #[trigger] keys[j]),
        insert_pos(keys, k, i) < keys.len() ==> point_lt(k, keys[insert_pos(keys, k, i)]),
    decreases keys.len() - i,
{
    if i < keys.len() && !point_lt(k, keys[i]) {
        lemma_insert_pos(keys, k, i + 1);
    }
}

/// Sorting keeps the groups, each as often as before, and puts their keys
/// in order: no group's key is less than an earlier one's.
pub proof fn lemma_sort_groups_sorted(cells: Seq<CellRect>, gs: Seq<Seq<usize>>)
    ensures
        sort_groups(cells, gs).to_multiset() == gs.to_multiset(),
        forall|i: int, j: int|
            0 <= i < j < sort_groups(cells, gs).len() ==> !point_lt(
                group_key(cells, #[trigger] sort_groups(cells, gs)[j]),
                group_key(cells, #[trigger] sort_groups(cells, gs)[i]),
            ),
    decreases gs.len(),
{
    broadcast use vstd::seq_lib::group_to_multiset_ensures;
    if gs.len() == 0 {
        assert(sort_groups(cells, gs) =~= Seq::<Seq<usize>>::empty());
        assert(gs =~= Seq::<Seq<usize>>::empty());
    } else {
        let front = gs.drop_last();
        lemma_sort_groups_sorted(cells, front);
        let sorted = sort_groups(cells, front);
        let g = gs.last();
        let kg = group_key(cells, g);
        let keys = sorted.map_values(|h: Seq<usize>| group_key(cells, h));
        lemma_insert_pos(keys, kg, 0);
        let p = insert_pos(keys, kg, 0);
        let r = sorted.insert(p, g);
        assert(r == sort_groups(cells, gs));
        vstd::seq_lib::to_multiset_insert(sorted, p, g);
        assert(front.push(g) =~= gs);
        assert forall|i: int, j: int| 0 <= i < j < r.len() implies !point_lt(
            group_key(cells, #[trigger] r[j]),
            group_key(cells, #[trigger] r[i]),
        ) by {
            if j < p {
                assert(r[i] == sorted[i] && r[j] == sorted[j]);
            } else if j == p {
                assert(r[j] == g);
                assert(r[i] == sorted[i]);
                assert(keys[i] == group_key(cells, sorted[i]));
            } else if i > p {
                assert(r[i] == sorted[i - 1] && r[j] == sorted[j - 1]);
            } else if i == p {
                assert(r[i] == g);
                assert(r[j] == sorted[j - 1]);
                assert(keys[p] == group_key(cells, sorted[p]));
                if j - 1 > p {
                    assert(!point_lt(group_key(cells, sorted[j - 1]), group_key(cells, sorted[p])));
                }
            } else {
                assert(r[i] == sorted[i] && r[j] == sorted[j - 1]);
            }
        }
    }
}

/// The groups of more than one cell, in order.
pub open spec fn keep_tables(gs: Seq<Seq<usize>>) -> Seq<Seq<usize>>
    decreases gs.len(),
{
    if gs.len() == 0 {
        Seq::empty()
    } else {
        keep_tables(gs.drop_last()) + if gs.last().len() > 1 {
            seq![gs.last()]
        } else {
            Seq::empty()
        }
    }
}

fn group_key_exec(cells: &Vec<CellRect>, g: &Vec<usize>) -> (r: (u64, u64))
    requires
        g.len() >= 1,
        forall|i: int| 0 <= i < g.len() ==> #[trigger] g@[i] < cells.len(),
    ensures
        r == group_key(cells@, g@),
{
    let first = cells[g[0]];
    let mut key: (u64, u64) = (first.1, first.0);
    let mut k: usize = 1;
    while k < g.len()
        invariant
            1 <= k <= g.len(),
            forall|i: int| 0 <= i < g.len() ==> #[trigger] g@[i] < cells.len(),
            key == key_upto(cells@, g@, k as int),
        decreases g.len() - k,
    {
        let c = cells[g[k]];
        if c.1 < key.0 || (c.1 == key.0 && c.0 < key.1) {
            key = (c.1, c.0);
        }
        k = k + 1;
    }
    key
}

fn copy_list(v: &Vec<usize>) -> (r: Vec<usize>)
    ensures
        r@ == v@,
{
    let mut out: Vec<usize> = Vec::new();
    let mut k: usize = 0;
    while k < v.len()
        invariant
            k <= v.len(),
            out@ == v@.take(k as int),
        decreases v.len() - k,
    {
        out.push(v[k]);
        assert(v@.take(k + 1) =~= v@.take(k as int).push(v@[k as int]));
        k = k + 1;
    }
    assert(v@.take(v.len() as int) =~= v@);
    out
}

/// Groups cells into tables: cells that share a corner, directly or
/// through other cells, form one table, its cells in the order a
/// breadth-first search from its first cell reaches them. Tables are
/// ordered by their least `(top, x0)`, ties in order of their first cell;
/// tables of a single cell are dropped. Gives the cell indices of each.
pub fn group_cells(cells: &Vec<CellRect>) -> (r: Vec<Vec<usize>>)
    ensures
        groups_view(r@) == keep_tables(sort_groups(cells@, components(cells@, cells.len() as int).1)),
{
    let groups = cell_components(cells);
    let ghost gs = groups_view(groups@);
    let mut sorted: Vec<Vec<usize>> = Vec::new();
    let mut keys: Vec<(u64, u64)> = Vec::new();
    assert(groups_view(sorted@) =~= sort_groups(cells@, gs.take(0)));
    let mut t: usize = 0;
    while t < groups.len()
        invariant
            t <= groups.len(),
            gs == groups_view(groups@),
            forall|u: int| 0 <= u < groups.len() ==> (#[trigger] groups@[u]).len() >= 1 && forall|i: int|
                0 <= i < groups@[u].len() ==> #[trigger] groups@[u]@[i] < cells.len(),
            groups_view(sorted@) == sort_groups(cells@, gs.take(t as int)),
            keys@ == groups_view(sorted@).map_values(|h: Seq<usize>| group_key(cells@, h)),
        decreases groups.len() - t,
    {
        let g = &groups[t];
        assert(gs[t as int] == g@);
        let k = group_key_exec(cells, g);
        let mut pos: usize = 0;
        while pos < keys.len() && !(k.0 < keys[pos].0 || (k.0 == keys[pos].0 && k.1 < keys[pos].1))
            invariant
                pos <= keys.len(),
                insert_pos(keys@, k, pos as int) == insert_pos(keys@, k, 0),
            decreases keys.len() - pos,
        {
            pos = pos + 1;
        }
        let ghost sv = groups_view(sorted@);
        assert(gs.take(t + 1).drop_last() =~= gs.take(t as int));
        assert(gs.take(t + 1).last() == g@);
        let copy = copy_list(g);
        sorted.insert(pos, copy);
        keys.insert(pos, k);
        assert(groups_view(sorted@) =~= sv.insert(pos as int, g@));
        assert(keys@ =~= groups_view(sorted@).map_values(|h: Seq<usize>| group_key(cells@, h)));
        t = t + 1;
    }
    assert(gs.take(groups.len() as int) =~= gs);
    let ghost all = groups_view(sorted@);
    let mut tables: Vec<Vec<usize>> = Vec::new();
    let mut u: usize = 0;
    assert(groups_view(tables@) =~= keep_tables(all.take(0)));
    while u < sorted.len()
        invariant
            u <= sorted.len(),
            all == groups_view(sorted@),
            groups_view(tables@) == keep_tables(all.take(u as int)),
        decreases sorted.len() - u,
    {
        assert(all.take(u + 1).drop_last() =~= all.take(u as int));
        assert(all.take(u + 1).last() == sorted@[u as int]@);
        if sorted[u].len() > 1 {
            let ghost before = groups_view(tables@);
            let copy = copy_list(&sorted[u]);
            tables.push(copy);
            assert(groups_view(tables@) =~= before.push(sorted@[u as int]@));
        } else {
            assert(keep_tables(all.take(u + 1)) =~= keep_tables(all.take(u as int)));
        }
        u = u + 1;
    }
    assert(all.take(sorted.len() as int) =~= all);
    tables
}

} // verus!
