//! The cells and steps covered by a set of routes, and the facts relating
//! them to the board as routes grow, are seeded, and are reordered.
use crate::walker::{corners, interior, is_diagonal_step, neighbor, Board, Direction};
use crate::Point;
use vstd::prelude::*;

verus! {

broadcast use vstd::seq_lib::lemma_seq_contains_after_push;

/// The two ends of the `k`-th step along route `r`.
pub open spec fn step_of(r: Seq<Point>, k: int) -> (Point, Point) {
    (r[k], r[k + 1])
}

/// Every cell that lies on one of the routes.
pub open spec fn covered(rs: Seq<Seq<Point>>) -> Set<Point> {
    Set::new(|p: Point| exists|i: int| 0 <= i < rs.len() && #[trigger] rs[i].contains(p))
}

/// Every step taken along one of the routes.
pub open spec fn moves(rs: Seq<Seq<Point>>) -> Set<(Point, Point)> {
    Set::new(
        |m: (Point, Point)|
            exists|i: int, k: int|
                0 <= i < rs.len() && 0 <= k < rs[i].len() - 1 && #[trigger] step_of(rs[i], k) == m,
    )
}

/// No cell lies on two routes, nor twice on one route.
pub open spec fn separated(rs: Seq<Seq<Point>>) -> bool {
    forall|i: int, j: int, k: int, l: int|
        0 <= i < rs.len() && 0 <= j < rs.len() && 0 <= k < rs[i].len() && 0 <= l < rs[j].len()
            && #[trigger] rs[i][k] == #[trigger] rs[j][l] ==> i == j && k == l
}

/// Each diagonal step taken forbids its crossing diagonal in both
/// orientations and is not itself forbidden.
pub open spec fn guarded(rs: Seq<Seq<Point>>, crossings: Set<(Point, Point)>) -> bool {
    forall|m: (Point, Point)|
        #[trigger] moves(rs).contains(m) && is_diagonal_step(m.0, m.1) ==> {
            let c = corners(m.0, m.1);
            &&& crossings.contains(c)
            &&& crossings.contains((c.1, c.0))
            &&& !crossings.contains(m)
        }
}

/// The board records exactly the cells of the routes and guards their
/// diagonal steps.
pub open spec fn consistent(rs: Seq<Seq<Point>>, board: Board) -> bool {
    &&& board.cells() == covered(rs)
    &&& guarded(rs, board.crossings())
}

pub(crate) proof fn lemma_corners_involutive(a: Point, b: Point)
    ensures
        corners(corners(a, b).0, corners(a, b).1) == (a, b),
        corners(corners(a, b).1, corners(a, b).0) == (b, a),
        is_diagonal_step(a, b) ==> is_diagonal_step(corners(a, b).0, corners(a, b).1),
        is_diagonal_step(a, b) ==> is_diagonal_step(corners(a, b).1, corners(a, b).0),
{
}

/// Appending a claimed neighbour to one route keeps the board consistent
/// with the routes, and keeps them separated.
pub(crate) proof fn lemma_extend(rs: Seq<Seq<Point>>, j: int, d: Direction, before: Board, after: Board)
    requires
        0 <= j < rs.len(),
        rs[j].len() > 0,
        consistent(rs, before),
        interior(rs[j].last()),
        before.claimable(rs[j].last(), d),
        after.cells() == before.cells().insert(neighbor(rs[j].last(), d)),
        after.crossings() == before.crossings_after(rs[j].last(), d),
    ensures
        consistent(rs.update(j, rs[j].push(neighbor(rs[j].last(), d))), after),
        separated(rs) ==> separated(rs.update(j, rs[j].push(neighbor(rs[j].last(), d)))),
{
    let p = rs[j].last();
    let q = neighbor(p, d);
    let rs2 = rs.update(j, rs[j].push(q));
    assert forall|x: Point| covered(rs2).contains(x) <==> covered(rs).insert(q).contains(x) by {
        if covered(rs2).contains(x) {
            let i = choose|i: int| 0 <= i < rs2.len() && #[trigger] rs2[i].contains(x);
            if i == j && x != q {
                assert(rs[j].contains(x));
            } else if i != j {
                assert(rs[i].contains(x));
            }
        }
        if covered(rs).contains(x) {
            let i = choose|i: int| 0 <= i < rs.len() && #[trigger] rs[i].contains(x);
            assert(rs2[i].contains(x));
        }
        if x == q {
            assert(rs2[j][rs[j].len() as int] == q);
            assert(rs2[j].contains(x));
        }
    }
    assert(covered(rs2) =~= covered(rs).insert(q));
    assert forall|m: (Point, Point)| moves(rs2).contains(m) <==> moves(rs).insert((p, q)).contains(m) by {
        if moves(rs2).contains(m) {
            let (i, k) = choose|i: int, k: int|
                0 <= i < rs2.len() && 0 <= k < rs2[i].len() - 1 && #[trigger] step_of(rs2[i], k) == m;
            if i != j || k < rs[j].len() - 1 {
                assert(step_of(rs[i], k) == m);
            }
        }
        if moves(rs).contains(m) {
            let (i, k) = choose|i: int, k: int|
                0 <= i < rs.len() && 0 <= k < rs[i].len() - 1 && #[trigger] step_of(rs[i], k) == m;
            assert(step_of(rs2[i], k) == m);
        }
        if m == (p, q) {
            assert(step_of(rs2[j], rs[j].len() - 1) == m);
        }
    }
    assert(moves(rs2) =~= moves(rs).insert((p, q)));
    assert forall|m: (Point, Point)| #[trigger] moves(rs2).contains(m) && is_diagonal_step(m.0, m.1) implies {
        let c = corners(m.0, m.1);
        &&& after.crossings().contains(c)
        &&& after.crossings().contains((c.1, c.0))
        &&& !after.crossings().contains(m)
    } by {
        lemma_corners_involutive(m.0, m.1);
        lemma_corners_involutive(p, q);
        if m == (p, q) {
            assert(d.is_diagonal());
        } else {
            assert(moves(rs).contains(m));
        }
    }
    if separated(rs) {
        assert forall|i: int, i2: int, k: int, l: int|
            0 <= i < rs2.len() && 0 <= i2 < rs2.len() && 0 <= k < rs2[i].len() && 0 <= l < rs2[i2].len()
                && #[trigger] rs2[i][k] == #[trigger] rs2[i2][l] implies i == i2 && k == l by {
            let n = rs[j].len() as int;
            if i == j && k == n {
                if !(i2 == j && l == n) {
                    assert(rs[i2][l] == rs2[i2][l]);
                    assert(rs[i2].contains(q));
                }
            } else if i2 == j && l == n {
                assert(rs[i][k] == rs2[i][k]);
                assert(rs[i].contains(q));
            } else {
                assert(rs[i][k] == rs2[i][k]);
                assert(rs[i2][l] == rs2[i2][l]);
            }
        }
    }
}

/// Adding a one-cell route for a freshly seeded cell keeps the board
/// consistent with the routes, and keeps them separated when the cell was
/// on no route.
pub(crate) proof fn lemma_seed(rs: Seq<Seq<Point>>, s: Point, before: Board, after: Board)
    requires
        consistent(rs, before),
        after.cells() == before.cells().insert(s),
        after.crossings() == before.crossings(),
    ensures
        consistent(rs.push(seq![s]), after),
        separated(rs) && !covered(rs).contains(s) ==> separated(rs.push(seq![s])),
{
    let rs2 = rs.push(seq![s]);
    assert forall|x: Point| covered(rs2).contains(x) <==> covered(rs).insert(s).contains(x) by {
        if covered(rs2).contains(x) {
            let i = choose|i: int| 0 <= i < rs2.len() && #[trigger] rs2[i].contains(x);
            if i < rs.len() {
                assert(rs[i].contains(x));
            }
        }
        if covered(rs).contains(x) {
            let i = choose|i: int| 0 <= i < rs.len() && #[trigger] rs[i].contains(x);
            assert(rs2[i].contains(x));
        }
        if x == s {
            assert(rs2[rs.len() as int][0] == s);
            assert(rs2[rs.len() as int].contains(x));
        }
    }
    assert(covered(rs2) =~= covered(rs).insert(s));
    assert forall|m: (Point, Point)| moves(rs2).contains(m) <==> moves(rs).contains(m) by {
        if moves(rs2).contains(m) {
            let (i, k) = choose|i: int, k: int|
                0 <= i < rs2.len() && 0 <= k < rs2[i].len() - 1 && #[trigger] step_of(rs2[i], k) == m;
            assert(step_of(rs[i], k) == m);
        }
        if moves(rs).contains(m) {
            let (i, k) = choose|i: int, k: int|
                0 <= i < rs.len() && 0 <= k < rs[i].len() - 1 && #[trigger] step_of(rs[i], k) == m;
            assert(step_of(rs2[i], k) == m);
        }
    }
    assert(moves(rs2) =~= moves(rs));
    if separated(rs) && !covered(rs).contains(s) {
        assert forall|i: int, i2: int, k: int, l: int|
            0 <= i < rs2.len() && 0 <= i2 < rs2.len() && 0 <= k < rs2[i].len() && 0 <= l < rs2[i2].len()
                && #[trigger] rs2[i][k] == #[trigger] rs2[i2][l] implies i == i2 && k == l by {
            let n = rs.len() as int;
            if i == n && i2 != n {
                assert(rs[i2][l] == s);
                assert(rs[i2].contains(s));
            } else if i2 == n && i != n {
                assert(rs[i][k] == s);
                assert(rs[i].contains(s));
            } else if i != n {
                assert(rs[i][k] == rs2[i][k]);
                assert(rs[i2][l] == rs2[i2][l]);
            }
        }
    }
}

/// Reordering the routes one-to-one changes neither the cells covered nor
/// the steps taken, and keeps them separated.
pub(crate) proof fn lemma_permute(rs: Seq<Seq<Point>>, rs2: Seq<Seq<Point>>, f: Seq<int>, g: Seq<int>, board: Board)
    requires
        f.len() == rs2.len(),
        forall|j: int| 0 <= j < rs2.len() ==> 0 <= #[trigger] f[j] < rs.len() && rs2[j] == rs[f[j]],
        forall|j1: int, j2: int|
            0 <= j1 < rs2.len() && 0 <= j2 < rs2.len() && j1 != j2 ==> #[trigger] f[j1] != #[trigger] f[j2],
        g.len() == rs.len(),
        forall|i: int| 0 <= i < rs.len() ==> 0 <= #[trigger] g[i] < rs2.len() && f[g[i]] == i,
    ensures
        covered(rs2) == covered(rs),
        moves(rs2) == moves(rs),
        separated(rs) ==> separated(rs2),
        consistent(rs, board) ==> consistent(rs2, board),
{
    assert forall|x: Point| covered(rs2).contains(x) <==> covered(rs).contains(x) by {
        if covered(rs2).contains(x) {
            let j = choose|j: int| 0 <= j < rs2.len() && #[trigger] rs2[j].contains(x);
            assert(rs[f[j]].contains(x));
        }
        if covered(rs).contains(x) {
            let i = choose|i: int| 0 <= i < rs.len() && #[trigger] rs[i].contains(x);
            let j = g[i];
            assert(rs2[j].contains(x));
        }
    }
    assert(covered(rs2) =~= covered(rs));
    assert forall|m: (Point, Point)| moves(rs2).contains(m) <==> moves(rs).contains(m) by {
        if moves(rs2).contains(m) {
            let (j, k) = choose|j: int, k: int|
                0 <= j < rs2.len() && 0 <= k < rs2[j].len() - 1 && #[trigger] step_of(rs2[j], k) == m;
            assert(step_of(rs[f[j]], k) == m);
        }
        if moves(rs).contains(m) {
            let (i, k) = choose|i: int, k: int|
                0 <= i < rs.len() && 0 <= k < rs[i].len() - 1 && #[trigger] step_of(rs[i], k) == m;
            let j = g[i];
            assert(step_of(rs2[j], k) == m);
        }
    }
    assert(moves(rs2) =~= moves(rs));
    if separated(rs) {
        assert forall|j: int, j2: int, k: int, l: int|
            0 <= j < rs2.len() && 0 <= j2 < rs2.len() && 0 <= k < rs2[j].len() && 0 <= l < rs2[j2].len()
                && #[trigger] rs2[j][k] == #[trigger] rs2[j2][l] implies j == j2 && k == l by {
            assert(rs[f[j]][k] == rs[f[j2]][l]);
        }
    }
}

/// Where each element of a filtered sequence came from: strictly increasing
/// indices, one for every element that passes.
pub(crate) proof fn lemma_filter_origins<A>(s: Seq<A>, pred: spec_fn(A) -> bool) -> (fi: Seq<int>)
    ensures
        fi.len() == s.filter(pred).len(),
        forall|j: int|
            0 <= j < fi.len() ==> 0 <= #[trigger] fi[j] < s.len() && s.filter(pred)[j] == s[fi[j]] && pred(s[fi[j]]),
        forall|j1: int, j2: int| 0 <= j1 < j2 < fi.len() ==> #[trigger] fi[j1] < #[trigger] fi[j2],
        forall|i: int| 0 <= i < s.len() && pred(s[i]) ==> exists|j: int| 0 <= j < fi.len() && #[trigger] fi[j] == i,
    decreases s.len(),
{
    if s.len() == 0 {
        assert(s.filter(pred) =~= Seq::<A>::empty()) by {
            reveal(Seq::filter);
        }
        Seq::<int>::empty()
    } else {
        let s0 = s.drop_last();
        let x = s.last();
        let fi0 = lemma_filter_origins(s0, pred);
        assert(s =~= s0.push(x));
        s0.lemma_filter_push(x, pred);
        if pred(x) {
            let fi = fi0.push(s.len() - 1);
            assert forall|i: int| 0 <= i < s.len() && pred(s[i]) implies exists|j: int| 0 <= j < fi.len() && #[trigger] fi[j] == i by {
                if i < s.len() - 1 {
                    assert(s0[i] == s[i]);
                    let j = choose|j: int| 0 <= j < fi0.len() && #[trigger] fi0[j] == i;
                    assert(fi[j] == i);
                } else {
                    assert(fi[fi0.len() as int] == i);
                }
            }
            fi
        } else {
            assert forall|i: int| 0 <= i < s.len() && pred(s[i]) implies exists|j: int| 0 <= j < fi0.len() && #[trigger] fi0[j] == i by {
                assert(s0[i] == s[i]);
            }
            fi0
        }
    }
}

} // verus!
