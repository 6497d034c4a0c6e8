//! Direction rankings handed to `Game::step`.
use crate::walker::{complete_prefs, Board, Direction, DirectionPrefs};
use crate::Point;
use vstd::prelude::*;

verus! {

/// The position of a direction in counter-clockwise order starting east.
pub open spec fn rank(d: Direction) -> int {
    match d {
        Direction::E => 0,
        Direction::NE => 1,
        Direction::N => 2,
        Direction::NW => 3,
        Direction::W => 4,
        Direction::SW => 5,
        Direction::S => 6,
        Direction::SE => 7,
    }
}

/// The directions in counter-clockwise order starting east.
pub open spec fn compass() -> Seq<Direction> {
    seq![
        Direction::E,
        Direction::NE,
        Direction::N,
        Direction::NW,
        Direction::W,
        Direction::SW,
        Direction::S,
        Direction::SE,
    ]
}

/// How far a move in `d` leads away from `dest`: the dot product of the
/// offset from `dest` to `pt` with the direction's vector.
pub open spec fn alignment(pt: Point, dest: Point, d: Direction) -> int {
    let v = d.delta();
    (pt.0 - dest.0) * v.0 + (pt.1 - dest.1) * v.1
}

/// Whether `a` ranks before `b`: smaller alignment first, compass order
/// among equals.
#[verifier::opaque]
pub open spec fn ranks_before(pt: Point, dest: Point, a: Direction, b: Direction) -> bool {
    ||| alignment(pt, dest, a) < alignment(pt, dest, b)
    ||| alignment(pt, dest, a) == alignment(pt, dest, b) && rank(a) < rank(b)
}

/// Ranks the directions in plain compass order, whatever the position.
pub fn dummy_eval(_pt: Point, _dest: Point, _board: &Board) -> (r: DirectionPrefs)
    ensures
        r@ == compass(),
        complete_prefs(r),
{
    let r = [
        Direction::E,
        Direction::NE,
        Direction::N,
        Direction::NW,
        Direction::W,
        Direction::SW,
        Direction::S,
        Direction::SE,
    ];
    assert(r@ =~= compass());
    assert forall|d: Direction| #[trigger] r@.contains(d) by {
        assert(r@[rank(d)] == d);
    }
    r
}

fn alignment_of(pt: Point, dest: Point, d: Direction) -> (a: i64)
    ensures
        a == alignment(pt, dest, d),
{
    let dx = pt.0 as i64 - dest.0 as i64;
    let dy = pt.1 as i64 - dest.1 as i64;
    let ghost (ex, ey) = (pt.0 - dest.0, pt.1 - dest.1);
    assert(alignment(pt, dest, d) == ex * d.delta().0 + ey * d.delta().1);
    assert(ex * 1 == ex && ex * -1 == -ex && ex * 0 == 0 && ey * 1 == ey && ey * -1 == -ey && ey * 0 == 0)
        by (nonlinear_arith);
    match d {
        Direction::E => dx,
        Direction::NE => dx + dy,
        Direction::N => dy,
        Direction::NW => dy - dx,
        Direction::W => -dx,
        Direction::SW => -dx - dy,
        Direction::S => -dy,
        Direction::SE => dx - dy,
    }
}

/// Inserting the direction of rank `p` after every direction aligned no
/// worse keeps a ranking of the first `p` directions sorted, and makes it
/// one of the first `p + 1`.
proof fn lemma_insert_ranked(pt: Point, dest: Point, before: Seq<Direction>, d: Direction, p: int, pos: int)
    requires
        rank(d) == p,
        0 <= pos <= before.len(),
        forall|x: Direction| #[trigger] before.contains(x) <==> rank(x) < p,
        forall|i: int, j: int| 0 <= i < j < before.len() ==> ranks_before(pt, dest, #[trigger] before[i], #[trigger] before[j]),
        forall|i: int| 0 <= i < pos ==> alignment(pt, dest, #[trigger] before[i]) <= alignment(pt, dest, d),
        pos < before.len() ==> alignment(pt, dest, before[pos]) > alignment(pt, dest, d),
    ensures
        forall|x: Direction| #[trigger] before.insert(pos, d).contains(x) <==> rank(x) < p + 1,
        forall|i: int, j: int|
            0 <= i < j < before.len() + 1 ==> ranks_before(
                pt,
                dest,
                #[trigger] before.insert(pos, d)[i],
                #[trigger] before.insert(pos, d)[j],
            ),
{
    reveal(ranks_before);
    let sorted = before.insert(pos, d);
    assert forall|i: int| 0 <= i < before.len() implies rank(#[trigger] before[i]) < p by {
        assert(before.contains(before[i]));
    }
    assert forall|x: Direction| #[trigger] sorted.contains(x) <==> rank(x) < p + 1 by {
        if sorted.contains(x) {
            let i = choose|i: int| 0 <= i < sorted.len() && sorted[i] == x;
            if i < pos {
                assert(before[i] == x);
                assert(before.contains(x));
            } else if i > pos {
                assert(before[i - 1] == x);
                assert(before.contains(x));
            }
        }
        if rank(x) < p {
            assert(before.contains(x));
            let i = choose|i: int| 0 <= i < before.len() && before[i] == x;
            if i < pos {
                assert(sorted[i] == x);
            } else {
                assert(sorted[i + 1] == x);
            }
        } else if rank(x) == p {
            assert(x == d);
            assert(sorted[pos] == x);
        }
    }
    assert forall|i: int, j: int| 0 <= i < j < sorted.len() implies ranks_before(
        pt,
        dest,
        #[trigger] sorted[i],
        #[trigger] sorted[j],
    ) by {
        if j < pos {
            assert(sorted[i] == before[i] && sorted[j] == before[j]);
        } else if j == pos {
            assert(sorted[i] == before[i]);
            assert(rank(before[i]) < p);
        } else if i == pos {
            assert(sorted[j] == before[j - 1]);
            assert(ranks_before(pt, dest, before[pos], before[j - 1]) || j - 1 == pos);
        } else if i > pos {
            assert(sorted[i] == before[i - 1] && sorted[j] == before[j - 1]);
        } else {
            assert(sorted[i] == before[i] && sorted[j] == before[j - 1]);
        }
    }
}

/// The first index of `sorted` whose direction leads farther from `dest`
/// than `key`, or its length.
fn insertion_point(pt: Point, dest: Point, sorted: &Vec<Direction>, key: i64) -> (pos: usize)
    ensures
        pos <= sorted@.len(),
        forall|i: int| 0 <= i < pos ==> alignment(pt, dest, #[trigger] sorted@[i]) <= key,
        pos < sorted@.len() ==> alignment(pt, dest, sorted@[pos as int]) > key,
{
    let mut pos: usize = 0;
    while pos < sorted.len() && alignment_of(pt, dest, sorted[pos]) <= key
        invariant
            pos <= sorted@.len(),
            forall|i: int| 0 <= i < pos ==> alignment(pt, dest, #[trigger] sorted@[i]) <= key,
        decreases sorted@.len() - pos,
    {
        pos += 1;
    }
    pos
}

/// All directions, sorted by `ranks_before`.
fn ranked_directions(pt: Point, dest: Point, order: [Direction; 8]) -> (sorted: Vec<Direction>)
    requires
        order@ == compass(),
    ensures
        sorted@.len() == 8,
        forall|d: Direction| #[trigger] sorted@.contains(d),
        forall|i: int, j: int|
            0 <= i < j < sorted@.len() ==> ranks_before(pt, dest, #[trigger] sorted@[i], #[trigger] sorted@[j]),
{
    let mut sorted: Vec<Direction> = Vec::new();
    for p in 0..8usize
        invariant
            order@ == compass(),
            sorted@.len() == p,
            forall|d: Direction| #[trigger] sorted@.contains(d) <==> rank(d) < p,
            forall|i: int, j: int|
                0 <= i < j < sorted@.len() ==> ranks_before(pt, dest, #[trigger] sorted@[i], #[trigger] sorted@[j]),
    {
        let d = order[p];
        assert(rank(d) == p);
        let pos = insertion_point(pt, dest, &sorted, alignment_of(pt, dest, d));
        let ghost before = sorted@;
        sorted.insert(pos, d);
        proof {
            lemma_insert_ranked(pt, dest, before, d, p as int, pos as int);
        }
    }
    assert forall|d: Direction| #[trigger] sorted@.contains(d) by {
        assert(rank(d) < 8);
    }
    sorted
}

/// Ranks the directions by how directly they lead toward `dest`: ascending
/// alignment, compass order among equals.
pub fn better_eval(pt: Point, dest: Point, _board: &Board) -> (r: DirectionPrefs)
    ensures
        complete_prefs(r),
        forall|i: int, j: int| 0 <= i < j < 8 ==> ranks_before(pt, dest, #[trigger] r@[i], #[trigger] r@[j]),
{
    let sorted = ranked_directions(pt, dest, dummy_eval(pt, dest, _board));
    let r = [sorted[0], sorted[1], sorted[2], sorted[3], sorted[4], sorted[5], sorted[6], sorted[7]];
    assert(r@ =~= sorted@);
    assert forall|d: Direction| #[trigger] r@.contains(d) by {
        assert(sorted@.contains(d));
    }
    r
}

} // verus!
