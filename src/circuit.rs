//! Building circuits to route: component outlines and their terminals.
use crate::{Component, Connection, Destination, Point, Size};
use vstd::prelude::*;

verus! {

/// The terminals above and below a `width` by `height` outline: for each
/// column, the cell below it, then the cell above it.
pub open spec fn column_terminals(width: int, height: int) -> Seq<Point> {
    Seq::new((2 * width) as nat, |i: int| if i % 2 == 0 { ((i / 2) as i32, -1i32) } else { ((i / 2) as i32, height as i32) })
}

/// The terminals left and right of a `width` by `height` outline: for each
/// row, the cell to its left, then the cell to its right.
pub open spec fn row_terminals(width: int, height: int) -> Seq<Point> {
    Seq::new((2 * height) as nat, |i: int| if i % 2 == 0 { (-1i32, (i / 2) as i32) } else { (width as i32, (i / 2) as i32) })
}

/// The terminals of a chip outline, the column ones first when asked for.
pub open spec fn chip_terminals(size: Size, vertical_terms: bool, horizontal_terms: bool) -> Seq<Point> {
    (if vertical_terms { column_terminals(size.0 as int, size.1 as int) } else { Seq::empty() })
        + (if horizontal_terms { row_terminals(size.0 as int, size.1 as int) } else { Seq::empty() })
}

/// A rectangular chip of the given size with terminals just outside its
/// top and bottom edges, its left and right edges, or both.
pub fn chip(size: Size, vertical_terms: bool, horizontal_terms: bool) -> (c: Component)
    requires
        size.0 > 0,
        size.1 > 0,
        vertical_terms || horizontal_terms,
    ensures
        c.1 == size,
        c.0@ == chip_terminals(size, vertical_terms, horizontal_terms),
{
    let (width, height) = size;
    let mut terminals: Vec<Point> = Vec::new();
    if vertical_terms {
        for x in 0..width
            invariant
                width == size.0,
                height == size.1,
                terminals@ == column_terminals(width as int, height as int).take(2 * x),
        {
            terminals.push((x, -1));
            terminals.push((x, height));
            assert(terminals@ =~= column_terminals(width as int, height as int).take(2 * (x + 1)));
        }
        assert(column_terminals(width as int, height as int).take(2 * width) =~= column_terminals(
            width as int,
            height as int,
        ));
    }
    let ghost first = terminals@;
    assert(first == (if vertical_terms { column_terminals(width as int, height as int) } else { Seq::<Point>::empty() }));
    if horizontal_terms {
        assert(terminals@ =~= first + row_terminals(width as int, height as int).take(0));
        for y in 0..height
            invariant
                width == size.0,
                height == size.1,
                terminals@ == first + row_terminals(width as int, height as int).take(2 * y),
        {
            terminals.push((-1, y));
            terminals.push((width, y));
            assert(terminals@ =~= first + row_terminals(width as int, height as int).take(2 * (y + 1)));
        }
        assert(row_terminals(width as int, height as int).take(2 * height) =~= row_terminals(
            width as int,
            height as int,
        ));
    }
    assert(terminals@ =~= chip_terminals(size, vertical_terms, horizontal_terms));
    (terminals, size)
}

/// The number of terminals of each component.
pub open spec fn counts(components: Seq<Component>) -> Seq<int> {
    components.map_values(|c: Component| c.0@.len() as int)
}

/// The number of terminals of the components from index `i` on.
pub open spec fn terms_from(lens: Seq<int>, i: int) -> int
    decreases lens.len() - i,
{
    if 0 <= i < lens.len() {
        lens[i] + terms_from(lens, i + 1)
    } else {
        0
    }
}

/// A cursor at terminal `cur.1` of component `cur.0`.
pub open spec fn cursor_ok(lens: Seq<int>, cur: (int, int)) -> bool {
    0 <= cur.0 < lens.len() && 0 <= cur.1 <= lens[cur.0]
}

/// Two cursors over the components, and the index of the next component
/// not yet handed to either.
pub open spec fn pairing_ok(lens: Seq<int>, a: (int, int), b: (int, int), next: int) -> bool {
    &&& forall|i: int| 0 <= i < lens.len() ==> lens[i] >= 0
    &&& cursor_ok(lens, a)
    &&& cursor_ok(lens, b)
    &&& 0 <= next <= lens.len()
}

/// The next terminal for a cursor: its own next one, or else the first of
/// the next component handed out; `None` when that fails. Returns the
/// terminal, the advanced cursor and the new next-component index.
pub open spec fn pull(lens: Seq<int>, cur: (int, int), next: int) -> Option<(Destination, (int, int), int)> {
    if cur.1 < lens[cur.0] {
        Some(((cur.0 as usize, cur.1 as usize), (cur.0, cur.1 + 1), next))
    } else if next < lens.len() && lens[next] > 0 {
        Some(((next as usize, 0usize), (next, 1), next + 1))
    } else {
        None
    }
}

/// The terminals not yet handed out to the cursors.
pub open spec fn terms_left(lens: Seq<int>, a: (int, int), b: (int, int), next: int) -> int {
    (lens[a.0] - a.1) + (lens[b.0] - b.1) + terms_from(lens, next)
}

proof fn lemma_terms_from_nonneg(lens: Seq<int>, i: int)
    requires
        forall|k: int| 0 <= k < lens.len() ==> lens[k] >= 0,
    ensures
        terms_from(lens, i) >= 0,
    decreases lens.len() - i,
{
    if 0 <= i < lens.len() {
        lemma_terms_from_nonneg(lens, i + 1);
    }
}

/// Pairs terminals drawn by a source cursor and a destination cursor, each
/// drawing its next component from one shared sequence of components, until
/// either runs out.
pub open spec fn pairing(lens: Seq<int>, a: (int, int), b: (int, int), next: int) -> Seq<Connection>
    decreases terms_left(lens, a, b, next),
{
    if !pairing_ok(lens, a, b, next) {
        Seq::empty()
    } else {
        match pull(lens, a, next) {
            None => Seq::empty(),
            Some((src, a2, next2)) => match pull(lens, b, next2) {
                None => Seq::empty(),
                Some((dst, b2, next3)) => {
                    // Each pairing uses up two terminals (`lemma_pairing_step`),
                    // so this test always passes; it bounds the recursion.
                    if 0 <= terms_left(lens, a2, b2, next3) < terms_left(lens, a, b, next) {
                        seq![(src, dst)] + pairing(lens, a2, b2, next3)
                    } else {
                        Seq::empty()
                    }
                },
            },
        }
    }
}

/// The connections that pair every terminal with one of a later component:
/// sources start at the first component and destinations at the second.
pub open spec fn dense_pairs(components: Seq<Component>) -> Seq<Connection> {
    if components.len() < 2 {
        Seq::empty()
    } else {
        pairing(counts(components), (0, 0), (1, 0), 2)
    }
}

proof fn lemma_pairing_step(lens: Seq<int>, a: (int, int), b: (int, int), next: int)
    requires
        pairing_ok(lens, a, b, next),
    ensures
        pull(lens, a, next) matches Some((src, a2, next2)) ==> (pull(lens, b, next2) matches Some((dst, b2, next3)) ==> {
            &&& pairing_ok(lens, a2, b2, next3)
            &&& 0 <= terms_left(lens, a2, b2, next3) < terms_left(lens, a, b, next)
        }),
{
    lemma_terms_from_nonneg(lens, next);
    if next < lens.len() {
        lemma_terms_from_nonneg(lens, next + 1);
    }
    if next + 1 < lens.len() {
        lemma_terms_from_nonneg(lens, next + 2);
    }
    assert(terms_from(lens, next) == if next < lens.len() { lens[next] + terms_from(lens, next + 1) } else { 0 });
    assert(terms_from(lens, next + 1) == if next + 1 < lens.len() { lens[next + 1] + terms_from(lens, next + 2) } else { 0 });
}

/// Connects the components' terminals pairwise: a source cursor starts at
/// the first component, a destination cursor at the second, and whenever a
/// cursor has used up its component it takes the next one not yet taken;
/// stops when either cursor finds none, or finds one without terminals.
pub fn dense(components: &[Component]) -> (connections: Vec<Connection>)
    ensures
        connections@ == dense_pairs(components@),
{
    let mut connections: Vec<Connection> = Vec::new();
    let n = components.len();
    if n < 2 {
        return connections;
    }
    let ghost lens = counts(components@);
    let mut ca: usize = 0;
    let mut ta: usize = 0;
    let mut cb: usize = 1;
    let mut tb: usize = 0;
    let mut next: usize = 2;
    assert(connections@ + pairing(lens, (0, 0), (1, 0), 2) =~= dense_pairs(components@));
    loop
        invariant
            n == components@.len(),
            n >= 2,
            lens == counts(components@),
            pairing_ok(lens, (ca as int, ta as int), (cb as int, tb as int), next as int),
            connections@ + pairing(lens, (ca as int, ta as int), (cb as int, tb as int), next as int)
                == dense_pairs(components@),
        ensures
            connections@ == dense_pairs(components@),
        decreases terms_left(lens, (ca as int, ta as int), (cb as int, tb as int), next as int),
    {
        let ghost a = (ca as int, ta as int);
        let ghost b = (cb as int, tb as int);
        proof {
            lemma_pairing_step(lens, a, b, next as int);
        }
        let src: Destination;
        let (mut ca2, mut ta2, mut next2) = (ca, ta, next);
        if ta < components[ca].0.len() {
            src = (ca, ta);
            ta2 = ta + 1;
        } else if next < n && components[next].0.len() > 0 {
            src = (next, 0);
            ca2 = next;
            ta2 = 1;
            next2 = next + 1;
        } else {
            assert(connections@ + Seq::<Connection>::empty() =~= connections@);
            break;
        }
        let dst: Destination;
        let (mut cb2, mut tb2, mut next3) = (cb, tb, next2);
        if tb < components[cb].0.len() {
            dst = (cb, tb);
            tb2 = tb + 1;
        } else if next2 < n && components[next2].0.len() > 0 {
            dst = (next2, 0);
            cb2 = next2;
            tb2 = 1;
            next3 = next2 + 1;
        } else {
            assert(connections@ + Seq::<Connection>::empty() =~= connections@);
            break;
        }
        let ghost rest = pairing(lens, (ca2 as int, ta2 as int), (cb2 as int, tb2 as int), next3 as int);
        assert(pairing(lens, a, b, next as int) == seq![(src, dst)] + rest);
        connections.push((src, dst));
        assert(connections@ + rest =~= dense_pairs(components@));
        ca = ca2;
        ta = ta2;
        cb = cb2;
        tb = tb2;
        next = next3;
    }
    connections
}

} // verus!
