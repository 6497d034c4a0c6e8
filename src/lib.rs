//! Incremental multi-walker wire routing on a discrete grid.
//!
//! Each required connection gets a walker that advances one cell per step
//! toward its destination over a shared occupancy board, which forbids two
//! paths sharing a cell and two diagonal segments crossing each other.
use vstd::prelude::*;

pub mod circuit;
pub mod eval;
pub mod routes;
pub mod walker;

verus! {

/// A grid cell.
pub type Point = (i32, i32);

/// Terminal offsets relative to the component's origin, and its size.
pub type Component = (Vec<Point>, Size);

/// A terminal reference: component index and terminal index.
pub type Destination = (usize, usize);

/// Source and destination terminal of one wire.
pub type Connection = (Destination, Destination);

/// Absolute origin of a placed component.
pub type Placement = Point;

/// The cells a wire passes through, in order.
pub type Route = Vec<Point>;

pub type Size = (i32, i32);

/// Components, the wires between their terminals, and the board size.
pub type Circuit = (Vec<Component>, Vec<Connection>, Size);

/// A placement per component and a route per connection.
pub type Layout = (Vec<Placement>, Vec<Route>);

/// Whether the coordinate-wise sum of `a` and `b` is representable.
pub open spec fn sum_fits(a: Point, b: Point) -> bool {
    &&& i32::MIN <= a.0 + b.0 <= i32::MAX
    &&& i32::MIN <= a.1 + b.1 <= i32::MAX
}

/// The coordinate-wise sum of two points.
pub open spec fn point_sum(a: Point, b: Point) -> Point {
    ((a.0 + b.0) as i32, (a.1 + b.1) as i32)
}

/// Whether terminal reference `r` names an existing terminal of a placed
/// component whose absolute position is representable.
pub open spec fn resolvable(components: Seq<Component>, placements: Seq<Placement>, r: Destination) -> bool {
    &&& r.0 < components.len()
    &&& r.0 < placements.len()
    &&& r.1 < components[r.0 as int].0@.len()
    &&& sum_fits(components[r.0 as int].0@[r.1 as int], placements[r.0 as int])
}

/// The absolute grid position of terminal reference `r`.
pub open spec fn terminal_at(components: Seq<Component>, placements: Seq<Placement>, r: Destination) -> Point {
    point_sum(components[r.0 as int].0@[r.1 as int], placements[r.0 as int])
}

/// The fixed origins that `layout` assigns to the first four components.
pub open spec fn fixed_placements() -> Seq<Placement> {
    seq![(5i32, 5i32), (12i32, 11i32), (22i32, 21i32), (22i32, 8i32)]
}

/// Adds two points coordinate-wise.
pub fn point_add(a: Point, d: Point) -> (r: Point)
    requires
        sum_fits(a, d),
    ensures
        r == point_sum(a, d),
        r.0 == a.0 + d.0,
        r.1 == a.1 + d.1,
{
    (a.0 + d.0, a.1 + d.1)
}

/// Resolves a terminal reference to its absolute grid position.
pub fn resolve_terminal(components: &Vec<Component>, placements: &[Placement], r: Destination) -> (p: Point)
    requires
        resolvable(components@, placements@, r),
    ensures
        p == terminal_at(components@, placements@, r),
{
    point_add(components[r.0].0[r.1], placements[r.0])
}

/// Places the components at fixed origins and joins each connection's two
/// terminals by a straight two-point route.
///
/// Every connection must reference one of the four placed components.
#[verifier::loop_isolation(false)]
pub fn layout(circuit: &Circuit) -> (r: Option<Layout>)
    requires
        forall|i: int|
            0 <= i < circuit.1@.len() ==> {
                &&& resolvable(circuit.0@, fixed_placements(), #[trigger] circuit.1@[i].0)
                &&& resolvable(circuit.0@, fixed_placements(), circuit.1@[i].1)
            },
    ensures
        r is Some,
        (r->0).0@ == fixed_placements(),
        (r->0).1@.len() == circuit.1@.len(),
        forall|i: int|
            0 <= i < circuit.1@.len() ==> #[trigger] (r->0).1@[i]@ == seq![
                terminal_at(circuit.0@, fixed_placements(), circuit.1@[i].0),
                terminal_at(circuit.0@, fixed_placements(), circuit.1@[i].1),
            ],
{
    let placements: Vec<Placement> = vec![(5, 5), (12, 11), (22, 21), (22, 8)];
    assert(placements@ =~= fixed_placements());
    let mut routes: Vec<Route> = Vec::new();
    for i in 0..circuit.1.len()
        invariant
            placements@ == fixed_placements(),
            routes@.len() == i,
            forall|k: int|
                0 <= k < i ==> #[trigger] routes@[k]@ == seq![
                    terminal_at(circuit.0@, placements@, circuit.1@[k].0),
                    terminal_at(circuit.0@, placements@, circuit.1@[k].1),
                ],
    {
        let (src, dst) = circuit.1[i];
        let a = resolve_terminal(&circuit.0, placements.as_slice(), src);
        let b = resolve_terminal(&circuit.0, placements.as_slice(), dst);
        let route: Route = vec![a, b];
        assert(route@ =~= seq![a, b]);
        routes.push(route);
    }
    Some((placements, routes))
}

} // verus!
