//! Walkers, the shared board they claim cells on, and the game that steps
//! them together over it.
use crate::routes::{
    consistent, covered, lemma_corners_involutive, lemma_extend, lemma_filter_origins, lemma_permute, lemma_seed, moves,
    separated,
};
use crate::{point_add, point_sum, resolvable, resolve_terminal, terminal_at, Circuit, Placement, Point, Route};
use vstd::prelude::*;

verus! {

broadcast use vstd::seq_lib::lemma_seq_contains_after_push;

/// One of the eight compass moves on the grid.
#[derive(Debug, Copy, Clone, PartialEq, Eq, Structural)]
pub enum Direction {
    E,
    NE,
    N,
    NW,
    W,
    SW,
    S,
    SE,
}

/// A ranking of directions, most preferred first.
pub type DirectionPrefs = [Direction; 8];

impl Direction {
    /// The unit or diagonal offset of this direction.
    pub open spec fn delta(self) -> Point {
        match self {
            Direction::E => (1, 0),
            Direction::NE => (1, 1),
            Direction::N => (0, 1),
            Direction::NW => (-1i32, 1i32),
            Direction::W => (-1i32, 0i32),
            Direction::SW => (-1i32, -1i32),
            Direction::S => (0i32, -1i32),
            Direction::SE => (1i32, -1i32),
        }
    }

    /// Whether the move changes both coordinates.
    pub open spec fn is_diagonal(self) -> bool {
        self.delta().0 != 0 && self.delta().1 != 0
    }

    pub fn vector(&self) -> (r: Point)
        ensures
            r == self.delta(),
    {
        match self {
            Direction::E => (1, 0),
            Direction::NE => (1, 1),
            Direction::N => (0, 1),
            Direction::NW => (-1, 1),
            Direction::W => (-1, 0),
            Direction::SW => (-1, -1),
            Direction::S => (0, -1),
            Direction::SE => (1, -1),
        }
    }

    pub fn diagonal(&self) -> (r: bool)
        ensures
            r == self.is_diagonal(),
    {
        match self {
            Direction::N | Direction::S | Direction::E | Direction::W => false,
            _ => true,
        }
    }
}

/// A point from which a move in any direction stays representable.
pub open spec fn interior(p: Point) -> bool {
    &&& i32::MIN < p.0 < i32::MAX
    &&& i32::MIN < p.1 < i32::MAX
}

/// The cell reached from `p` by moving in direction `d`.
pub open spec fn neighbor(p: Point, d: Direction) -> Point {
    point_sum(p, d.delta())
}

/// The other two corners of the unit square crossed by the diagonal `a`–`b`.
pub open spec fn corners(a: Point, b: Point) -> (Point, Point) {
    ((a.0, b.1), (b.0, a.1))
}

/// Whether `a` to `b` is a single diagonal step.
pub open spec fn is_diagonal_step(a: Point, b: Point) -> bool {
    &&& (b.0 - a.0 == 1 || b.0 - a.0 == -1)
    &&& (b.1 - a.1 == 1 || b.1 - a.1 == -1)
}

/// Whether a ranking names every direction.
pub open spec fn complete_prefs(prefs: DirectionPrefs) -> bool {
    forall|d: Direction| #[trigger] prefs@.contains(d)
}

/// A wire in progress: the cells visited so far and the cell to reach.
pub struct Walker {
    pub dest: Point,
    pub history: Vec<Point>,
}

impl Walker {
    /// A walker always stands somewhere.
    pub open spec fn wf(&self) -> bool {
        self.history@.len() > 0
    }

    /// The cell the walker stands on: the last one of its history.
    pub open spec fn current(&self) -> Point {
        self.history@.last()
    }

    pub open spec fn is_finished(&self) -> bool {
        self.current() == self.dest
    }

    pub fn new(position: Point, dest: Point) -> (w: Walker)
        ensures
            w.history@ == seq![position],
            w.dest == dest,
    {
        let history: Vec<Point> = vec![position];
        assert(history@ =~= seq![position]);
        Walker { history, dest }
    }

    pub fn position(&self) -> (p: Point)
        requires
            self.wf(),
        ensures
            p == self.current(),
    {
        self.history[self.history.len() - 1]
    }

    pub fn finished(&self) -> (r: bool)
        requires
            self.wf(),
        ensures
            r == self.is_finished(),
    {
        let p = self.position();
        p.0 == self.dest.0 && p.1 == self.dest.1
    }

    pub fn route(self) -> (r: Route)
        ensures
            r@ == self.history@,
    {
        self.history
    }
}

/// The shared occupancy ledger: claimed cells, and the diagonals that a
/// later diagonal move may not take because it would cross an earlier one.
pub struct Board {
    tiles: Vec<Point>,
    diagonals: Vec<(Point, Point)>,
}

impl Board {
    /// The claimed cells.
    pub closed spec fn cells(&self) -> Set<Point> {
        Set::new(|p: Point| self.tiles@.contains(p))
    }

    /// The diagonal moves that are forbidden because they would cross one
    /// already taken.
    pub closed spec fn crossings(&self) -> Set<(Point, Point)> {
        Set::new(|e: (Point, Point)| self.diagonals@.contains(e))
    }

    /// Whether a move from `src` in direction `d` may be claimed.
    pub open spec fn claimable(&self, src: Point, d: Direction) -> bool {
        &&& !self.cells().contains(neighbor(src, d))
        &&& d.is_diagonal() ==> !self.crossings().contains((src, neighbor(src, d)))
    }

    /// The forbidden diagonals once the move from `src` in direction `d` is
    /// taken: for a diagonal move, the crossing diagonal in both orientations.
    pub open spec fn crossings_after(&self, src: Point, d: Direction) -> Set<(Point, Point)> {
        if d.is_diagonal() {
            let c = corners(src, neighbor(src, d));
            self.crossings().insert(c).insert((c.1, c.0))
        } else {
            self.crossings()
        }
    }

    pub fn new() -> (b: Board)
        ensures
            b.cells() == Set::<Point>::empty(),
            b.crossings() == Set::<(Point, Point)>::empty(),
    {
        let b = Board { tiles: Vec::new(), diagonals: Vec::new() };
        assert(b.cells() =~= Set::<Point>::empty());
        assert(b.crossings() =~= Set::<(Point, Point)>::empty());
        b
    }

    /// Whether cell `p` is claimed.
    pub fn is_claimed(&self, p: Point) -> (r: bool)
        ensures
            r == self.cells().contains(p),
    {
        let mut i: usize = 0;
        while i < self.tiles.len()
            invariant
                i <= self.tiles.len(),
                forall|k: int| 0 <= k < i ==> self.tiles@[k] != p,
            decreases self.tiles.len() - i,
        {
            let t = self.tiles[i];
            if t.0 == p.0 && t.1 == p.1 {
                return true;
            }
            i += 1;
        }
        false
    }

    fn has_crossing(&self, e: (Point, Point)) -> (r: bool)
        ensures
            r == self.crossings().contains(e),
    {
        let mut i: usize = 0;
        while i < self.diagonals.len()
            invariant
                i <= self.diagonals.len(),
                forall|k: int| 0 <= k < i ==> self.diagonals@[k] != e,
            decreases self.diagonals.len() - i,
        {
            let (a, b) = self.diagonals[i];
            if a.0 == e.0.0 && a.1 == e.0.1 && b.0 == e.1.0 && b.1 == e.1.1 {
                return true;
            }
            i += 1;
        }
        false
    }

    /// Claims the cell next to `src` in `direction`, and for a diagonal move
    /// the crossing diagonal; refuses, changing nothing, when the cell is
    /// taken or the diagonal would cross one already taken.
    pub fn try_insert(&mut self, src: Point, direction: Direction) -> (r: bool)
        requires
            interior(src),
        ensures
            r == old(self).claimable(src, direction),
            r ==> final(self).cells() == old(self).cells().insert(neighbor(src, direction)),
            r ==> final(self).crossings() == old(self).crossings_after(src, direction),
            !r ==> *final(self) == *old(self),
    {
        let dest = point_add(src, direction.vector());
        if self.is_claimed(dest) {
            return false;
        }
        if direction.diagonal() {
            if self.has_crossing((src, dest)) {
                return false;
            } else {
                let first: Point = (src.0, dest.1);
                let second: Point = (dest.0, src.1);
                self.diagonals.push((first, second));
                self.diagonals.push((second, first));
            }
        }
        self.tiles.push(dest);
        assert(self.cells() =~= old(self).cells().insert(dest));
        assert(self.crossings() =~= old(self).crossings_after(src, direction));
        true
    }

    /// Claims `src` whether or not it was free; tells whether it was.
    pub fn init_point(&mut self, src: Point) -> (r: bool)
        ensures
            r == !old(self).cells().contains(src),
            final(self).cells() == old(self).cells().insert(src),
            final(self).crossings() == old(self).crossings(),
    {
        if self.is_claimed(src) {
            assert(self.cells() =~= old(self).cells().insert(src));
            false
        } else {
            self.tiles.push(src);
            assert(self.cells() =~= old(self).cells().insert(src));
            true
        }
    }
}

fn copy_route(r: &Vec<Point>) -> (c: Route)
    ensures
        c@ == r@,
{
    let mut c: Route = Vec::new();
    for i in 0..r.len()
        invariant
            c@ == r@.take(i as int),
    {
        c.push(r[i]);
        assert(c@ =~= r@.take(i + 1));
    }
    assert(r@.take(r@.len() as int) =~= r@);
    c
}

/// The cell sequences of a list of routes.
pub open spec fn route_views(rs: Seq<Route>) -> Seq<Seq<Point>> {
    rs.map_values(|r: Route| r@)
}

/// The histories of a list of walkers.
pub open spec fn histories(ws: Seq<Walker>) -> Seq<Seq<Point>> {
    ws.map_values(|w: Walker| w.history@)
}

pub open spec fn is_active() -> spec_fn(Walker) -> bool {
    |w: Walker| !w.is_finished()
}

pub open spec fn has_arrived() -> spec_fn(Walker) -> bool {
    |w: Walker| w.is_finished()
}

/// The walkers that have not reached their destinations, in order.
pub open spec fn still_active(ws: Seq<Walker>) -> Seq<Walker> {
    ws.filter(is_active())
}

/// The walkers that have reached their destinations, in order.
pub open spec fn arrived(ws: Seq<Walker>) -> Seq<Walker> {
    ws.filter(has_arrived())
}

/// `after` is `before` moved by one cell in some direction.
pub open spec fn advanced_from(before: Walker, after: Walker) -> bool {
    &&& after.dest == before.dest
    &&& exists|d: Direction| after.history@ == before.history@.push(#[trigger] neighbor(before.current(), d))
}

/// One step of the walker: one that has arrived stays put, any other moves
/// by one cell.
pub open spec fn stepped(before: Walker, after: Walker) -> bool {
    if before.is_finished() {
        after == before
    } else {
        advanced_from(before, after)
    }
}

/// `k` is the first position of `prefs` whose direction can be claimed from
/// `src` on `board`.
pub open spec fn first_claimable(board: Board, src: Point, prefs: Seq<Direction>, k: int) -> bool {
    &&& 0 <= k < prefs.len()
    &&& board.claimable(src, prefs[k])
    &&& forall|k2: int| 0 <= k2 < k ==> !board.claimable(src, #[trigger] prefs[k2])
}

/// The outcome of one synchronized step.
#[derive(Debug, Copy, Clone, PartialEq, Eq, Structural)]
pub enum Status {
    Running,
    /// The walker at this index became stuck
    Stuck(usize),
    Finished,
}

/// A routing run: the shared board, the walkers still under way, and the
/// routes of those that arrived, in arrival order.
pub struct Game {
    pub board: Board,
    pub walkers: Vec<Walker>,
    pub routes: Vec<Route>,
}

/// Whether the connections' source terminals are pairwise distinct cells.
pub open spec fn distinct_sources(circuit: Circuit, placements: Seq<Placement>) -> bool {
    forall|i: int, j: int|
        0 <= i < circuit.1@.len() && 0 <= j < circuit.1@.len() && i != j ==> terminal_at(
            circuit.0@,
            placements,
            #[trigger] circuit.1@[i].0,
        ) != terminal_at(circuit.0@, placements, #[trigger] circuit.1@[j].0)
}

/// Splitting the walkers into those that arrived and those still under way,
/// and retiring the former, only reorders the routes.
proof fn lemma_retire(rv: Seq<Seq<Point>>, ws: Seq<Walker>, board: Board)
    requires
        forall|i: int| 0 <= i < ws.len() ==> (#[trigger] ws[i]).wf(),
    ensures
        forall|i: int| 0 <= i < still_active(ws).len() ==> (#[trigger] still_active(ws)[i]).wf(),
        consistent(rv + histories(ws), board) ==> consistent(
            rv + histories(arrived(ws)) + histories(still_active(ws)),
            board,
        ),
        separated(rv + histories(ws)) ==> separated(rv + histories(arrived(ws)) + histories(still_active(ws))),
{
    let fi = lemma_filter_origins(ws, has_arrived());
    let ui = lemma_filter_origins(ws, is_active());
    let rs = rv + histories(ws);
    let rs2 = rv + histories(arrived(ws)) + histories(still_active(ws));
    let r = rv.len() as int;
    let a = arrived(ws).len() as int;
    let f = Seq::new(
        rs2.len(),
        |j: int|
            if j < r {
                j
            } else if j < r + a {
                r + fi[j - r]
            } else {
                r + ui[j - r - a]
            },
    );
    assert forall|i: int| 0 <= i < still_active(ws).len() implies (#[trigger] still_active(ws)[i]).wf() by {
        assert(ws[ui[i]].wf());
    }
    assert forall|j: int| 0 <= j < rs2.len() implies 0 <= #[trigger] f[j] < rs.len() && rs2[j] == rs[f[j]] by {
        if j >= r + a {
            assert(rs2[j] == still_active(ws)[j - r - a].history@);
        } else if j >= r {
            assert(rs2[j] == arrived(ws)[j - r].history@);
        }
    }
    assert forall|j1: int, j2: int|
        0 <= j1 < rs2.len() && 0 <= j2 < rs2.len() && j1 != j2 implies #[trigger] f[j1] != #[trigger] f[j2] by {
        if j1 >= r + a && j2 >= r && j2 < r + a {
            assert(!ws[ui[j1 - r - a]].is_finished());
            assert(ws[fi[j2 - r]].is_finished());
        } else if j2 >= r + a && j1 >= r && j1 < r + a {
            assert(!ws[ui[j2 - r - a]].is_finished());
            assert(ws[fi[j1 - r]].is_finished());
        } else if j1 >= r + a && j2 >= r + a {
            if j1 < j2 {
                assert(ui[j1 - r - a] < ui[j2 - r - a]);
            } else {
                assert(ui[j2 - r - a] < ui[j1 - r - a]);
            }
        } else if j1 >= r && j2 >= r {
            if j1 < j2 {
                assert(fi[j1 - r] < fi[j2 - r]);
            } else {
                assert(fi[j2 - r] < fi[j1 - r]);
            }
        }
    }
    let g = Seq::new(
        rs.len(),
        |i: int|
            if i < r {
                i
            } else if ws[i - r].is_finished() {
                r + choose|t: int| 0 <= t < fi.len() && #[trigger] fi[t] == i - r
            } else {
                r + a + choose|t: int| 0 <= t < ui.len() && #[trigger] ui[t] == i - r
            },
    );
    assert forall|i: int| 0 <= i < rs.len() implies 0 <= #[trigger] g[i] < rs2.len() && f[g[i]] == i by {
        if i >= r {
            if ws[i - r].is_finished() {
                assert(has_arrived()(ws[i - r]));
            } else {
                assert(is_active()(ws[i - r]));
            }
        }
    }
    lemma_permute(rs, rs2, f, g, board);
}

proof fn lemma_push_route_views(rs: Seq<Route>, r: Route)
    ensures
        route_views(rs.push(r)) == route_views(rs).push(r@),
{
    assert(route_views(rs.push(r)) =~= route_views(rs).push(r@));
}

proof fn lemma_push_views(ws: Seq<Walker>, w: Walker)
    ensures
        histories(ws.push(w)) == histories(ws).push(w.history@),
{
    assert(histories(ws.push(w)) =~= histories(ws).push(w.history@));
}

impl Game {
    /// Every route: the retired ones in retirement order, then the active
    /// walkers' histories in walker order.
    pub open spec fn all_routes(&self) -> Seq<Seq<Point>> {
        route_views(self.routes@) + histories(self.walkers@)
    }

    /// Every walker stands somewhere, and the board holds exactly the cells
    /// of all routes and guards all their diagonal steps.
    pub open spec fn wf(&self) -> bool {
        &&& forall|i: int| 0 <= i < self.walkers@.len() ==> (#[trigger] self.walkers@[i]).wf()
        &&& consistent(self.all_routes(), self.board)
    }

    /// Every walker can move in any direction without leaving the
    /// representable grid.
    pub open spec fn all_interior(&self) -> bool {
        forall|i: int| 0 <= i < self.walkers@.len() ==> interior(#[trigger] self.walkers@[i].current())
    }

    /// Seeds one walker per connection at its resolved source terminal,
    /// heading for its resolved destination terminal.
    #[verifier::loop_isolation(false)]
    pub fn new(circuit: &Circuit, placements: &[Placement]) -> (g: Game)
        requires
            forall|i: int|
                0 <= i < circuit.1@.len() ==> {
                    &&& resolvable(circuit.0@, placements@, #[trigger] circuit.1@[i].0)
                    &&& resolvable(circuit.0@, placements@, circuit.1@[i].1)
                },
        ensures
            g.wf(),
            g.routes@.len() == 0,
            g.walkers@.len() == circuit.1@.len(),
            forall|i: int|
                0 <= i < circuit.1@.len() ==> {
                    &&& (#[trigger] g.walkers@[i]).history@ == seq![terminal_at(circuit.0@, placements@, circuit.1@[i].0)]
                    &&& g.walkers@[i].dest == terminal_at(circuit.0@, placements@, circuit.1@[i].1)
                },
            g.board.crossings() == Set::<(Point, Point)>::empty(),
            distinct_sources(*circuit, placements@) ==> separated(g.all_routes()),
    {
        let mut board = Board::new();
        let mut walkers: Vec<Walker> = Vec::new();
        let routes: Vec<Route> = Vec::new();
        proof {
            assert(covered(route_views(routes@) + histories(walkers@)) =~= Set::<Point>::empty());
            assert(moves(route_views(routes@) + histories(walkers@)) =~= Set::<(Point, Point)>::empty());
        }
        let n = circuit.1.len();
        for i in 0..n
            invariant
                n == circuit.1@.len(),
                routes@.len() == 0,
                walkers@.len() == i,
                forall|k: int|
                    0 <= k < i ==> {
                        &&& (#[trigger] walkers@[k]).history@ == seq![terminal_at(circuit.0@, placements@, circuit.1@[k].0)]
                        &&& walkers@[k].dest == terminal_at(circuit.0@, placements@, circuit.1@[k].1)
                    },
                board.crossings() == Set::<(Point, Point)>::empty(),
                consistent(route_views(routes@) + histories(walkers@), board),
                distinct_sources(*circuit, placements@) ==> separated(route_views(routes@) + histories(walkers@)),
        {
            let (src_ref, dst_ref) = circuit.1[i];
            let src = resolve_terminal(&circuit.0, placements, src_ref);
            let dst = resolve_terminal(&circuit.0, placements, dst_ref);
            let ghost before = board;
            let ghost rs = route_views(routes@) + histories(walkers@);
            board.init_point(src);
            let w = Walker::new(src, dst);
            proof {
                lemma_push_views(walkers@, w);
                assert(route_views(routes@) + histories(walkers@.push(w)) =~= rs.push(seq![src]));
                lemma_seed(rs, src, before, board);
                if distinct_sources(*circuit, placements@) {
                    assert forall|x: int| 0 <= x < rs.len() implies !(#[trigger] rs[x]).contains(src) by {
                        assert(rs[x] == walkers@[x].history@);
                        assert(circuit.1@[x].0 != circuit.1@[i as int].0 || x == i);
                    }
                }
            }
            walkers.push(w);
        }
        Game { board, walkers, routes }
    }

    /// Moves walker `idx` to its neighbour in the first direction of `prefs`
    /// that the board grants; changes nothing when it grants none.
    pub fn advance(&mut self, idx: usize, prefs: &DirectionPrefs) -> (r: bool)
        requires
            old(self).wf(),
            idx < old(self).walkers@.len(),
            interior(old(self).walkers@[idx as int].current()),
        ensures
            final(self).wf(),
            final(self).routes@ == old(self).routes@,
            final(self).walkers@.len() == old(self).walkers@.len(),
            r == exists|k: int|
                0 <= k < 8 && old(self).board.claimable(old(self).walkers@[idx as int].current(), #[trigger] prefs@[k]),
            r ==> exists|k: int|
                #[trigger] first_claimable(old(self).board, old(self).walkers@[idx as int].current(), prefs@, k) && {
                    let q = neighbor(old(self).walkers@[idx as int].current(), prefs@[k]);
                    &&& final(self).walkers@[idx as int].history@ == old(self).walkers@[idx as int].history@.push(q)
                    &&& final(self).board.cells() == old(self).board.cells().insert(q)
                    &&& final(self).board.crossings() == old(self).board.crossings_after(
                        old(self).walkers@[idx as int].current(),
                        prefs@[k],
                    )
                },
            r ==> final(self).walkers@[idx as int].dest == old(self).walkers@[idx as int].dest,
            r ==> forall|j: int|
                0 <= j < old(self).walkers@.len() && j != idx ==> #[trigger] final(self).walkers@[j] == old(self).walkers@[j],
            !r ==> *final(self) == *old(self),
            separated(old(self).all_routes()) ==> separated(final(self).all_routes()),
    {
        let position = self.walkers[idx].position();
        let ghost g0 = *self;
        let mut k: usize = 0;
        while k < 8
            invariant
                k <= 8,
                *self == g0,
                g0 == *old(self),
                g0.wf(),
                idx < g0.walkers@.len(),
                position == g0.walkers@[idx as int].current(),
                interior(position),
                forall|k2: int| 0 <= k2 < k ==> !g0.board.claimable(position, #[trigger] prefs@[k2]),
            decreases 8 - k,
        {
            let d = prefs[k];
            if self.board.try_insert(position, d) {
                let next = point_add(position, d.vector());
                self.walkers[idx].history.push(next);
                proof {
                    let rs = g0.all_routes();
                    let j = g0.routes@.len() + idx;
                    assert(rs[j] == g0.walkers@[idx as int].history@);
                    assert(g0.walkers@[idx as int].wf());
                    lemma_extend(rs, j, d, g0.board, self.board);
                    assert(self.all_routes() =~= rs.update(j, rs[j].push(next)));
                    assert(first_claimable(g0.board, position, prefs@, k as int));
                    assert(forall|i: int|
                        0 <= i < self.walkers@.len() && i != idx ==> self.walkers@[i] == g0.walkers@[i]);
                    assert forall|i: int| 0 <= i < self.walkers@.len() implies (#[trigger] self.walkers@[i]).wf() by {
                        if i != idx {
                            assert(g0.walkers@[i].wf());
                        }
                    }
                }
                return true;
            }
            k += 1;
        }
        false
    }

    /// Moves every walker that has arrived to the routes, in walker order,
    /// and keeps the others in order.
    fn retire(&mut self)
        requires
            old(self).wf(),
        ensures
            final(self).wf(),
            final(self).board == old(self).board,
            final(self).walkers@ == still_active(old(self).walkers@),
            route_views(final(self).routes@) == route_views(old(self).routes@) + histories(arrived(old(self).walkers@)),
            separated(old(self).all_routes()) ==> separated(final(self).all_routes()),
    {
        let ghost g0 = *self;
        let mut pending: Vec<Walker> = Vec::new();
        std::mem::swap(&mut pending, &mut self.walkers);
        let n = pending.len();
        let mut i: usize = 0;
        proof {
            assert(g0.walkers@.take(0) =~= Seq::<Walker>::empty());
            assert(still_active(Seq::<Walker>::empty()) =~= Seq::<Walker>::empty()) by {
                reveal(Seq::filter);
            }
            assert(arrived(Seq::<Walker>::empty()) =~= Seq::<Walker>::empty()) by {
                reveal(Seq::filter);
            }
            assert(histories(Seq::<Walker>::empty()) =~= Seq::<Seq<Point>>::empty());
            assert(route_views(g0.routes@) + Seq::<Seq<Point>>::empty() =~= route_views(g0.routes@));
            assert(pending@ =~= g0.walkers@.subrange(0, n as int));
        }
        while i < n
            invariant
                n == g0.walkers@.len(),
                g0.wf(),
                i <= n,
                pending@ == g0.walkers@.subrange(i as int, n as int),
                self.board == g0.board,
                self.walkers@ == still_active(g0.walkers@.take(i as int)),
                route_views(self.routes@) == route_views(g0.routes@) + histories(arrived(g0.walkers@.take(i as int))),
            decreases n - i,
        {
            let w = pending.remove(0);
            let ghost ws = g0.walkers@;
            proof {
                assert(w == ws[i as int]);
                assert(ws.take(i + 1) =~= ws.take(i as int).push(w));
                ws.take(i as int).lemma_filter_push(w, is_active());
                ws.take(i as int).lemma_filter_push(w, has_arrived());
                assert(pending@ =~= ws.subrange(i + 1, n as int));
                assert(w.wf()) by {
                    assert(g0.walkers@[i as int].wf());
                }
            }
            if w.finished() {
                proof {
                    lemma_push_views(arrived(ws.take(i as int)), w);
                    lemma_push_route_views(self.routes@, w.history);
                    assert(route_views(g0.routes@) + histories(arrived(ws.take(i as int))).push(w.history@)
                        =~= (route_views(g0.routes@) + histories(arrived(ws.take(i as int)))).push(w.history@));
                }
                self.routes.push(w.route());
            } else {
                self.walkers.push(w);
            }
            i += 1;
        }
        proof {
            assert(g0.walkers@.take(n as int) =~= g0.walkers@);
            lemma_retire(route_views(g0.routes@), g0.walkers@, g0.board);
            assert(self.all_routes() =~= route_views(g0.routes@) + histories(arrived(g0.walkers@)) + histories(
                still_active(g0.walkers@),
            ));
        }
    }

    /// Advances every walker that has not arrived by one cell, in walker
    /// order, taking for each the first direction of the evaluator's ranking
    /// that the board grants; then retires the walkers that arrived. Stops at the first walker that can
    /// move nowhere and reports its index, leaving it and those after it
    /// where they were.
    pub fn step(&mut self, evaluator: impl Fn(Point, Point, &Board) -> DirectionPrefs) -> (r: Status)
        requires
            old(self).wf(),
            old(self).all_interior(),
            forall|p: Point, q: Point, b: &Board| #[trigger] evaluator.requires((p, q, b)),
            forall|p: Point, q: Point, b: &Board, prefs: DirectionPrefs|
                #[trigger] evaluator.ensures((p, q, b), prefs) ==> complete_prefs(prefs),
        ensures
            final(self).wf(),
            separated(old(self).all_routes()) ==> separated(final(self).all_routes()),
            final(self).routes@.len() >= old(self).routes@.len(),
            forall|i: int| 0 <= i < old(self).routes@.len() ==> #[trigger] final(self).routes@[i]@ == old(self).routes@[i]@,
            r is Finished <==> final(self).walkers@.len() == 0,
            r is Stuck ==> {
                let i = r->0 as int;
                &&& 0 <= i < old(self).walkers@.len()
                &&& final(self).routes@ == old(self).routes@
                &&& final(self).walkers@.len() == old(self).walkers@.len()
                &&& forall|j: int| 0 <= j < i ==> stepped(old(self).walkers@[j], #[trigger] final(self).walkers@[j])
                &&& forall|j: int|
                    i <= j < old(self).walkers@.len() ==> #[trigger] final(self).walkers@[j] == old(self).walkers@[j]
                &&& forall|d: Direction| !#[trigger] final(self).board.claimable(final(self).walkers@[i].current(), d)
            },
            !(r is Stuck) ==> exists|adv: Seq<Walker>| {
                &&& adv.len() == old(self).walkers@.len()
                &&& forall|j: int| 0 <= j < adv.len() ==> stepped(old(self).walkers@[j], #[trigger] adv[j])
                &&& final(self).walkers@ == #[trigger] still_active(adv)
                &&& route_views(final(self).routes@) == route_views(old(self).routes@) + histories(arrived(adv))
            },
    {
        let n = self.walkers.len();
        let mut idx: usize = 0;
        while idx < n
            invariant
                self.wf(),
                n == self.walkers@.len(),
                n == old(self).walkers@.len(),
                idx <= n,
                self.routes@ == old(self).routes@,
                old(self).all_interior(),
                forall|j: int| 0 <= j < idx ==> stepped(old(self).walkers@[j], #[trigger] self.walkers@[j]),
                forall|j: int| idx <= j < n ==> #[trigger] self.walkers@[j] == old(self).walkers@[j],
                separated(old(self).all_routes()) ==> separated(self.all_routes()),
                forall|p: Point, q: Point, b: &Board| #[trigger] evaluator.requires((p, q, b)),
                forall|p: Point, q: Point, b: &Board, prefs: DirectionPrefs|
                    #[trigger] evaluator.ensures((p, q, b), prefs) ==> complete_prefs(prefs),
            decreases n - idx,
        {
            if !self.walkers[idx].finished() {
                let position = self.walkers[idx].position();
                let dest = self.walkers[idx].dest;
                let prefs = evaluator(position, dest, &self.board);
                proof {
                    assert(self.walkers@[idx as int] == old(self).walkers@[idx as int]);
                    assert(interior(old(self).walkers@[idx as int].current()));
                }
                let ghost before = *self;
                if !self.advance(idx, &prefs) {
                    proof {
                        assert forall|d: Direction| !#[trigger] self.board.claimable(position, d) by {
                            assert(prefs@.contains(d));
                            let k = choose|k: int| 0 <= k < prefs@.len() && prefs@[k] == d;
                            assert(!before.board.claimable(position, prefs@[k]));
                        }
                    }
                    return Status::Stuck(idx);
                }
                proof {
                    let k = choose|k: int|
                        #[trigger] first_claimable(before.board, position, prefs@, k) && {
                            let q = neighbor(position, prefs@[k]);
                            &&& self.walkers@[idx as int].history@ == before.walkers@[idx as int].history@.push(q)
                            &&& self.board.cells() == before.board.cells().insert(q)
                            &&& self.board.crossings() == before.board.crossings_after(position, prefs@[k])
                        };
                    assert(self.walkers@[idx as int].history@ == old(self).walkers@[idx as int].history@.push(
                        neighbor(old(self).walkers@[idx as int].current(), prefs@[k]),
                    ));
                    assert(advanced_from(old(self).walkers@[idx as int], self.walkers@[idx as int]));
                    assert forall|j: int| 0 <= j < idx + 1 implies stepped(
                        old(self).walkers@[j],
                        #[trigger] self.walkers@[j],
                    ) by {
                        if j < idx {
                            assert(self.walkers@[j] == before.walkers@[j]);
                        }
                    }
                }
            }
            idx += 1;
        }
        self.retire();
        proof {
            assert forall|i: int| 0 <= i < old(self).routes@.len() implies #[trigger] self.routes@[i]@ == old(self).routes@[i]@ by {
                assert(route_views(self.routes@)[i] == self.routes@[i]@);
                assert(route_views(old(self).routes@)[i] == old(self).routes@[i]@);
            }
        }
        if self.walkers.len() == 0 {
            Status::Finished
        } else {
            Status::Running
        }
    }

    /// Every route so far: the retired ones in retirement order, then a copy
    /// of each active walker's history in walker order.
    pub fn unfinished_routes(&self) -> (r: Vec<Route>)
        ensures
            route_views(r@) == self.all_routes(),
    {
        let mut routes: Vec<Route> = Vec::new();
        for i in 0..self.routes.len()
            invariant
                route_views(routes@) == route_views(self.routes@.take(i as int)),
        {
            let c = copy_route(&self.routes[i]);
            proof {
                lemma_push_route_views(routes@, c);
                assert(route_views(self.routes@.take(i + 1)) =~= route_views(self.routes@.take(i as int)).push(c@));
            }
            routes.push(c);
        }
        proof {
            assert(self.routes@.take(self.routes@.len() as int) =~= self.routes@);
            assert(histories(self.walkers@.take(0)) =~= Seq::<Seq<Point>>::empty());
            assert(route_views(routes@) =~= route_views(self.routes@) + histories(self.walkers@.take(0)));
        }
        for i in 0..self.walkers.len()
            invariant
                route_views(routes@) == route_views(self.routes@) + histories(self.walkers@.take(i as int)),
        {
            let c = copy_route(&self.walkers[i].history);
            proof {
                lemma_push_route_views(routes@, c);
                assert(histories(self.walkers@.take(i + 1)) =~= histories(self.walkers@.take(i as int)).push(c@));
                assert(route_views(routes@).push(c@) =~= route_views(self.routes@) + histories(
                    self.walkers@.take(i + 1),
                ));
            }
            routes.push(c);
        }
        proof {
            assert(self.walkers@.take(self.walkers@.len() as int) =~= self.walkers@);
        }
        routes
    }

    /// Whether every walker can take a step without leaving the
    /// representable grid.
    pub fn can_step(&self) -> (r: bool)
        requires
            self.wf(),
        ensures
            r == self.all_interior(),
    {
        let mut i: usize = 0;
        while i < self.walkers.len()
            invariant
                self.wf(),
                i <= self.walkers@.len(),
                forall|k: int| 0 <= k < i ==> interior(#[trigger] self.walkers@[k].current()),
            decreases self.walkers.len() - i,
        {
            let p = self.walkers[i].position();
            if p.0 == i32::MIN || p.0 == i32::MAX || p.1 == i32::MIN || p.1 == i32::MAX {
                assert(!interior(self.walkers@[i as int].current()));
                return false;
            }
            i += 1;
        }
        true
    }
}

/// The board claims exactly the cells on the routes: those of the retired
/// routes, and those of the active walkers' histories, starting cells
/// included.
pub proof fn lemma_occupancy(g: Game)
    requires
        g.wf(),
    ensures
        g.board.cells() == covered(g.all_routes()),
        forall|p: Point| #[trigger] g.board.cells().contains(p) <==> exists|i: int|
            0 <= i < g.all_routes().len() && #[trigger] g.all_routes()[i].contains(p),
{
}

/// In a separated run no cell lies on the routes of two different walkers,
/// retired or active.
pub proof fn lemma_no_double_occupancy(g: Game, i: int, j: int, p: Point)
    requires
        g.wf(),
        separated(g.all_routes()),
        0 <= i < g.all_routes().len(),
        0 <= j < g.all_routes().len(),
        i != j,
    ensures
        !(g.all_routes()[i].contains(p) && g.all_routes()[j].contains(p)),
{
    let rs = g.all_routes();
    if rs[i].contains(p) && rs[j].contains(p) {
        let k = choose|k: int| 0 <= k < rs[i].len() && rs[i][k] == p;
        let l = choose|l: int| 0 <= l < rs[j].len() && rs[j][l] == p;
        assert(rs[i][k] == rs[j][l]);
    }
}

/// No diagonal step of any route crosses another diagonal step, of the same
/// walker or another, through the same unit square: the diagonal joining the
/// square's other two corners is taken in neither orientation.
pub proof fn lemma_no_diagonal_crossing(g: Game, a: Point, b: Point)
    requires
        g.wf(),
        moves(g.all_routes()).contains((a, b)),
        is_diagonal_step(a, b),
    ensures
        !moves(g.all_routes()).contains(corners(a, b)),
        !moves(g.all_routes()).contains((corners(a, b).1, corners(a, b).0)),
{
    let rs = g.all_routes();
    lemma_corners_involutive(a, b);
    let c = corners(a, b);
    assert(g.board.crossings().contains(c));
    assert(g.board.crossings().contains((c.1, c.0)));
    if moves(rs).contains(c) {
        assert(!g.board.crossings().contains(c));
    }
    if moves(rs).contains((c.1, c.0)) {
        assert(!g.board.crossings().contains((c.1, c.0)));
    }
}

/// Once no walker is active, the snapshot of all routes is exactly the
/// retired routes.
pub proof fn lemma_finished_snapshot(g: Game)
    requires
        g.walkers@.len() == 0,
    ensures
        g.all_routes() == route_views(g.routes@),
{
    assert(histories(g.walkers@) =~= Seq::<Seq<Point>>::empty());
    assert(g.all_routes() =~= route_views(g.routes@));
}

} // verus!
