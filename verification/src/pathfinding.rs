//! Grid pathfinding: A* over the unbounded 4-connected grid, with unit edge
//! cost and the Manhattan-distance heuristic, driven by a caller-supplied
//! walkability predicate.

use vstd::prelude::*;

use crate::bounding_box::BoundingBox;

verus! {

/// A coordinate in the search grid.
#[derive(Copy, Clone, Eq, PartialEq, Structural, Hash, Debug)]
pub struct Point {
    pub x: i32,
    pub y: i32,
}

/// Distance between two integers on the number line.
pub open spec fn dist(a: int, b: int) -> int {
    if a >= b {
        a - b
    } else {
        b - a
    }
}

/// Manhattan distance between two points.
pub open spec fn manhattan(a: Point, b: Point) -> int {
    dist(a.x as int, b.x as int) + dist(a.y as int, b.y as int)
}

/// Two points are adjacent when exactly one step apart along one axis.
pub open spec fn adjacent(a: Point, b: Point) -> bool {
    manhattan(a, b) == 1
}

impl Point {
    pub fn manhattan_distance(&self, other: &Point) -> (r: i32)
        requires
            -i32::MAX <= self.x - other.x <= i32::MAX,
            -i32::MAX <= self.y - other.y <= i32::MAX,
            manhattan(*self, *other) <= i32::MAX,
        ensures
            r == manhattan(*self, *other),
    {
        let dx = if self.x >= other.x {
            self.x - other.x
        } else {
            other.x - self.x
        };
        let dy = if self.y >= other.y {
            self.y - other.y
        } else {
            other.y - self.y
        };
        dx + dy
    }

    /// The four 4-directional neighbours (west, east, north, south). Diagonal
    /// movement is out of scope.
    pub fn neighbors(&self) -> (r: Vec<Point>)
        requires
            i32::MIN < self.x < i32::MAX,
            i32::MIN < self.y < i32::MAX,
        ensures
            r@.len() == 4,
            r@[0] == (Point { x: (self.x - 1) as i32, y: self.y }),
            r@[1] == (Point { x: (self.x + 1) as i32, y: self.y }),
            r@[2] == (Point { x: self.x, y: (self.y - 1) as i32 }),
            r@[3] == (Point { x: self.x, y: (self.y + 1) as i32 }),
            forall|i: int| 0 <= i < 4 ==> adjacent(*self, #[trigger] r@[i]),
    {
        let mut v: Vec<Point> = Vec::new();
        v.push(Point { x: self.x - 1, y: self.y });
        v.push(Point { x: self.x + 1, y: self.y });
        v.push(Point { x: self.x, y: self.y - 1 });
        v.push(Point { x: self.x, y: self.y + 1 });
        v
    }
}

/// A frontier entry: a point with the scores it was pushed with.
struct Node {
    point: Point,
    f_score: i32,
    g_score: i32,
}

/// What the search records per visited point: the best known cost from the
/// start, and the predecessor that cost was reached through (`None` only for
/// the start itself).
type Record = (i32, Option<Point>);

/// The mapping that a sequence of record insertions denotes; a later insertion
/// for the same point overwrites an earlier one.
spec fn records_map_of(entries: Seq<(Point, Record)>) -> Map<Point, Record>
    decreases entries.len(),
{
    if entries.len() == 0 {
        Map::empty()
    } else {
        records_map_of(entries.drop_last()).insert(entries.last().0, entries.last().1)
    }
}

/// Best-known g-scores and parent pointers of the points the search has
/// reached.
struct ScoreBook {
    entries: Vec<(Point, Record)>,
}

impl View for ScoreBook {
    type V = Map<Point, Record>;

    closed spec fn view(&self) -> Map<Point, Record> {
        records_map_of(self.entries@)
    }
}

impl ScoreBook {
    fn new() -> (r: Self)
        ensures
            r@ == Map::<Point, Record>::empty(),
    {
        ScoreBook { entries: Vec::new() }
    }

    fn set(&mut self, p: Point, g: i32, parent: Option<Point>)
        ensures
            final(self)@ == old(self)@.insert(p, (g, parent)),
    {
        self.entries.push((p, (g, parent)));
        proof {
            assert(self.entries@.drop_last() =~= old(self).entries@);
        }
    }

    fn lookup(&self, p: Point) -> (r: Option<Record>)
        ensures
            r == if self@.dom().contains(p) {
                Some(self@[p])
            } else {
                None::<Record>
            },
    {
        let mut i: usize = self.entries.len();
        proof {
            assert(self.entries@.take(i as int) =~= self.entries@);
        }
        while i > 0
            invariant
                i <= self.entries@.len(),
                records_map_of(self.entries@).dom().contains(p) == records_map_of(
                    self.entries@.take(i as int),
                ).dom().contains(p),
                records_map_of(self.entries@).dom().contains(p) ==> records_map_of(
                    self.entries@,
                )[p] == records_map_of(self.entries@.take(i as int))[p],
            decreases i,
        {
            let e = self.entries[i - 1];
            proof {
                assert(self.entries@.take(i as int).drop_last() =~= self.entries@.take(i - 1));
                assert(self.entries@.take(i as int).last() == e);
            }
            if e.0.x == p.x && e.0.y == p.y {
                return Some(e.1);
            }
            i = i - 1;
        }
        proof {
            assert(self.entries@.take(0) =~= Seq::<(Point, Record)>::empty());
        }
        None
    }
}

/// The structural invariant of the score book: the start is recorded at cost
/// zero with no predecessor; every other recorded point has a recorded,
/// adjacent predecessor of strictly smaller cost.
spec fn book_wf(m: Map<Point, Record>, start: Point) -> bool {
    &&& m.dom().contains(start)
    &&& m[start].0 == 0
    &&& m[start].1 is None
    &&& forall|p: Point| #[trigger] m.dom().contains(p) ==> m[p].0 >= 0
    &&& forall|p: Point| #[trigger] m.dom().contains(p) && p != start ==> m[p].1 is Some
    &&& forall|p: Point|
        #[trigger] m.dom().contains(p) ==> (m[p].1 matches Some(q) ==> m.dom().contains(q)
            && adjacent(q, p) && m[q].0 < m[p].0)
}

/// Along a chain of strictly increasing values, any earlier value is below
/// any later one.
proof fn lemma_strict_chain(vals: Seq<int>, i: int, j: int)
    requires
        forall|k: int| 0 < k < vals.len() ==> vals[k - 1] < #[trigger] vals[k],
        0 <= i < j < vals.len(),
    ensures
        vals[i] < vals[j],
    decreases j - i,
{
    if i + 1 < j {
        lemma_strict_chain(vals, i, j - 1);
    }
}

/// Both coordinates lie strictly inside the machine range, so all four
/// neighbours of the point exist.
pub open spec fn in_grid_interior(p: Point) -> bool {
    i32::MIN < p.x < i32::MAX && i32::MIN < p.y < i32::MAX
}

/// The predicate answers every point one way: any two outcomes it admits for
/// the same point agree.
pub open spec fn deterministic<F: Fn(Point) -> bool>(f: F) -> bool {
    forall|p: Point, b1: bool, b2: bool|
        #![trigger call_ensures(f, (p,), b1), call_ensures(f, (p,), b2)]
        call_ensures(f, (p,), b1) && call_ensures(f, (p,), b2) ==> b1 == b2
}

/// A walkable route from `start` to `goal`: it moves one grid step at a time,
/// the predicate may answer walkable for every point past the start, and every
/// point it steps onward from lies strictly inside the grid (at the very edge
/// of the coordinate space no further step exists).
pub open spec fn walkable_route<F: Fn(Point) -> bool>(
    q: Seq<Point>,
    start: Point,
    goal: Point,
    f: F,
) -> bool {
    &&& q.len() >= 1
    &&& q[0] == start
    &&& q.last() == goal
    &&& forall|i: int| 0 <= i < q.len() - 1 ==> adjacent(#[trigger] q[i], q[i + 1])
    &&& forall|i: int| 1 <= i < q.len() ==> call_ensures(f, (#[trigger] q[i],), true)
    &&& forall|i: int| 0 <= i < q.len() - 1 ==> in_grid_interior(#[trigger] q[i])
}

/// How a search ends: a path to the goal, certainty that no walkable route
/// exists, or the node budget ran out before either was established.
pub enum SearchOutcome {
    Found(Vec<Point>),
    NoPath,
    OutOfBudget,
}

/// The frontier holds a copy of `p` pushed at cost `g`.
spec fn fresh_in(frontier: Seq<Node>, p: Point, g: int) -> bool {
    exists|k: int|
        0 <= k < frontier.len() && (#[trigger] frontier[k]).point == p && frontier[k].f_score as int == g
}

/// Every walkable neighbour of `p` is recorded, at a cost of at most one more
/// than `p`'s. Vacuous at the grid's edge, where `p` is never expanded.
spec fn expanded_at<F: Fn(Point) -> bool>(p: Point, m: Map<Point, Record>, f: F) -> bool {
    in_grid_interior(p) ==> forall|nb: Point|
        adjacent(p, nb) && #[trigger] call_ensures(f, (nb,), true) ==> m.dom().contains(nb)
            && m[nb].0 <= m[p].0 + 1
}

/// Every recorded point either still waits in the frontier at its current
/// best-known cost, or has already been expanded.
spec fn settled_book<F: Fn(Point) -> bool>(
    m: Map<Point, Record>,
    frontier: Seq<Node>,
    f: F,
) -> bool {
    forall|p: Point|
        #[trigger] m.dom().contains(p) ==> fresh_in(frontier, p, m[p].0 as int) || expanded_at(p, m, f)
}

/// The search state accounts for a route: either the goal is recorded at a
/// cost within the route's step count, or some point of the route waits in
/// the frontier at a cost within its position on the route.
spec fn route_covered(
    q: Seq<Point>,
    goal: Point,
    m: Map<Point, Record>,
    frontier: Seq<Node>,
) -> bool {
    ||| (m.dom().contains(goal) && m[goal].0 <= q.len() - 1)
    ||| exists|i: int|
        0 <= i < q.len() && m.dom().contains(#[trigger] q[i]) && m[q[i]].0 <= i && fresh_in(
            frontier,
            q[i],
            m[q[i]].0 as int,
        )
}

/// Removing one element by swapping the last into its place keeps every other
/// element present.
proof fn lemma_swap_remove_keeps_others(pre: Seq<Node>, post: Seq<Node>, i: int)
    requires
        0 <= i < pre.len(),
        post == pre.update(i, pre.last()).drop_last(),
    ensures
        forall|j: int|
            0 <= j < pre.len() && j != i ==> exists|k: int|
                0 <= k < post.len() && post[k] == #[trigger] pre[j],
{
    assert forall|j: int| 0 <= j < pre.len() && j != i implies exists|k: int|
        0 <= k < post.len() && post[k] == #[trigger] pre[j] by {
        if j == pre.len() - 1 {
            assert(post[i] == pre[j]);
        } else {
            assert(post[j] == pre[j]);
        }
    }
}

/// A point one step away from an interior point is one of its four
/// 4-directional neighbours.
proof fn lemma_adjacent_enumerated(p: Point, nb: Point)
    requires
        adjacent(p, nb),
        in_grid_interior(p),
    ensures
        nb == (Point { x: (p.x - 1) as i32, y: p.y }) || nb == (Point {
            x: (p.x + 1) as i32,
            y: p.y,
        }) || nb == (Point { x: p.x, y: (p.y - 1) as i32 }) || nb == (Point {
            x: p.x,
            y: (p.y + 1) as i32,
        }),
{
}

/// Any chain of adjacent points is at least as long as the Manhattan distance
/// between its ends.
proof fn lemma_chain_at_least_manhattan(q: Seq<Point>)
    requires
        q.len() >= 1,
        forall|i: int| 0 <= i < q.len() - 1 ==> adjacent(#[trigger] q[i], q[i + 1]),
    ensures
        manhattan(q[0], q.last()) <= q.len() - 1,
    decreases q.len(),
{
    if q.len() > 1 {
        let tail = q.drop_first();
        assert forall|i: int| 0 <= i < tail.len() - 1 implies adjacent(
            #[trigger] tail[i],
            tail[i + 1],
        ) by {
            assert(tail[i] == q[i + 1]);
            assert(tail[i + 1] == q[i + 2]);
        }
        lemma_chain_at_least_manhattan(tail);
        assert(tail[0] == q[1]);
        assert(tail.last() == q.last());
    }
}

/// Walk a route forward through a settled search state: from a recorded route
/// point whose cost is within its route position, either the goal is already
/// recorded within the route's cost, or some route point waits fresh in the
/// frontier within its position.
proof fn lemma_route_walk<F: Fn(Point) -> bool>(
    m: Map<Point, Record>,
    frontier: Seq<Node>,
    start: Point,
    goal: Point,
    f: F,
    q: Seq<Point>,
    j: int,
)
    requires
        settled_book(m, frontier, f),
        walkable_route(q, start, goal, f),
        0 <= j < q.len(),
        m.dom().contains(q[j]),
        m[q[j]].0 <= j,
    ensures
        route_covered(q, goal, m, frontier),
    decreases q.len() - j,
{
    if j == q.len() - 1 {
        assert(q[j] == goal);
    } else if fresh_in(frontier, q[j], m[q[j]].0 as int) {
    } else {
        assert(expanded_at(q[j], m, f));
        assert(in_grid_interior(q[j]));
        assert(adjacent(q[j], q[j + 1]));
        assert(call_ensures(f, (q[j + 1],), true));
        assert(m.dom().contains(q[j + 1]) && m[q[j + 1]].0 <= m[q[j]].0 + 1);
        lemma_route_walk(m, frontier, start, goal, f, q, j + 1);
    }
}

/// Remove and return a node with the least f-score; ties are broken
/// arbitrarily, by design.
fn pop_min(frontier: &mut Vec<Node>) -> (r: Node)
    requires
        old(frontier)@.len() > 0,
    ensures
        exists|i: int|
            0 <= i < old(frontier)@.len() && r == old(frontier)@[i] && final(frontier)@ == old(
                frontier,
            )@.update(i, old(frontier)@.last()).drop_last(),
        final(frontier)@.len() == old(frontier)@.len() - 1,
        forall|j: int|
            0 <= j < final(frontier)@.len() ==> old(frontier)@.contains(
                #[trigger] final(frontier)@[j],
            ),
        forall|j: int| 0 <= j < old(frontier)@.len() ==> r.f_score <= old(frontier)@[j].f_score,
{
    let mut best: usize = 0;
    let mut i: usize = 1;
    while i < frontier.len()
        invariant
            1 <= i <= frontier@.len(),
            best < i,
            forall|j: int| 0 <= j < i ==> frontier@[best as int].f_score <= frontier@[j].f_score,
        decreases frontier@.len() - i,
    {
        if frontier[i].f_score < frontier[best].f_score {
            best = i;
        }
        i = i + 1;
    }
    let ghost pre = frontier@;
    let r = frontier.swap_remove(best);
    proof {
        assert(0 <= best < pre.len() && r == pre[best as int] && frontier@ == pre.update(
            best as int,
            pre.last(),
        ).drop_last());
        assert forall|j: int| 0 <= j < frontier@.len() implies pre.contains(
            #[trigger] frontier@[j],
        ) by {
            if j == best {
                assert(frontier@[j] == pre[pre.len() - 1]);
            } else {
                assert(frontier@[j] == pre[j]);
            }
        }
    }
    r
}

/// Follow parent pointers back from `current` to the start and return the
/// resulting path in start-to-`current` order.
fn reconstruct_path(book: &ScoreBook, current: Point, Ghost(start): Ghost<Point>) -> (path: Vec<
    Point,
>)
    requires
        book_wf(book@, start),
        book@.dom().contains(current),
    ensures
        path@.len() >= 1,
        path@[0] == start,
        path@.last() == current,
        forall|i: int|
            1 <= i < path@.len() ==> book@.dom().contains(#[trigger] path@[i])
                && book@[path@[i]].1 == Some(path@[i - 1]),
        forall|i: int, j: int| 0 <= i < j < path@.len() ==> path@[i] != path@[j],
        path@.len() <= book@[current].0 + 1,
        book@[current].1 is None ==> path@.len() == 1,
{
    let mut rev: Vec<Point> = Vec::new();
    rev.push(current);
    let mut cur = current;
    loop
        invariant
            book_wf(book@, start),
            book@.dom().contains(cur),
            rev@.len() >= 1,
            rev@[0] == current,
            rev@.last() == cur,
            forall|i: int|
                0 <= i < rev@.len() - 1 ==> book@.dom().contains(#[trigger] rev@[i])
                    && book@[rev@[i]].1 == Some(rev@[i + 1]),
            book@[cur].0 + rev@.len() - 1 <= book@[current].0,
            book@[current].1 is None ==> rev@.len() == 1,
        ensures
            cur == start,
            book@.dom().contains(cur),
            rev@.len() >= 1,
            rev@[0] == current,
            rev@.last() == cur,
            forall|i: int|
                0 <= i < rev@.len() - 1 ==> book@.dom().contains(#[trigger] rev@[i])
                    && book@[rev@[i]].1 == Some(rev@[i + 1]),
            book@[cur].0 + rev@.len() - 1 <= book@[current].0,
            book@[current].1 is None ==> rev@.len() == 1,
        decreases book@[cur].0,
    {
        let e = book.lookup(cur).unwrap();
        match e.1 {
            Some(q) => {
                rev.push(q);
                cur = q;
            },
            None => {
                proof {
                    if cur != start {
                        assert(book@[cur].1 is Some);
                    }
                }
                break ;
            },
        }
    }
    let n = rev.len();
    let mut path: Vec<Point> = Vec::new();
    let mut i: usize = 0;
    while i < n
        invariant
            n == rev@.len(),
            i <= n,
            path@.len() == i,
            forall|j: int| 0 <= j < i ==> path@[j] == rev@[n - 1 - j],
        decreases n - i,
    {
        path.push(rev[n - 1 - i]);
        i = i + 1;
    }
    proof {
        assert(path@[0] == rev@[n - 1]);
        assert(path@[n - 1] == rev@[0]);
        assert forall|k: int|
            1 <= k < path@.len() implies book@.dom().contains(#[trigger] path@[k])
            && book@[path@[k]].1 == Some(path@[k - 1]) by {
            assert(path@[k] == rev@[n - 1 - k]);
            assert(path@[k - 1] == rev@[n - k]);
            assert(book@.dom().contains(rev@[n - 1 - k]) && book@[rev@[n - 1 - k]].1 == Some(
                rev@[n - 1 - k + 1],
            ));
        }
        // The recorded cost strictly grows along the path, so no point repeats.
        let gs = path@.map_values(|p: Point| book@[p].0 as int);
        assert forall|k: int| 0 < k < gs.len() implies gs[k - 1] < #[trigger] gs[k] by {
            assert(book@.dom().contains(path@[k]) && book@[path@[k]].1 == Some(path@[k - 1]));
            assert(gs[k] == book@[path@[k]].0);
            assert(gs[k - 1] == book@[path@[k - 1]].0);
        }
        assert forall|i: int, j: int| 0 <= i < j < path@.len() implies path@[i] != path@[j] by {
            lemma_strict_chain(gs, i, j);
            assert(gs[i] == book@[path@[i]].0);
            assert(gs[j] == book@[path@[j]].0);
        }
    }
    path
}


/// A route point that is the given point, within its position's cost.
spec fn route_at_point(q: Seq<Point>, cp: Point, m: Map<Point, Record>) -> bool {
    exists|i: int| 0 <= i < q.len() && (#[trigger] q[i]) == cp && m.dom().contains(cp) && m[cp].0 <= i
}

/// After a pop, every other point's waiting copy survives, the goal keeps
/// waiting, and a route's account degrades at worst to the popped point.
proof fn lemma_after_pop<F: Fn(Point) -> bool>(
    m: Map<Point, Record>,
    pre: Seq<Node>,
    post: Seq<Node>,
    idx: int,
    cp: Point,
    start: Point,
    goal: Point,
    f: F,
)
    requires
        0 <= idx < pre.len(),
        pre[idx].point == cp,
        post == pre.update(idx, pre.last()).drop_last(),
        cp != goal,
        forall|k: int| 0 <= k < pre.len() ==> m.dom().contains((#[trigger] pre[k]).point),
        forall|k: int| 0 <= k < pre.len() ==> m[(#[trigger] pre[k]).point].0 <= pre[k].f_score,
        m.dom().contains(goal) ==> exists|k: int|
            0 <= k < pre.len() && (#[trigger] pre[k]).point == goal,
        deterministic(f) ==> settled_book(m, pre, f),
        deterministic(f) ==> forall|q: Seq<Point>|
            #[trigger] walkable_route(q, start, goal, f) ==> route_covered(q, goal, m, pre),
    ensures
        forall|k: int| 0 <= k < post.len() ==> m.dom().contains((#[trigger] post[k]).point),
        forall|k: int| 0 <= k < post.len() ==> m[(#[trigger] post[k]).point].0 <= post[k].f_score,
        m.dom().contains(goal) ==> exists|k: int|
            0 <= k < post.len() && (#[trigger] post[k]).point == goal,
        deterministic(f) ==> forall|p: Point|
            #[trigger] m.dom().contains(p) && p != cp ==> fresh_in(post, p, m[p].0 as int)
                || expanded_at(p, m, f),
        deterministic(f) ==> forall|q: Seq<Point>|
            #[trigger] walkable_route(q, start, goal, f) ==> route_covered(q, goal, m, post)
                || route_at_point(q, cp, m),
{
    lemma_swap_remove_keeps_others(pre, post, idx);
    assert forall|k: int| 0 <= k < post.len() implies m.dom().contains((#[trigger] post[k]).point)
        && m[post[k].point].0 <= post[k].f_score by {
        assert(pre.contains(post[k]));
        let j = choose|j: int| 0 <= j < pre.len() && pre[j] == post[k];
        assert(m.dom().contains((pre[j]).point));
    }
    if m.dom().contains(goal) {
        let k0 = choose|k: int| 0 <= k < pre.len() && (#[trigger] pre[k]).point == goal;
        assert(k0 != idx);
        assert(exists|k2: int| 0 <= k2 < post.len() && post[k2] == pre[k0]);
    }
    if deterministic(f) {
        assert forall|p: Point| #[trigger] m.dom().contains(p) && p != cp implies fresh_in(
            post,
            p,
            m[p].0 as int,
        ) || expanded_at(p, m, f) by {
            if fresh_in(pre, p, m[p].0 as int) {
                let k1 = choose|k: int|
                    0 <= k < pre.len() && (#[trigger] pre[k]).point == p && pre[k].f_score as int
                        == m[p].0 as int;
                assert(k1 != idx);
                assert(exists|k2: int| 0 <= k2 < post.len() && post[k2] == pre[k1]);
            }
        }
        assert forall|q: Seq<Point>| #[trigger] walkable_route(q, start, goal, f) implies
            route_covered(q, goal, m, post) || route_at_point(q, cp, m) by {
            assert(route_covered(q, goal, m, pre));
            if !(m.dom().contains(goal) && m[goal].0 <= q.len() - 1) {
                let i = choose|i: int|
                    0 <= i < q.len() && m.dom().contains(#[trigger] q[i]) && m[q[i]].0 <= i
                        && fresh_in(pre, q[i], m[q[i]].0 as int);
                if q[i] == cp {
                    assert(route_at_point(q, cp, m));
                } else {
                    let k1 = choose|k: int|
                        0 <= k < pre.len() && (#[trigger] pre[k]).point == q[i] && pre[k].f_score
                            as int == m[q[i]].0 as int;
                    assert(k1 != idx);
                    assert(exists|k2: int| 0 <= k2 < post.len() && post[k2] == pre[k1]);
                    assert(fresh_in(post, q[i], m[q[i]].0 as int));
                }
            }
        }
    }
}

/// When the goal's copy is popped with the least ordering key, its recorded
/// cost is within every walkable route's step count.
proof fn lemma_goal_popped_is_shortest<F: Fn(Point) -> bool>(
    m: Map<Point, Record>,
    pre: Seq<Node>,
    idx: int,
    start: Point,
    goal: Point,
    f: F,
)
    requires
        deterministic(f),
        0 <= idx < pre.len(),
        pre[idx].point == goal,
        forall|k: int| 0 <= k < pre.len() ==> m.dom().contains((#[trigger] pre[k]).point),
        forall|k: int| 0 <= k < pre.len() ==> m[(#[trigger] pre[k]).point].0 <= pre[k].f_score,
        forall|j: int| 0 <= j < pre.len() ==> pre[idx].f_score <= (#[trigger] pre[j]).f_score,
        forall|q: Seq<Point>|
            #[trigger] walkable_route(q, start, goal, f) ==> route_covered(q, goal, m, pre),
    ensures
        forall|q: Seq<Point>|
            #[trigger] walkable_route(q, start, goal, f) ==> m[goal].0 + 1 <= q.len(),
{
    assert forall|q: Seq<Point>| #[trigger] walkable_route(q, start, goal, f) implies m[goal].0
        + 1 <= q.len() by {
        assert(route_covered(q, goal, m, pre));
        if !(m.dom().contains(goal) && m[goal].0 <= q.len() - 1) {
            let i = choose|i: int|
                0 <= i < q.len() && m.dom().contains(#[trigger] q[i]) && m[q[i]].0 <= i
                    && fresh_in(pre, q[i], m[q[i]].0 as int);
            let k = choose|k: int|
                0 <= k < pre.len() && (#[trigger] pre[k]).point == q[i] && pre[k].f_score as int
                    == m[q[i]].0 as int;
            assert(pre[idx].f_score <= pre[k].f_score);
            assert(m[goal].0 <= pre[idx].f_score);
        }
    }
}

/// Recording a strictly better cost for a neighbour of the point under
/// expansion keeps every other point settled and every route accounted for.
proof fn lemma_after_improve<F: Fn(Point) -> bool>(
    m_pre: Map<Point, Record>,
    fr_pre: Seq<Node>,
    m_post: Map<Point, Record>,
    fr_post: Seq<Node>,
    cp: Point,
    nb: Point,
    tentative: i32,
    start: Point,
    goal: Point,
    f: F,
)
    requires
        deterministic(f),
        m_post == m_pre.insert(nb, (tentative, Some(cp))),
        fr_post == fr_pre.push(Node { point: nb, f_score: tentative, g_score: tentative }),
        nb != cp,
        m_pre.dom().contains(cp),
        !m_pre.dom().contains(nb) || tentative < m_pre[nb].0,
        forall|p: Point|
            #[trigger] m_pre.dom().contains(p) && p != cp ==> fresh_in(fr_pre, p, m_pre[p].0 as int)
                || expanded_at(p, m_pre, f),
        forall|q: Seq<Point>|
            #[trigger] walkable_route(q, start, goal, f) ==> route_covered(q, goal, m_pre, fr_pre)
                || route_at_point(q, cp, m_pre),
        m_pre.dom().contains(goal) ==> exists|k: int|
            0 <= k < fr_pre.len() && (#[trigger] fr_pre[k]).point == goal,
    ensures
        forall|p: Point|
            #[trigger] m_post.dom().contains(p) && p != cp ==> fresh_in(
                fr_post,
                p,
                m_post[p].0 as int,
            ) || expanded_at(p, m_post, f),
        forall|q: Seq<Point>|
            #[trigger] walkable_route(q, start, goal, f) ==> route_covered(q, goal, m_post, fr_post)
                || route_at_point(q, cp, m_post),
        m_post.dom().contains(goal) ==> exists|k: int|
            0 <= k < fr_post.len() && (#[trigger] fr_post[k]).point == goal,
{
    assert(fr_post.last() == (Node { point: nb, f_score: tentative, g_score: tentative }));
    assert(fresh_in(fr_post, nb, m_post[nb].0 as int));
    assert forall|p: Point| #[trigger] m_post.dom().contains(p) && p != cp implies fresh_in(
        fr_post,
        p,
        m_post[p].0 as int,
    ) || expanded_at(p, m_post, f) by {
        if p != nb {
            assert(m_post[p] == m_pre[p]);
            if fresh_in(fr_pre, p, m_pre[p].0 as int) {
                let k1 = choose|k: int|
                    0 <= k < fr_pre.len() && (#[trigger] fr_pre[k]).point == p && fr_pre[k].f_score
                        as int == m_pre[p].0 as int;
                assert(fr_post[k1] == fr_pre[k1]);
            } else if expanded_at(p, m_pre, f) {
                assert forall|nb2: Point|
                    adjacent(p, nb2) && #[trigger] call_ensures(f, (nb2,), true)
                        && in_grid_interior(p) implies m_post.dom().contains(nb2)
                    && m_post[nb2].0 <= m_post[p].0 + 1 by {
                    assert(m_pre.dom().contains(nb2) && m_pre[nb2].0 <= m_pre[p].0 + 1);
                }
            }
        }
    }
    assert forall|q: Seq<Point>| #[trigger] walkable_route(q, start, goal, f) implies
        route_covered(q, goal, m_post, fr_post) || route_at_point(q, cp, m_post) by {
        if route_covered(q, goal, m_pre, fr_pre) {
            if m_pre.dom().contains(goal) && m_pre[goal].0 <= q.len() - 1 {
                assert(m_post[goal].0 <= q.len() - 1);
            } else {
                let i = choose|i: int|
                    0 <= i < q.len() && m_pre.dom().contains(#[trigger] q[i]) && m_pre[q[i]].0 <= i
                        && fresh_in(fr_pre, q[i], m_pre[q[i]].0 as int);
                if q[i] == nb {
                    assert(m_post[nb].0 <= m_pre[nb].0);
                    assert(fresh_in(fr_post, nb, m_post[nb].0 as int));
                } else {
                    let k1 = choose|k: int|
                        0 <= k < fr_pre.len() && (#[trigger] fr_pre[k]).point == q[i]
                            && fr_pre[k].f_score as int == m_pre[q[i]].0 as int;
                    assert(fr_post[k1] == fr_pre[k1]);
                    assert(fresh_in(fr_post, q[i], m_post[q[i]].0 as int));
                }
            }
        } else {
            assert(route_at_point(q, cp, m_pre));
        }
    }
    if m_post.dom().contains(goal) {
        if nb == goal {
            assert(fr_post[fr_post.len() - 1].point == goal);
        } else {
            let k0 = choose|k: int|
                0 <= k < fr_pre.len() && (#[trigger] fr_pre[k]).point == goal;
            assert(fr_post[k0] == fr_pre[k0]);
        }
    }
}

/// Once the point under expansion has every walkable neighbour recorded, the
/// whole book is settled again and every route is accounted for.
proof fn lemma_after_expand<F: Fn(Point) -> bool>(
    m: Map<Point, Record>,
    fr: Seq<Node>,
    cp: Point,
    start: Point,
    goal: Point,
    f: F,
)
    requires
        deterministic(f),
        m.dom().contains(cp),
        cp != goal,
        expanded_at(cp, m, f),
        forall|p: Point|
            #[trigger] m.dom().contains(p) && p != cp ==> fresh_in(fr, p, m[p].0 as int)
                || expanded_at(p, m, f),
        forall|q: Seq<Point>|
            #[trigger] walkable_route(q, start, goal, f) ==> route_covered(q, goal, m, fr)
                || route_at_point(q, cp, m),
    ensures
        settled_book(m, fr, f),
        forall|q: Seq<Point>|
            #[trigger] walkable_route(q, start, goal, f) ==> route_covered(q, goal, m, fr),
{
    assert forall|q: Seq<Point>| #[trigger] walkable_route(q, start, goal, f) implies
        route_covered(q, goal, m, fr) by {
        if !route_covered(q, goal, m, fr) {
            assert(route_at_point(q, cp, m));
            let i = choose|i: int|
                0 <= i < q.len() && (#[trigger] q[i]) == cp && m.dom().contains(cp) && m[cp].0
                    <= i;
            lemma_route_walk(m, fr, start, goal, f, q, i);
        }
    }
}

/// A point at the very edge of the grid sits on no route before its goal, so
/// skipping its expansion leaves every route accounted for.
proof fn lemma_edge_point_not_en_route<F: Fn(Point) -> bool>(
    m: Map<Point, Record>,
    fr: Seq<Node>,
    cp: Point,
    start: Point,
    goal: Point,
    f: F,
)
    requires
        deterministic(f),
        !in_grid_interior(cp),
        cp != goal,
        m.dom().contains(cp),
        forall|p: Point|
            #[trigger] m.dom().contains(p) && p != cp ==> fresh_in(fr, p, m[p].0 as int)
                || expanded_at(p, m, f),
        forall|q: Seq<Point>|
            #[trigger] walkable_route(q, start, goal, f) ==> route_covered(q, goal, m, fr)
                || route_at_point(q, cp, m),
    ensures
        settled_book(m, fr, f),
        forall|q: Seq<Point>|
            #[trigger] walkable_route(q, start, goal, f) ==> route_covered(q, goal, m, fr),
{
    assert(expanded_at(cp, m, f));
    assert forall|q: Seq<Point>| #[trigger] walkable_route(q, start, goal, f) implies
        route_covered(q, goal, m, fr) by {
        if !route_covered(q, goal, m, fr) {
            assert(route_at_point(q, cp, m));
            let i = choose|i: int|
                0 <= i < q.len() && (#[trigger] q[i]) == cp && m.dom().contains(cp) && m[cp].0
                    <= i;
            if i < q.len() - 1 {
                assert(in_grid_interior(q[i]));
            } else {
                assert(q[i] == goal);
            }
            assert(false);
        }
    }
}

/// How many frontier expansions one search may perform. The search space is
/// unbounded, so an unreachable goal in an open world could otherwise be
/// explored forever; within the budget the search behaves exactly like an
/// uncapped one, and running out of it is reported apart from a definite
/// "no path".
const SEARCH_NODE_BUDGET: usize = 1_000_000;

/// A* search from `start` to `goal` over the 4-connected grid, with unit edge
/// cost, guided by the caller's walkability predicate.
///
/// A found path starts at `start`, ends at `goal`, moves one grid step at a
/// time, never repeats a point, and every point on it past the start was
/// approved by the predicate; when the predicate is deterministic the path is
/// also shortest among all walkable routes. `NoPath` is certainty: for a
/// deterministic predicate, no walkable route to the goal exists — the normal
/// outcome for an enclosed goal, not an error. `OutOfBudget` reports that the
/// node budget ran out first, which on an unbounded world is the only honest
/// answer a bounded search can give. Reaching the goal from itself needs no
/// movement, so then the path is `[start]`, whatever the predicate says.
///
/// A neighbour whose best-known cost would not improve is still re-pushed onto
/// the frontier when a cheaper route to it is found (reopening); there is no
/// permanent closed set.
#[verifier::rlimit(100)]
pub fn search_path<F: Fn(Point) -> bool>(start: Point, goal: Point, is_walkable: F) -> (r:
    SearchOutcome)
    requires
        forall|p: Point| #[trigger] call_requires(is_walkable, (p,)),
    ensures
        r matches SearchOutcome::Found(path) ==> {
            &&& path@.len() >= 1
            &&& path@[0] == start
            &&& path@.last() == goal
            &&& path@.len() > manhattan(start, goal)
            &&& forall|i: int| 0 <= i < path@.len() - 1 ==> adjacent(#[trigger] path@[i], path@[i + 1])
            &&& forall|i: int|
                1 <= i < path@.len() ==> call_ensures(is_walkable, (#[trigger] path@[i],), true)
            &&& forall|i: int, j: int| 0 <= i < j < path@.len() ==> path@[i] != path@[j]
            &&& deterministic(is_walkable) ==> forall|q: Seq<Point>|
                #[trigger] walkable_route(q, start, goal, is_walkable) ==> path@.len() <= q.len()
        },
        r is NoPath ==> deterministic(is_walkable) ==> forall|q: Seq<Point>|
            !(#[trigger] walkable_route(q, start, goal, is_walkable)),
        start == goal ==> (r matches SearchOutcome::Found(path) && path@ =~= seq![start]),
{
    if start == goal {
        let mut single: Vec<Point> = Vec::new();
        single.push(start);
        return SearchOutcome::Found(single);
    }

    let mut book = ScoreBook::new();
    let mut frontier: Vec<Node> = Vec::new();
    book.set(start, 0, None);
    // The start is the frontier's only entry, so the first round necessarily
    // pops it whatever its ordering key; its true cost is zero.
    frontier.push(Node { point: start, f_score: 0, g_score: 0 });
    let mut remaining: usize = SEARCH_NODE_BUDGET;
    proof {
        assert(frontier@[0] == (Node { point: start, f_score: 0, g_score: 0 }));
        assert(fresh_in(frontier@, start, 0));
        if deterministic(is_walkable) {
            assert forall|p: Point| #[trigger] book@.dom().contains(p) implies fresh_in(
                frontier@,
                p,
                book@[p].0 as int,
            ) || expanded_at(p, book@, is_walkable) by {
                assert(p == start);
            }
            assert forall|q: Seq<Point>| #[trigger] walkable_route(
                q,
                start,
                goal,
                is_walkable,
            ) implies route_covered(q, goal, book@, frontier@) by {
                assert(q[0] == start && book@.dom().contains(q[0]) && book@[q[0]].0 <= 0
                    && fresh_in(frontier@, q[0], book@[q[0]].0 as int));
            }
        }
    }

    while frontier.len() > 0 && remaining > 0
        invariant
            start != goal,
            remaining <= SEARCH_NODE_BUDGET,
            book_wf(book@, start),
            forall|k: int|
                0 <= k < frontier@.len() ==> book@.dom().contains(
                    (#[trigger] frontier@[k]).point,
                ),
            forall|k: int|
                0 <= k < frontier@.len() ==> book@[(#[trigger] frontier@[k]).point].0
                    <= frontier@[k].f_score,
            forall|p: Point|
                #[trigger] book@.dom().contains(p) && p != start ==> call_ensures(
                    is_walkable,
                    (p,),
                    true,
                ),
            forall|p: Point| #[trigger] call_requires(is_walkable, (p,)),
            forall|p: Point|
                #[trigger] book@.dom().contains(p) ==> book@[p].0 <= SEARCH_NODE_BUDGET
                    - remaining,
            book@.dom().contains(goal) ==> exists|k: int|
                0 <= k < frontier@.len() && (#[trigger] frontier@[k]).point == goal,
            deterministic(is_walkable) ==> settled_book(book@, frontier@, is_walkable),
            deterministic(is_walkable) ==> forall|q: Seq<Point>|
                #[trigger] walkable_route(q, start, goal, is_walkable) ==> route_covered(
                    q,
                    goal,
                    book@,
                    frontier@,
                ),
        decreases remaining,
    {
        remaining = remaining - 1;
        let ghost pre_frontier = frontier@;
        let current = pop_min(&mut frontier);
        let ghost popped_idx = choose|i: int|
            0 <= i < pre_frontier.len() && current == pre_frontier[i] && frontier@
                == pre_frontier.update(i, pre_frontier.last()).drop_last();
        proof {
            assert(book@.dom().contains((pre_frontier[popped_idx]).point));
        }

        if current.point == goal {
            proof {
                if deterministic(is_walkable) {
                    lemma_goal_popped_is_shortest(
                        book@,
                        pre_frontier,
                        popped_idx,
                        start,
                        goal,
                        is_walkable,
                    );
                }
            }
            let path = reconstruct_path(&book, current.point, Ghost(start));
            proof {
                assert forall|i: int| 0 <= i < path@.len() - 1 implies adjacent(
                    #[trigger] path@[i],
                    path@[i + 1],
                ) by {
                    assert(book@.dom().contains(path@[i + 1]) && book@[path@[i + 1]].1 == Some(
                        path@[i],
                    ));
                }
                assert forall|i: int| 1 <= i < path@.len() implies call_ensures(
                    is_walkable,
                    (#[trigger] path@[i],),
                    true,
                ) by {
                    assert(book@.dom().contains(path@[i]) && book@[path@[i]].1 == Some(
                        path@[i - 1],
                    ));
                    assert(path@[i] != start);
                }
                lemma_chain_at_least_manhattan(path@);
            }
            return SearchOutcome::Found(path);
        }

        proof {
            lemma_after_pop(
                book@,
                pre_frontier,
                frontier@,
                popped_idx,
                current.point,
                start,
                goal,
                is_walkable,
            );
        }

        let in_interior = i32::MIN < current.point.x && current.point.x < i32::MAX && i32::MIN
            < current.point.y && current.point.y < i32::MAX;
        if in_interior {
            let nbs = current.point.neighbors();
            let ghost cp = current.point;
            let ghost g_cp = book@[cp].0 as int;
            let mut k: usize = 0;
            while k < 4
                invariant
                    start != goal,
                    current.point == cp,
                    cp != goal,
                    in_grid_interior(cp),
                    remaining <= SEARCH_NODE_BUDGET,
                    book_wf(book@, start),
                    book@.dom().contains(cp),
                    book@[cp].0 as int == g_cp,
                    g_cp <= SEARCH_NODE_BUDGET - remaining - 1,
                    nbs@.len() == 4,
                    nbs@[0] == (Point { x: (cp.x - 1) as i32, y: cp.y }),
                    nbs@[1] == (Point { x: (cp.x + 1) as i32, y: cp.y }),
                    nbs@[2] == (Point { x: cp.x, y: (cp.y - 1) as i32 }),
                    nbs@[3] == (Point { x: cp.x, y: (cp.y + 1) as i32 }),
                    forall|j: int| 0 <= j < 4 ==> adjacent(cp, #[trigger] nbs@[j]),
                    k <= 4,
                    forall|k2: int|
                        0 <= k2 < frontier@.len() ==> book@.dom().contains(
                            (#[trigger] frontier@[k2]).point,
                        ),
                    forall|k2: int|
                        0 <= k2 < frontier@.len() ==> book@[(#[trigger] frontier@[k2]).point].0
                            <= frontier@[k2].f_score,
                    forall|p: Point|
                        #[trigger] book@.dom().contains(p) && p != start ==> call_ensures(
                            is_walkable,
                            (p,),
                            true,
                        ),
                    forall|p: Point| #[trigger] call_requires(is_walkable, (p,)),
                    forall|p: Point|
                        #[trigger] book@.dom().contains(p) ==> book@[p].0 <= SEARCH_NODE_BUDGET
                            - remaining,
                    book@.dom().contains(goal) ==> exists|k2: int|
                        0 <= k2 < frontier@.len() && (#[trigger] frontier@[k2]).point == goal,
                    deterministic(is_walkable) ==> forall|p: Point|
                        #[trigger] book@.dom().contains(p) && p != cp ==> fresh_in(
                            frontier@,
                            p,
                            book@[p].0 as int,
                        ) || expanded_at(p, book@, is_walkable),
                    deterministic(is_walkable) ==> forall|j: int|
                        0 <= j < k ==> (call_ensures(is_walkable, (#[trigger] nbs@[j],), true)
                            ==> book@.dom().contains(nbs@[j]) && book@[nbs@[j]].0 <= g_cp + 1),
                    deterministic(is_walkable) ==> forall|q: Seq<Point>|
                        #[trigger] walkable_route(q, start, goal, is_walkable) ==> route_covered(
                            q,
                            goal,
                            book@,
                            frontier@,
                        ) || route_at_point(q, cp, book@),
                decreases 4 - k,
            {
                let nb = nbs[k];
                let walk_ok = is_walkable(nb);
                if walk_ok {
                    let g_cur = book.lookup(current.point).unwrap().0;
                    proof {
                        assert(g_cur as int == g_cp);
                        assert(g_cur < i32::MAX);
                    }
                    let tentative = g_cur + 1;
                    let better = match book.lookup(nb) {
                        Some(e) => tentative < e.0,
                        None => true,
                    };
                    if better {
                        let ghost pre_book = book@;
                        let ghost pre_f = frontier@;
                        book.set(nb, tentative, Some(current.point));
                        frontier.push(
                            Node { point: nb, f_score: tentative, g_score: tentative },
                        );
                        proof {
                            assert(nb != start);
                            assert(nb != cp) by {
                                assert(adjacent(cp, nb));
                            }
                            assert(book_wf(book@, start)) by {
                                assert forall|p: Point| #[trigger]
                                    book@.dom().contains(p) implies (book@[p].1 matches Some(
                                    par,
                                ) ==> book@.dom().contains(par) && adjacent(par, p) && book@[par].0
                                    < book@[p].0) by {
                                    if p == nb {
                                        assert(book@[p] == (tentative, Some(cp)));
                                        assert(book@[cp] == pre_book[cp]);
                                    } else {
                                        assert(pre_book.dom().contains(p));
                                        assert(book@[p] == pre_book[p]);
                                        match pre_book[p].1 {
                                            Some(par) => {
                                                if par == nb {
                                                    assert(pre_book.dom().contains(nb));
                                                    assert(tentative < pre_book[nb].0);
                                                } else {
                                                    assert(book@[par] == pre_book[par]);
                                                }
                                            },
                                            None => {},
                                        }
                                    }
                                }
                            }
                            if deterministic(is_walkable) {
                                assert(call_ensures(is_walkable, (nb,), true));
                                lemma_after_improve(
                                    pre_book,
                                    pre_f,
                                    book@,
                                    frontier@,
                                    cp,
                                    nb,
                                    tentative,
                                    start,
                                    goal,
                                    is_walkable,
                                );
                            } else {
                                if book@.dom().contains(goal) {
                                    if nb == goal {
                                        assert(frontier@[frontier@.len() - 1].point == goal);
                                    } else {
                                        assert(pre_book.dom().contains(goal));
                                        let k0 = choose|k2: int|
                                            0 <= k2 < pre_f.len() && (#[trigger] pre_f[k2]).point
                                                == goal;
                                        assert(frontier@[k0] == pre_f[k0]);
                                    }
                                }
                            }
                        }
                    }
                } else {
                    proof {
                        if deterministic(is_walkable) {
                            assert(call_ensures(is_walkable, (nb,), false));
                            assert(!call_ensures(is_walkable, (nb,), true));
                        }
                    }
                }
                k = k + 1;
            }
            proof {
                if deterministic(is_walkable) {
                    assert(expanded_at(cp, book@, is_walkable)) by {
                        assert forall|nb: Point|
                            adjacent(cp, nb) && #[trigger] call_ensures(
                                is_walkable,
                                (nb,),
                                true,
                            ) implies book@.dom().contains(nb) && book@[nb].0 <= book@[cp].0
                            + 1 by {
                            lemma_adjacent_enumerated(cp, nb);
                        }
                    }
                    lemma_after_expand(book@, frontier@, cp, start, goal, is_walkable);
                }
            }
        } else {
            proof {
                if deterministic(is_walkable) {
                    lemma_edge_point_not_en_route(
                        book@,
                        frontier@,
                        current.point,
                        start,
                        goal,
                        is_walkable,
                    );
                }
            }
        }
    }
    if frontier.len() == 0 {
        proof {
            if deterministic(is_walkable) {
                assert forall|q: Seq<Point>| !(#[trigger] walkable_route(
                    q,
                    start,
                    goal,
                    is_walkable,
                )) by {
                    if walkable_route(q, start, goal, is_walkable) {
                        assert(route_covered(q, goal, book@, frontier@));
                        assert(!(exists|i: int|
                            0 <= i < q.len() && book@.dom().contains(#[trigger] q[i])
                                && book@[q[i]].0 <= i && fresh_in(
                                frontier@,
                                q[i],
                                book@[q[i]].0 as int,
                            )));
                        assert(book@.dom().contains(goal));
                        assert(false);
                    }
                }
            }
        }
        SearchOutcome::NoPath
    } else {
        SearchOutcome::OutOfBudget
    }
}

/// A* search returning just the path, `None` covering both a definite
/// "no path" and an exhausted node budget; `search_path` tells the two apart.
/// A returned path carries `search_path`'s guarantees: valid, duplicate-free,
/// and, for a deterministic predicate, shortest among all walkable routes.
pub fn find_path<F: Fn(Point) -> bool>(start: Point, goal: Point, is_walkable: F) -> (r: Option<
    Vec<Point>,
>)
    requires
        forall|p: Point| #[trigger] call_requires(is_walkable, (p,)),
    ensures
        r matches Some(path) ==> {
            &&& path@.len() >= 1
            &&& path@[0] == start
            &&& path@.last() == goal
            &&& path@.len() > manhattan(start, goal)
            &&& forall|i: int| 0 <= i < path@.len() - 1 ==> adjacent(#[trigger] path@[i], path@[i + 1])
            &&& forall|i: int|
                1 <= i < path@.len() ==> call_ensures(is_walkable, (#[trigger] path@[i],), true)
            &&& forall|i: int, j: int| 0 <= i < j < path@.len() ==> path@[i] != path@[j]
            &&& deterministic(is_walkable) ==> forall|q: Seq<Point>|
                #[trigger] walkable_route(q, start, goal, is_walkable) ==> path@.len() <= q.len()
        },
        start == goal ==> (r matches Some(path) && path@ =~= seq![start]),
{
    match search_path(start, goal, is_walkable) {
        SearchOutcome::Found(path) => Some(path),
        SearchOutcome::NoPath => None,
        SearchOutcome::OutOfBudget => None,
    }
}

/// The least x coordinate among the origin and the path's points.
pub open spec fn path_left(origin: Point, pts: Seq<Point>) -> int
    decreases pts.len(),
{
    if pts.len() == 0 {
        origin.x as int
    } else {
        let rest = path_left(origin, pts.drop_last());
        if pts.last().x < rest {
            pts.last().x as int
        } else {
            rest
        }
    }
}

/// One past the greatest x coordinate among the origin and the path's points.
pub open spec fn path_right(origin: Point, pts: Seq<Point>) -> int
    decreases pts.len(),
{
    if pts.len() == 0 {
        origin.x + 1
    } else {
        let rest = path_right(origin, pts.drop_last());
        if pts.last().x + 1 > rest {
            pts.last().x + 1
        } else {
            rest
        }
    }
}

/// The least y coordinate among the origin and the path's points.
pub open spec fn path_top(origin: Point, pts: Seq<Point>) -> int
    decreases pts.len(),
{
    if pts.len() == 0 {
        origin.y as int
    } else {
        let rest = path_top(origin, pts.drop_last());
        if pts.last().y < rest {
            pts.last().y as int
        } else {
            rest
        }
    }
}

/// One past the greatest y coordinate among the origin and the path's points.
pub open spec fn path_bottom(origin: Point, pts: Seq<Point>) -> int
    decreases pts.len(),
{
    if pts.len() == 0 {
        origin.y + 1
    } else {
        let rest = path_bottom(origin, pts.drop_last());
        if pts.last().y + 1 > rest {
            pts.last().y + 1
        } else {
            rest
        }
    }
}

/// The points a bounding box is computed over: the path's points if one is
/// given, none otherwise.
pub open spec fn opt_points(path: Option<&[Point]>) -> Seq<Point> {
    match path {
        Some(pts) => pts@,
        None => Seq::empty(),
    }
}

/// The tightest axis-aligned box that covers the origin's cell and every cell
/// of the path, if one is given.
pub fn bounding_box_for_path(origin: &Point, path: Option<&[Point]>) -> (r: BoundingBox)
    requires
        origin.x < i32::MAX,
        origin.y < i32::MAX,
        path matches Some(pts) ==> forall|i: int|
            0 <= i < pts@.len() ==> (#[trigger] pts@[i]).x < i32::MAX && pts@[i].y < i32::MAX,
    ensures
        r.left == path_left(*origin, opt_points(path)),
        r.right == path_right(*origin, opt_points(path)),
        r.top == path_top(*origin, opt_points(path)),
        r.bottom == path_bottom(*origin, opt_points(path)),
{
    let mut left = origin.x;
    let mut right = origin.x + 1;
    let mut top = origin.y;
    let mut bottom = origin.y + 1;

    if let Some(points) = path {
        let mut i: usize = 0;
        proof {
            assert(points@.take(0) =~= Seq::<Point>::empty());
        }
        while i < points.len()
            invariant
                i <= points@.len(),
                forall|j: int|
                    0 <= j < points@.len() ==> (#[trigger] points@[j]).x < i32::MAX
                        && points@[j].y < i32::MAX,
                origin.x < i32::MAX,
                origin.y < i32::MAX,
                left == path_left(*origin, points@.take(i as int)),
                right == path_right(*origin, points@.take(i as int)),
                top == path_top(*origin, points@.take(i as int)),
                bottom == path_bottom(*origin, points@.take(i as int)),
            decreases points@.len() - i,
        {
            let point = points[i];
            proof {
                assert(points@.take(i + 1).drop_last() =~= points@.take(i as int));
                assert(points@.take(i + 1).last() == point);
            }
            if point.x < left {
                left = point.x;
            }
            if point.x + 1 > right {
                right = point.x + 1;
            }
            if point.y < top {
                top = point.y;
            }
            if point.y + 1 > bottom {
                bottom = point.y + 1;
            }
            i = i + 1;
        }
        proof {
            assert(points@.take(points@.len() as int) =~= points@);
        }
    }

    BoundingBox { left, right, top, bottom }
}

} // verus!
