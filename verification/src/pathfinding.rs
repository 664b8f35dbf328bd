//! Breadth-first search for porter routes: from the structure that produces
//! an item, over walkable constructions, to every construction with an input
//! slot that takes the item.
use vstd::prelude::*;

verus! {

/// A tile coordinate.
#[derive(Clone, Copy, Debug, PartialEq, Eq, Structural)]
pub struct Coord {
    pub x: i32,
    pub y: i32,
}

/// Whether porters may walk over a construction.
#[derive(Clone, Copy, Debug, PartialEq, Eq, Structural)]
pub struct Pathable {
    pub walkable: bool,
}

impl Pathable {
    /// A construction that porters walk over.
    pub fn walkable() -> (r: Pathable)
        ensures
            r.walkable,
    {
        Pathable { walkable: true }
    }
}

/// An input slot of a construction: the slot's entity, and the item of the
/// stack that it holds, if it holds one.
#[derive(Clone, Copy, Debug, PartialEq, Eq, Structural)]
pub struct InputSlot {
    pub slot: usize,
    pub stack_item: Option<u64>,
}

/// A construction on the map. Constructions are named by their index in
/// `LogisticsMap::sites`.
#[derive(Clone, Debug)]
pub struct Site {
    pub coord: Coord,
    /// The `walkable` flag of the site's `Pathable` component, if it has one.
    pub pathable: Option<bool>,
    /// The site's input slots, if it has any `Inputs`.
    pub inputs: Option<Vec<InputSlot>>,
}

/// Every construction, and which construction stands on which coordinate.
#[derive(Clone, Debug)]
pub struct LogisticsMap {
    pub sites: Vec<Site>,
    pub constructions: Vec<(Coord, usize)>,
}

/// A route that a porter may take: the input slot that it delivers to, and the
/// constructions walked, from the one holding that slot back to the first one
/// next to the producer.
#[derive(Clone, Debug)]
pub struct PorterPath {
    pub input: usize,
    pub path: Vec<usize>,
}

/// The four directions in the order in which neighbours are explored:
/// +x, -x, +y, -y.
pub open spec fn dir_dx(d: int) -> int {
    if d == 0 {
        1
    } else if d == 1 {
        -1
    } else {
        0
    }
}

pub open spec fn dir_dy(d: int) -> int {
    if d == 2 {
        1
    } else if d == 3 {
        -1
    } else {
        0
    }
}

/// The construction at `c` in a list of (coordinate, construction) entries.
pub open spec fn lookup(entries: Seq<(Coord, usize)>, c: Coord) -> Option<usize>
    decreases entries.len(),
{
    if entries.len() == 0 {
        None
    } else if entries[0].0 == c {
        Some(entries[0].1)
    } else {
        lookup(entries.drop_first(), c)
    }
}

/// The first input slot whose stack holds `item`.
pub open spec fn first_matching_input(inputs: Seq<InputSlot>, item: u64) -> Option<usize>
    decreases inputs.len(),
{
    if inputs.len() == 0 {
        None
    } else if inputs[0].stack_item == Some(item) {
        Some(inputs[0].slot)
    } else {
        first_matching_input(inputs.drop_first(), item)
    }
}

pub open spec fn coord_in_bounds(c: Coord) -> bool {
    i32::MIN < c.x < i32::MAX && i32::MIN < c.y < i32::MAX
}

pub open spec fn keys_distinct(entries: Seq<(Coord, usize)>) -> bool {
    forall|i: int, j: int| 0 <= i < j < entries.len() ==> entries[i].0 != entries[j].0
}

impl LogisticsMap {
    /// Every construction named by the map exists, coordinates are keys of a
    /// map, and no coordinate lies on the edge of the `i32` range (a step from
    /// it would overflow).
    pub open spec fn wf(&self) -> bool {
        &&& forall|i: int| 0 <= i < self.constructions@.len() ==> #[trigger] self.constructions@[i].1
            < self.sites@.len()
        &&& keys_distinct(self.constructions@)
        &&& forall|i: int| 0 <= i < self.sites@.len() ==> coord_in_bounds(#[trigger] self.sites@[i].coord)
    }

    pub open spec fn n(&self) -> int {
        self.sites@.len() as int
    }

    pub open spec fn step(&self, e: int, d: int) -> Coord {
        Coord {
            x: (self.sites@[e].coord.x + dir_dx(d)) as i32,
            y: (self.sites@[e].coord.y + dir_dy(d)) as i32,
        }
    }

    /// The construction next to `e` in direction `d`.
    pub open spec fn neighbor(&self, e: int, d: int) -> Option<usize> {
        lookup(self.constructions@, self.step(e, d))
    }

    pub open spec fn adjacent(&self, a: int, b: int) -> bool {
        exists|d: int| 0 <= d < 4 && #[trigger] self.neighbor(a, d) == Some(b as usize)
    }

    pub open spec fn walkable(&self, e: int) -> bool {
        self.sites@[e].pathable == Some(true)
    }

    pub open spec fn matching_input(&self, e: int, item: u64) -> Option<usize> {
        match self.sites@[e].inputs {
            None => None,
            Some(v) => first_matching_input(v@, item),
        }
    }

    /// `w` is a walk that leaves `start` and passes only over walkable
    /// constructions before it ends.
    pub open spec fn is_walk(&self, start: int, w: Seq<usize>) -> bool {
        &&& w.len() >= 1
        &&& w[0] == start
        &&& forall|i: int| 0 <= i < w.len() ==> #[trigger] w[i] < self.n()
        &&& forall|i: int|
            0 <= i < w.len() - 1 ==> #[trigger] self.adjacent(w[i] as int, w[i + 1] as int)
        &&& forall|i: int| 1 <= i < w.len() - 1 ==> #[trigger] self.walkable(w[i] as int)
    }

    /// The first direction (in exploration order) in which `b` lies next to
    /// `a`; 4 when it does not.
    pub open spec fn step_dir(&self, a: int, b: int) -> int {
        if self.neighbor(a, 0) == Some(b as usize) {
            0
        } else if self.neighbor(a, 1) == Some(b as usize) {
            1
        } else if self.neighbor(a, 2) == Some(b as usize) {
            2
        } else if self.neighbor(a, 3) == Some(b as usize) {
            3
        } else {
            4
        }
    }

    /// The directions of the steps of a walk.
    pub open spec fn walk_dirs(&self, w: Seq<usize>) -> Seq<int> {
        Seq::new((w.len() - 1) as nat, |i: int| self.step_dir(w[i] as int, w[i + 1] as int))
    }

    /// `path` leads from a construction next to `start`, over walkable
    /// constructions, to a construction whose input slot `goal` takes `item`;
    /// `path` lists it backwards and visits no construction twice.
    pub open spec fn route_sound(&self, start: int, item: u64, goal: usize, path: Seq<usize>) -> bool {
        &&& path.len() >= 1
        &&& forall|i: int| 0 <= i < path.len() ==> #[trigger] path[i] < self.n()
        &&& forall|i: int| 0 <= i < path.len() ==> #[trigger] path[i] != start
        &&& self.matching_input(path[0] as int, item) == Some(goal)
        &&& forall|i: int|
            0 <= i < path.len() - 1 ==> #[trigger] self.adjacent(path[i + 1] as int, path[i] as int)
        &&& forall|i: int| 1 <= i < path.len() ==> #[trigger] self.walkable(path[i] as int)
        &&& self.adjacent(start, path.last() as int)
        &&& path.no_duplicates()
    }
}

pub(crate) fn lookup_exec(entries: &Vec<(Coord, usize)>, c: Coord) -> (r: Option<usize>)
    ensures
        r == lookup(entries@, c),
{
    let mut i: usize = 0;
    assert(entries@.subrange(0, entries@.len() as int) =~= entries@);
    while i < entries.len()
        invariant
            i <= entries@.len(),
            lookup(entries@, c) == lookup(entries@.subrange(i as int, entries@.len() as int), c),
        decreases entries.len() - i,
    {
        let ghost rest = entries@.subrange(i as int, entries@.len() as int);
        assert(rest.drop_first() =~= entries@.subrange(i + 1, entries@.len() as int));
        if entries[i].0 == c {
            return Some(entries[i].1);
        }
        i = i + 1;
    }
    assert(entries@.subrange(i as int, entries@.len() as int) =~= Seq::<(Coord, usize)>::empty());
    None
}

fn matching_input_exec(inputs: &Vec<InputSlot>, item: u64) -> (r: Option<usize>)
    ensures
        r == first_matching_input(inputs@, item),
{
    let mut i: usize = 0;
    assert(inputs@.subrange(0, inputs@.len() as int) =~= inputs@);
    while i < inputs.len()
        invariant
            i <= inputs@.len(),
            first_matching_input(inputs@, item) == first_matching_input(
                inputs@.subrange(i as int, inputs@.len() as int),
                item,
            ),
        decreases inputs.len() - i,
    {
        let ghost rest = inputs@.subrange(i as int, inputs@.len() as int);
        assert(rest.drop_first() =~= inputs@.subrange(i + 1, inputs@.len() as int));
        if inputs[i].stack_item == Some(item) {
            return Some(inputs[i].slot);
        }
        i = i + 1;
    }
    assert(inputs@.subrange(i as int, inputs@.len() as int) =~= Seq::<InputSlot>::empty());
    None
}

proof fn lemma_distinct_below(s: Seq<usize>, n: nat)
    requires
        s.no_duplicates(),
        forall|i: int| 0 <= i < s.len() ==> s[i] < n,
    ensures
        s.len() <= n,
    decreases n,
{
    if n == 0 {
        if s.len() > 0 {
            assert(s[0] < 0);
        }
    } else {
        let top = (n - 1) as usize;
        if exists|k: int| 0 <= k < s.len() && s[k] == top {
            let k = choose|k: int| 0 <= k < s.len() && s[k] == top;
            let t = s.remove(k);
            assert forall|i: int| 0 <= i < t.len() implies t[i] < (n - 1) as nat by {
                if i < k {
                    assert(t[i] == s[i]);
                } else {
                    assert(t[i] == s[i + 1]);
                }
            }
            assert forall|i: int, j: int| 0 <= i < t.len() && 0 <= j < t.len() && i != j implies t[i]
                != t[j] by {
                let si = if i < k { i } else { i + 1 };
                let sj = if j < k { j } else { j + 1 };
                assert(t[i] == s[si]);
                assert(t[j] == s[sj]);
            }
            lemma_distinct_below(t, (n - 1) as nat);
        } else {
            assert forall|i: int| 0 <= i < s.len() implies s[i] < (n - 1) as nat by {
                assert(s[i] != top);
            }
            lemma_distinct_below(s, (n - 1) as nat);
        }
    }
}

/// What the search keeps while it runs: the visited constructions, each one's
/// parent and (ghost) depth, the queue and how much of it was taken.
pub open spec fn search_inv(
    m: &LogisticsMap,
    start: int,
    item: u64,
    visited: Seq<bool>,
    parent: Seq<usize>,
    depth: Seq<nat>,
    queue: Seq<usize>,
    head: int,
    sols: Seq<PorterPath>,
) -> bool {
    let n = m.n();
    &&& visited.len() == n
    &&& parent.len() == n
    &&& depth.len() == n
    &&& 0 <= start < n
    &&& visited[start]
    &&& forall|v: int|
        0 <= v < n && #[trigger] visited[v] && v != start ==> {
            &&& parent[v] < n
            &&& visited[parent[v] as int]
            &&& m.adjacent(parent[v] as int, v)
            &&& (parent[v] == start || m.walkable(parent[v] as int))
            &&& depth[parent[v] as int] < depth[v]
        }
    &&& 1 <= queue.len()
    &&& queue[0] == start
    &&& 0 <= head <= queue.len()
    &&& queue.no_duplicates()
    &&& forall|i: int|
        0 <= i < queue.len() ==> {
            &&& #[trigger] queue[i] < n
            &&& visited[queue[i] as int]
            &&& (queue[i] == start || m.walkable(queue[i] as int))
        }
    &&& forall|v: int|
        0 <= v < n && #[trigger] visited[v] && (v == start || m.walkable(v)) ==> exists|i: int|
            0 <= i < queue.len() && queue[i] == v
    &&& forall|i: int, d: int|
        0 <= i < head && 0 <= d < 4 && (#[trigger] m.neighbor(queue[i] as int, d)) is Some ==> {
            &&& m.neighbor(queue[i] as int, d).unwrap() < n
            &&& visited[m.neighbor(queue[i] as int, d).unwrap() as int]
        }
    &&& forall|k: int|
        0 <= k < sols.len() ==> m.route_sound(start, item, #[trigger] sols[k].input, sols[k].path@)
    &&& forall|k: int| 0 <= k < sols.len() ==> visited[#[trigger] sols[k].path@[0] as int]
    &&& forall|k: int, l: int|
        0 <= k < l < sols.len() ==> #[trigger] sols[k].path@[0] != #[trigger] sols[l].path@[0]
    &&& forall|v: int|
        0 <= v < n && #[trigger] visited[v] && v != start && m.matching_input(v, item) is Some
            ==> exists|k: int| 0 <= k < sols.len() && sols[k].path@[0] == v
}

/// The depths the search keeps: the producer is at depth zero, each visited
/// construction lies one step deeper than its parent, the queue is ordered by
/// depth, the neighbours of processed entries lie at most one step deeper than
/// them, and each route found is as long as its end's depth, no shorter than
/// the routes found before it.
pub open spec fn search_depths(
    m: &LogisticsMap,
    start: int,
    visited: Seq<bool>,
    parent: Seq<usize>,
    depth: Seq<nat>,
    queue: Seq<usize>,
    head: int,
    sols: Seq<PorterPath>,
) -> bool {
    &&& depth[start] == 0
    &&& forall|v: int|
        0 <= v < m.n() && #[trigger] visited[v] && v != start ==> depth[v] == depth[parent[v] as int] + 1
    &&& forall|i: int, j: int|
        0 <= i < j < queue.len() ==> depth[#[trigger] queue[i] as int] <= depth[#[trigger] queue[j] as int]
    &&& forall|i: int, d: int|
        0 <= i < head && 0 <= d < 4 && (#[trigger] m.neighbor(queue[i] as int, d)) is Some ==> depth[m.neighbor(
            queue[i] as int,
            d,
        ).unwrap() as int] <= depth[queue[i] as int] + 1
    &&& forall|k: int| 0 <= k < sols.len() ==> (#[trigger] sols[k].path@).len() == depth[sols[k].path@[0] as int]
    &&& forall|k: int, l: int|
        0 <= k < l < sols.len() ==> (#[trigger] sols[k].path@).len() <= (#[trigger] sols[l].path@).len()
}

/// The walk that a route takes from `start`: the producer, then the path in
/// walking order.
pub open spec fn route_walk(start: int, path: Seq<usize>) -> Seq<usize> {
    seq![start as usize] + path.reverse()
}

proof fn lemma_walk_dirs_snoc(m: &LogisticsMap, w: Seq<usize>)
    requires
        w.len() >= 2,
    ensures
        m.walk_dirs(w) == m.walk_dirs(w.drop_last()).push(
            m.step_dir(w[w.len() - 2] as int, w[w.len() - 1] as int),
        ),
{
    let p = w.drop_last();
    assert forall|i: int| 0 <= i < p.len() - 1 implies #[trigger] p[i] == w[i] && p[i + 1] == w[i + 1] by {}
    assert(m.walk_dirs(w) =~= m.walk_dirs(p).push(m.step_dir(w[w.len() - 2] as int, w[w.len() - 1] as int)));
}

/// `a` comes before `b` in lexicographic order: at the first place where
/// they differ, `a` holds the smaller direction.
pub open spec fn lex_lt(a: Seq<int>, b: Seq<int>) -> bool {
    exists|i: int|
        0 <= i < a.len() && i < b.len() && #[trigger] a[i] < #[trigger] b[i] && forall|j: int|
            0 <= j < i ==> a[j] == b[j]
}

/// The order of direction sequences in which the search meets constructions:
/// shorter first, then lexicographic.
pub open spec fn key_lt(a: Seq<int>, b: Seq<int>) -> bool {
    a.len() < b.len() || (a.len() == b.len() && lex_lt(a, b))
}

pub open spec fn key_le(a: Seq<int>, b: Seq<int>) -> bool {
    a == b || key_lt(a, b)
}

proof fn lemma_lex_trans(a: Seq<int>, b: Seq<int>, c: Seq<int>)
    requires
        a.len() == b.len(),
        b.len() == c.len(),
        lex_lt(a, b),
        lex_lt(b, c),
    ensures
        lex_lt(a, c),
{
    let i = choose|i: int|
        0 <= i < a.len() && i < b.len() && #[trigger] a[i] < #[trigger] b[i] && forall|j: int|
            0 <= j < i ==> a[j] == b[j];
    let k = choose|k: int|
        0 <= k < b.len() && k < c.len() && #[trigger] b[k] < #[trigger] c[k] && forall|j: int|
            0 <= j < k ==> b[j] == c[j];
    let m = if i <= k { i } else { k };
    assert(a[m] < c[m]);
    assert(forall|j: int| 0 <= j < m ==> a[j] == c[j]);
}

proof fn lemma_key_lt_trans(a: Seq<int>, b: Seq<int>, c: Seq<int>)
    requires
        key_lt(a, b),
        key_lt(b, c),
    ensures
        key_lt(a, c),
{
    if a.len() == b.len() && b.len() == c.len() {
        lemma_lex_trans(a, b, c);
    }
}

proof fn lemma_key_le_trans(a: Seq<int>, b: Seq<int>, c: Seq<int>)
    requires
        key_le(a, b),
        key_le(b, c),
    ensures
        key_le(a, c),
{
    if a != b && b != c {
        lemma_key_lt_trans(a, b, c);
    }
}

/// Extending two sequences keeps their order when the first came strictly
/// before.
proof fn lemma_key_lt_push(a: Seq<int>, b: Seq<int>, x: int, y: int)
    requires
        key_lt(a, b),
    ensures
        key_lt(a.push(x), b.push(y)),
{
    if a.len() == b.len() {
        let i = choose|i: int|
            0 <= i < a.len() && i < b.len() && #[trigger] a[i] < #[trigger] b[i] && forall|j: int|
                0 <= j < i ==> a[j] == b[j];
        assert(a.push(x)[i] == a[i] && b.push(y)[i] == b[i]);
        assert(forall|j: int| 0 <= j < i ==> a.push(x)[j] == a[j] && b.push(y)[j] == b[j]);
    }
}

proof fn lemma_key_le_push(a: Seq<int>, b: Seq<int>, x: int)
    requires
        key_le(a, b),
    ensures
        key_le(a.push(x), b.push(x)),
{
    if a != b {
        lemma_key_lt_push(a, b, x, x);
    }
}

/// One sequence extended by two directions: the smaller comes first.
proof fn lemma_key_lt_last(a: Seq<int>, x: int, y: int)
    requires
        x < y,
    ensures
        key_lt(a.push(x), a.push(y)),
{
    let n = a.len() as int;
    assert(a.push(x)[n] < a.push(y)[n]);
    assert(forall|j: int| 0 <= j < n ==> a.push(x)[j] == a.push(y)[j]);
}

/// No visited construction lies more than one step deeper than the queue
/// entries from index `from` on.
pub open spec fn depth_bound(visited: Seq<bool>, depth: Seq<nat>, queue: Seq<usize>, from: int) -> bool {
    forall|v: int, k: int|
        #![trigger visited[v], queue[k]]
        0 <= v < visited.len() && visited[v] && from <= k < queue.len() ==> depth[v] <= depth[queue[k] as int] + 1
}

proof fn lemma_walk_reaches_visited(
    m: &LogisticsMap,
    start: int,
    item: u64,
    visited: Seq<bool>,
    parent: Seq<usize>,
    depth: Seq<nat>,
    queue: Seq<usize>,
    sols: Seq<PorterPath>,
    w: Seq<usize>,
)
    requires
        m.wf(),
        search_inv(m, start, item, visited, parent, depth, queue, queue.len() as int, sols),
        search_depths(m, start, visited, parent, depth, queue, queue.len() as int, sols),
        m.is_walk(start, w),
    ensures
        visited[w.last() as int],
        depth[w.last() as int] <= w.len() - 1,
    decreases w.len(),
{
    if w.len() == 1 {
    } else {
        let p = w.drop_last();
        assert(m.is_walk(start, p)) by {
            assert forall|i: int| 0 <= i < p.len() - 1 implies #[trigger] m.adjacent(
                p[i] as int,
                p[i + 1] as int,
            ) by {
                assert(m.adjacent(w[i] as int, w[i + 1] as int));
            }
            assert forall|i: int| 1 <= i < p.len() - 1 implies #[trigger] m.walkable(p[i] as int) by {
                assert(m.walkable(w[i] as int));
            }
            assert forall|i: int| 0 <= i < p.len() implies #[trigger] p[i] < m.n() by {
                assert(w[i] < m.n());
            }
        }
        lemma_walk_reaches_visited(m, start, item, visited, parent, depth, queue, sols, p);
        let u = w[w.len() - 2];
        assert(u < m.n());
        if w.len() - 2 == 0 {
            assert(u == start);
        } else {
            assert(m.walkable(w[w.len() - 2] as int));
        }
        let i = choose|i: int| 0 <= i < queue.len() && queue[i] == u;
        let j = w.len() - 2;
        assert(m.adjacent(w[j] as int, w[j + 1] as int));
        let d = choose|d: int| 0 <= d < 4 && #[trigger] m.neighbor(u as int, d) == Some(w.last());
        assert(m.neighbor(queue[i] as int, d) is Some);
    }
}

proof fn lemma_depth_bound_from(visited: Seq<bool>, depth: Seq<nat>, queue: Seq<usize>, from: int, later: int)
    requires
        depth_bound(visited, depth, queue, from),
        from <= later,
    ensures
        depth_bound(visited, depth, queue, later),
{
    assert forall|v: int, k: int|
        #![trigger visited[v], queue[k]]
        0 <= v < visited.len() && visited[v] && later <= k < queue.len() implies depth[v] <= depth[queue[k] as int]
            + 1 by {
        assert(from <= k);
    }
}

/// Once every neighbour of the entry at `head - 1` is visited (and no more
/// than one step deeper), that entry counts as processed.
proof fn lemma_entry_processed(
    m: &LogisticsMap,
    start: int,
    item: u64,
    visited: Seq<bool>,
    parent: Seq<usize>,
    depth: Seq<nat>,
    queue: Seq<usize>,
    head: int,
    sols: Seq<PorterPath>,
)
    requires
        0 < head <= queue.len(),
        search_inv(m, start, item, visited, parent, depth, queue, head - 1, sols),
        search_depths(m, start, visited, parent, depth, queue, head - 1, sols),
        forall|dd: int|
            0 <= dd < 4 && (#[trigger] m.neighbor(queue[head - 1] as int, dd)) is Some ==> {
                &&& m.neighbor(queue[head - 1] as int, dd).unwrap() < m.n()
                &&& visited[m.neighbor(queue[head - 1] as int, dd).unwrap() as int]
                &&& depth[m.neighbor(queue[head - 1] as int, dd).unwrap() as int] <= depth[queue[head - 1] as int] + 1
            },
    ensures
        search_inv(m, start, item, visited, parent, depth, queue, head, sols),
        search_depths(m, start, visited, parent, depth, queue, head, sols),
{
}

/// The directions of a route's walk are its end's key, when the route
/// follows parent links back to `start`.
proof fn lemma_route_keys(
    m: &LogisticsMap,
    start: int,
    visited: Seq<bool>,
    parent: Seq<usize>,
    key: Seq<Seq<int>>,
    path: Seq<usize>,
)
    requires
        path.len() >= 1,
        forall|i: int| 0 <= i < path.len() ==> #[trigger] path[i] < m.n(),
        forall|i: int| 0 <= i < path.len() ==> #[trigger] path[i] != start,
        forall|i: int| 0 <= i < path.len() ==> visited[#[trigger] path[i] as int],
        forall|i: int| 0 <= i < path.len() - 1 ==> path[i + 1] == parent[#[trigger] path[i] as int],
        parent[path.last() as int] == start,
        0 <= start <= usize::MAX,
        key[start] == Seq::<int>::empty(),
        forall|v: int|
            0 <= v < m.n() && #[trigger] visited[v] && v != start ==> key[v] == key[parent[v] as int].push(
                m.step_dir(parent[v] as int, v),
            ),
    ensures
        m.walk_dirs(route_walk(start, path)) == key[path[0] as int],
    decreases path.len(),
{
    let g = path[0];
    assert(path[0] < m.n() && visited[path[0] as int] && path[0] != start);
    let w = route_walk(start, path);
    if path.len() == 1 {
        assert(w =~= seq![start as usize, g]);
        assert(parent[g as int] == start);
        assert(m.walk_dirs(w) =~= seq![m.step_dir(start, g as int)]);
        assert(key[start].push(m.step_dir(start, g as int)) =~= seq![m.step_dir(start, g as int)]);
    } else {
        let rest = path.drop_first();
        assert forall|i: int| 0 <= i < rest.len() - 1 implies rest[i + 1] == parent[#[trigger] rest[i] as int] by {
            assert(rest[i] == path[i + 1] && rest[i + 1] == path[i + 2]);
        }
        assert forall|i: int| 0 <= i < rest.len() implies #[trigger] rest[i] < m.n() && rest[i] != start
            && visited[rest[i] as int] by {
            assert(rest[i] == path[i + 1]);
        }
        assert(rest.last() == path.last());
        lemma_route_keys(m, start, visited, parent, key, rest);
        let wr = route_walk(start, rest);
        assert(w =~= wr.push(g));
        lemma_walk_dirs_snoc(m, w);
        assert(w.drop_last() =~= wr);
        assert(w[w.len() - 2] == rest[0]);
        assert(rest[0] == parent[g as int]);
    }
}

/// Reconstructs the route to `goal_site` by following parents back to
/// `start`.
fn reconstruct(
    Ghost(m): Ghost<&LogisticsMap>,
    start: usize,
    goal_site: usize,
    parent: &Vec<usize>,
    Ghost(visited): Ghost<Seq<bool>>,
    Ghost(depth): Ghost<Seq<nat>>,
) -> (path: Vec<usize>)
    requires
        visited.len() == m.n(),
        parent@.len() == m.n(),
        depth.len() == m.n(),
        start < m.n(),
        goal_site < m.n(),
        goal_site != start,
        visited[goal_site as int],
        depth[start as int] == 0,
        forall|v: int|
            0 <= v < m.n() && #[trigger] visited[v] && v != start ==> {
                &&& parent@[v] < m.n()
                &&& visited[parent@[v] as int]
                &&& m.adjacent(parent@[v] as int, v)
                &&& (parent@[v] == start || m.walkable(parent@[v] as int))
                &&& depth[v] == depth[parent@[v] as int] + 1
            },
    ensures
        forall|i: int| 0 <= i < path@.len() - 1 ==> path@[i + 1] == parent@[#[trigger] path@[i] as int],
        parent@[path@.last() as int] == start,
        forall|i: int| 0 <= i < path@.len() ==> visited[#[trigger] path@[i] as int],
        path@.len() == depth[goal_site as int],
        path@.len() >= 1,
        path@[0] == goal_site,
        forall|i: int| 0 <= i < path@.len() ==> #[trigger] path@[i] < m.n(),
        forall|i: int| 0 <= i < path@.len() ==> #[trigger] path@[i] != start,
        forall|i: int|
            0 <= i < path@.len() - 1 ==> #[trigger] m.adjacent(path@[i + 1] as int, path@[i] as int),
        forall|i: int| 1 <= i < path@.len() ==> #[trigger] m.walkable(path@[i] as int),
        m.adjacent(start as int, path@.last() as int),
        path@.no_duplicates(),
{
    let mut path: Vec<usize> = Vec::new();
    let mut cur = goal_site;
    while cur != start
        invariant
            visited.len() == m.n(),
            parent@.len() == m.n(),
            depth.len() == m.n(),
            start < m.n(),
            goal_site < m.n(),
            goal_site != start,
            visited[goal_site as int],
            depth[start as int] == 0,
            forall|v: int|
                0 <= v < m.n() && #[trigger] visited[v] && v != start ==> {
                    &&& parent@[v] < m.n()
                    &&& visited[parent@[v] as int]
                    &&& m.adjacent(parent@[v] as int, v)
                    &&& (parent@[v] == start || m.walkable(parent@[v] as int))
                    &&& depth[v] == depth[parent@[v] as int] + 1
                },
            path@.len() + depth[cur as int] == depth[goal_site as int],
            forall|i: int| 0 <= i < path@.len() - 1 ==> path@[i + 1] == parent@[#[trigger] path@[i] as int],
            path@.len() > 0 ==> cur == parent@[path@.last() as int],
            cur < m.n(),
            visited[cur as int],
            path@.len() == 0 ==> cur == goal_site,
            path@.len() > 0 ==> path@[0] == goal_site,
            path@.len() > 0 ==> m.adjacent(cur as int, path@.last() as int),
            path@.len() > 0 && cur != start ==> m.walkable(cur as int),
            forall|i: int| 0 <= i < path@.len() ==> #[trigger] path@[i] < m.n(),
            forall|i: int| 0 <= i < path@.len() ==> #[trigger] path@[i] != start,
            forall|i: int| 0 <= i < path@.len() ==> visited[#[trigger] path@[i] as int],
            forall|i: int|
                0 <= i < path@.len() - 1 ==> #[trigger] m.adjacent(path@[i + 1] as int, path@[i] as int),
            forall|i: int| 1 <= i < path@.len() ==> #[trigger] m.walkable(path@[i] as int),
            forall|i: int, j: int|
                0 <= i < j < path@.len() ==> depth[#[trigger] path@[j] as int] < depth[
                    #[trigger] path@[i] as int],
            forall|i: int| 0 <= i < path@.len() ==> depth[cur as int] < depth[#[trigger] path@[i] as int],
        decreases depth[cur as int],
    {
        let ghost old_path = path@;
        let ghost old_cur = cur;
        path.push(cur);
        cur = parent[cur];
        assert(path@[path@.len() - 1] == old_cur);
        assert forall|i: int| 0 <= i < path@.len() - 1 implies path@[i + 1] == parent@[#[trigger] path@[i] as int] by {
            if i == path@.len() - 2 {
                assert(path@[i] == old_path.last());
            } else {
                assert(path@[i] == old_path[i]);
                assert(path@[i + 1] == old_path[i + 1]);
            }
        }
        assert forall|i: int|
            0 <= i < path@.len() - 1 implies #[trigger] m.adjacent(path@[i + 1] as int, path@[i] as int) by {
            if i == path@.len() - 2 {
                assert(path@[i] == old_path.last());
            } else {
                assert(path@[i] == old_path[i]);
                assert(path@[i + 1] == old_path[i + 1]);
            }
        }
        assert forall|i: int| 1 <= i < path@.len() implies #[trigger] m.walkable(path@[i] as int) by {
            if i == path@.len() - 1 {
            } else {
                assert(path@[i] == old_path[i]);
            }
        }
        assert forall|i: int, j: int|
            0 <= i < j < path@.len() implies depth[#[trigger] path@[j] as int] < depth[
                #[trigger] path@[i] as int] by {
            if j == path@.len() - 1 {
                if i < path@.len() - 1 {
                    assert(path@[i] == old_path[i]);
                }
            } else {
                assert(path@[i] == old_path[i]);
                assert(path@[j] == old_path[j]);
            }
        }
    }
    assert forall|i: int, j: int|
        0 <= i < path@.len() && 0 <= j < path@.len() && i != j implies path@[i] != path@[j] by {
        if i < j {
            assert(depth[path@[j] as int] < depth[path@[i] as int]);
        } else {
            assert(depth[path@[i] as int] < depth[path@[j] as int]);
        }
    }
    path
}

/// Finds every route from the producer `start` to an input slot that takes
/// `item`: a breadth-first search over the constructions, which steps only onto
/// walkable ones and records each construction with a matching input slot the
/// first time it is reached. Neighbours are explored in the directions +x,
/// -x, +y, -y, and a construction's route is the one by which it is first
/// reached. So each route is a shortest one, and among the shortest walks to
/// its end it takes the one whose directions come first in lexicographic
/// order (in the order above); and the routes come in that order too: nearest
/// first, then by their directions.
#[verifier::spinoff_prover]
#[verifier::rlimit(100)]
pub fn pathfind(m: &LogisticsMap, start: usize, item: u64) -> (routes: Vec<PorterPath>)
    requires
        m.wf(),
        start < m.sites@.len(),
    ensures
        forall|k: int|
            0 <= k < routes@.len() ==> m.route_sound(
                start as int,
                item,
                #[trigger] routes@[k].input,
                routes@[k].path@,
            ),
        forall|k: int, l: int|
            0 <= k < l < routes@.len() ==> #[trigger] routes@[k].path@[0]
                != #[trigger] routes@[l].path@[0],
        forall|w: Seq<usize>|
            #![trigger m.is_walk(start as int, w)]
            m.is_walk(start as int, w) && w.last() != start && m.matching_input(
                w.last() as int,
                item,
            ) is Some ==> exists|k: int| 0 <= k < routes@.len() && routes@[k].path@[0] == w.last(),
        forall|k: int, w: Seq<usize>|
            #![trigger routes@[k], m.is_walk(start as int, w)]
            0 <= k < routes@.len() && m.is_walk(start as int, w) && w.last() == routes@[k].path@[0]
                ==> routes@[k].path@.len() <= w.len() - 1,
        forall|k: int, l: int|
            0 <= k < l < routes@.len() ==> (#[trigger] routes@[k].path@).len() <= (
            #[trigger] routes@[l].path@).len(),
        forall|k: int, w: Seq<usize>|
            #![trigger routes@[k], m.is_walk(start as int, w)]
            0 <= k < routes@.len() && m.is_walk(start as int, w) && w.last() == routes@[k].path@[0]
                ==> key_le(m.walk_dirs(route_walk(start as int, routes@[k].path@)), m.walk_dirs(w)),
        forall|k: int, l: int|
            0 <= k < l < routes@.len() ==> key_lt(
                m.walk_dirs(route_walk(start as int, (#[trigger] routes@[k]).path@)),
                m.walk_dirs(route_walk(start as int, (#[trigger] routes@[l]).path@)),
            ),
{
    let n = m.sites.len();
    let mut visited: Vec<bool> = Vec::new();
    let mut parent: Vec<usize> = Vec::new();
    let mut i: usize = 0;
    while i < n
        invariant
            n == m.sites@.len(),
            i <= n,
            visited@.len() == i,
            parent@.len() == i,
            forall|j: int| 0 <= j < i ==> !visited@[j],
        decreases n - i,
    {
        visited.push(false);
        parent.push(0);
        i = i + 1;
    }
    let ghost mut depth: Seq<nat> = Seq::new(n as nat, |j: int| 0nat);
    let ghost mut key: Seq<Seq<int>> = Seq::new(n as nat, |j: int| Seq::<int>::empty());
    let ghost mut ppos: Seq<int> = Seq::new(n as nat, |j: int| 0int);
    visited.set(start, true);
    let mut queue: Vec<usize> = Vec::new();
    queue.push(start);
    let mut head: usize = 0;
    let mut routes: Vec<PorterPath> = Vec::new();
    assert(search_inv(m, start as int, item, visited@, parent@, depth, queue@, head as int, routes@))
        by {
        assert forall|v: int|
            0 <= v < n && #[trigger] visited@[v] && (v == start || m.walkable(v)) implies exists|i: int|
            0 <= i < queue@.len() && queue@[i] == v by {
            assert(v == start);
            assert(queue@[0] == v);
        }
    }
    while head < queue.len()
        invariant
            n == m.sites@.len(),
            m.wf(),
            search_inv(m, start as int, item, visited@, parent@, depth, queue@, head as int, routes@),
            search_depths(m, start as int, visited@, parent@, depth, queue@, head as int, routes@),
            depth_bound(visited@, depth, queue@, if head > 0 { head - 1 } else { 0 }),
            search_keys(m, start as int, visited@, parent@, key, ppos, queue@, head as int, head as int, routes@),
        decreases n - head,
    {
        proof {
            lemma_distinct_below(queue@, n as nat);
        }
        let current = queue[head];
        proof {
            lemma_depth_bound_from(visited@, depth, queue@, if head > 0 { head - 1 } else { 0 }, head as int);
            lemma_keys_enter(m, start as int, visited@, parent@, key, ppos, queue@, head as int, routes@);
        }
        head = head + 1;
        let c = m.sites[current].coord;
        let mut d: usize = 0;
        while d < 4
            invariant
                n == m.sites@.len(),
                m.wf(),
                0 < head <= queue@.len(),
                current == queue@[head - 1],
                c == m.sites@[current as int].coord,
                d <= 4,
                search_inv(
                    m,
                    start as int,
                    item,
                    visited@,
                    parent@,
                    depth,
                    queue@,
                    head - 1,
                    routes@,
                ),
                search_depths(m, start as int, visited@, parent@, depth, queue@, head - 1, routes@),
                depth_bound(visited@, depth, queue@, head - 1),
                search_keys(m, start as int, visited@, parent@, key, ppos, queue@, head - 1, head as int, routes@),
                round_keys(m, start as int, visited@, ppos, current as int, head - 1, d as int),
                forall|dd: int|
                    0 <= dd < d && (#[trigger] m.neighbor(current as int, dd)) is Some ==> {
                        &&& m.neighbor(current as int, dd).unwrap() < n
                        &&& visited@[m.neighbor(current as int, dd).unwrap() as int]
                        &&& depth[m.neighbor(current as int, dd).unwrap() as int] <= depth[current as int] + 1
                        &&& key_le(
                            key[m.neighbor(current as int, dd).unwrap() as int],
                            key[current as int].push(dd),
                        )
                    },
            decreases 4 - d,
        {
            proof {
                assert(coord_in_bounds(m.sites@[current as int].coord));
            }
            let next = if d == 0 {
                Coord { x: c.x + 1, y: c.y }
            } else if d == 1 {
                Coord { x: c.x - 1, y: c.y }
            } else if d == 2 {
                Coord { x: c.x, y: c.y + 1 }
            } else {
                Coord { x: c.x, y: c.y - 1 }
            };
            assert(next == m.step(current as int, d as int));
            let found = lookup_exec(&m.constructions, next);
            assert(found == m.neighbor(current as int, d as int));
            if let Some(nb) = found {
                proof {
                    lemma_lookup_in(m.constructions@, next);
                }
                if !visited[nb] {
                    let ghost old_visited = visited@;
                    let ghost old_routes = routes@;
                    let ghost old_queue = queue@;
                    let ghost old_parent = parent@;
                    let ghost old_depth = depth;
                    let ghost old_key = key;
                    let ghost old_ppos = ppos;
                    visited.set(nb, true);
                    parent.set(nb, current);
                    proof {
                        depth = depth.update(nb as int, depth[current as int] + 1);
                        key = key.update(nb as int, key[current as int].push(d as int));
                        ppos = ppos.update(nb as int, head - 1);
                        assert(m.adjacent(current as int, nb as int));
                    }
                    let goal = match &m.sites[nb].inputs {
                        None => None,
                        Some(inputs) => matching_input_exec(inputs, item),
                    };
                    assert(goal == m.matching_input(nb as int, item));
                    if let Some(g) = goal {
                        let path = reconstruct(
                            Ghost(m),
                            start,
                            nb,
                            &parent,
                            Ghost(visited@),
                            Ghost(depth),
                        );
                        routes.push(PorterPath { input: g, path });
                        assert(routes@.drop_last() =~= old_routes);
                        assert(routes@.last().path@[0] == nb);
                        assert(routes@.last().path@.len() == depth[nb as int]);
                    }
                    let walk = match m.sites[nb].pathable {
                        Some(w) => w,
                        None => false,
                    };
                    if walk {
                        queue.push(nb);
                    }
                    proof {
                        lemma_visit_step(
                            m,
                            start as int,
                            item,
                            old_visited,
                            visited@,
                            old_parent,
                            parent@,
                            old_depth,
                            depth,
                            old_queue,
                            queue@,
                            head as int - 1,
                            old_routes,
                            routes@,
                            current as int,
                            nb as int,
                        );
                        lemma_visit_depths(
                            m,
                            start as int,
                            item,
                            old_visited,
                            visited@,
                            old_parent,
                            parent@,
                            old_depth,
                            depth,
                            old_queue,
                            queue@,
                            head as int - 1,
                            old_routes,
                            routes@,
                            current as int,
                            nb as int,
                        );
                        lemma_visit_keys(
                            m,
                            start as int,
                            item,
                            old_visited,
                            visited@,
                            old_parent,
                            parent@,
                            old_depth,
                            old_key,
                            key,
                            old_ppos,
                            ppos,
                            old_queue,
                            queue@,
                            head as int - 1,
                            old_routes,
                            routes@,
                            current as int,
                            nb as int,
                            d as int,
                        );
                    }
                } else {
                    proof {
                        lemma_before_current(
                            m,
                            start as int,
                            item,
                            visited@,
                            parent@,
                            depth,
                            key,
                            ppos,
                            queue@,
                            head as int - 1,
                            routes@,
                            current as int,
                            d as int,
                            nb as int,
                        );
                    }
                }
            }
            d = d + 1;
        }
        proof {
            lemma_entry_keys(m, start as int, visited@, parent@, key, ppos, queue@, head as int - 1, routes@);
            lemma_entry_processed(
                m,
                start as int,
                item,
                visited@,
                parent@,
                depth,
                queue@,
                head as int,
                routes@,
            );
        }
    }
    proof {
        assert forall|k: int, w: Seq<usize>|
            #![trigger routes@[k], m.is_walk(start as int, w)]
            0 <= k < routes@.len() && m.is_walk(start as int, w) && w.last() == routes@[k].path@[0]
                implies key_le(m.walk_dirs(route_walk(start as int, routes@[k].path@)), m.walk_dirs(w)) by {
            lemma_walk_keys(m, start as int, item, visited@, parent@, depth, key, ppos, queue@, routes@, w);
        }
        assert forall|k: int, w: Seq<usize>|
            #![trigger routes@[k], m.is_walk(start as int, w)]
            0 <= k < routes@.len() && m.is_walk(start as int, w) && w.last() == routes@[k].path@[0]
                implies routes@[k].path@.len() <= w.len() - 1 by {
            lemma_walk_reaches_visited(m, start as int, item, visited@, parent@, depth, queue@, routes@, w);
        }
        assert forall|w: Seq<usize>|
            #![trigger m.is_walk(start as int, w)]
            m.is_walk(start as int, w) && w.last() != start && m.matching_input(
                w.last() as int,
                item,
            ) is Some implies exists|k: int|
            0 <= k < routes@.len() && routes@[k].path@[0] == w.last() by {
            lemma_walk_reaches_visited(
                m,
                start as int,
                item,
                visited@,
                parent@,
                depth,
                queue@,
                routes@,
                w,
            );
            assert(w.last() < n);
        }
    }
    routes
}

proof fn lemma_lookup_in(entries: Seq<(Coord, usize)>, c: Coord)
    requires
        lookup(entries, c) is Some,
    ensures
        exists|i: int| 0 <= i < entries.len() && entries[i].1 == lookup(entries, c).unwrap(),
    decreases entries.len(),
{
    if entries[0].0 == c {
        assert(entries[0].1 == lookup(entries, c).unwrap());
    } else {
        lemma_lookup_in(entries.drop_first(), c);
        let i = choose|i: int|
            0 <= i < entries.drop_first().len() && entries.drop_first()[i].1 == lookup(
                entries.drop_first(),
                c,
            ).unwrap();
        assert(entries[i + 1].1 == lookup(entries, c).unwrap());
    }
}

/// The order in which the search meets constructions. Each visited
/// construction has a key: the directions of the steps from `start` along its
/// parents. A construction's key extends its parent's by the first direction
/// that leads from the parent to it; each parent sits in the queue before
/// index `seen`; the queue is in strictly increasing key order; a neighbour
/// of an entry processed before index `done` has a key no later than that
/// entry's key extended by the step to it; each route's walk has its end's
/// key as its directions, and routes are in increasing key order.
pub open spec fn search_keys(
    m: &LogisticsMap,
    start: int,
    visited: Seq<bool>,
    parent: Seq<usize>,
    key: Seq<Seq<int>>,
    ppos: Seq<int>,
    queue: Seq<usize>,
    done: int,
    seen: int,
    sols: Seq<PorterPath>,
) -> bool {
    &&& key.len() == m.n()
    &&& ppos.len() == m.n()
    &&& key[start] == Seq::<int>::empty()
    &&& forall|v: int|
        0 <= v < m.n() && #[trigger] visited[v] && v != start ==> {
            &&& key[v] == key[parent[v] as int].push(m.step_dir(parent[v] as int, v))
            &&& 0 <= ppos[v] < seen
            &&& ppos[v] < queue.len()
            &&& queue[ppos[v]] == parent[v]
        }
    &&& forall|i: int, j: int|
        0 <= i < j < queue.len() ==> key_lt(key[#[trigger] queue[i] as int], key[#[trigger] queue[j] as int])
    &&& forall|i: int, d: int|
        0 <= i < done && 0 <= d < 4 && (#[trigger] m.neighbor(queue[i] as int, d)) is Some ==> key_le(
            key[m.neighbor(queue[i] as int, d).unwrap() as int],
            key[queue[i] as int].push(d),
        )
    &&& forall|k: int|
        0 <= k < sols.len() ==> m.walk_dirs(route_walk(start, (#[trigger] sols[k]).path@)) == key[sols[k].path@[0] as int]
    &&& forall|k: int, l: int|
        0 <= k < l < sols.len() ==> key_lt(
            key[(#[trigger] sols[k]).path@[0] as int],
            key[(#[trigger] sols[l]).path@[0] as int],
        )
}

/// While the entry at `h` is processed, up to direction `d`: the
/// constructions it discovered lie in earlier directions.
pub open spec fn round_keys(
    m: &LogisticsMap,
    start: int,
    visited: Seq<bool>,
    ppos: Seq<int>,
    current: int,
    h: int,
    d: int,
) -> bool {
    forall|v: int|
        0 <= v < m.n() && #[trigger] visited[v] && v != start && ppos[v] == h ==> m.step_dir(current, v) < d
}

/// The step from `current` in direction `d` to a construction not visited
/// yet, after every earlier direction led to a visited one (or nowhere), is
/// the first direction in which it lies.
proof fn lemma_step_dir_first(m: &LogisticsMap, visited: Seq<bool>, current: int, nb: int, d: int)
    requires
        0 <= d < 4,
        visited.len() == m.n(),
        0 <= nb < m.n(),
        nb <= usize::MAX,
        m.neighbor(current, d) == Some(nb as usize),
        !visited[nb],
        forall|dd: int|
            0 <= dd < d && (#[trigger] m.neighbor(current, dd)) is Some ==> m.neighbor(current, dd).unwrap() < m.n()
                && visited[m.neighbor(current, dd).unwrap() as int],
    ensures
        m.step_dir(current, nb) == d,
{
    if d > 0 && m.neighbor(current, 0) is Some {
        assert(visited[m.neighbor(current, 0).unwrap() as int]);
    }
    if d > 1 && m.neighbor(current, 1) is Some {
        assert(visited[m.neighbor(current, 1).unwrap() as int]);
    }
    if d > 2 && m.neighbor(current, 2) is Some {
        assert(visited[m.neighbor(current, 2).unwrap() as int]);
    }
}

/// Every construction visited before `current`'s step in direction `d` comes
/// before that step in key order.
proof fn lemma_before_current(
    m: &LogisticsMap,
    start: int,
    item: u64,
    visited: Seq<bool>,
    parent: Seq<usize>,
    depth: Seq<nat>,
    key: Seq<Seq<int>>,
    ppos: Seq<int>,
    queue: Seq<usize>,
    h: int,
    sols: Seq<PorterPath>,
    current: int,
    d: int,
    v: int,
)
    requires
        0 <= h < queue.len(),
        current == queue[h],
        search_inv(m, start, item, visited, parent, depth, queue, h, sols),
        search_keys(m, start, visited, parent, key, ppos, queue, h, h + 1, sols),
        round_keys(m, start, visited, ppos, current, h, d),
        0 <= v < m.n(),
        visited[v],
    ensures
        key_lt(key[v], key[current].push(d)),
{
    if v == start {
        assert(key[v].len() == 0);
    } else {
        let p = parent[v] as int;
        let pp = ppos[v];
        let sd = m.step_dir(p, v);
        if pp < h {
            assert(key_lt(key[queue[pp] as int], key[queue[h] as int]));
            lemma_key_lt_push(key[p], key[current], sd, d);
        } else {
            assert(pp == h);
            assert(p == current);
            assert(sd < d);
            lemma_key_lt_last(key[p], sd, d);
        }
    }
}

/// Visiting a new construction `nb` from `current` in direction `d` keeps
/// the search's key order.
#[verifier::spinoff_prover]
#[verifier::rlimit(40)]
proof fn lemma_visit_keys(
    m: &LogisticsMap,
    start: int,
    item: u64,
    old_visited: Seq<bool>,
    visited: Seq<bool>,
    op: Seq<usize>,
    parent: Seq<usize>,
    od: Seq<nat>,
    ok: Seq<Seq<int>>,
    key: Seq<Seq<int>>,
    oppos: Seq<int>,
    ppos: Seq<int>,
    old_queue: Seq<usize>,
    queue: Seq<usize>,
    h: int,
    old_routes: Seq<PorterPath>,
    routes: Seq<PorterPath>,
    current: int,
    nb: int,
    d: int,
)
    requires
        m.wf(),
        0 <= h < old_queue.len(),
        current == old_queue[h],
        0 <= nb < m.n(),
        nb <= usize::MAX,
        !old_visited[nb],
        0 <= d < 4,
        m.neighbor(current, d) == Some(nb as usize),
        forall|dd: int|
            0 <= dd < d && (#[trigger] m.neighbor(current, dd)) is Some ==> m.neighbor(current, dd).unwrap() < m.n()
                && old_visited[m.neighbor(current, dd).unwrap() as int],
        visited == old_visited.update(nb, true),
        search_inv(m, start, item, old_visited, op, od, old_queue, h, old_routes),
        search_keys(m, start, old_visited, op, ok, oppos, old_queue, h, h + 1, old_routes),
        round_keys(m, start, old_visited, oppos, current, h, d),
        parent == op.update(nb, current as usize),
        key == ok.update(nb, ok[current].push(d)),
        ppos == oppos.update(nb, h),
        queue == old_queue.push(nb as usize) || queue == old_queue,
        routes == old_routes || ({
            let path = routes.last().path@;
            &&& routes.len() == old_routes.len() + 1
            &&& routes.drop_last() == old_routes
            &&& path[0] == nb
            &&& m.route_sound(start, item, routes.last().input, path)
            &&& forall|i: int| 0 <= i < path.len() ==> visited[#[trigger] path[i] as int]
            &&& forall|i: int| 0 <= i < path.len() - 1 ==> path[i + 1] == parent[#[trigger] path[i] as int]
            &&& parent[path.last() as int] == start
        }),
    ensures
        search_keys(m, start, visited, parent, key, ppos, queue, h, h + 1, routes),
        round_keys(m, start, visited, ppos, current, h, d + 1),
        key_le(key[nb], key[current].push(d)),
{
    let n = m.n();
    assert(old_queue[h] < n && old_visited[old_queue[h] as int]);
    assert(current != nb);
    assert(nb != start);
    assert(key[current] == ok[current]);
    assert(key[start] == ok[start]);
    lemma_step_dir_first(m, old_visited, current, nb, d);
    assert forall|v: int|
        0 <= v < n && #[trigger] visited[v] && v != start implies {
            &&& key[v] == key[parent[v] as int].push(m.step_dir(parent[v] as int, v))
            &&& 0 <= ppos[v] < h + 1
            &&& ppos[v] < queue.len()
            &&& queue[ppos[v]] == parent[v]
        } by {
        if v != nb {
            assert(old_visited[v]);
            assert(old_visited[op[v] as int]);
            assert(op[v] != nb);
            assert(queue[oppos[v]] == old_queue[oppos[v]]);
        } else {
            assert(queue[h] == old_queue[h]);
        }
    }
    assert forall|i: int, j: int|
        0 <= i < j < queue.len() implies key_lt(key[#[trigger] queue[i] as int], key[#[trigger] queue[j] as int]) by {
        assert(queue[i] == old_queue[i]);
        assert(old_visited[old_queue[i] as int]);
        if j < old_queue.len() {
            assert(queue[j] == old_queue[j]);
            assert(old_visited[old_queue[j] as int]);
        } else {
            assert(queue == old_queue.push(nb as usize));
            assert(queue[j] == nb);
            lemma_before_current(
                m, start, item, old_visited, op, od, ok, oppos, old_queue, h, old_routes, current, d,
                old_queue[i] as int,
            );
        }
    }
    assert forall|i: int, dd: int|
        0 <= i < h && 0 <= dd < 4 && (#[trigger] m.neighbor(queue[i] as int, dd)) is Some implies key_le(
            key[m.neighbor(queue[i] as int, dd).unwrap() as int],
            key[queue[i] as int].push(dd),
        ) by {
        assert(queue[i] == old_queue[i]);
        assert(old_visited[old_queue[i] as int]);
        assert(m.neighbor(old_queue[i] as int, dd) is Some);
        let w = m.neighbor(old_queue[i] as int, dd).unwrap() as int;
        assert(old_visited[w]);
    }
    assert forall|k: int|
        0 <= k < routes.len() implies m.walk_dirs(route_walk(start, (#[trigger] routes[k]).path@)) == key[
            routes[k].path@[0] as int] by {
        if k < old_routes.len() {
            assert(routes[k] == old_routes[k]);
            assert(old_visited[old_routes[k].path@[0] as int]);
            assert(m.route_sound(start, item, old_routes[k].input, old_routes[k].path@));
            assert(old_routes[k].path@[0] != nb);
        } else {
            assert(routes[k] == routes.last());
            lemma_route_keys(m, start, visited, parent, key, routes.last().path@);
        }
    }
    assert forall|k: int, l: int|
        0 <= k < l < routes.len() implies key_lt(
            key[(#[trigger] routes[k]).path@[0] as int],
            key[(#[trigger] routes[l]).path@[0] as int],
        ) by {
        assert(routes[k] == old_routes[k]);
        let e = old_routes[k].path@[0] as int;
        assert(m.route_sound(start, item, old_routes[k].input, old_routes[k].path@));
        assert(old_visited[e]);
        assert(e != nb);
        if l < old_routes.len() {
            assert(routes[l] == old_routes[l]);
            assert(old_visited[old_routes[l].path@[0] as int]);
            assert(m.route_sound(start, item, old_routes[l].input, old_routes[l].path@));
        } else {
            assert(routes[l] == routes.last());
            lemma_before_current(m, start, item, old_visited, op, od, ok, oppos, old_queue, h, old_routes, current, d, e);
        }
    }
    assert forall|v: int|
        0 <= v < n && #[trigger] visited[v] && v != start && ppos[v] == h implies m.step_dir(current, v) < d + 1 by {
        if v != nb {
            assert(old_visited[v]);
        }
    }
}

/// Taking the entry at `h` off the queue: nothing was discovered from it yet.
proof fn lemma_keys_enter(
    m: &LogisticsMap,
    start: int,
    visited: Seq<bool>,
    parent: Seq<usize>,
    key: Seq<Seq<int>>,
    ppos: Seq<int>,
    queue: Seq<usize>,
    h: int,
    sols: Seq<PorterPath>,
)
    requires
        0 <= h < queue.len(),
        search_keys(m, start, visited, parent, key, ppos, queue, h, h, sols),
    ensures
        search_keys(m, start, visited, parent, key, ppos, queue, h, h + 1, sols),
        round_keys(m, start, visited, ppos, queue[h] as int, h, 0),
{
}

/// Once every neighbour of the entry at `h` is visited (and no later in key
/// order than the step to it), that entry counts as processed.
proof fn lemma_entry_keys(
    m: &LogisticsMap,
    start: int,
    visited: Seq<bool>,
    parent: Seq<usize>,
    key: Seq<Seq<int>>,
    ppos: Seq<int>,
    queue: Seq<usize>,
    h: int,
    sols: Seq<PorterPath>,
)
    requires
        0 <= h < queue.len(),
        search_keys(m, start, visited, parent, key, ppos, queue, h, h + 1, sols),
        forall|dd: int|
            0 <= dd < 4 && (#[trigger] m.neighbor(queue[h] as int, dd)) is Some ==> key_le(
                key[m.neighbor(queue[h] as int, dd).unwrap() as int],
                key[queue[h] as int].push(dd),
            ),
    ensures
        search_keys(m, start, visited, parent, key, ppos, queue, h + 1, h + 1, sols),
{
}

/// When the search is over, no walk from `start` reaches a construction with
/// directions earlier in key order than that construction's key.
proof fn lemma_walk_keys(
    m: &LogisticsMap,
    start: int,
    item: u64,
    visited: Seq<bool>,
    parent: Seq<usize>,
    depth: Seq<nat>,
    key: Seq<Seq<int>>,
    ppos: Seq<int>,
    queue: Seq<usize>,
    sols: Seq<PorterPath>,
    w: Seq<usize>,
)
    requires
        m.wf(),
        search_inv(m, start, item, visited, parent, depth, queue, queue.len() as int, sols),
        search_depths(m, start, visited, parent, depth, queue, queue.len() as int, sols),
        search_keys(m, start, visited, parent, key, ppos, queue, queue.len() as int, queue.len() as int, sols),
        m.is_walk(start, w),
    ensures
        key_le(key[w.last() as int], m.walk_dirs(w)),
    decreases w.len(),
{
    if w.len() == 1 {
        assert(m.walk_dirs(w) =~= Seq::<int>::empty());
    } else {
        let p = w.drop_last();
        assert(m.is_walk(start, p)) by {
            assert forall|i: int| 0 <= i < p.len() - 1 implies #[trigger] m.adjacent(
                p[i] as int,
                p[i + 1] as int,
            ) by {
                assert(m.adjacent(w[i] as int, w[i + 1] as int));
            }
            assert forall|i: int| 1 <= i < p.len() - 1 implies #[trigger] m.walkable(p[i] as int) by {
                assert(m.walkable(w[i] as int));
            }
            assert forall|i: int| 0 <= i < p.len() implies #[trigger] p[i] < m.n() by {
                assert(w[i] < m.n());
            }
        }
        lemma_walk_keys(m, start, item, visited, parent, depth, key, ppos, queue, sols, p);
        lemma_walk_reaches_visited(m, start, item, visited, parent, depth, queue, sols, p);
        let u = w[w.len() - 2];
        let v = w[w.len() - 1];
        assert(u < m.n());
        if w.len() - 2 == 0 {
            assert(u == start);
        } else {
            assert(m.walkable(w[w.len() - 2] as int));
        }
        let i = choose|i: int| 0 <= i < queue.len() && queue[i] == u;
        let j = w.len() - 2;
        assert(m.adjacent(w[j] as int, w[j + 1] as int));
        let d0 = choose|d: int| 0 <= d < 4 && #[trigger] m.neighbor(u as int, d) == Some(v);
        let d = m.step_dir(u as int, v as int);
        assert(0 <= d < 4 && m.neighbor(u as int, d) == Some(v)) by {
            assert(m.neighbor(u as int, d0) == Some(v));
        }
        assert(m.neighbor(queue[i] as int, d) is Some);
        assert(key_le(key[v as int], key[u as int].push(d)));
        lemma_key_le_push(key[u as int], m.walk_dirs(p), d);
        lemma_walk_dirs_snoc(m, w);
        lemma_key_le_trans(key[v as int], key[u as int].push(d), m.walk_dirs(p).push(d));
    }
}

/// Visiting a new construction `nb` from `current` keeps the search's depths:
/// `nb` lies one step deeper than `current`, which no visited construction
/// exceeds by more than one step.
#[verifier::spinoff_prover]
#[verifier::rlimit(40)]
proof fn lemma_visit_depths(
    m: &LogisticsMap,
    start: int,
    item: u64,
    old_visited: Seq<bool>,
    visited: Seq<bool>,
    op: Seq<usize>,
    parent: Seq<usize>,
    od: Seq<nat>,
    depth: Seq<nat>,
    old_queue: Seq<usize>,
    queue: Seq<usize>,
    head: int,
    old_routes: Seq<PorterPath>,
    routes: Seq<PorterPath>,
    current: int,
    nb: int,
)
    requires
        m.wf(),
        0 <= head < old_queue.len(),
        current == old_queue[head],
        0 <= nb < m.n(),
        nb <= usize::MAX,
        !old_visited[nb],
        visited == old_visited.update(nb, true),
        search_inv(m, start, item, old_visited, op, od, old_queue, head, old_routes),
        search_depths(m, start, old_visited, op, od, old_queue, head, old_routes),
        depth_bound(old_visited, od, old_queue, head),
        parent == op.update(nb, current as usize),
        depth == od.update(nb, od[current] + 1),
        queue == old_queue.push(nb as usize) || queue == old_queue,
        routes == old_routes || (routes.len() == old_routes.len() + 1 && routes.drop_last() == old_routes
            && routes.last().path@[0] == nb && routes.last().path@.len() == depth[nb]),
    ensures
        search_depths(m, start, visited, parent, depth, queue, head, routes),
        depth_bound(visited, depth, queue, head),
        depth[nb] == depth[current] + 1,
{
    let n = m.n();
    assert(old_queue[head] < n && old_visited[old_queue[head] as int]);
    assert(current != nb);
    assert(nb != start);
    assert(depth[current] == od[current]);
    assert(depth[start] == od[start]);
    assert forall|v: int|
        0 <= v < n && #[trigger] visited[v] && v != start implies depth[v] == depth[parent[v] as int] + 1 by {
        if v != nb {
            assert(old_visited[v]);
            assert(old_visited[op[v] as int]);
            assert(op[v] != nb);
        }
    }
    assert forall|i: int, d: int|
        0 <= i < head && 0 <= d < 4 && (#[trigger] m.neighbor(queue[i] as int, d)) is Some implies depth[m.neighbor(
            queue[i] as int,
            d,
        ).unwrap() as int] <= depth[queue[i] as int] + 1 by {
        assert(queue[i] == old_queue[i]);
        assert(old_visited[old_queue[i] as int]);
        assert(m.neighbor(old_queue[i] as int, d) is Some);
        let w = m.neighbor(old_queue[i] as int, d).unwrap() as int;
        assert(old_visited[w]);
    }
    assert forall|i: int, j: int|
        0 <= i < j < queue.len() implies depth[#[trigger] queue[i] as int] <= depth[#[trigger] queue[j] as int] by {
        assert(queue[i] == old_queue[i]);
        assert(old_visited[old_queue[i] as int]);
        if j < old_queue.len() {
            assert(queue[j] == old_queue[j]);
            assert(old_visited[old_queue[j] as int]);
        } else {
            assert(queue == old_queue.push(nb as usize));
            assert(queue[j] == nb);
            assert(od[old_queue[i] as int] <= od[old_queue[head] as int] + 1);
        }
    }
    assert forall|v: int, k: int|
        #![trigger visited[v], queue[k]]
        0 <= v < visited.len() && visited[v] && head <= k < queue.len() implies depth[v] <= depth[queue[k] as int]
            + 1 by {
        if k < old_queue.len() {
            assert(queue[k] == old_queue[k]);
            assert(old_visited[old_queue[k] as int]);
            if v == nb {
                if k > head {
                    assert(od[old_queue[head] as int] <= od[old_queue[k] as int]);
                }
            } else {
                assert(old_visited[v]);
                assert(od[v] <= od[old_queue[k] as int] + 1);
            }
        } else {
            assert(queue == old_queue.push(nb as usize));
            assert(queue[k] == nb);
            if v != nb {
                assert(old_visited[v]);
                assert(od[v] <= od[old_queue[head] as int] + 1);
            }
        }
    }
    assert forall|k: int| 0 <= k < routes.len() implies (#[trigger] routes[k].path@).len() == depth[routes[k].path@[0] as int] by {
        if k < old_routes.len() {
            assert(routes[k] == old_routes[k]);
            assert(old_visited[old_routes[k].path@[0] as int]);
            assert(m.route_sound(start, item, old_routes[k].input, old_routes[k].path@));
            assert(old_routes[k].path@[0] != nb);
        } else {
            assert(routes[k] == routes.last());
        }
    }
    assert forall|k: int, l: int|
        0 <= k < l < routes.len() implies (#[trigger] routes[k].path@).len() <= (#[trigger] routes[l].path@).len() by {
        assert(routes[k] == old_routes[k]);
        if l < old_routes.len() {
            assert(routes[l] == old_routes[l]);
        } else {
            let e = old_routes[k].path@[0] as int;
            assert(m.route_sound(start, item, old_routes[k].input, old_routes[k].path@));
            assert(old_visited[e]);
            assert(old_routes[k].path@.len() == od[e]);
            assert(od[e] <= od[old_queue[head] as int] + 1);
            assert(routes[l] == routes.last());
        }
    }
}

/// Visiting a new construction `nb` from `current` keeps the search's
/// invariant.
proof fn lemma_visit_step(
    m: &LogisticsMap,
    start: int,
    item: u64,
    old_visited: Seq<bool>,
    visited: Seq<bool>,
    op: Seq<usize>,
    parent: Seq<usize>,
    od: Seq<nat>,
    depth: Seq<nat>,
    old_queue: Seq<usize>,
    queue: Seq<usize>,
    head: int,
    old_routes: Seq<PorterPath>,
    routes: Seq<PorterPath>,
    current: int,
    nb: int,
)
    requires
        m.wf(),
        0 <= head < old_queue.len(),
        current == old_queue[head],
        0 <= nb < m.n(),
        nb <= usize::MAX,
        !old_visited[nb],
        m.adjacent(current, nb),
        visited == old_visited.update(nb, true),
        search_inv(m, start, item, old_visited, op, od, old_queue, head, old_routes),
        parent == op.update(nb, current as usize),
        depth == od.update(nb, od[current] + 1),
        (m.walkable(nb) && queue == old_queue.push(nb as usize)) || (!m.walkable(nb) && queue
            == old_queue),
        (m.matching_input(nb, item) is None && routes == old_routes) || (m.matching_input(
            nb,
            item,
        ) is Some && routes.len() == old_routes.len() + 1 && routes.drop_last() == old_routes
            && routes.last().path@[0] == nb && m.route_sound(
            start,
            item,
            routes.last().input,
            routes.last().path@,
        )),
    ensures
        search_inv(m, start, item, visited, parent, depth, queue, head, routes),
{
    let n = m.n();
    assert(nb != start);
    assert forall|v: int|
        0 <= v < n && #[trigger] visited[v] && v != start implies {
            &&& parent[v] < n
            &&& visited[parent[v] as int]
            &&& m.adjacent(parent[v] as int, v)
            &&& (parent[v] == start || m.walkable(parent[v] as int))
            &&& depth[parent[v] as int] < depth[v]
        } by {
        if v == nb {
            assert(old_queue[head] < n);
        } else {
            assert(old_visited[v]);
            assert(parent[v] == op[v]);
            assert(op[v] != nb);
        }
    }
    assert forall|i: int|
        0 <= i < queue.len() implies {
            &&& #[trigger] queue[i] < n
            &&& visited[queue[i] as int]
            &&& (queue[i] == start || m.walkable(queue[i] as int))
        } by {
        if i < old_queue.len() {
            assert(queue[i] == old_queue[i]);
            assert(old_queue[i] < n);
        } else {
            assert(m.walkable(nb));
            assert(queue == old_queue.push(nb as usize));
            assert(queue[i] == nb);
        }
    }
    assert(queue.no_duplicates()) by {
        if queue != old_queue {
            assert forall|i: int, j: int|
                0 <= i < queue.len() && 0 <= j < queue.len() && i != j implies queue[i]
                != queue[j] by {
                if i < old_queue.len() && j < old_queue.len() {
                } else if i < old_queue.len() {
                    assert(old_visited[old_queue[i] as int]);
                } else {
                    assert(old_visited[old_queue[j] as int]);
                }
            }
        }
    }
    assert forall|v: int|
        0 <= v < n && #[trigger] visited[v] && (v == start || m.walkable(v)) implies exists|i: int|
        0 <= i < queue.len() && queue[i] == v by {
        if v == nb {
            assert(queue[queue.len() - 1] == v);
        } else {
            let i = choose|i: int| 0 <= i < old_queue.len() && old_queue[i] == v;
            assert(queue[i] == v);
        }
    }
    assert forall|i: int, d: int|
        0 <= i < head && 0 <= d < 4 && (#[trigger] m.neighbor(queue[i] as int, d)) is Some implies {
            &&& m.neighbor(queue[i] as int, d).unwrap() < n
            &&& visited[m.neighbor(queue[i] as int, d).unwrap() as int]
        } by {
        assert(queue[i] == old_queue[i]);
    }
    assert forall|k: int| 0 <= k < routes.len() implies m.route_sound(
        start,
        item,
        #[trigger] routes[k].input,
        routes[k].path@,
    ) by {
        if k < old_routes.len() {
            assert(routes[k] == old_routes[k]);
        } else {
            assert(routes[k] == routes.last());
        }
    }
    assert forall|k: int| 0 <= k < routes.len() implies visited[#[trigger] routes[k].path@[0] as int] by {
        if k < old_routes.len() {
            assert(routes[k] == old_routes[k]);
            assert(old_visited[old_routes[k].path@[0] as int]);
            assert(m.route_sound(start, item, old_routes[k].input, old_routes[k].path@));
            assert(old_routes[k].path@[0] < n);
        } else {
            assert(m.matching_input(nb, item) is Some);
            assert(routes[k] == routes.last());
            assert(visited[nb]);
        }
    }
    assert forall|k: int, l: int|
        0 <= k < l < routes.len() implies #[trigger] routes[k].path@[0] != #[trigger] routes[l].path@[0] by {
        assert(routes[k] == old_routes[k]);
        if l < old_routes.len() {
            assert(routes[l] == old_routes[l]);
        } else {
            assert(old_visited[old_routes[k].path@[0] as int]);
        }
    }
    assert forall|v: int|
        0 <= v < n && #[trigger] visited[v] && v != start && m.matching_input(v, item) is Some implies exists|k: int|
        0 <= k < routes.len() && routes[k].path@[0] == v by {
        if v == nb {
            assert(routes[routes.len() - 1].path@[0] == v);
        } else {
            assert(old_visited[v]);
            let k = choose|k: int| 0 <= k < old_routes.len() && old_routes[k].path@[0] == v;
            assert(routes[k] == old_routes[k]);
        }
    }
}

} // verus!
