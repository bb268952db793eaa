use vstd::prelude::*;
use crate::grid::{Grid, GridView, ix, lemma_ix_bounds, lemma_ix_injective, lemma_dist_fits, step, lemma_step, is_valid, is_unblocked, is_destination};
use crate::heuristic::{Heuristic, adjacent, h_value, calculate_h_value, lemma_h_consistent, lemma_h_next_to_goal, lemma_h_at_goal};
use crate::route::{is_route, reachable, is_shortest_route, lemma_potential_bound, lemma_separated, lemma_shortest_routes_agree};

verus! {

/// Why a search produced no route.
#[derive(Clone, Copy, PartialEq, Eq, Structural, Debug)]
pub enum SearchError {
    /// The start or the goal lies outside the grid.
    InvalidCoordinate,
    /// No route of free cells joins the start to the goal.
    NotFound,
}

/// What the search knows of a cell it has reached: the cost `g` of the
/// best route found from the start, the estimate `h` of the cost still to
/// go, their sum `f`, and the cell the best route came from (`None` for the
/// start).
#[derive(Clone, Copy)]
pub struct CellRecord {
    pub g: usize,
    pub h: usize,
    pub f: u128,
    pub pred: Option<(usize, usize)>,
}

/// The entry of a per-cell table that belongs to cell `v`.
pub open spec fn at<T>(g: GridView, tbl: Seq<T>, v: (usize, usize)) -> T {
    tbl[ix(g.cols, v.0 as int, v.1 as int)]
}

pub proof fn lemma_at_update<T>(g: GridView, tbl: Seq<T>, v: (usize, usize), x: T, w: (usize, usize))
    requires
        g.in_bounds(v),
        g.in_bounds(w),
        tbl.len() == g.rows * g.cols,
    ensures
        at(g, tbl.update(ix(g.cols, v.0 as int, v.1 as int), x), w) == if w == v {
            x
        } else {
            at(g, tbl, w)
        },
{
    lemma_ix_bounds(g.rows, g.cols, v.0 as int, v.1 as int);
    lemma_ix_bounds(g.rows, g.cols, w.0 as int, w.1 as int);
    if w != v && ix(g.cols, v.0 as int, v.1 as int) == ix(g.cols, w.0 as int, w.1 as int) {
        lemma_ix_injective(g.cols, v.0 as int, v.1 as int, w.0 as int, w.1 as int);
    }
}

/// Following the recorded predecessor of a reached cell `w` leads one move
/// back towards `s`, at a cost one lower; the chain ends at `s`, at cost 0.
pub open spec fn link_ok(g: GridView, s: (usize, usize), recs: Seq<Option<CellRecord>>, w: (usize, usize)) -> bool {
    g.in_bounds(w) && at(g, recs, w) is Some ==> {
        let r = at(g, recs, w)->Some_0;
        &&& g.is_free(w)
        &&& r.pred is None ==> w == s && r.g == 0
        &&& r.pred matches Some(u) ==> {
            &&& g.in_bounds(u)
            &&& adjacent(u, w)
            &&& at(g, recs, u) is Some
            &&& at(g, recs, u)->Some_0.g + 1 == r.g
        }
    }
}

pub open spec fn chain_ok(g: GridView, s: (usize, usize), recs: Seq<Option<CellRecord>>) -> bool {
    &&& recs.len() == g.rows * g.cols
    &&& forall|w: (usize, usize)| #[trigger] link_ok(g, s, recs, w)
}

/// Walks the predecessor links back from `from` to the start and returns the
/// cells met, start first.
pub fn reconstruct_path(
    grid: &Grid,
    records: &Vec<Option<CellRecord>>,
    start: (usize, usize),
    from: (usize, usize),
) -> (path: Vec<(usize, usize)>)
    requires
        grid.wf(),
        chain_ok(grid@, start, records@),
        grid@.in_bounds(from),
        at(grid@, records@, from) is Some,
    ensures
        is_route(grid@, path@, start, from),
        path@.len() == at(grid@, records@, from)->Some_0.g + 1,
{
    let ghost g = grid@;
    let ghost recs = records@;
    let mut rev: Vec<(usize, usize)> = Vec::new();
    let mut v = from;
    loop
        invariant
            grid.wf(),
            g == grid@,
            recs == records@,
            chain_ok(g, start, recs),
            g.in_bounds(v),
            at(g, recs, v) is Some,
            rev@.len() + at(g, recs, v)->Some_0.g == at(g, recs, from)->Some_0.g,
            rev@.len() > 0 ==> rev@[0] == from && adjacent(rev@.last(), v),
            rev@.len() == 0 ==> v == from,
            forall|i: int| 0 <= i < rev@.len() ==> g.is_free(#[trigger] rev@[i]),
            forall|i: int| 0 <= i < rev@.len() - 1 ==> adjacent(#[trigger] rev@[i], rev@[i + 1]),
        ensures
            at(g, recs, v)->Some_0.pred is None,
            g.in_bounds(v),
            at(g, recs, v) is Some,
            rev@.len() + at(g, recs, v)->Some_0.g == at(g, recs, from)->Some_0.g,
            rev@.len() > 0 ==> rev@[0] == from && adjacent(rev@.last(), v),
            rev@.len() == 0 ==> v == from,
            forall|i: int| 0 <= i < rev@.len() ==> g.is_free(#[trigger] rev@[i]),
            forall|i: int| 0 <= i < rev@.len() - 1 ==> adjacent(#[trigger] rev@[i], rev@[i + 1]),
        decreases at(g, recs, v)->Some_0.g,
    {
        proof {
            lemma_ix_bounds(g.rows, g.cols, v.0 as int, v.1 as int);
            assert(link_ok(g, start, recs, v));
        }
        let rec = records[v.0 * grid.cols() + v.1].unwrap();
        match rec.pred {
            None => {
                break;
            },
            Some(u) => {
                rev.push(v);
                v = u;
            },
        }
    }
    proof {
        assert(link_ok(g, start, recs, v));
    }
    rev.push(v);
    let n = rev.len();
    let mut path: Vec<(usize, usize)> = Vec::new();
    while path.len() < n
        invariant
            n == rev@.len(),
            n > 0,
            rev@[0] == from,
            rev@[n - 1] == start,
            path@.len() <= n,
            forall|k: int| 0 <= k < path@.len() ==> #[trigger] path@[k] == rev@[n - 1 - k],
        decreases n - path@.len(),
    {
        path.push(rev[n - 1 - path.len()]);
    }
    proof {
        assert forall|i: int| 0 <= i < path@.len() implies g.is_free(#[trigger] path@[i]) by {
            assert(path@[i] == rev@[n - 1 - i]);
            assert(g.is_free(rev@[n - 1 - i]));
        }
        assert forall|i: int| 0 <= i < path@.len() - 1 implies adjacent(
            #[trigger] path@[i],
            path@[i + 1],
        ) by {
            assert(path@[i] == rev@[n - 1 - i]);
            assert(path@[i + 1] == rev@[n - 2 - i]);
            assert(adjacent(rev@[n - 2 - i], rev@[n - 1 - i]));
        }
        assert(path@[0] == rev@[n - 1]);
        assert(path@[n - 1] == rev@[0]);
    }
    path
}

/// Number of cells marked in a table of flags.
pub open spec fn count_true(s: Seq<bool>) -> nat
    decreases s.len(),
{
    if s.len() == 0 {
        0
    } else {
        count_true(s.drop_last()) + if s.last() {
            1nat
        } else {
            0nat
        }
    }
}

proof fn lemma_count_le(s: Seq<bool>)
    ensures
        count_true(s) <= s.len(),
    decreases s.len(),
{
    if s.len() > 0 {
        lemma_count_le(s.drop_last());
    }
}

proof fn lemma_count_set(s: Seq<bool>, i: int)
    requires
        0 <= i < s.len(),
        !s[i],
    ensures
        count_true(s.update(i, true)) == count_true(s) + 1,
    decreases s.len(),
{
    if i == s.len() - 1 {
        assert(s.update(i, true).drop_last() =~= s.drop_last());
    } else {
        lemma_count_set(s.drop_last(), i);
        assert(s.update(i, true).drop_last() =~= s.drop_last().update(i, true));
    }
}

/// Removes and returns an entry of smallest key; of equal keys, the one
/// met first in the frontier's order.
fn pop_min(frontier: &mut Vec<(u128, usize, usize)>) -> (r: (u128, usize, usize))
    requires
        old(frontier)@.len() > 0,
    ensures
        old(frontier)@.contains(r),
        final(frontier)@.len() == old(frontier)@.len() - 1,
        forall|e| #[trigger] final(frontier)@.contains(e) ==> old(frontier)@.contains(e),
        forall|e| #[trigger] old(frontier)@.contains(e) && e != r ==> final(frontier)@.contains(e),
        forall|e| #[trigger] old(frontier)@.contains(e) ==> r.0 <= e.0,
{
    let ghost old_f = frontier@;
    let mut best: usize = 0;
    let mut k: usize = 1;
    while k < frontier.len()
        invariant
            frontier@ == old_f,
            0 <= best < k <= old_f.len(),
            forall|j: int| 0 <= j < k ==> old_f[best as int].0 <= #[trigger] old_f[j].0,
        decreases old_f.len() - k,
    {
        if frontier[k].0 < frontier[best].0 {
            best = k;
        }
        k = k + 1;
    }
    let r = frontier.swap_remove(best);
    proof {
        let n = old_f.len();
        let new_f = frontier@;
        assert(old_f[best as int] == r);
        assert forall|e| #[trigger] new_f.contains(e) implies old_f.contains(e) by {
            let j = choose|j: int| 0 <= j < new_f.len() && new_f[j] == e;
            if j == best {
                assert(old_f[n - 1] == e);
            } else {
                assert(old_f[j] == e);
            }
        }
        assert forall|e| #[trigger] old_f.contains(e) && e != r implies new_f.contains(e) by {
            let j = choose|j: int| 0 <= j < old_f.len() && old_f[j] == e;
            if j == n - 1 {
                assert(new_f[best as int] == e);
            } else {
                assert(new_f[j] == e);
            }
        }
        assert forall|e| #[trigger] old_f.contains(e) implies r.0 <= e.0 by {
            let j = choose|j: int| 0 <= j < old_f.len() && old_f[j] == e;
            assert(old_f[best as int].0 <= old_f[j].0);
        }
    }
    r
}

/// Per-cell facts the search keeps of every reached cell `v`.
pub open spec fn rec_ok(
    g: GridView,
    t: (usize, usize),
    hk: Heuristic,
    closed: Seq<bool>,
    recs: Seq<Option<CellRecord>>,
    n: nat,
    v: (usize, usize),
) -> bool {
    g.in_bounds(v) && at(g, recs, v) is Some ==> {
        let r = at(g, recs, v)->Some_0;
        &&& v != t
        &&& r.h == h_value(hk, v, t)
        &&& r.f == r.g + r.h
        &&& r.g <= n
        &&& r.pred matches Some(u) ==> g.in_bounds(u) && at(g, closed, u)
    }
}

/// The neighbour of closed cell `u` in direction `d` is not the goal and,
/// when it is free and open, has a record no worse than a move from `u`.
pub open spec fn expanded(
    g: GridView,
    t: (usize, usize),
    closed: Seq<bool>,
    recs: Seq<Option<CellRecord>>,
    u: (usize, usize),
    d: int,
) -> bool {
    step(g, u, d) matches Some(v) ==> {
        &&& v != t
        &&& g.is_free(v) && !at(g, closed, v) ==> {
            &&& at(g, recs, v) is Some
            &&& at(g, recs, v)->Some_0.g <= at(g, recs, u)->Some_0.g + 1
        }
    }
}

/// The state of the search between steps. `cur` is the cell being expanded,
/// whose directions from `dn` on are still to be handled.
pub open spec fn search_inv(
    g: GridView,
    s: (usize, usize),
    t: (usize, usize),
    hk: Heuristic,
    closed: Seq<bool>,
    recs: Seq<Option<CellRecord>>,
    frontier: Seq<(u128, usize, usize)>,
    n: nat,
    last_key: int,
    cur: (usize, usize),
    dn: int,
) -> bool {
    &&& g.wf()
    &&& closed.len() == g.rows * g.cols
    &&& n == count_true(closed)
    &&& g.is_free(s)
    &&& g.is_free(t)
    &&& s != t
    &&& at(g, recs, s) is Some
    &&& at(g, recs, s)->Some_0.g == 0
    &&& chain_ok(g, s, recs)
    &&& forall|v: (usize, usize)| #[trigger] rec_ok(g, t, hk, closed, recs, n, v)
    &&& forall|v: (usize, usize)|
        g.in_bounds(v) && #[trigger] at(g, closed, v) ==> at(g, recs, v) is Some && at(
            g,
            recs,
            v,
        )->Some_0.f <= last_key
    &&& forall|v: (usize, usize)|
        g.in_bounds(v) && !at(g, closed, v) && #[trigger] at(g, recs, v) is Some
            ==> frontier.contains((at(g, recs, v)->Some_0.f, v.0, v.1))
    &&& forall|e: (u128, usize, usize)| #[trigger]
        frontier.contains(e) ==> {
            &&& g.in_bounds((e.1, e.2))
            &&& at(g, recs, (e.1, e.2)) is Some
            &&& e.0 >= at(g, recs, (e.1, e.2))->Some_0.f
            &&& e.0 >= last_key
            &&& n == 0 ==> (e.1, e.2) == s
        }
    &&& forall|u: (usize, usize), v: (usize, usize)|
        g.in_bounds(u) && g.in_bounds(v) && #[trigger] at(g, closed, u) && #[trigger] at(
            g,
            closed,
            v,
        ) && adjacent(u, v) ==> at(g, recs, v)->Some_0.g <= at(g, recs, u)->Some_0.g + 1
    &&& forall|u: (usize, usize), d: int|
        g.in_bounds(u) && at(g, closed, u) && 0 <= d < 4 && (u != cur || d < dn)
            ==> #[trigger] expanded(g, t, closed, recs, u, d)
    &&& n > 0 ==> at(g, closed, s)
}

proof fn lemma_count_pos(s: Seq<bool>, i: int)
    requires
        0 <= i < s.len(),
        s[i],
    ensures
        count_true(s) > 0,
    decreases s.len(),
{
    if i < s.len() - 1 {
        lemma_count_pos(s.drop_last(), i);
    }
}

/// When the frontier runs dry, the closed cells hold the start, leave out
/// the goal and are closed under moves: no route joins the two.
proof fn lemma_exhausted(
    g: GridView,
    s: (usize, usize),
    t: (usize, usize),
    hk: Heuristic,
    closed: Seq<bool>,
    recs: Seq<Option<CellRecord>>,
    frontier: Seq<(u128, usize, usize)>,
    n: nat,
    lk: int,
    cur: (usize, usize),
)
    requires
        search_inv(g, s, t, hk, closed, recs, frontier, n, lk, cur, 4),
        frontier.len() == 0,
    ensures
        !reachable(g, s, t),
{
    if !at(g, closed, s) {
        assert(frontier.contains((at(g, recs, s)->Some_0.f, s.0, s.1)));
    }
    let inside = |v: (usize, usize)| g.in_bounds(v) && at(g, closed, v);
    assert(!inside(t)) by {
        assert(rec_ok(g, t, hk, closed, recs, n, t));
    }
    assert forall|u: (usize, usize), v: (usize, usize)|
        g.is_free(u) && g.is_free(v) && adjacent(u, v) && #[trigger] inside(u) implies #[trigger] inside(
        v,
    ) by {
        lemma_step(g, u, v);
        let d = choose|d: int| 0 <= d < 4 && #[trigger] step(g, u, d) == Some(v);
        assert(expanded(g, t, closed, recs, u, d));
        if !at(g, closed, v) {
            assert(frontier.contains((at(g, recs, v)->Some_0.f, v.0, v.1)));
        }
    }
    if reachable(g, s, t) {
        let p = choose|p: Seq<(usize, usize)>| #[trigger] is_route(g, p, s, t);
        lemma_separated(g, inside, p, s, t);
    }
}

/// When the goal turns up next to the cell `c` being expanded, no route
/// from the start to the goal has fewer than `g(c) + 2` cells.
proof fn lemma_found(
    g: GridView,
    s: (usize, usize),
    t: (usize, usize),
    hk: Heuristic,
    closed: Seq<bool>,
    recs: Seq<Option<CellRecord>>,
    frontier: Seq<(u128, usize, usize)>,
    n: nat,
    lk: int,
    c: (usize, usize),
    dn: int,
)
    requires
        search_inv(g, s, t, hk, closed, recs, frontier, n, lk, c, dn),
        g.in_bounds(c),
        at(g, closed, c),
        at(g, recs, c)->Some_0.f == lk,
        0 <= dn < 4,
        step(g, c, dn) == Some(t),
    ensures
        forall|q: Seq<(usize, usize)>|
            #[trigger] is_route(g, q, s, t) ==> q.len() >= at(g, recs, c)->Some_0.g + 2,
{
    lemma_ix_bounds(g.rows, g.cols, c.0 as int, c.1 as int);
    lemma_count_pos(closed, ix(g.cols, c.0 as int, c.1 as int));
    let gc = at(g, recs, c)->Some_0.g as int;
    let pot = |v: (usize, usize)|
        if g.in_bounds(v) && at(g, closed, v) {
            at(g, recs, v)->Some_0.g as int
        } else {
            lk - h_value(hk, v, t)
        };
    assert(rec_ok(g, t, hk, closed, recs, n, c));
    assert forall|u: (usize, usize), v: (usize, usize)|
        g.is_free(u) && g.is_free(v) && adjacent(u, v) implies #[trigger] pot(v) <= #[trigger] pot(u)
        + 1 by {
        lemma_h_consistent(hk, u, v, t);
        assert(rec_ok(g, t, hk, closed, recs, n, u));
        assert(rec_ok(g, t, hk, closed, recs, n, v));
        if at(g, closed, u) && !at(g, closed, v) && u != c {
            lemma_step(g, u, v);
            let d = choose|d: int| 0 <= d < 4 && #[trigger] step(g, u, d) == Some(v);
            assert(expanded(g, t, closed, recs, u, d));
            assert(frontier.contains((at(g, recs, v)->Some_0.f, v.0, v.1)));
        }
    }
    lemma_step(g, c, t);
    lemma_h_next_to_goal(hk, c, t);
    lemma_h_at_goal(hk, t);
    assert(rec_ok(g, t, hk, closed, recs, n, t));
    assert(pot(t) == gc + 1);
    assert forall|q: Seq<(usize, usize)>| #[trigger] is_route(g, q, s, t) implies q.len() >= gc + 2 by {
        lemma_potential_bound(g, pot, q, s, t);
    }
}

/// What `pop_min` promises of the frontier before and after.
pub open spec fn popped(
    old_f: Seq<(u128, usize, usize)>,
    new_f: Seq<(u128, usize, usize)>,
    e: (u128, usize, usize),
) -> bool {
    &&& old_f.contains(e)
    &&& new_f.len() == old_f.len() - 1
    &&& forall|x| #[trigger] new_f.contains(x) ==> old_f.contains(x)
    &&& forall|x| #[trigger] old_f.contains(x) && x != e ==> new_f.contains(x)
    &&& forall|x| #[trigger] old_f.contains(x) ==> e.0 <= x.0
}

/// Dropping an entry of a closed cell keeps the state sound.
proof fn lemma_pop_stale(
    g: GridView,
    s: (usize, usize),
    t: (usize, usize),
    hk: Heuristic,
    closed: Seq<bool>,
    recs: Seq<Option<CellRecord>>,
    old_f: Seq<(u128, usize, usize)>,
    new_f: Seq<(u128, usize, usize)>,
    n: nat,
    lk: int,
    cur: (usize, usize),
    e: (u128, usize, usize),
)
    requires
        search_inv(g, s, t, hk, closed, recs, old_f, n, lk, cur, 4),
        popped(old_f, new_f, e),
        at(g, closed, (e.1, e.2)),
    ensures
        search_inv(g, s, t, hk, closed, recs, new_f, n, lk, cur, 4),
{
    assert forall|v: (usize, usize)|
        g.in_bounds(v) && !at(g, closed, v) && #[trigger] at(g, recs, v) is Some implies new_f.contains(
        (at(g, recs, v)->Some_0.f, v.0, v.1),
    ) by {
        assert(old_f.contains((at(g, recs, v)->Some_0.f, v.0, v.1)));
    }
    assert forall|x: (u128, usize, usize)| #[trigger] new_f.contains(x) implies {
        &&& g.in_bounds((x.1, x.2))
        &&& at(g, recs, (x.1, x.2)) is Some
        &&& x.0 >= at(g, recs, (x.1, x.2))->Some_0.f
        &&& x.0 >= lk
        &&& n == 0 ==> (x.1, x.2) == s
    } by {
        assert(old_f.contains(x));
    }
}

/// Closing the open cell `c` popped with key `e.0` keeps the state sound,
/// with `e.0` as the new bound on closed keys and none of `c`'s directions
/// handled yet.
proof fn lemma_close(
    g: GridView,
    s: (usize, usize),
    t: (usize, usize),
    hk: Heuristic,
    closed: Seq<bool>,
    recs: Seq<Option<CellRecord>>,
    old_f: Seq<(u128, usize, usize)>,
    new_f: Seq<(u128, usize, usize)>,
    n: nat,
    lk: int,
    cur: (usize, usize),
    e: (u128, usize, usize),
)
    requires
        search_inv(g, s, t, hk, closed, recs, old_f, n, lk, cur, 4),
        popped(old_f, new_f, e),
        !at(g, closed, (e.1, e.2)),
    ensures
        ({
            let c = (e.1, e.2);
            let closed2 = closed.update(ix(g.cols, c.0 as int, c.1 as int), true);
            &&& search_inv(g, s, t, hk, closed2, recs, new_f, n + 1, e.0 as int, c, 0)
            &&& at(g, recs, c)->Some_0.f == e.0
            &&& n + 1 <= g.rows * g.cols
            &&& at(g, closed2, c)
        }),
{
    let c = (e.1, e.2);
    let ci = ix(g.cols, c.0 as int, c.1 as int);
    let closed2 = closed.update(ci, true);
    let k = e.0 as int;
    assert(old_f.contains(e));
    lemma_ix_bounds(g.rows, g.cols, c.0 as int, c.1 as int);
    lemma_count_set(closed, ci);
    lemma_count_le(closed2);
    assert(old_f.contains((at(g, recs, c)->Some_0.f, c.0, c.1)));
    assert(k == at(g, recs, c)->Some_0.f);
    assert(at(g, closed2, c)) by {
        lemma_at_update(g, closed, c, true, c);
    }
    assert forall|v: (usize, usize)| g.in_bounds(v) implies #[trigger] at(g, closed2, v) == (v == c || at(
        g,
        closed,
        v,
    )) by {
        lemma_at_update(g, closed, c, true, v);
    }
    assert(rec_ok(g, t, hk, closed, recs, n, c));
    assert(link_ok(g, s, recs, c));
    assert forall|v: (usize, usize)| #[trigger] rec_ok(g, t, hk, closed2, recs, n + 1, v) by {
        assert(rec_ok(g, t, hk, closed, recs, n, v));
        if g.in_bounds(v) && at(g, recs, v) is Some {
            if let Some(u) = at(g, recs, v)->Some_0.pred {
                assert(at(g, closed2, u));
            }
        }
    }
    assert forall|v: (usize, usize)|
        g.in_bounds(v) && #[trigger] at(g, closed2, v) implies at(g, recs, v) is Some && at(
        g,
        recs,
        v,
    )->Some_0.f <= k by {
        assert(at(g, closed2, v) == (v == c || at(g, closed, v)));
    }
    assert forall|v: (usize, usize)|
        g.in_bounds(v) && !at(g, closed2, v) && #[trigger] at(g, recs, v) is Some implies new_f.contains(
        (at(g, recs, v)->Some_0.f, v.0, v.1),
    ) by {
        assert(at(g, closed2, v) == (v == c || at(g, closed, v)));
        assert(old_f.contains((at(g, recs, v)->Some_0.f, v.0, v.1)));
    }
    assert forall|x: (u128, usize, usize)| #[trigger] new_f.contains(x) implies {
        &&& g.in_bounds((x.1, x.2))
        &&& at(g, recs, (x.1, x.2)) is Some
        &&& x.0 >= at(g, recs, (x.1, x.2))->Some_0.f
        &&& x.0 >= k
        &&& n + 1 == 0 ==> (x.1, x.2) == s
    } by {
        assert(old_f.contains(x));
    }
    assert forall|u: (usize, usize), v: (usize, usize)|
        g.in_bounds(u) && g.in_bounds(v) && #[trigger] at(g, closed2, u) && #[trigger] at(
            g,
            closed2,
            v,
        ) && adjacent(u, v) implies at(g, recs, v)->Some_0.g <= at(g, recs, u)->Some_0.g + 1 by {
        assert(at(g, closed2, u) == (u == c || at(g, closed, u)));
        assert(at(g, closed2, v) == (v == c || at(g, closed, v)));
        if u == c && v != c {
            lemma_h_consistent(hk, u, v, t);
            assert(at(g, closed, v));
            assert(rec_ok(g, t, hk, closed, recs, n, v));
        } else if v == c && u != c {
            lemma_step(g, u, v);
            let d = choose|d: int| 0 <= d < 4 && #[trigger] step(g, u, d) == Some(v);
            assert(expanded(g, t, closed, recs, u, d));
        } else if u != c && v != c {
            assert(at(g, closed, u) && at(g, closed, v));
        }
    }
    assert forall|u: (usize, usize), d: int|
        g.in_bounds(u) && at(g, closed2, u) && 0 <= d < 4 && (u != c || d < 0) implies #[trigger] expanded(
        g,
        t,
        closed2,
        recs,
        u,
        d,
    ) by {
        assert(at(g, closed2, u) == (u == c || at(g, closed, u)));
        assert(expanded(g, t, closed, recs, u, d));
        lemma_step(g, u, u);
        if let Some(v) = step(g, u, d) {
            assert(at(g, closed2, v) == (v == c || at(g, closed, v)));
        }
    }
    if n == 0 {
        assert(c == s);
    }
}

/// Direction `d` of the cell `c` under expansion leads outside the grid, to
/// a blocked cell or to a closed one: nothing changes but the count.
proof fn lemma_skip(
    g: GridView,
    s: (usize, usize),
    t: (usize, usize),
    hk: Heuristic,
    closed: Seq<bool>,
    recs: Seq<Option<CellRecord>>,
    frontier: Seq<(u128, usize, usize)>,
    n: nat,
    lk: int,
    c: (usize, usize),
    d: int,
)
    requires
        search_inv(g, s, t, hk, closed, recs, frontier, n, lk, c, d),
        0 <= d < 4,
        step(g, c, d) matches Some(v) ==> v != t && (!g.is_free(v) || at(g, closed, v)),
    ensures
        search_inv(g, s, t, hk, closed, recs, frontier, n, lk, c, d + 1),
{
    assert forall|u: (usize, usize), d2: int|
        g.in_bounds(u) && at(g, closed, u) && 0 <= d2 < 4 && (u != c || d2 < d + 1) implies #[trigger] expanded(
        g,
        t,
        closed,
        recs,
        u,
        d2,
    ) by {
        if u != c || d2 < d {
            assert(expanded(g, t, closed, recs, u, d2));
        }
    }
}

/// Direction `d` of `c` leads to an open cell whose record is already no
/// worse than a move from `c`: nothing changes but the count.
proof fn lemma_keep(
    g: GridView,
    s: (usize, usize),
    t: (usize, usize),
    hk: Heuristic,
    closed: Seq<bool>,
    recs: Seq<Option<CellRecord>>,
    frontier: Seq<(u128, usize, usize)>,
    n: nat,
    lk: int,
    c: (usize, usize),
    d: int,
    v: (usize, usize),
)
    requires
        search_inv(g, s, t, hk, closed, recs, frontier, n, lk, c, d),
        g.in_bounds(c),
        0 <= d < 4,
        step(g, c, d) == Some(v),
        v != t,
        at(g, recs, v) is Some,
        at(g, recs, v)->Some_0.f <= at(g, recs, c)->Some_0.g + 1 + h_value(hk, v, t),
    ensures
        search_inv(g, s, t, hk, closed, recs, frontier, n, lk, c, d + 1),
{
    lemma_step(g, c, v);
    assert(rec_ok(g, t, hk, closed, recs, n, v));
    assert forall|u: (usize, usize), d2: int|
        g.in_bounds(u) && at(g, closed, u) && 0 <= d2 < 4 && (u != c || d2 < d + 1) implies #[trigger] expanded(
        g,
        t,
        closed,
        recs,
        u,
        d2,
    ) by {
        if u != c || d2 < d {
            assert(expanded(g, t, closed, recs, u, d2));
        }
    }
}

/// Direction `d` of `c` leads to an open cell that a move from `c` reaches
/// more cheaply than its record says: the record is replaced and a new
/// entry joins the frontier.
proof fn lemma_update(
    g: GridView,
    s: (usize, usize),
    t: (usize, usize),
    hk: Heuristic,
    closed: Seq<bool>,
    recs: Seq<Option<CellRecord>>,
    frontier: Seq<(u128, usize, usize)>,
    n: nat,
    lk: int,
    c: (usize, usize),
    d: int,
    v: (usize, usize),
    nr: CellRecord,
)
    requires
        search_inv(g, s, t, hk, closed, recs, frontier, n, lk, c, d),
        g.in_bounds(c),
        at(g, closed, c),
        at(g, recs, c)->Some_0.f == lk,
        0 <= d < 4,
        step(g, c, d) == Some(v),
        v != t,
        g.is_free(v),
        !at(g, closed, v),
        nr.g == at(g, recs, c)->Some_0.g + 1,
        nr.g <= n,
        nr.h == h_value(hk, v, t),
        nr.f == nr.g + nr.h,
        nr.pred == Some(c),
        at(g, recs, v) matches Some(r) ==> nr.f < r.f,
    ensures
        search_inv(
            g,
            s,
            t,
            hk,
            closed,
            recs.update(ix(g.cols, v.0 as int, v.1 as int), Some(nr)),
            frontier.push((nr.f, v.0, v.1)),
            n,
            lk,
            c,
            d + 1,
        ),
{
    let recs2 = recs.update(ix(g.cols, v.0 as int, v.1 as int), Some(nr));
    let f2 = frontier.push((nr.f, v.0, v.1));
    lemma_step(g, c, v);
    lemma_ix_bounds(g.rows, g.cols, v.0 as int, v.1 as int);
    lemma_ix_bounds(g.rows, g.cols, c.0 as int, c.1 as int);
    lemma_count_pos(closed, ix(g.cols, c.0 as int, c.1 as int));
    lemma_h_consistent(hk, c, v, t);
    assert(rec_ok(g, t, hk, closed, recs, n, c));
    assert forall|w: (usize, usize)| g.in_bounds(w) implies #[trigger] at(g, recs2, w) == if w == v {
        Some(nr)
    } else {
        at(g, recs, w)
    } by {
        lemma_at_update(g, recs, v, Some(nr), w);
    }
    assert(at(g, recs2, s) == at(g, recs, s));
    assert(at(g, recs2, c) == at(g, recs, c));
    assert(f2.contains((nr.f, v.0, v.1))) by {
        assert(f2[frontier.len() as int] == (nr.f, v.0, v.1));
    }
    assert forall|w: (usize, usize)| #[trigger] link_ok(g, s, recs2, w) by {
        assert(link_ok(g, s, recs, w));
        assert(rec_ok(g, t, hk, closed, recs, n, w));
        if g.in_bounds(w) && w != v && at(g, recs, w) is Some {
            if let Some(u) = at(g, recs, w)->Some_0.pred {
                assert(at(g, recs2, u) == at(g, recs, u));
            }
        }
    }
    assert forall|w: (usize, usize)| #[trigger] rec_ok(g, t, hk, closed, recs2, n, w) by {
        assert(rec_ok(g, t, hk, closed, recs, n, w));
    }
    assert forall|w: (usize, usize)|
        g.in_bounds(w) && !at(g, closed, w) && #[trigger] at(g, recs2, w) is Some implies f2.contains(
        (at(g, recs2, w)->Some_0.f, w.0, w.1),
    ) by {
        if w != v {
            let x = (at(g, recs, w)->Some_0.f, w.0, w.1);
            assert(frontier.contains(x));
            let j = choose|j: int| 0 <= j < frontier.len() && frontier[j] == x;
            assert(f2[j] == x);
        }
    }
    assert forall|x: (u128, usize, usize)| #[trigger] f2.contains(x) implies {
        &&& g.in_bounds((x.1, x.2))
        &&& at(g, recs2, (x.1, x.2)) is Some
        &&& x.0 >= at(g, recs2, (x.1, x.2))->Some_0.f
        &&& x.0 >= lk
        &&& n == 0 ==> (x.1, x.2) == s
    } by {
        if x != (nr.f, v.0, v.1) {
            let j = choose|j: int| 0 <= j < f2.len() && f2[j] == x;
            assert(j < frontier.len());
            assert(frontier[j] == x);
            assert(frontier.contains(x));
        }
    }
    assert forall|u: (usize, usize), w: (usize, usize)|
        g.in_bounds(u) && g.in_bounds(w) && #[trigger] at(g, closed, u) && #[trigger] at(
            g,
            closed,
            w,
        ) && adjacent(u, w) implies at(g, recs2, w)->Some_0.g <= at(g, recs2, u)->Some_0.g + 1 by {
        assert(at(g, closed, u) && at(g, closed, w));
    }
    assert forall|u: (usize, usize), d2: int|
        g.in_bounds(u) && at(g, closed, u) && 0 <= d2 < 4 && (u != c || d2 < d + 1) implies #[trigger] expanded(
        g,
        t,
        closed,
        recs2,
        u,
        d2,
    ) by {
        assert(at(g, recs2, u) == at(g, recs, u));
        if u != c || d2 < d {
            assert(expanded(g, t, closed, recs, u, d2));
            lemma_step(g, u, u);
            if let Some(w) = step(g, u, d2) {
                if w == v {
                    assert(rec_ok(g, t, hk, closed, recs, n, v));
                }
            }
        }
    }
}
proof fn lemma_count_zero(s: Seq<bool>)
    requires
        forall|i: int| 0 <= i < s.len() ==> !#[trigger] s[i],
    ensures
        count_true(s) == 0,
    decreases s.len(),
{
    if s.len() > 0 {
        lemma_count_zero(s.drop_last());
    }
}

/// The state before the first step: only the start is reached, and it is
/// the frontier's one entry.
proof fn lemma_init(
    g: GridView,
    s: (usize, usize),
    t: (usize, usize),
    hk: Heuristic,
    closed: Seq<bool>,
    blank: Seq<Option<CellRecord>>,
    sr: CellRecord,
)
    requires
        g.wf(),
        g.is_free(s),
        g.is_free(t),
        s != t,
        closed.len() == g.rows * g.cols,
        blank.len() == g.rows * g.cols,
        forall|i: int| 0 <= i < closed.len() ==> !#[trigger] closed[i],
        forall|i: int| 0 <= i < blank.len() ==> #[trigger] blank[i] is None,
        sr.g == 0,
        sr.h == h_value(hk, s, t),
        sr.f == sr.h,
        sr.pred is None,
    ensures
        search_inv(
            g,
            s,
            t,
            hk,
            closed,
            blank.update(ix(g.cols, s.0 as int, s.1 as int), Some(sr)),
            seq![(sr.f, s.0, s.1)],
            0,
            0,
            s,
            4,
        ),
{
    let recs = blank.update(ix(g.cols, s.0 as int, s.1 as int), Some(sr));
    let fr = seq![(sr.f, s.0, s.1)];
    lemma_count_zero(closed);
    lemma_ix_bounds(g.rows, g.cols, s.0 as int, s.1 as int);
    assert forall|w: (usize, usize)| g.in_bounds(w) implies #[trigger] at(g, recs, w) == if w == s {
        Some(sr)
    } else {
        None
    } && !at(g, closed, w) by {
        lemma_at_update(g, blank, s, Some(sr), w);
        lemma_ix_bounds(g.rows, g.cols, w.0 as int, w.1 as int);
    }
    assert(fr.contains((sr.f, s.0, s.1))) by {
        assert(fr[0] == (sr.f, s.0, s.1));
    }
    assert forall|w: (usize, usize)| #[trigger] link_ok(g, s, recs, w) by {
        if g.in_bounds(w) {
            assert(at(g, recs, w) == if w == s { Some(sr) } else { None });
        }
    }
    assert forall|w: (usize, usize)| #[trigger] rec_ok(g, t, hk, closed, recs, 0, w) by {
        if g.in_bounds(w) {
            assert(at(g, recs, w) == if w == s { Some(sr) } else { None });
        }
    }
    assert forall|w: (usize, usize)| g.in_bounds(w) && #[trigger] at(g, closed, w) implies false by {
        lemma_ix_bounds(g.rows, g.cols, w.0 as int, w.1 as int);
    }
}

/// What a search from `src` to `dest` on `g` may return: `InvalidCoordinate`
/// exactly when an end lies outside the grid, `NotFound` exactly when both
/// lie inside and no route joins them, and otherwise a shortest route; for a
/// free start equal to the goal, the route of that one cell.
pub open spec fn allowed_result(
    g: GridView,
    src: (usize, usize),
    dest: (usize, usize),
    r: Result<Vec<(usize, usize)>, SearchError>,
) -> bool {
    &&& r == Err::<Vec<(usize, usize)>, SearchError>(SearchError::InvalidCoordinate) <==> !(g.in_bounds(src)
        && g.in_bounds(dest))
    &&& r == Err::<Vec<(usize, usize)>, SearchError>(SearchError::NotFound) <==> g.in_bounds(src)
        && g.in_bounds(dest) && !reachable(g, src, dest)
    &&& r is Ok <==> reachable(g, src, dest)
    &&& r matches Ok(p) ==> is_shortest_route(g, p@, src, dest)
    &&& src == dest && g.is_free(src) ==> (r matches Ok(p) && p@ == seq![src])
}

/// Searches `grid` for a shortest route from `src` to `dest` with four-way
/// unit moves, guided by `heuristic`.
///
/// Fails with `InvalidCoordinate` when either end lies outside the grid and
/// with `NotFound` when no route of free cells joins them (a blocked end
/// included). Otherwise returns a shortest route, start first; a free start
/// equal to the goal gives the route of that one cell. Of open cells with
/// equal `f`, the one whose frontier entry comes first is expanded first.
pub fn a_star_search(grid: &Grid, src: (usize, usize), dest: (usize, usize), heuristic: Heuristic) -> (r:
    Result<Vec<(usize, usize)>, SearchError>)
    requires
        grid.wf(),
    ensures
        allowed_result(grid@, src, dest, r),
{
    let ghost g = grid@;
    if !is_valid(grid, src.0, src.1) || !is_valid(grid, dest.0, dest.1) {
        proof {
            if reachable(g, src, dest) {
                let p = choose|p: Seq<(usize, usize)>| #[trigger] is_route(g, p, src, dest);
                assert(g.is_free(p[0]));
                assert(g.is_free(p[p.len() - 1]));
            }
        }
        return Err(SearchError::InvalidCoordinate);
    }
    if !is_unblocked(grid, src.0, src.1) || !is_unblocked(grid, dest.0, dest.1) {
        proof {
            if reachable(g, src, dest) {
                let p = choose|p: Seq<(usize, usize)>| #[trigger] is_route(g, p, src, dest);
                assert(g.is_free(p[0]));
                assert(g.is_free(p[p.len() - 1]));
            }
        }
        return Err(SearchError::NotFound);
    }
    if is_destination(src.0, src.1, dest) {
        let mut p: Vec<(usize, usize)> = Vec::new();
        p.push(src);
        proof {
            assert(is_route(g, p@, src, dest));
            assert forall|q: Seq<(usize, usize)>| #[trigger] is_route(g, q, src, dest) implies p@.len()
                <= q.len() by {}
        }
        return Ok(p);
    }
    let cols = grid.cols();
    let n_cells = grid.rows() * cols;
    let mut closed: Vec<bool> = Vec::new();
    let mut records: Vec<Option<CellRecord>> = Vec::new();
    while closed.len() < n_cells
        invariant
            closed@.len() == records@.len() <= n_cells,
            forall|i: int| 0 <= i < closed@.len() ==> !#[trigger] closed@[i],
            forall|i: int| 0 <= i < records@.len() ==> #[trigger] records@[i] is None,
        decreases n_cells - closed@.len(),
    {
        closed.push(false);
        records.push(None);
    }
    proof {
        lemma_dist_fits(g, src, dest);
        lemma_ix_bounds(g.rows, g.cols, src.0 as int, src.1 as int);
    }
    let h0 = calculate_h_value(src.0, src.1, dest, heuristic);
    let sr = CellRecord { g: 0, h: h0, f: h0 as u128, pred: None };
    proof {
        lemma_init(g, src, dest, heuristic, closed@, records@, sr);
    }
    records.set(src.0 * cols + src.1, Some(sr));
    let mut frontier: Vec<(u128, usize, usize)> = Vec::new();
    frontier.push((sr.f, src.0, src.1));
    let mut n: usize = 0;
    let mut last_key: u128 = 0;
    let ghost mut cur = src;
    while frontier.len() > 0
        invariant
            grid.wf(),
            g == grid@,
            cols == g.cols,
            n_cells == g.rows * g.cols,
            n <= n_cells,
            search_inv(g, src, dest, heuristic, closed@, records@, frontier@, n as nat, last_key as int, cur, 4),
        decreases 5 * (n_cells - n) + frontier@.len(),
    {
        let ghost old_f = frontier@;
        let e = pop_min(&mut frontier);
        let c = (e.1, e.2);
        proof {
            assert(old_f.contains(e));
            lemma_ix_bounds(g.rows, g.cols, c.0 as int, c.1 as int);
        }
        let ci = c.0 * cols + c.1;
        if closed[ci] {
            proof {
                lemma_pop_stale(g, src, dest, heuristic, closed@, records@, old_f, frontier@, n as nat, last_key as int, cur, e);
            }
            continue;
        }
        proof {
            assert(rec_ok(g, dest, heuristic, closed@, records@, n as nat, c));
            lemma_close(g, src, dest, heuristic, closed@, records@, old_f, frontier@, n as nat, last_key as int, cur, e);
        }
        closed.set(ci, true);
        n = n + 1;
        last_key = e.0;
        proof {
            cur = c;
        }
        let rc = records[ci].unwrap();
        let ghost len0 = frontier@.len();
        let mut d: usize = 0;
        while d < 4
            invariant
                grid.wf(),
                g == grid@,
                cols == g.cols,
                n_cells == g.rows * g.cols,
                0 <= d <= 4,
                g.in_bounds(c),
                c == cur,
                ci == ix(g.cols, c.0 as int, c.1 as int),
                at(g, closed@, c),
                Some(rc) == at(g, records@, c),
                rc.f == last_key,
                rc.g < n <= n_cells,
                frontier@.len() <= len0 + d,
                search_inv(g, src, dest, heuristic, closed@, records@, frontier@, n as nat, last_key as int, cur, d as int),
            decreases 4 - d,
        {
            proof {
                lemma_step(g, c, c);
                assert(rec_ok(g, dest, heuristic, closed@, records@, n as nat, c));
            }
            match grid.neighbor(c, d) {
                None => {
                    proof {
                        lemma_skip(g, src, dest, heuristic, closed@, records@, frontier@, n as nat, last_key as int, c, d as int);
                    }
                },
                Some(v) => {
                    if is_destination(v.0, v.1, dest) {
                        let mut p = reconstruct_path(grid, &records, src, c);
                        p.push(dest);
                        proof {
                            lemma_found(g, src, dest, heuristic, closed@, records@, frontier@, n as nat, last_key as int, c, d as int);
                            lemma_step(g, c, dest);
                            assert forall|i: int| 0 <= i < p@.len() implies g.is_free(#[trigger] p@[i]) by {
                                if i < p@.len() - 1 {
                                    assert(p@[i] == p@.drop_last()[i]);
                                }
                            }
                            assert forall|i: int| 0 <= i < p@.len() - 1 implies adjacent(#[trigger] p@[i], p@[i + 1]) by {
                                if i < p@.len() - 2 {
                                    assert(p@[i] == p@.drop_last()[i]);
                                    assert(p@[i + 1] == p@.drop_last()[i + 1]);
                                    assert(adjacent(p@.drop_last()[i], p@.drop_last()[i + 1]));
                                } else {
                                    assert(p@[i] == c);
                                }
                            }
                            assert(is_route(g, p@, src, dest));
                        }
                        return Ok(p);
                    }
                    proof {
                        lemma_ix_bounds(g.rows, g.cols, v.0 as int, v.1 as int);
                        lemma_dist_fits(g, v, dest);
                    }
                    let vi = v.0 * cols + v.1;
                    if !closed[vi] && is_unblocked(grid, v.0, v.1) {
                        let g_new = rc.g + 1;
                        let h_new = calculate_h_value(v.0, v.1, dest, heuristic);
                        let f_new = g_new as u128 + h_new as u128;
                        let better = match records[vi] {
                            None => true,
                            Some(r) => f_new < r.f,
                        };
                        if better {
                            let nr = CellRecord { g: g_new, h: h_new, f: f_new, pred: Some(c) };
                            proof {
                                lemma_update(g, src, dest, heuristic, closed@, records@, frontier@, n as nat, last_key as int, c, d as int, v, nr);
                            }
                            let ghost r0 = records@;
                            records.set(vi, Some(nr));
                            frontier.push((f_new, v.0, v.1));
                            proof {
                                lemma_at_update(g, r0, v, Some(nr), c);
                            }
                        } else {
                            proof {
                                lemma_keep(g, src, dest, heuristic, closed@, records@, frontier@, n as nat, last_key as int, c, d as int, v);
                            }
                        }
                    } else {
                        proof {
                            lemma_skip(g, src, dest, heuristic, closed@, records@, frontier@, n as nat, last_key as int, c, d as int);
                        }
                    }
                },
            }
            d = d + 1;
        }
    }
    proof {
        lemma_exhausted(g, src, dest, heuristic, closed@, records@, frontier@, n as nat, last_key as int, cur);
    }
    Err(SearchError::NotFound)
}

/// Any two results that a search may return for the same grid and ends,
/// whichever heuristic guided each and however often it ran, agree: both
/// fail with the same error, or both succeed with routes of equal length.
pub proof fn lemma_results_agree(
    g: GridView,
    src: (usize, usize),
    dest: (usize, usize),
    r1: Result<Vec<(usize, usize)>, SearchError>,
    r2: Result<Vec<(usize, usize)>, SearchError>,
)
    requires
        allowed_result(g, src, dest, r1),
        allowed_result(g, src, dest, r2),
    ensures
        r1 is Ok <==> r2 is Ok,
        r1 is Err ==> r1 == r2,
        r1 is Ok ==> r1->Ok_0@.len() == r2->Ok_0@.len(),
{
    if r1 is Ok {
        lemma_shortest_routes_agree(g, r1->Ok_0@, r2->Ok_0@, src, dest);
    } else {
        if r1 == Err::<Vec<(usize, usize)>, SearchError>(SearchError::InvalidCoordinate) {
        } else {
            assert(r1 == Err::<Vec<(usize, usize)>, SearchError>(SearchError::NotFound));
        }
    }
}

/// A* with the Manhattan estimate; an empty route stands for "none", which
/// covers an end outside the grid or blocked as well as a cut-off goal.
pub fn a_star(grid: &Grid, start: (usize, usize), goal: (usize, usize)) -> (path: Vec<(usize, usize)>)
    requires
        grid.wf(),
    ensures
        path@.len() == 0 <==> !reachable(grid@, start, goal),
        path@.len() > 0 ==> is_shortest_route(grid@, path@, start, goal),
{
    match a_star_search(grid, start, goal, Heuristic::Manhattan) {
        Ok(p) => p,
        Err(_) => Vec::new(),
    }
}

} // verus!
