use vstd::prelude::*;
use crate::grid::GridView;
use crate::heuristic::adjacent;

verus! {

/// `p` walks from `s` to `t` over free cells, one orthogonal move at a time.
pub open spec fn is_route(g: GridView, p: Seq<(usize, usize)>, s: (usize, usize), t: (usize, usize)) -> bool {
    &&& p.len() > 0
    &&& p[0] == s
    &&& p.last() == t
    &&& forall|i: int| 0 <= i < p.len() ==> g.is_free(#[trigger] p[i])
    &&& forall|i: int| 0 <= i < p.len() - 1 ==> adjacent(#[trigger] p[i], p[i + 1])
}

pub open spec fn reachable(g: GridView, s: (usize, usize), t: (usize, usize)) -> bool {
    exists|p: Seq<(usize, usize)>| #[trigger] is_route(g, p, s, t)
}

/// `p` is a route from `s` to `t` and no route between them has fewer cells.
pub open spec fn is_shortest_route(
    g: GridView,
    p: Seq<(usize, usize)>,
    s: (usize, usize),
    t: (usize, usize),
) -> bool {
    &&& is_route(g, p, s, t)
    &&& forall|q: Seq<(usize, usize)>| #[trigger] is_route(g, q, s, t) ==> p.len() <= q.len()
}

/// A potential that is at most zero at `s` and grows by at most one per move
/// between free cells bounds from below the number of moves of every route.
pub proof fn lemma_potential_bound(
    g: GridView,
    pot: spec_fn((usize, usize)) -> int,
    p: Seq<(usize, usize)>,
    s: (usize, usize),
    t: (usize, usize),
)
    requires
        is_route(g, p, s, t),
        pot(s) <= 0,
        forall|u: (usize, usize), v: (usize, usize)|
            g.is_free(u) && g.is_free(v) && adjacent(u, v) ==> #[trigger] pot(v) <= #[trigger] pot(u)
                + 1,
    ensures
        pot(t) <= p.len() - 1,
    decreases p.len(),
{
    if p.len() > 1 {
        let q = p.drop_last();
        let u = q.last();
        assert(is_route(g, q, s, u)) by {
            assert forall|i: int| 0 <= i < q.len() - 1 implies adjacent(#[trigger] q[i], q[i + 1]) by {
                assert(adjacent(p[i], p[i + 1]));
            }
            assert forall|i: int| 0 <= i < q.len() implies g.is_free(#[trigger] q[i]) by {
                assert(g.is_free(p[i]));
            }
        }
        lemma_potential_bound(g, pot, q, s, u);
        assert(adjacent(p[p.len() - 2], p[p.len() - 1]));
        assert(g.is_free(p[p.len() - 2]));
        assert(g.is_free(p[p.len() - 1]));
    }
}

/// A set of cells that holds `s`, leaves out `t`, and is closed under moves
/// between free cells separates `s` from `t`.
pub proof fn lemma_separated(
    g: GridView,
    inside: spec_fn((usize, usize)) -> bool,
    p: Seq<(usize, usize)>,
    s: (usize, usize),
    t: (usize, usize),
)
    requires
        is_route(g, p, s, t),
        inside(s),
        forall|u: (usize, usize), v: (usize, usize)|
            g.is_free(u) && g.is_free(v) && adjacent(u, v) && #[trigger] inside(u) ==> #[trigger] inside(
                v,
            ),
    ensures
        inside(t),
    decreases p.len(),
{
    if p.len() > 1 {
        let q = p.drop_last();
        let u = q.last();
        assert(is_route(g, q, s, u)) by {
            assert forall|i: int| 0 <= i < q.len() - 1 implies adjacent(#[trigger] q[i], q[i + 1]) by {
                assert(adjacent(p[i], p[i + 1]));
            }
            assert forall|i: int| 0 <= i < q.len() implies g.is_free(#[trigger] q[i]) by {
                assert(g.is_free(p[i]));
            }
        }
        lemma_separated(g, inside, q, s, u);
        assert(adjacent(p[p.len() - 2], p[p.len() - 1]));
        assert(g.is_free(p[p.len() - 2]));
        assert(g.is_free(p[p.len() - 1]));
    }
}

/// Two shortest routes between the same cells have the same length.
pub proof fn lemma_shortest_routes_agree(
    g: GridView,
    p1: Seq<(usize, usize)>,
    p2: Seq<(usize, usize)>,
    s: (usize, usize),
    t: (usize, usize),
)
    requires
        is_shortest_route(g, p1, s, t),
        is_shortest_route(g, p2, s, t),
    ensures
        p1.len() == p2.len(),
{
    assert(is_route(g, p2, s, t));
    assert(is_route(g, p1, s, t));
}

/// The only shortest route from a free cell to itself is that cell alone.
pub proof fn lemma_shortest_route_to_self(g: GridView, p: Seq<(usize, usize)>, s: (usize, usize))
    requires
        is_shortest_route(g, p, s, s),
    ensures
        p =~= seq![s],
{
    assert(is_route(g, seq![s], s, s));
}

} // verus!
