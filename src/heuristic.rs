use vstd::prelude::*;

verus! {

/// The distance estimate that guides the search towards the goal.
#[derive(Clone, Copy, PartialEq, Eq, Structural, Debug)]
pub enum Heuristic {
    /// Straight-line distance, rounded down to a whole number of moves.
    Euclidean,
    /// Sum of the row and column distances.
    Manhattan,
}

pub open spec fn diff(a: int, b: int) -> int {
    if a >= b {
        a - b
    } else {
        b - a
    }
}

pub open spec fn manhattan_dist(p: (usize, usize), q: (usize, usize)) -> int {
    diff(p.0 as int, q.0 as int) + diff(p.1 as int, q.1 as int)
}

/// Two cells are neighbours when one move up, down, left or right leads
/// from one to the other.
pub open spec fn adjacent(p: (usize, usize), q: (usize, usize)) -> bool {
    manhattan_dist(p, q) == 1
}

pub open spec fn is_floor_sqrt(s: int, r: int) -> bool {
    0 <= r && r * r <= s < (r + 1) * (r + 1)
}

pub open spec fn sq_dist(p: (usize, usize), q: (usize, usize)) -> int {
    let a = diff(p.0 as int, q.0 as int);
    let b = diff(p.1 as int, q.1 as int);
    a * a + b * b
}

/// Straight-line distance between two cells, rounded down.
pub open spec fn euclid_dist(p: (usize, usize), q: (usize, usize)) -> int {
    choose|r: int| #[trigger] is_floor_sqrt(sq_dist(p, q), r)
}

pub open spec fn h_value(h: Heuristic, p: (usize, usize), goal: (usize, usize)) -> int {
    match h {
        Heuristic::Euclidean => euclid_dist(p, goal),
        Heuristic::Manhattan => manhattan_dist(p, goal),
    }
}

proof fn lemma_floor_sqrt_exists(s: int)
    requires
        0 <= s,
    ensures
        exists|r: int| #[trigger] is_floor_sqrt(s, r),
    decreases s,
{
    if s == 0 {
        assert(is_floor_sqrt(0, 0));
    } else {
        lemma_floor_sqrt_exists(s - 1);
        let r = choose|r: int| #[trigger] is_floor_sqrt(s - 1, r);
        if (r + 1) * (r + 1) <= s {
            assert(s < (r + 2) * (r + 2)) by (nonlinear_arith)
                requires
                    s - 1 < (r + 1) * (r + 1),
                    0 <= r,
            ;
            assert(is_floor_sqrt(s, r + 1));
        } else {
            assert(is_floor_sqrt(s, r));
        }
    }
}

proof fn lemma_floor_sqrt_unique(s: int, r1: int, r2: int)
    requires
        is_floor_sqrt(s, r1),
        is_floor_sqrt(s, r2),
    ensures
        r1 == r2,
{
    if r1 < r2 {
        assert((r1 + 1) * (r1 + 1) <= r2 * r2) by (nonlinear_arith)
            requires
                0 <= r1 < r2,
        ;
    } else if r2 < r1 {
        assert((r2 + 1) * (r2 + 1) <= r1 * r1) by (nonlinear_arith)
            requires
                0 <= r2 < r1,
        ;
    }
}

/// The rounded-down straight-line distance is the one whole number whose
/// square does not exceed the squared distance while the next one's does.
pub proof fn lemma_euclid_dist(p: (usize, usize), q: (usize, usize))
    ensures
        is_floor_sqrt(sq_dist(p, q), euclid_dist(p, q)),
        0 <= euclid_dist(p, q) <= manhattan_dist(p, q),
{
    let a = diff(p.0 as int, q.0 as int);
    let b = diff(p.1 as int, q.1 as int);
    assert(0 <= a * a + b * b) by (nonlinear_arith)
        requires
            0 <= a,
            0 <= b,
    ;
    lemma_floor_sqrt_exists(sq_dist(p, q));
    let r = euclid_dist(p, q);
    assert(r <= a + b) by (nonlinear_arith)
        requires
            0 <= a,
            0 <= b,
            0 <= r,
            r * r <= a * a + b * b,
    ;
}

/// Both estimates are zero at the goal.
pub proof fn lemma_h_at_goal(h: Heuristic, goal: (usize, usize))
    ensures
        h_value(h, goal, goal) == 0,
{
    lemma_euclid_dist(goal, goal);
}

/// Both estimates never exceed the Manhattan distance, which no route of
/// unit moves can beat: they are admissible.
pub proof fn lemma_h_admissible(h: Heuristic, p: (usize, usize), goal: (usize, usize))
    ensures
        0 <= h_value(h, p, goal) <= manhattan_dist(p, goal),
{
    lemma_euclid_dist(p, goal);
}

/// A cell next to the goal is estimated one move away.
pub proof fn lemma_h_next_to_goal(h: Heuristic, p: (usize, usize), goal: (usize, usize))
    requires
        adjacent(p, goal),
    ensures
        h_value(h, p, goal) == 1,
{
    lemma_euclid_dist(p, goal);
    let a = diff(p.0 as int, goal.0 as int);
    let b = diff(p.1 as int, goal.1 as int);
    if a == 0 {
        assert(b == 1);
        assert(a * a + b * b == 1) by (nonlinear_arith)
            requires
                a == 0,
                b == 1,
        ;
    } else {
        assert(a == 1 && b == 0);
        assert(a * a + b * b == 1) by (nonlinear_arith)
            requires
                a == 1,
                b == 0,
        ;
    }
    assert(sq_dist(p, goal) == 1);
    assert(is_floor_sqrt(1, 1));
    lemma_floor_sqrt_unique(1, 1, euclid_dist(p, goal));
}

proof fn lemma_euclid_step(p: (usize, usize), q: (usize, usize), goal: (usize, usize))
    requires
        adjacent(p, q),
    ensures
        euclid_dist(q, goal) <= euclid_dist(p, goal) + 1,
{
    lemma_euclid_dist(p, goal);
    lemma_euclid_dist(q, goal);
    let a = diff(p.0 as int, goal.0 as int);
    let b = diff(p.1 as int, goal.1 as int);
    let a2 = diff(q.0 as int, goal.0 as int);
    let b2 = diff(q.1 as int, goal.1 as int);
    let r = euclid_dist(p, goal);
    let r2 = euclid_dist(q, goal);
    assert(a <= r && b <= r) by (nonlinear_arith)
        requires
            0 <= a,
            0 <= b,
            0 <= r,
            a * a + b * b < (r + 1) * (r + 1),
    ;
    assert(a2 <= a + 1 && b2 <= b + 1 && a2 + b2 <= a + b + 1);
    assert(0 <= a2 && 0 <= b2);
    assert(a2 * a2 + b2 * b2 <= a * a + b * b + 2 * r + 1) by (nonlinear_arith)
        requires
            0 <= a2 <= a + 1,
            0 <= b2 <= b + 1,
            (a2 == a + 1 && b2 <= b) || (b2 == b + 1 && a2 <= a) || (a2 <= a && b2 <= b),
            0 <= a <= r,
            0 <= b <= r,
    ;
    assert(r2 <= r + 1) by (nonlinear_arith)
        requires
            0 <= r,
            0 <= r2,
            r2 * r2 <= a2 * a2 + b2 * b2,
            a2 * a2 + b2 * b2 <= a * a + b * b + 2 * r + 1,
            a * a + b * b < (r + 1) * (r + 1),
    ;
}

/// One move changes either estimate by at most one: they are consistent.
pub proof fn lemma_h_consistent(h: Heuristic, p: (usize, usize), q: (usize, usize), goal: (usize, usize))
    requires
        adjacent(p, q),
    ensures
        h_value(h, q, goal) <= h_value(h, p, goal) + 1,
        h_value(h, p, goal) <= h_value(h, q, goal) + 1,
{
    lemma_euclid_step(p, q, goal);
    lemma_euclid_step(q, p, goal);
}

/// Manhattan distance between `(x1, y1)` and `(x2, y2)`.
pub fn manhattan(x1: usize, y1: usize, x2: usize, y2: usize) -> (r: usize)
    requires
        manhattan_dist((x1, y1), (x2, y2)) <= usize::MAX,
    ensures
        r == manhattan_dist((x1, y1), (x2, y2)),
{
    let dx = if x1 >= x2 {
        x1 - x2
    } else {
        x2 - x1
    };
    let dy = if y1 >= y2 {
        y1 - y2
    } else {
        y2 - y1
    };
    dx + dy
}

/// Largest `r` with `r * r <= s`.
fn floor_sqrt(s: u128) -> (r: u64)
    ensures
        is_floor_sqrt(s as int, r as int),
{
    let mut lo: u128 = 0;
    let mut hi: u128 = 0x1_0000_0000_0000_0000;
    assert(s < hi * hi) by (nonlinear_arith)
        requires
            hi == 0x1_0000_0000_0000_0000u128,
            s <= u128::MAX,
    ;
    while hi - lo > 1
        invariant
            lo < hi <= 0x1_0000_0000_0000_0000u128,
            lo * lo <= s,
            s < hi * hi,
        decreases hi - lo,
    {
        let mid = lo + (hi - lo) / 2;
        assert(mid * mid < 0x1_0000_0000_0000_0000_0000_0000_0000_0000) by (nonlinear_arith)
            requires
                mid < 0x1_0000_0000_0000_0000u128,
        ;
        if mid * mid <= s {
            lo = mid;
        } else {
            hi = mid;
        }
    }
    assert(hi == lo + 1);
    lo as u64
}

/// Estimated number of moves from `(row, col)` to `dest`.
pub fn calculate_h_value(row: usize, col: usize, dest: (usize, usize), heuristic: Heuristic) -> (r: usize)
    requires
        manhattan_dist((row, col), dest) <= usize::MAX,
    ensures
        r == h_value(heuristic, (row, col), dest),
{
    match heuristic {
        Heuristic::Manhattan => manhattan(row, col, dest.0, dest.1),
        Heuristic::Euclidean => {
            let dr: u128 = if row >= dest.0 {
                (row - dest.0) as u128
            } else {
                (dest.0 - row) as u128
            };
            let dc: u128 = if col >= dest.1 {
                (col - dest.1) as u128
            } else {
                (dest.1 - col) as u128
            };
            assert(dr * dr + dc * dc <= (dr + dc) * (dr + dc)) by (nonlinear_arith)
                requires
                    0 <= dr,
                    0 <= dc,
            ;
            assert((dr + dc) * (dr + dc) <= u128::MAX) by (nonlinear_arith)
                requires
                    dr + dc <= 0xffff_ffff_ffff_ffffu128,
            ;
            let r = floor_sqrt(dr * dr + dc * dc);
            proof {
                lemma_euclid_dist((row, col), dest);
                lemma_floor_sqrt_unique(
                    sq_dist((row, col), dest),
                    r as int,
                    euclid_dist((row, col), dest),
                );
            }
            r as usize
        },
    }
}

} // verus!
