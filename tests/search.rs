use astar_grid::grid::{is_destination, is_unblocked, is_valid, Grid};
use astar_grid::heuristic::{calculate_h_value, manhattan, Heuristic};
use astar_grid::search::{a_star, a_star_search, SearchError};
use std::collections::VecDeque;

fn grid_of(rows: &[&str]) -> Grid {
    let cells: Vec<Vec<bool>> = rows
        .iter()
        .map(|r| r.chars().map(|ch| ch == '.').collect())
        .collect();
    Grid::from_rows(&cells).unwrap()
}

fn two_walls() -> Grid {
    grid_of(&[".....", ".###.", ".....", ".###.", "....."])
}

fn bfs_len(rows: &[Vec<bool>], s: (usize, usize), t: (usize, usize)) -> Option<usize> {
    let h = rows.len();
    let w = rows[0].len();
    if !rows[s.0][s.1] || !rows[t.0][t.1] {
        return None;
    }
    let mut dist = vec![vec![usize::MAX; w]; h];
    let mut q = VecDeque::new();
    dist[s.0][s.1] = 0;
    q.push_back(s);
    while let Some((r, c)) = q.pop_front() {
        let mut next = Vec::new();
        if r > 0 {
            next.push((r - 1, c));
        }
        if r + 1 < h {
            next.push((r + 1, c));
        }
        if c > 0 {
            next.push((r, c - 1));
        }
        if c + 1 < w {
            next.push((r, c + 1));
        }
        for (nr, nc) in next {
            if rows[nr][nc] && dist[nr][nc] == usize::MAX {
                dist[nr][nc] = dist[r][c] + 1;
                q.push_back((nr, nc));
            }
        }
    }
    if dist[t.0][t.1] == usize::MAX {
        None
    } else {
        Some(dist[t.0][t.1] + 1)
    }
}

fn check_route(rows: &[Vec<bool>], p: &[(usize, usize)], s: (usize, usize), t: (usize, usize)) {
    assert_eq!(p[0], s);
    assert_eq!(*p.last().unwrap(), t);
    for &(r, c) in p {
        assert!(rows[r][c]);
    }
    for w in p.windows(2) {
        let d = w[0].0.abs_diff(w[1].0) + w[0].1.abs_diff(w[1].1);
        assert_eq!(d, 1);
    }
}

#[test]
fn two_walls_route_has_nine_cells() {
    let g = two_walls();
    for h in [Heuristic::Manhattan, Heuristic::Euclidean] {
        let p = a_star_search(&g, (0, 0), (4, 4), h).unwrap();
        assert_eq!(p.len(), 9);
        let rows: Vec<Vec<bool>> = [".....", ".###.", ".....", ".###.", "....."]
            .iter()
            .map(|r| r.chars().map(|ch| ch == '.').collect())
            .collect();
        check_route(&rows, &p, (0, 0), (4, 4));
        assert!(p.iter().any(|&(r, c)| r == 1 && (c == 0 || c == 4)));
        assert!(p.iter().any(|&(r, c)| r == 3 && (c == 0 || c == 4)));
    }
}

#[test]
fn blocked_goal_is_not_found() {
    let g = grid_of(&["...", "...", "..#"]);
    assert_eq!(a_star_search(&g, (0, 0), (2, 2), Heuristic::Manhattan), Err(SearchError::NotFound));
    assert_eq!(a_star_search(&g, (0, 0), (2, 2), Heuristic::Euclidean), Err(SearchError::NotFound));
}

#[test]
fn blocked_start_is_not_found() {
    let g = grid_of(&["#..", "...", "..."]);
    assert_eq!(a_star_search(&g, (0, 0), (2, 2), Heuristic::Manhattan), Err(SearchError::NotFound));
}

#[test]
fn walled_off_goal_is_not_found() {
    let g = grid_of(&["..#..", "..#..", "..#.."]);
    assert_eq!(a_star_search(&g, (0, 0), (0, 4), Heuristic::Manhattan), Err(SearchError::NotFound));
    assert_eq!(a_star_search(&g, (0, 0), (0, 4), Heuristic::Euclidean), Err(SearchError::NotFound));
}

#[test]
fn one_cell_grid() {
    let g = grid_of(&["."]);
    assert_eq!(a_star_search(&g, (0, 0), (0, 0), Heuristic::Manhattan), Ok(vec![(0, 0)]));
    assert_eq!(a_star_search(&g, (0, 0), (0, 0), Heuristic::Euclidean), Ok(vec![(0, 0)]));
}

#[test]
fn start_equals_goal() {
    let g = two_walls();
    assert_eq!(a_star_search(&g, (2, 2), (2, 2), Heuristic::Manhattan), Ok(vec![(2, 2)]));
    assert_eq!(a_star_search(&g, (1, 1), (1, 1), Heuristic::Manhattan), Err(SearchError::NotFound));
}

#[test]
fn out_of_bounds_is_invalid() {
    let g = two_walls();
    assert_eq!(
        a_star_search(&g, (5, 0), (4, 4), Heuristic::Manhattan),
        Err(SearchError::InvalidCoordinate)
    );
    assert_eq!(
        a_star_search(&g, (0, 0), (0, 5), Heuristic::Euclidean),
        Err(SearchError::InvalidCoordinate)
    );
}

#[test]
fn neighbour_goal_gives_two_cells() {
    let g = grid_of(&["..", ".."]);
    assert_eq!(a_star_search(&g, (0, 0), (0, 1), Heuristic::Manhattan), Ok(vec![(0, 0), (0, 1)]));
}

#[test]
fn matches_breadth_first_lengths() {
    let mut seed: u64 = 12345;
    for _ in 0..60 {
        let mut rows = Vec::new();
        for _ in 0..6 {
            let mut row = Vec::new();
            for _ in 0..7 {
                seed = seed.wrapping_mul(6364136223846793005).wrapping_add(1442695040888963407);
                row.push((seed >> 33) % 10 >= 3);
            }
            rows.push(row);
        }
        let g = Grid::from_rows(&rows).unwrap();
        for s in [(0, 0), (2, 3), (5, 6)] {
            for t in [(5, 6), (0, 6), (3, 1)] {
                let want = bfs_len(&rows, s, t);
                for h in [Heuristic::Manhattan, Heuristic::Euclidean] {
                    match a_star_search(&g, s, t, h) {
                        Ok(p) => {
                            assert_eq!(Some(p.len()), want);
                            check_route(&rows, &p, s, t);
                        }
                        Err(e) => {
                            assert_eq!(e, SearchError::NotFound);
                            assert_eq!(want, None);
                        }
                    }
                }
            }
        }
    }
}

#[test]
fn heuristics_agree_on_length() {
    let g = grid_of(&["......", ".####.", "......", "###.##", "......"]);
    let a = a_star_search(&g, (0, 0), (4, 0), Heuristic::Manhattan).unwrap();
    let b = a_star_search(&g, (0, 0), (4, 0), Heuristic::Euclidean).unwrap();
    assert_eq!(a.len(), b.len());
    assert_eq!(a.len(), 11);
}

#[test]
fn repeated_search_is_identical() {
    let g = two_walls();
    let a = a_star_search(&g, (0, 0), (4, 4), Heuristic::Euclidean);
    let b = a_star_search(&g, (0, 0), (4, 4), Heuristic::Euclidean);
    assert_eq!(a, b);
}

#[test]
fn manhattan_only_variant() {
    let g = two_walls();
    assert_eq!(a_star(&g, (0, 0), (4, 4)).len(), 9);
    assert!(a_star(&g, (0, 0), (1, 2)).is_empty());
    assert!(a_star(&g, (0, 0), (9, 9)).is_empty());
}

#[test]
fn heuristic_values() {
    assert_eq!(manhattan(1, 2, 4, 6), 7);
    assert_eq!(manhattan(4, 6, 1, 2), 7);
    assert_eq!(calculate_h_value(0, 0, (3, 4), Heuristic::Euclidean), 5);
    assert_eq!(calculate_h_value(0, 0, (1, 1), Heuristic::Euclidean), 1);
    assert_eq!(calculate_h_value(5, 5, (2, 1), Heuristic::Euclidean), 5);
    assert_eq!(calculate_h_value(0, 0, (2, 3), Heuristic::Euclidean), 3);
    assert_eq!(calculate_h_value(0, 0, (3, 4), Heuristic::Manhattan), 7);
    assert_eq!(calculate_h_value(7, 7, (7, 7), Heuristic::Euclidean), 0);
}

#[test]
fn grid_queries() {
    let g = grid_of(&[".#", ".."]);
    assert_eq!(g.rows(), 2);
    assert_eq!(g.cols(), 2);
    assert!(is_valid(&g, 1, 1));
    assert!(!is_valid(&g, 2, 0));
    assert!(!is_unblocked(&g, 0, 1));
    assert!(is_unblocked(&g, 1, 0));
    assert!(is_destination(3, 4, (3, 4)));
    assert!(!is_destination(4, 3, (3, 4)));
}

#[test]
fn ragged_rows_are_refused() {
    let rows = vec![vec![true, true], vec![true]];
    assert!(Grid::from_rows(&rows).is_none());
    let empty: Vec<Vec<bool>> = Vec::new();
    let g = Grid::from_rows(&empty).unwrap();
    assert_eq!(
        a_star_search(&g, (0, 0), (0, 0), Heuristic::Manhattan),
        Err(SearchError::InvalidCoordinate)
    );
}
