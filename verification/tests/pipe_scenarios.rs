//! Scenario and property checks for the pipe maze.

use puzzles::pipe_maze::{enclosed_area, GridError, PipeMap, Tile};

/// A plain square loop around one ground cell inside filler.
const SIMPLE: &str = ".....\n.S-7.\n.|.|.\n.L-J.\n.....";

#[test]
fn simple_loop_distance_and_area() {
    assert_eq!(puzzles::pipe_maze::part_one(SIMPLE), Some(4));
    assert_eq!(puzzles::pipe_maze::part_two(SIMPLE), Some(1));
}

#[test]
fn find_start_returns_start_tile() {
    let m = PipeMap::parse(SIMPLE).unwrap();
    let (r, c) = m.get_s_pos().unwrap();
    assert_eq!(m.get(r, c), Some(Tile::Start));
}

#[test]
fn loop_is_closed_and_even() {
    let m = PipeMap::parse(SIMPLE).unwrap();
    let (len, verts) = m.get_loop_length_and_vertices().unwrap();
    assert_eq!(len, 8);
    assert!(len >= 4 && len % 2 == 0);
    assert_eq!(verts[0], (1, 1));
    assert_eq!(verts.len(), 4);
}

/// Decoy pipe segments outside the loop change nothing.
#[test]
fn decoys_change_nothing() {
    let clean = ".....\n.S-7.\n.|.|.\n.L-J.\n.....";
    let decoys = "..F7.\n.S-7.\n.|.|L\n.L-JJ\n.7F..";
    // The decoy tiles are never reached from the start, so both grids
    // trace the same loop.  (The decoys stand clear of the start cell,
    // so the first step is the same.)
    assert_eq!(
        puzzles::pipe_maze::part_one(clean),
        puzzles::pipe_maze::part_one(decoys)
    );
    assert_eq!(
        puzzles::pipe_maze::part_two(clean),
        puzzles::pipe_maze::part_two(decoys)
    );
}

/// Build a `w`-by-`h` rectangular loop with one ring of filler around it.
fn rect_grid(w: usize, h: usize) -> String {
    let mut rows: Vec<String> = Vec::new();
    let blank = ".".repeat(w + 2);
    rows.push(blank.clone());
    for r in 0..h {
        let mut row = String::from(".");
        for c in 0..w {
            let ch = match (r == 0, r == h - 1, c == 0, c == w - 1) {
                (true, _, true, _) => 'S',
                (true, _, _, true) => '7',
                (_, true, true, _) => 'L',
                (_, true, _, true) => 'J',
                (true, _, _, _) | (_, true, _, _) => '-',
                (_, _, true, _) | (_, _, _, true) => '|',
                _ => '.',
            };
            row.push(ch);
        }
        row.push('.');
        rows.push(row);
    }
    rows.push(blank);
    rows.join("\n")
}

/// A synthetic rectangular loop of known size encloses exactly
/// `(w-2)*(h-2)` cells, and its farthest point is half its perimeter.
#[test]
fn rectangle_round_trip() {
    for &(w, h) in &[(3usize, 3usize), (4, 3), (5, 4), (7, 4), (8, 8)] {
        let g = rect_grid(w, h);
        let perimeter = (2 * (w - 1) + 2 * (h - 1)) as u32;
        assert_eq!(puzzles::pipe_maze::part_one(&g), Some(perimeter / 2));
        assert_eq!(
            puzzles::pipe_maze::part_two(&g),
            Some(((w - 2) * (h - 2)) as u32)
        );
    }
}

/// A tight snake: a seven-by-four rectangle is the shortest loop that
/// encloses ten cells (length 18, so the farthest point is 9 steps out).
#[test]
fn ten_enclosed_cells() {
    let g = rect_grid(7, 4);
    assert_eq!(puzzles::pipe_maze::part_one(&g), Some(9));
    assert_eq!(puzzles::pipe_maze::part_two(&g), Some(10));
}

/// The halved loop length matches a brute-force breadth-first search
/// over the loop's cells.
#[test]
fn max_distance_matches_bfs() {
    let input = "7-F7-\n.FJ|7\nSJLL7\n|F--J\nLJ.LJ";
    let m = PipeMap::parse(input).unwrap();
    let start = m.get_s_pos().unwrap();
    let answer = m.get_max_dist_from_s().unwrap();

    // Reconstruct the loop cells by walking both directions from every
    // cell via a BFS that only follows mutually open pipe connections.
    let grid: Vec<Vec<char>> = input.lines().map(|l| l.chars().collect()).collect();
    let rows = grid.len();
    let cols = grid[0].len();
    let opens = |ch: char, side: usize| -> bool {
        // side: 0 north, 1 south, 2 east, 3 west
        match ch {
            '|' => side == 0 || side == 1,
            '-' => side == 2 || side == 3,
            'L' => side == 0 || side == 2,
            'J' => side == 0 || side == 3,
            'F' => side == 1 || side == 2,
            '7' => side == 1 || side == 3,
            'S' => true,
            _ => false,
        }
    };
    let mut dist = vec![vec![usize::MAX; cols]; rows];
    let mut queue = std::collections::VecDeque::new();
    dist[start.0][start.1] = 0;
    queue.push_back(start);
    let mut max_d = 0;
    while let Some((r, c)) = queue.pop_front() {
        let d = dist[r][c];
        if d > max_d {
            max_d = d;
        }
        let neighbors: [(isize, isize, usize, usize); 4] =
            [(-1, 0, 0, 1), (1, 0, 1, 0), (0, 1, 2, 3), (0, -1, 3, 2)];
        for &(dr, dc, out_side, in_side) in neighbors.iter() {
            let nr = r as isize + dr;
            let nc = c as isize + dc;
            if nr < 0 || nc < 0 || nr as usize >= rows || nc as usize >= cols {
                continue;
            }
            let (nr, nc) = (nr as usize, nc as usize);
            if opens(grid[r][c], out_side)
                && opens(grid[nr][nc], in_side)
                && dist[nr][nc] == usize::MAX
            {
                dist[nr][nc] = d + 1;
                queue.push_back((nr, nc));
            }
        }
    }
    assert_eq!(answer as usize, max_d);
}

/// With two start markers the first one in row-major order is used, and
/// nothing crashes.
#[test]
fn two_start_markers_pick_first() {
    let input = ".....\n.S-7.\n.|.|.\n.L-S.\n.....";
    let m = PipeMap::parse(input).unwrap();
    assert_eq!(m.get_s_pos().unwrap(), (1, 1));
    // The trace ends as soon as it stands on any start tile, so the
    // walk is a deterministic, finite computation.
    // The walk stops on the first start tile it reaches: here the
    // second marker, four steps in.
    let r = m.get_loop_length_and_vertices();
    assert!(r.is_ok());
    assert_eq!(r.unwrap().0, 4);
}

#[test]
fn parse_rejects_bad_grids() {
    assert_eq!(
        PipeMap::parse("S-7\n|x|\nL-J").unwrap_err(),
        GridError::MalformedGrid
    );
    assert_eq!(
        PipeMap::parse("S-7\n|.\nL-J").unwrap_err(),
        GridError::MalformedGrid
    );
}

#[test]
fn missing_start_and_direction_errors() {
    let m = PipeMap::parse("F-7\n|.|\nL-J").unwrap();
    assert_eq!(m.get_s_pos().unwrap_err(), GridError::NoStart);
    let m2 = PipeMap::parse("S..\n...\n...").unwrap();
    assert_eq!(
        m2.get_loop_start_pos().unwrap_err(),
        GridError::NoValidStartDirection
    );
}

#[test]
fn broken_pipe_is_reported() {
    // The walk steps east into the dash, which then leads off the grid.
    let m = PipeMap::parse("S-\n..").unwrap();
    assert_eq!(
        m.get_loop_length_and_vertices().unwrap_err(),
        GridError::InvalidLoopTopology
    );
}

/// The area calculation rejects an odd double area and a negative
/// interior count.
#[test]
fn degenerate_vertex_lists_are_rejected() {
    let odd = vec![(0usize, 0usize), (0, 1), (1, 0)];
    assert_eq!(enclosed_area(&odd, 0).unwrap_err(), GridError::NonIntegralArea);
    let flat = vec![(0usize, 0usize), (0, 0), (0, 0), (0, 0)];
    assert_eq!(enclosed_area(&flat, 10).unwrap_err(), GridError::NonIntegralArea);
}

/// The absolute shoelace area does not depend on the starting vertex or
/// the traversal direction.
#[test]
fn shoelace_invariance_on_values() {
    let base = vec![(1usize, 1usize), (1, 4), (4, 4), (4, 1)];
    let rotated = vec![(1usize, 4usize), (4, 4), (4, 1), (1, 1)];
    let reversed = vec![(4usize, 1usize), (4, 4), (1, 4), (1, 1)];
    let b = 12;
    let a0 = enclosed_area(&base, b).unwrap();
    assert_eq!(a0, enclosed_area(&rotated, b).unwrap());
    assert_eq!(a0, enclosed_area(&reversed, b).unwrap());
    assert_eq!(a0, 4);
}
