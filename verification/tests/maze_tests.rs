use signal_game::generator::{generate_maze_from_dimensions, get_rooms_over_offsets};
use signal_game::maze::{GridPos, MazeCellState, MazeMatrix, PATH_INDEX, WALL_INDEX};
use signal_game::spawn::{
    SpawnPoints, calc_offsets, find_points_in_maze, find_valid_spawn_spot, first_open_cell,
    spawn_area_valid,
};
use signal_game::text::maze_text;
use std::collections::VecDeque;

fn is_room(x: usize, y: usize, size: usize) -> bool {
    x > 0 && y > 0 && x < size && y < size && x % 2 == 1 && y % 2 == 1
}

#[test]
fn new_maze_is_all_walls() {
    let maze = MazeMatrix::new(5, 0);
    assert_eq!(maze.maze_size(), 5);
    assert_eq!(maze.matrix().len(), 25);
    assert!(maze.matrix().iter().all(|c| *c == MazeCellState::Wall));
}

#[test]
fn cell_index_is_row_major() {
    assert_eq!(MazeMatrix::compute_index_with_size(2, 3, 7), 23);
    assert_eq!(MazeMatrix::us_compute_index_with_size(GridPos::new(6, 0), 7), 6);
    let maze = MazeMatrix::new(4, 1);
    assert_eq!(maze.get_cell_index(1, 2), 9);
    assert_eq!(maze.us_get_cell_index(GridPos::new(3, 3)), 15);
}

#[test]
fn set_then_get_cell() {
    let mut maze = MazeMatrix::new(4, 1);
    maze.set_cell_at_index(9, MazeCellState::Path);
    assert_eq!(maze.get_cell(1, 2), MazeCellState::Path);
    assert_eq!(maze.us_get_cell(GridPos::new(1, 2)), MazeCellState::Path);
    assert_eq!(maze.get_cell(2, 1), MazeCellState::Wall);
    // an x past the row's end reads on into the next row, as the flat index does
    assert_eq!(maze.get_cell(5, 1), MazeCellState::Path);
}

#[test]
fn cell_state_predicates() {
    assert!(MazeCellState::Wall.is_wall());
    assert!(!MazeCellState::Wall.is_path());
    assert!(MazeCellState::Path.is_path());
    assert!(!MazeCellState::Path.is_wall());
    assert_eq!(MazeCellState::Path.texture_index(), PATH_INDEX);
    assert_eq!(MazeCellState::Wall.texture_index(), WALL_INDEX);
    assert_eq!(PATH_INDEX, 0);
    assert_eq!(WALL_INDEX, 1);
}

#[test]
fn rooms_over_offsets_in_direction_order() {
    let visited = vec![false; 25];
    let steps = get_rooms_over_offsets(GridPos::new(1, 1), 5, &visited).to_vec();
    assert_eq!(
        steps,
        vec![
            (GridPos::new(1, 3), GridPos::new(1, 2)),
            (GridPos::new(3, 1), GridPos::new(2, 1)),
        ]
    );
    let steps = get_rooms_over_offsets(GridPos::new(3, 3), 5, &visited).to_vec();
    assert_eq!(
        steps,
        vec![
            (GridPos::new(3, 1), GridPos::new(3, 2)),
            (GridPos::new(1, 3), GridPos::new(2, 3)),
        ]
    );
    let steps = get_rooms_over_offsets(GridPos::new(3, 3), 7, &vec![false; 49]).to_vec();
    assert_eq!(
        steps,
        vec![
            (GridPos::new(3, 5), GridPos::new(3, 4)),
            (GridPos::new(5, 3), GridPos::new(4, 3)),
            (GridPos::new(3, 1), GridPos::new(3, 2)),
            (GridPos::new(1, 3), GridPos::new(2, 3)),
        ]
    );
}

#[test]
fn rooms_over_offsets_skip_visited_and_border() {
    let mut visited = vec![false; 25];
    visited[1 + 3 * 5] = true;
    let steps = get_rooms_over_offsets(GridPos::new(1, 1), 5, &visited).to_vec();
    assert_eq!(steps, vec![(GridPos::new(3, 1), GridPos::new(2, 1))]);
    // from a cell on row 0 only the step up stays inside the border
    let steps = get_rooms_over_offsets(GridPos::new(2, 0), 5, &vec![false; 25]).to_vec();
    assert_eq!(steps, vec![(GridPos::new(2, 2), GridPos::new(2, 1))]);
    // a room two cells from the far edge is out of range
    let steps = get_rooms_over_offsets(GridPos::new(3, 3), 5, &vec![true; 25]).to_vec();
    assert!(steps.is_empty());
}

fn open_neighbours(maze: &MazeMatrix, x: usize, y: usize) -> Vec<(usize, usize)> {
    let n = maze.maze_size();
    let mut out = Vec::new();
    if x + 1 < n {
        out.push((x + 1, y));
    }
    if x > 0 {
        out.push((x - 1, y));
    }
    if y + 1 < n {
        out.push((x, y + 1));
    }
    if y > 0 {
        out.push((x, y - 1));
    }
    out.into_iter().filter(|&(a, b)| maze.get_cell(a, b) == MazeCellState::Path).collect()
}

fn check_generated(size: usize, seed: u64) {
    let maze = generate_maze_from_dimensions(size, seed);
    assert_eq!(maze.maze_size(), size);
    assert_eq!(maze.matrix().len(), size * size);
    let mut open = 0;
    let mut rooms = 0;
    let mut first = None;
    for y in 0..size {
        for x in 0..size {
            let cell = maze.get_cell(x, y);
            if is_room(x, y, size) {
                rooms += 1;
                assert_eq!(cell, MazeCellState::Path, "room {x},{y} closed");
            }
            if cell == MazeCellState::Path {
                open += 1;
                first.get_or_insert((x, y));
                let passage_x = x % 2 == 0 && x >= 2 && is_room(x - 1, y, size) && is_room(x + 1, y, size);
                let passage_y = y % 2 == 0 && y >= 2 && is_room(x, y - 1, size) && is_room(x, y + 1, size);
                assert!(is_room(x, y, size) || passage_x || passage_y, "stray open cell {x},{y}");
            }
            if x == 0 || y == 0 || (x % 2 == 0 && y % 2 == 0) {
                assert_eq!(cell, MazeCellState::Wall);
            }
        }
    }
    // a spanning tree over the rooms: one passage fewer than rooms
    assert_eq!(open - rooms, rooms - 1);
    // every open cell is reachable from every other
    let start = first.unwrap();
    let mut seen = vec![false; size * size];
    let mut queue = VecDeque::new();
    seen[start.0 + start.1 * size] = true;
    queue.push_back(start);
    let mut reached = 1;
    while let Some((x, y)) = queue.pop_front() {
        for (a, b) in open_neighbours(&maze, x, y) {
            if !seen[a + b * size] {
                seen[a + b * size] = true;
                reached += 1;
                queue.push_back((a, b));
            }
        }
    }
    assert_eq!(reached, open);
}

#[test]
fn generated_maze_is_perfect() {
    check_generated(21, 0);
    check_generated(3, 5);
    check_generated(9, 42);
    check_generated(10, 7);
    check_generated(4, 1);
}

#[test]
fn smallest_maze_opens_only_its_room() {
    let maze = generate_maze_from_dimensions(3, 99);
    let open: Vec<usize> = (0..9).filter(|&i| maze.matrix()[i] == MazeCellState::Path).collect();
    assert_eq!(open, vec![4]);
}

#[test]
fn same_seed_same_maze() {
    let a = generate_maze_from_dimensions(15, 1234);
    let b = generate_maze_from_dimensions(15, 1234);
    assert_eq!(a.matrix(), b.matrix());
}

#[test]
fn spawn_offsets_cover_the_block() {
    assert_eq!(
        calc_offsets(),
        vec![(-1, -1), (-1, 0), (-1, 1), (0, -1), (0, 0), (0, 1), (1, -1), (1, 0), (1, 1), (0, 0)]
    );
}

#[test]
fn first_open_cell_follows_offset_order() {
    let mut maze = MazeMatrix::new(5, 0);
    maze.set_cell_at_index(2 + 1 * 5, MazeCellState::Path);
    maze.set_cell_at_index(3 + 3 * 5, MazeCellState::Path);
    let offsets = vec![(0, 0), (1, 1), (0, -1)];
    assert_eq!(first_open_cell(&maze, GridPos::new(2, 2), &offsets), GridPos::new(3, 3));
    let offsets = vec![(0, -1), (1, 1)];
    assert_eq!(first_open_cell(&maze, GridPos::new(2, 2), &offsets), GridPos::new(2, 1));
}

#[test]
fn spawn_spot_is_open_and_near() {
    let mut maze = generate_maze_from_dimensions(21, 0);
    for (x, y) in [(1, 1), (10, 10), (19, 19), (2, 18), (11, 12)] {
        let spot = find_valid_spawn_spot(&mut maze, GridPos::new(x, y));
        assert!(spot.x + 1 >= x && spot.x <= x + 1);
        assert!(spot.y + 1 >= y && spot.y <= y + 1);
        assert_eq!(maze.us_get_cell(spot), MazeCellState::Path);
    }
}

#[test]
fn spawn_area_checks() {
    let maze = generate_maze_from_dimensions(21, 0);
    assert!(!spawn_area_valid(&maze, GridPos::new(0, 5)));
    assert!(!spawn_area_valid(&maze, GridPos::new(5, 0)));
    assert!(spawn_area_valid(&maze, GridPos::new(1, 1)));
    assert!(!spawn_area_valid(&maze, GridPos::new(20, 19)));
    assert!(spawn_area_valid(&maze, GridPos::new(20, 18)));
    assert!(!spawn_area_valid(&maze, GridPos::new(20, 20)));
    let walls = MazeMatrix::new(5, 0);
    assert!(!spawn_area_valid(&walls, GridPos::new(2, 2)));
}

#[test]
fn spawn_points_near_offset_midpoint() {
    let mut maze = generate_maze_from_dimensions(21, 0);
    let SpawnPoints { player, target } =
        find_points_in_maze(&mut maze, GridPos::new(0, 0), GridPos::new(8, 3));
    // midpoint of a 21-cell maze is 11
    assert!(player.x >= 10 && player.x <= 12 && player.y >= 10 && player.y <= 12);
    assert!(target.x >= 18 && target.x <= 20 && target.y >= 13 && target.y <= 15);
    assert_eq!(maze.us_get_cell(player), MazeCellState::Path);
    assert_eq!(maze.us_get_cell(target), MazeCellState::Path);
}

#[test]
fn maze_text_rows() {
    let mut maze = MazeMatrix::new(3, 0);
    maze.set_cell_at_index(4, MazeCellState::Path);
    maze.set_cell_at_index(5, MazeCellState::Path);
    let text: String = maze_text(maze.matrix(), 3).into_iter().collect();
    assert_eq!(text, "XXX\nXOO\nXXX\n");
    let text: String = maze_text(&[MazeCellState::Path, MazeCellState::Wall, MazeCellState::Path], 2)
        .into_iter()
        .collect();
    assert_eq!(text, "OX\nO");
    assert!(maze_text(&[], 0).is_empty());
}

#[test]
fn spawn_spot_order_is_shuffled() {
    // A room surrounded by open cells: in the fixed order the first open cell
    // is always the same, so differing picks show the offsets were shuffled.
    let mut picks = std::collections::HashSet::new();
    for seed in 0..40 {
        let mut maze = MazeMatrix::new(5, seed);
        for i in 0..25 {
            maze.set_cell_at_index(i, MazeCellState::Path);
        }
        picks.insert(find_valid_spawn_spot(&mut maze, GridPos::new(2, 2)));
    }
    assert!(picks.len() > 1);
}
