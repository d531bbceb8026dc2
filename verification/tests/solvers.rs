use theseus_rs::algorithms::a_star::AStar;
use theseus_rs::algorithms::breadth_first::BreadthFirst;
use theseus_rs::algorithms::depth_first::DepthFirst;
use theseus_rs::algorithms::dijkstra::Dijkstra;
use theseus_rs::algorithms::left_turn::LeftTurn;
use theseus_rs::algorithms::{Algorithm, Solution, Solver};
use theseus_rs::maze::Maze;
use theseus_rs::node::Point;

const ALL: [Algorithm; 5] = [
    Algorithm::DepthFirst,
    Algorithm::BreadthFirst,
    Algorithm::Dijkstra,
    Algorithm::AStar,
    Algorithm::LeftTurn,
];

fn maze_of(rows: &[&str]) -> Maze {
    let height = rows.len();
    let width = rows[0].len();
    let mut open = Vec::new();
    for row in rows {
        assert_eq!(row.len(), width);
        for c in row.chars() {
            open.push(c != '#');
        }
    }
    Maze::from_grid(width, height, &open).unwrap()
}

fn points(solution: &Solution) -> Vec<(usize, usize)> {
    solution.path.iter().map(|n| (n.point.x, n.point.y)).collect()
}

fn corridor() -> Maze {
    maze_of(&["#.#", "#.#", "#.#", "#.#", "#.#"])
}

fn dead_end() -> Maze {
    maze_of(&["#.###", "#...#", "#.###", "#.###", "#.###"])
}

fn detour() -> Maze {
    maze_of(&["#####.#", "#.....#", "#.###.#", "#...#.#", "###.#.#", "###...#", "#####.#"])
}

fn room() -> Maze {
    maze_of(&["#.###", "#...#", "#...#", "#...#", "###.#"])
}

fn walled_off() -> Maze {
    maze_of(&["#.#", "#.#", "###", "#.#"])
}

fn check_route(maze: &Maze, solution: &Solution) {
    let path = &solution.path;
    assert_eq!(solution.length, path.len());
    assert!(solution.length >= 1);
    assert!(solution.length <= solution.decisions);
    assert!(solution.decisions <= maze.len());
    assert_eq!(path[0].point, maze.exit);
    assert_eq!(path[path.len() - 1].point, maze.start);
    for i in 0..path.len() {
        let node = maze.get(&path[i].point).unwrap();
        assert_eq!(node.point, path[i].point);
        for j in 0..i {
            assert_ne!(path[i].point, path[j].point);
        }
        if i + 1 < path.len() {
            assert!(path[i + 1].children.iter().any(|(_, to)| *to == path[i].point));
        }
    }
}

#[test]
fn corridor_is_walked_cell_by_cell_by_every_solver() {
    let maze = corridor();
    for algorithm in ALL {
        let solution = algorithm.solve(&maze).unwrap();
        assert_eq!(solution.length, 5);
        assert_eq!(solution.decisions, 5);
        assert_eq!(points(&solution), vec![(1, 4), (1, 3), (1, 2), (1, 1), (1, 0)]);
        check_route(&maze, &solution);
    }
}

#[test]
fn dead_end_branch_stays_out_of_every_route() {
    let maze = dead_end();
    for algorithm in ALL {
        let solution = algorithm.solve(&maze).unwrap();
        assert_eq!(points(&solution), vec![(1, 4), (1, 3), (1, 2), (1, 1), (1, 0)]);
        check_route(&maze, &solution);
    }
}

#[test]
fn dead_end_decisions_of_depth_first() {
    let maze = dead_end();
    let solution = DepthFirst::solve(&maze).unwrap();
    assert_eq!(solution.decisions, 5);
    assert_eq!(solution.length, 5);
}

#[test]
fn dead_end_decisions_of_breadth_first() {
    let maze = dead_end();
    let solution = BreadthFirst::solve(&maze).unwrap();
    assert_eq!(solution.decisions, 7);
    assert_eq!(solution.length, 5);
}

#[test]
fn dead_end_decisions_of_dijkstra() {
    let maze = dead_end();
    let solution = Dijkstra::solve(&maze).unwrap();
    assert_eq!(solution.decisions, 7);
    assert_eq!(solution.length, 5);
}

#[test]
fn dead_end_decisions_of_a_star() {
    let maze = dead_end();
    let solution = AStar::solve(&maze).unwrap();
    assert_eq!(solution.decisions, 5);
    assert_eq!(solution.length, 5);
}

#[test]
fn dead_end_decisions_of_left_turn() {
    let maze = dead_end();
    let solution = LeftTurn::solve(&maze).unwrap();
    assert_eq!(solution.decisions, 7);
    assert_eq!(solution.length, 5);
}

#[test]
fn depth_first_follows_the_cell_it_found_last() {
    let maze = detour();
    let solution = DepthFirst::solve(&maze).unwrap();
    assert_eq!(solution.decisions, 15);
    assert_eq!(
        points(&solution),
        vec![
            (5, 6),
            (5, 5),
            (4, 5),
            (3, 5),
            (3, 4),
            (3, 3),
            (2, 3),
            (1, 3),
            (1, 2),
            (1, 1),
            (2, 1),
            (3, 1),
            (4, 1),
            (5, 1),
            (5, 0),
        ]
    );
    check_route(&maze, &solution);
}

#[test]
fn shortest_route_is_found_past_a_detour() {
    let maze = detour();
    let straight = vec![(5, 6), (5, 5), (5, 4), (5, 3), (5, 2), (5, 1), (5, 0)];
    for algorithm in [Algorithm::BreadthFirst, Algorithm::Dijkstra, Algorithm::AStar] {
        let solution = algorithm.solve(&maze).unwrap();
        assert_eq!(solution.length, 7);
        assert_eq!(points(&solution), straight);
        check_route(&maze, &solution);
    }
}

#[test]
fn left_turn_keeps_the_wall_on_its_left() {
    let maze = detour();
    let solution = LeftTurn::solve(&maze).unwrap();
    assert_eq!(solution.decisions, 7);
    assert_eq!(points(&solution), vec![(5, 6), (5, 5), (5, 4), (5, 3), (5, 2), (5, 1), (5, 0)]);

    let maze = room();
    let solution = LeftTurn::solve(&maze).unwrap();
    assert_eq!(solution.decisions, 7);
    assert_eq!(points(&solution), vec![(3, 4), (3, 3), (3, 2), (3, 1), (2, 1), (1, 1), (1, 0)]);
    check_route(&maze, &solution);
}

#[test]
fn depth_first_in_a_room() {
    let maze = room();
    let solution = DepthFirst::solve(&maze).unwrap();
    assert_eq!(solution.decisions, 7);
    assert_eq!(points(&solution), vec![(3, 4), (3, 3), (2, 3), (1, 3), (1, 2), (1, 1), (1, 0)]);
}

#[test]
fn shortest_routes_have_the_same_length() {
    for maze in [corridor(), dead_end(), detour(), room()] {
        let breadth = BreadthFirst::solve(&maze).unwrap();
        let dijkstra = Dijkstra::solve(&maze).unwrap();
        let a_star = AStar::solve(&maze).unwrap();
        assert_eq!(breadth.length, dijkstra.length);
        assert_eq!(a_star.length, dijkstra.length);
        assert!(a_star.decisions <= dijkstra.decisions);
        for algorithm in ALL {
            let other = algorithm.solve(&maze).unwrap();
            assert!(dijkstra.length <= other.length);
            check_route(&maze, &other);
        }
    }
}

#[test]
fn room_of_equal_priorities_is_searched_whole() {
    // Every cell of the room lies on a shortest route, so the estimate
    // cannot tell them apart.
    let maze = room();
    let dijkstra = Dijkstra::solve(&maze).unwrap();
    let a_star = AStar::solve(&maze).unwrap();
    assert_eq!(dijkstra.length, 7);
    assert_eq!(a_star.length, 7);
    assert_eq!(dijkstra.decisions, 11);
    assert_eq!(a_star.decisions, 11);
}

#[test]
fn a_star_takes_fewer_decisions_past_a_dead_end() {
    let maze = dead_end();
    let dijkstra = Dijkstra::solve(&maze).unwrap();
    let a_star = AStar::solve(&maze).unwrap();
    assert!(a_star.decisions < dijkstra.decisions);
    let maze = detour();
    let dijkstra = Dijkstra::solve(&maze).unwrap();
    let a_star = AStar::solve(&maze).unwrap();
    assert_eq!(a_star.decisions, 7);
    assert!(a_star.decisions < dijkstra.decisions);
}

#[test]
fn solving_twice_gives_the_same_solution() {
    for maze in [corridor(), dead_end(), detour(), room()] {
        for algorithm in ALL {
            let first = algorithm.solve(&maze).unwrap();
            let second = algorithm.solve(&maze).unwrap();
            assert_eq!(first.decisions, second.decisions);
            assert_eq!(first.length, second.length);
            assert_eq!(points(&first), points(&second));
        }
    }
}

#[test]
fn no_solution_when_the_exit_is_walled_off() {
    let maze = walled_off();
    for algorithm in ALL {
        assert!(algorithm.solve(&maze).is_none());
    }
    assert!(DepthFirst::solve(&maze).is_none());
    assert!(BreadthFirst::solve(&maze).is_none());
    assert!(Dijkstra::solve(&maze).is_none());
    assert!(AStar::solve(&maze).is_none());
    assert!(LeftTurn::solve(&maze).is_none());
}

#[test]
fn decisions_are_positive_and_bounded_by_the_cells() {
    for maze in [corridor(), dead_end(), detour(), room()] {
        for algorithm in ALL {
            let solution = algorithm.solve(&maze).unwrap();
            assert!(solution.decisions >= 1);
            assert!(solution.decisions <= maze.len());
            assert!(solution.length <= solution.decisions);
        }
    }
}

#[test]
fn solution_new_counts_the_path() {
    let maze = corridor();
    let start = maze.get(&Point { x: 1, y: 0 }).unwrap();
    let next = maze.get(&Point { x: 1, y: 1 }).unwrap();
    let solution = Solution::new(9, vec![next, start]);
    assert_eq!(solution.decisions, 9);
    assert_eq!(solution.length, 2);
    assert_eq!(solution.path[0].point, Point { x: 1, y: 1 });
}

fn scattered(width: usize, height: usize, seed: u64, walls_in_ten: u64) -> Vec<bool> {
    let mut state = seed;
    let mut open = vec![false; width * height];
    for y in 1..height - 1 {
        for x in 1..width - 1 {
            state = state.wrapping_mul(6364136223846793005).wrapping_add(1442695040888963407);
            open[y * width + x] = (state >> 33) % 10 >= walls_in_ten;
        }
    }
    open[1] = true;
    open[width + 1] = true;
    open[(height - 1) * width + width - 2] = true;
    open[(height - 2) * width + width - 2] = true;
    open
}

fn fewest_cells(width: usize, height: usize, open: &[bool]) -> Option<usize> {
    let start = 1;
    let goal = (height - 1) * width + width - 2;
    let mut cells = vec![0usize; width * height];
    cells[start] = 1;
    let mut queue = vec![start];
    let mut head = 0;
    while head < queue.len() {
        let k = queue[head];
        head += 1;
        if k == goal {
            return Some(cells[k]);
        }
        let (x, y) = (k % width, k / width);
        let mut next = Vec::new();
        if y > 0 {
            next.push(k - width);
        }
        if x + 1 < width {
            next.push(k + 1);
        }
        if y + 1 < height {
            next.push(k + width);
        }
        if x > 0 {
            next.push(k - 1);
        }
        for n in next {
            if open[n] && cells[n] == 0 {
                cells[n] = cells[k] + 1;
                queue.push(n);
            }
        }
    }
    None
}

#[test]
fn scattered_walls_are_solved_like_a_plain_search_does() {
    let mut solved = 0;
    let mut unsolved = 0;
    for seed in 0..40u64 {
        let (width, height) = (9 + (seed as usize % 5) * 3, 8 + (seed as usize % 7) * 2);
        let open = scattered(width, height, seed, 2 + seed % 3);
        let maze = Maze::from_grid(width, height, &open).unwrap();
        assert!(maze.validate());
        let fewest = fewest_cells(width, height, &open);
        for algorithm in ALL {
            let solution = algorithm.solve(&maze);
            assert_eq!(solution.is_some(), fewest.is_some());
            if let Some(solution) = solution {
                check_route(&maze, &solution);
                assert!(solution.length >= fewest.unwrap());
                if algorithm != Algorithm::DepthFirst && algorithm != Algorithm::LeftTurn {
                    assert_eq!(solution.length, fewest.unwrap());
                }
                let again = algorithm.solve(&maze).unwrap();
                assert_eq!(points(&again), points(&solution));
                assert_eq!(again.decisions, solution.decisions);
            }
        }
        match fewest {
            Some(_) => {
                solved += 1;
                let dijkstra = Dijkstra::solve(&maze).unwrap();
                let a_star = AStar::solve(&maze).unwrap();
                assert!(a_star.decisions <= dijkstra.decisions);
            }
            None => unsolved += 1,
        }
    }
    assert!(solved >= 5);
    assert!(unsolved >= 1);
}
