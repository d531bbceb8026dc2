use theseus_rs::grid::MazeError;
use theseus_rs::maze::Maze;
use std::collections::HashMap;
use theseus_rs::node::{Direction, Node, NodeType, Point};

fn bits(rows: &[&str]) -> Vec<bool> {
    let mut open = Vec::new();
    for row in rows {
        for c in row.chars() {
            open.push(c != '#');
        }
    }
    open
}

#[test]
fn grid_becomes_a_graph_of_its_open_cells() {
    let open = bits(&["#.###", "#...#", "#.###", "#.###", "#.###"]);
    let maze = Maze::from_grid(5, 5, &open).unwrap();
    assert_eq!(maze.width, 5);
    assert_eq!(maze.height, 5);
    assert_eq!(maze.start, Point { x: 1, y: 0 });
    assert_eq!(maze.exit, Point { x: 1, y: 4 });
    assert_eq!(maze.len(), 7);
    assert!(maze.get(&Point { x: 0, y: 0 }).is_none());
    assert!(maze.get(&Point { x: 4, y: 1 }).is_none());
    assert!(maze.get(&Point { x: 9, y: 9 }).is_none());

    let start = maze.get(&Point { x: 1, y: 0 }).unwrap();
    assert_eq!(start.role, NodeType::Start);
    assert_eq!(start.children, vec![(Direction::Down, Point { x: 1, y: 1 })]);

    let exit = maze.get(&Point { x: 1, y: 4 }).unwrap();
    assert_eq!(exit.role, NodeType::Exit);
    assert_eq!(exit.children, vec![(Direction::Up, Point { x: 1, y: 3 })]);

    let fork = maze.get(&Point { x: 1, y: 1 }).unwrap();
    assert_eq!(fork.role, NodeType::Path);
    assert_eq!(fork.point, Point { x: 1, y: 1 });
    assert_eq!(
        fork.children,
        vec![
            (Direction::Up, Point { x: 1, y: 0 }),
            (Direction::Right, Point { x: 2, y: 1 }),
            (Direction::Down, Point { x: 1, y: 2 }),
        ]
    );

    let tip = maze.get(&Point { x: 3, y: 1 }).unwrap();
    assert_eq!(tip.children, vec![(Direction::Left, Point { x: 2, y: 1 })]);
}

#[test]
fn cells_are_keyed_by_their_linear_index() {
    let open = bits(&["#.#", "#.#", "#.#"]);
    let maze = Maze::from_grid(3, 3, &open).unwrap();
    assert_eq!(maze.index(&Point { x: 1, y: 0 }), 1);
    assert_eq!(maze.index(&Point { x: 1, y: 2 }), 7);
    assert_eq!(maze.index(&Point { x: 2, y: 2 }), 8);
    assert!(maze.data.contains_key(&4));
    assert!(!maze.data.contains_key(&3));
    assert_eq!(maze.data[&4].point, Point { x: 1, y: 1 });
}

#[test]
fn open_area_links_all_four_neighbours() {
    let open = bits(&["#.###", "#...#", "#...#", "#...#", "###.#"]);
    let maze = Maze::from_grid(5, 5, &open).unwrap();
    let middle = maze.get(&Point { x: 2, y: 2 }).unwrap();
    assert_eq!(
        middle.children,
        vec![
            (Direction::Up, Point { x: 2, y: 1 }),
            (Direction::Right, Point { x: 3, y: 2 }),
            (Direction::Down, Point { x: 2, y: 3 }),
            (Direction::Left, Point { x: 1, y: 2 }),
        ]
    );
}

#[test]
fn wrong_number_of_cells_is_a_shape_error() {
    let open = bits(&["#.#", "#.#"]);
    assert_eq!(Maze::from_grid(3, 3, &open).err(), Some(MazeError::Shape));
    assert_eq!(Maze::from_grid(2, 2, &open).err(), Some(MazeError::Shape));
    assert_eq!(Maze::from_grid(usize::MAX, 2, &open).err(), Some(MazeError::Shape));
}

#[test]
fn top_row_needs_exactly_one_entrance() {
    let none = bits(&["###", "#.#", "#.#"]);
    assert_eq!(Maze::from_grid(3, 3, &none).err(), Some(MazeError::Entrance));
    let two = bits(&["..#", "#.#", "#.#"]);
    assert_eq!(Maze::from_grid(3, 3, &two).err(), Some(MazeError::Entrance));
    let empty: Vec<bool> = Vec::new();
    assert_eq!(Maze::from_grid(0, 0, &empty).err(), Some(MazeError::Entrance));
    assert_eq!(Maze::from_grid(0, 3, &empty).err(), Some(MazeError::Entrance));
}

#[test]
fn bottom_row_needs_exactly_one_exit() {
    let none = bits(&["#.#", "#.#", "###"]);
    assert_eq!(Maze::from_grid(3, 3, &none).err(), Some(MazeError::Exit));
    let two = bits(&["#.#", "#.#", "#.."]);
    assert_eq!(Maze::from_grid(3, 3, &two).err(), Some(MazeError::Exit));
    let single_row = bits(&["#.#"]);
    assert_eq!(Maze::from_grid(3, 1, &single_row).err(), Some(MazeError::Exit));
}

#[test]
fn entrance_is_judged_before_exit() {
    let both_wrong = bits(&["###", "#.#", "###"]);
    assert_eq!(Maze::from_grid(3, 3, &both_wrong).err(), Some(MazeError::Entrance));
}

fn by_hand(nodes: Vec<(usize, Node)>) -> Maze {
    let mut data = HashMap::new();
    for (key, node) in nodes {
        data.insert(key, node);
    }
    Maze { width: 3, height: 3, start: Point { x: 1, y: 0 }, exit: Point { x: 1, y: 2 }, data }
}

fn cell(y: usize, role: NodeType, children: Vec<(Direction, Point)>) -> Node {
    Node { point: Point { x: 1, y }, role, children }
}

fn column() -> Vec<(usize, Node)> {
    vec![
        (1, cell(0, NodeType::Start, vec![(Direction::Down, Point { x: 1, y: 1 })])),
        (
            4,
            cell(
                1,
                NodeType::Path,
                vec![(Direction::Up, Point { x: 1, y: 0 }), (Direction::Down, Point { x: 1, y: 2 })],
            ),
        ),
        (7, cell(2, NodeType::Exit, vec![(Direction::Up, Point { x: 1, y: 1 })])),
    ]
}

#[test]
fn maze_of_a_grid_is_well_formed() {
    let open = bits(&["#.###", "#...#", "#...#", "#...#", "###.#"]);
    assert!(Maze::from_grid(5, 5, &open).unwrap().validate());
    assert!(by_hand(column()).validate());
}

#[test]
fn edge_to_a_wall_is_not_well_formed() {
    let mut nodes = column();
    nodes[1].1.children.push((Direction::Right, Point { x: 2, y: 1 }));
    assert!(!by_hand(nodes).validate());
}

#[test]
fn edge_in_the_wrong_direction_is_not_well_formed() {
    let mut nodes = column();
    nodes[0].1.children[0].0 = Direction::Up;
    assert!(!by_hand(nodes).validate());
    let mut nodes = column();
    nodes[0].1.children[0].1 = Point { x: 1, y: 2 };
    assert!(!by_hand(nodes).validate());
}

#[test]
fn role_must_match_entrance_and_exit() {
    let mut nodes = column();
    nodes[1].1.role = NodeType::Start;
    assert!(!by_hand(nodes).validate());
    let mut nodes = column();
    nodes[2].1.role = NodeType::Path;
    assert!(!by_hand(nodes).validate());
    let mut nodes = column();
    nodes[0].1.role = NodeType::Exit;
    assert!(!by_hand(nodes).validate());
}

#[test]
fn node_must_sit_under_its_own_index() {
    let mut nodes = column();
    nodes[1].0 = 5;
    assert!(!by_hand(nodes).validate());
    let mut nodes = column();
    nodes.push((100, cell(1, NodeType::Path, vec![])));
    assert!(!by_hand(nodes).validate());
}

#[test]
fn entrance_and_exit_must_be_cells() {
    let mut nodes = column();
    nodes.remove(0);
    nodes[0].1.children.remove(0);
    assert!(!by_hand(nodes).validate());
    let mut maze = by_hand(column());
    maze.exit = Point { x: 1, y: 3 };
    assert!(!maze.validate());
    let mut maze = by_hand(column());
    maze.width = usize::MAX;
    assert!(!maze.validate());
}

#[test]
fn neighbour_test_follows_the_direction() {
    let here = Point { x: 4, y: 4 };
    assert!(here.is_next(Direction::Up, &Point { x: 4, y: 3 }));
    assert!(here.is_next(Direction::Right, &Point { x: 5, y: 4 }));
    assert!(here.is_next(Direction::Down, &Point { x: 4, y: 5 }));
    assert!(here.is_next(Direction::Left, &Point { x: 3, y: 4 }));
    assert!(!here.is_next(Direction::Up, &Point { x: 4, y: 5 }));
    assert!(!here.is_next(Direction::Left, &Point { x: 2, y: 4 }));
    assert!(!here.is_next(Direction::Down, &here));
    assert!(!Point { x: 0, y: 0 }.is_next(Direction::Up, &Point { x: 0, y: usize::MAX }));
}
