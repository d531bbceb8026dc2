use theseus_rs::algorithms::Algorithm;
use theseus_rs::cli::Cli;
use theseus_rs::node::{Direction, Point};
use theseus_rs::utils::get_algorithm;

fn no_switch() -> Cli {
    Cli {
        filename: None,
        output: None,
        dijkstra: false,
        a_star: false,
        left_turn: false,
        breadth_first: false,
        depth_first: false,
        statistics: false,
    }
}

#[test]
fn turning_left_four_times_comes_round() {
    assert_eq!(Direction::Up.left(), Direction::Left);
    assert_eq!(Direction::Left.left(), Direction::Down);
    assert_eq!(Direction::Down.left(), Direction::Right);
    assert_eq!(Direction::Right.left(), Direction::Up);
}

#[test]
fn turning_right_undoes_turning_left() {
    for d in [Direction::Up, Direction::Right, Direction::Down, Direction::Left] {
        assert_eq!(d.left().right(), d);
        assert_eq!(d.right().left(), d);
        assert_eq!(d.left().left(), d.reverse());
        assert_eq!(d.reverse().reverse(), d);
        assert_ne!(d.reverse(), d);
    }
    assert_eq!(Direction::Up.right(), Direction::Right);
    assert_eq!(Direction::Down.reverse(), Direction::Up);
    assert_eq!(Direction::Left.reverse(), Direction::Right);
}

#[test]
fn manhattan_distance_adds_both_gaps() {
    let a = Point { x: 1, y: 7 };
    let b = Point { x: 4, y: 2 };
    assert_eq!(a.distance(&b), 8);
    assert_eq!(b.distance(&a), 8);
    assert_eq!(a.distance(&a), 0);
    assert_eq!(Point { x: 0, y: 0 }.distance(&Point { x: 0, y: 3 }), 3);
}

#[test]
fn no_switch_chooses_no_algorithm() {
    assert_eq!(get_algorithm(&no_switch()), None);
}

#[test]
fn each_switch_chooses_its_algorithm() {
    assert_eq!(get_algorithm(&Cli { dijkstra: true, ..no_switch() }), Some(Algorithm::Dijkstra));
    assert_eq!(get_algorithm(&Cli { a_star: true, ..no_switch() }), Some(Algorithm::AStar));
    assert_eq!(get_algorithm(&Cli { left_turn: true, ..no_switch() }), Some(Algorithm::LeftTurn));
    assert_eq!(
        get_algorithm(&Cli { breadth_first: true, ..no_switch() }),
        Some(Algorithm::BreadthFirst)
    );
    assert_eq!(
        get_algorithm(&Cli { depth_first: true, ..no_switch() }),
        Some(Algorithm::DepthFirst)
    );
}

#[test]
fn first_switch_wins() {
    let all = Cli {
        dijkstra: true,
        a_star: true,
        left_turn: true,
        breadth_first: true,
        depth_first: true,
        ..no_switch()
    };
    assert_eq!(get_algorithm(&all), Some(Algorithm::Dijkstra));
    assert_eq!(get_algorithm(&Cli { dijkstra: false, ..all }), Some(Algorithm::AStar));
    let late = Cli { left_turn: true, depth_first: true, statistics: true, ..no_switch() };
    assert_eq!(get_algorithm(&late), Some(Algorithm::LeftTurn));
    let last = Cli { breadth_first: true, depth_first: true, ..no_switch() };
    assert_eq!(get_algorithm(&last), Some(Algorithm::BreadthFirst));
}
