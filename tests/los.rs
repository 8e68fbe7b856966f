use hexalgo::hex::{Coord, Dir};
use hexalgo::los::{los, los_report_first};
use std::cell::RefCell;

fn c(x: i32, y: i32) -> Coord {
    Coord { x, y }
}

fn hex_distance(a: Coord, b: Coord) -> i32 {
    let dx = a.x - b.x;
    let dy = a.y - b.y;
    (dx.abs() + dy.abs() + (dx + dy).abs()) / 2
}

#[test]
fn uniform_terrain_reaches_two_steps_with_light_three() {
    let origin = c(0, 0);
    let asked = RefCell::new(Vec::new());
    let opaq = |p: Coord| {
        asked.borrow_mut().push(p);
        1
    };
    let seen = los(&opaq, 3, origin, &[Dir::XZ]);
    assert_eq!(seen[0], (origin, 2));
    assert!(seen.contains(&(c(1, 0), 1)));
    assert!(seen.contains(&(c(0, 1), 1)));
    assert!(seen.contains(&(c(1, -1), 1)));
    assert!(seen.iter().all(|&(p, _)| hex_distance(origin, p) <= 1));
    let asked = asked.borrow();
    assert!(asked.iter().any(|&p| hex_distance(origin, p) == 2));
    assert!(asked.iter().all(|&p| hex_distance(origin, p) <= 2));
}

#[test]
fn opaque_cell_blocks_the_ray_behind_it() {
    let origin = c(0, 0);
    let wall = c(1, 0);
    let opaq = move |p: Coord| if p == wall { 100 } else { 1 };
    let seen = los(&opaq, 5, origin, &[Dir::XZ]);
    let cells: Vec<Coord> = seen.iter().map(|&(p, _)| p).collect();
    assert!(!cells.contains(&wall));
    assert!(!cells.contains(&c(2, 0)));
    assert!(!cells.contains(&c(3, 0)));
    assert!(cells.contains(&c(0, 1)));
    assert!(cells.contains(&c(1, -1)));
}

#[test]
fn no_light_sees_nothing() {
    let seen = los(&|_p: Coord| 0, 0, c(0, 0), &[Dir::XZ, Dir::YZ]);
    assert!(seen.is_empty());
}

#[test]
fn transparent_terrain_still_ends() {
    let origin = c(0, 0);
    let seen = los(&|_p: Coord| 0, 4, origin, &[Dir::ZY]);
    assert!(!seen.is_empty());
    assert!(seen.iter().all(|&(p, l)| l == 4 && hex_distance(origin, p) < 4));
    assert!(seen.iter().any(|&(p, _)| hex_distance(origin, p) == 3));
}

#[test]
fn each_direction_sweeps_on_its_own() {
    let origin = c(0, 0);
    let all = [Dir::YZ, Dir::XZ, Dir::XY, Dir::ZY, Dir::ZX, Dir::YX];
    let seen = los(&|_p: Coord| 1, 3, origin, &all);
    let origins = seen.iter().filter(|&&(p, _)| p == origin).count();
    assert_eq!(origins, 6);
    for d in all.iter() {
        let one = los(&|_p: Coord| 1, 3, origin, &[*d]);
        assert_eq!(one.len(), 4);
    }
}

#[test]
fn light_left_drops_with_opaqueness() {
    let origin = c(0, 0);
    let opaq = |p: Coord| if p == c(0, 0) { 2 } else { 3 };
    let seen = los(&opaq, 10, origin, &[Dir::YZ]);
    assert_eq!(seen[0], (origin, 8));
    assert!(seen.contains(&(c(0, 1), 5)));
    assert!(seen.contains(&(c(0, 2), 2)));
    assert!(!seen.iter().any(|&(p, _)| p == c(0, 3)));
}

#[test]
fn more_opaqueness_never_shows_more() {
    let origin = c(0, 0);
    let low = |_p: Coord| 1;
    let high = |p: Coord| if p == c(1, 0) { 3 } else { 1 };
    let a = los(&low, 6, origin, &[Dir::XZ]);
    let b = los(&high, 6, origin, &[Dir::XZ]);
    for &(p, l) in b.iter() {
        let best = a.iter().filter(|&&(q, _)| q == p).map(|&(_, m)| m).max();
        assert!(best.is_some());
        assert!(best.unwrap() >= l);
    }
    assert!(b.len() < a.len());
}

#[test]
fn reporting_first_sees_two_steps_with_light_three() {
    let origin = c(0, 0);
    let seen = los_report_first(&|_p: Coord| 1, 3, origin, &[Dir::YZ]);
    assert_eq!(seen[0], (origin, 3));
    let mut cells: Vec<Coord> = seen.iter().map(|&(p, _)| p).collect();
    cells.sort_by_key(|p| (p.x, p.y));
    cells.dedup();
    let mut expected = vec![
        c(0, 0),
        c(0, 1),
        c(-1, 1),
        c(1, 0),
        c(0, 2),
        c(-1, 2),
        c(1, 1),
        c(-2, 2),
        c(2, 0),
    ];
    expected.sort_by_key(|p| (p.x, p.y));
    assert_eq!(cells, expected);
    assert!(seen.iter().all(|&(p, _)| hex_distance(origin, p) <= 2));
    assert!(seen.contains(&(c(0, 1), 2)));
    assert!(seen.contains(&(c(0, 2), 1)));
}

#[test]
fn reporting_first_shows_the_blocking_cell() {
    let origin = c(0, 0);
    let wall = c(0, 1);
    let opaq = move |p: Coord| if p == wall { 100 } else { 1 };
    let seen = los_report_first(&opaq, 5, origin, &[Dir::YZ]);
    let cells: Vec<Coord> = seen.iter().map(|&(p, _)| p).collect();
    assert!(cells.contains(&wall));
    assert!(!cells.contains(&c(0, 2)));
    assert!(cells.contains(&c(-1, 1)));
    assert!(cells.contains(&c(1, 0)));
}
