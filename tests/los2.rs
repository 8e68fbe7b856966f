use hexalgo::hex::{Coord, Dir};
use hexalgo::los2::{check_line, los, los_check_line};

fn c(x: i32, y: i32) -> Coord {
    Coord { x, y }
}

fn hex_distance(a: Coord, b: Coord) -> i32 {
    let dx = a.x - b.x;
    let dy = a.y - b.y;
    (dx.abs() + dy.abs() + (dx + dy).abs()) / 2
}

#[test]
fn both_lines_reaching_take_the_smaller_sum() {
    let s = c(0, 0);
    let a = c(1, 0);
    let b = c(0, 1);
    let p = c(1, 1);
    let line = vec![(s, s), (a, b), (p, p)];
    let opaq = move |q: Coord| if q == a { 3 } else { 1 };
    assert_eq!(check_line(&opaq, 10, &line, s, p), (true, 7));
}

#[test]
fn one_line_saturating_leaves_the_other() {
    let s = c(0, 0);
    let a = c(1, 0);
    let b = c(0, 1);
    let p = c(1, 1);
    let line = vec![(s, s), (a, b), (p, p)];
    let opaq = move |q: Coord| if q == a { 20 } else { 1 };
    assert_eq!(check_line(&opaq, 10, &line, s, p), (true, 7));
}

#[test]
fn both_lines_saturating_hide_the_cell() {
    let s = c(0, 0);
    let a = c(1, 0);
    let b = c(0, 1);
    let p = c(1, 1);
    let line = vec![(s, s), (a, b), (p, p)];
    let opaq = move |q: Coord| if q == a || q == b { 20 } else { 1 };
    assert_eq!(check_line(&opaq, 10, &line, s, p), (false, 0));
}

#[test]
fn line_check_to_the_origin_itself() {
    let s = c(4, -4);
    assert_eq!(los_check_line(&|_q: Coord| 2, 5, s, s), (true, 3));
}

#[test]
fn line_check_along_an_axis() {
    let s = c(0, 0);
    assert_eq!(los_check_line(&|_q: Coord| 1, 5, s, c(2, 0)), (true, 2));
    assert_eq!(los_check_line(&|_q: Coord| 1, 3, s, c(3, 0)).0, false);
}

#[test]
fn uniform_terrain_flood() {
    let origin = c(0, 0);
    let seen = los(&|_q: Coord| 1, 3, origin, &[Dir::XZ]);
    assert_eq!(seen[0], (origin, 2));
    assert!(seen.contains(&(c(1, 0), 1)));
    assert!(seen.contains(&(c(2, 0), 0)));
    assert!(seen.iter().all(|&(p, _)| hex_distance(origin, p) <= 2));
}

#[test]
fn opaque_cell_hides_what_lies_behind() {
    let origin = c(0, 0);
    let wall = c(1, 0);
    let opaq = move |q: Coord| if q == wall { 100 } else { 1 };
    let seen = los(&opaq, 5, origin, &[Dir::XZ]);
    let cells: Vec<Coord> = seen.iter().map(|&(p, _)| p).collect();
    assert!(!cells.contains(&c(3, 0)));
    assert!(cells.contains(&c(1, 1)));
    assert!(cells.contains(&c(2, -1)));
}

#[test]
fn transparent_flood_stays_in_range() {
    let origin = c(0, 0);
    let seen = los(&|_q: Coord| 0, 3, origin, &[Dir::YZ]);
    assert!(!seen.is_empty());
    assert!(seen.iter().all(|&(p, _)| p.x + 2 * p.y < 6));
    assert!(seen.iter().all(|&(p, _)| hex_distance(origin, p) <= 5));
}

#[test]
fn origin_far_outside_the_exact_range_sees_nothing() {
    let seen = los(&|_q: Coord| 1, 3, c(i32::MAX, 0), &[Dir::YZ]);
    assert!(seen.is_empty());
}

#[test]
fn hidden_cell_is_seen_through_a_side_neighbour() {
    let origin = c(0, 0);
    let all = [Dir::YZ, Dir::XZ, Dir::XY, Dir::ZY, Dir::ZX, Dir::YX];
    let mut side_reports = 0;
    for wx in -2..=2 {
        for wy in -2..=2 {
            let wall = c(wx, wy);
            if wall == origin {
                continue;
            }
            let opaq = move |q: Coord| if q == wall { 100 } else { 1 };
            let seen = los(&opaq, 6, origin, &all);
            for &(p, l) in seen.iter() {
                let (direct, _) = los_check_line(&opaq, 6, origin, p);
                if !direct {
                    side_reports += 1;
                    assert_ne!(p, origin);
                    assert!(l <= 6);
                }
            }
        }
    }
    assert!(side_reports > 0);
}

#[test]
fn one_flood_reports_each_cell_once() {
    let origin = c(0, 0);
    for &d in [Dir::YZ, Dir::XZ, Dir::XY, Dir::ZY, Dir::ZX, Dir::YX].iter() {
        for wx in -2..=2 {
            for wy in -2..=2 {
                let wall = c(wx, wy);
                let opaq = move |q: Coord| if q == wall && q != origin { 100 } else { 1 };
                let seen = los(&opaq, 6, origin, &[d]);
                let mut cells: Vec<(i32, i32)> = seen.iter().map(|&(p, _)| (p.x, p.y)).collect();
                let n = cells.len();
                cells.sort();
                cells.dedup();
                assert_eq!(cells.len(), n);
            }
        }
    }
}
