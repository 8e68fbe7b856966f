use hexalgo::bfs::Traverser;
use hexalgo::hex::Coord;

fn c(x: i32, y: i32) -> Coord {
    Coord { x, y }
}

fn hex_distance(a: Coord, b: Coord) -> i32 {
    let dx = a.x - b.x;
    let dy = a.y - b.y;
    (dx.abs() + dy.abs() + (dx + dy).abs()) / 2
}

fn steps_back<A: Fn(Coord) -> bool, B: Fn(Coord) -> bool>(
    t: &Traverser<A, B>,
    start: Coord,
    mut pos: Coord,
) -> usize {
    let mut n = 0;
    while pos != start {
        pos = t.backtrace(pos).unwrap();
        n += 1;
    }
    n
}

#[test]
fn open_grid_finds_destination_at_distance_three() {
    let start = c(0, 0);
    let dest = c(3, -1);
    assert_eq!(hex_distance(start, dest), 3);
    let mut t = Traverser::new(|_p: Coord| true, move |p: Coord| p == dest, start);
    assert_eq!(t.find(), Some(dest));
    assert_eq!(steps_back(&t, start, dest), 3);
}

#[test]
fn blocked_cell_forces_a_detour() {
    let start = c(0, 0);
    let wall = c(1, 0);
    let dest = c(2, 0);
    assert_eq!(hex_distance(start, dest), 2);
    let mut t = Traverser::new(move |p: Coord| p != wall, move |p: Coord| p == dest, start);
    assert_eq!(t.find(), Some(dest));
    assert_eq!(steps_back(&t, start, dest), 3);
}

#[test]
fn start_is_its_own_predecessor() {
    let start = c(5, -2);
    let t = Traverser::new(|_p: Coord| true, |_p: Coord| false, start);
    assert_eq!(t.backtrace(start), Some(start));
    assert_eq!(t.backtrace_last(start), Some(start));
    assert_eq!(t.backtrace(c(6, -2)), None);
    assert_eq!(t.backtrace_last(c(6, -2)), None);
}

#[test]
fn nothing_passable_exhausts_after_start() {
    let start = c(0, 0);
    let mut t = Traverser::new(|_p: Coord| false, |_p: Coord| false, start);
    assert_eq!(t.find(), None);
    assert_eq!(t.find(), None);
    assert_eq!(t.backtrace(c(1, 0)), None);
}

#[test]
fn impassable_destination_is_still_reported() {
    let start = c(0, 0);
    let dest = c(0, 1);
    let mut t = Traverser::new(move |p: Coord| p != dest, move |p: Coord| p == dest, start);
    assert_eq!(t.find(), Some(dest));
    assert_eq!(t.backtrace(dest), Some(start));
}

#[test]
fn start_can_be_a_destination() {
    let start = c(2, 2);
    let mut t = Traverser::new(|_p: Coord| true, move |p: Coord| p == start, start);
    assert_eq!(t.find(), Some(start));
}

#[test]
fn successive_finds_come_in_order_of_distance() {
    let start = c(0, 0);
    let dests = [c(0, 3), c(1, 0), c(-2, 1), c(2, -2), c(0, -1)];
    let mut t = Traverser::new(
        |p: Coord| hex_distance(c(0, 0), p) <= 4,
        move |p: Coord| dests.contains(&p),
        start,
    );
    let mut found = Vec::new();
    while let Some(p) = t.find() {
        found.push(p);
    }
    assert_eq!(found.len(), dests.len());
    let dists: Vec<usize> = found.iter().map(|&p| steps_back(&t, start, p)).collect();
    for w in dists.windows(2) {
        assert!(w[0] <= w[1]);
    }
    assert_eq!(dists[0], 1);
    assert_eq!(*dists.last().unwrap(), 3);
}

#[test]
fn backtrace_last_gives_first_step_of_the_path() {
    let start = c(0, 0);
    let dest = c(3, 0);
    let mut t = Traverser::new(|_p: Coord| true, move |p: Coord| p == dest, start);
    assert_eq!(t.find(), Some(dest));
    let first = t.backtrace_last(dest).unwrap();
    assert_eq!(first, c(1, 0));
    assert_eq!(hex_distance(start, first), 1);
    assert_eq!(t.backtrace(first), Some(start));
    let mut p = dest;
    while t.backtrace(p) != Some(start) {
        p = t.backtrace(p).unwrap();
    }
    assert_eq!(p, first);
}

#[test]
fn recorded_distance_matches_hex_distance_on_open_grid() {
    let start = c(0, 0);
    let targets = [c(2, 1), c(-3, 0), c(1, -4)];
    for &dest in targets.iter() {
        let mut t = Traverser::new(|_p: Coord| true, move |p: Coord| p == dest, start);
        assert_eq!(t.find(), Some(dest));
        assert_eq!(steps_back(&t, start, dest) as i32, hex_distance(start, dest));
    }
}

#[test]
fn records_never_change_once_made() {
    let start = c(0, 0);
    let dests = [c(1, 0), c(0, 2), c(-3, 3)];
    let mut t = Traverser::new(|_p: Coord| true, move |p: Coord| dests.contains(&p), start);
    assert_eq!(t.find(), Some(c(1, 0)));
    let probes = [c(1, 0), c(0, 1), c(-1, 1), c(1, -1)];
    let before: Vec<Option<Coord>> = probes.iter().map(|&p| t.backtrace(p)).collect();
    assert!(before.iter().all(|b| b.is_some()));
    assert_eq!(t.find(), Some(c(0, 2)));
    assert_eq!(t.find(), Some(c(-3, 3)));
    let after: Vec<Option<Coord>> = probes.iter().map(|&p| t.backtrace(p)).collect();
    assert_eq!(before, after);
    assert_eq!(steps_back(&t, start, c(-3, 3)), 3);
}

#[test]
fn exhausted_search_stays_exhausted() {
    let start = c(0, 0);
    let dest = c(1, 1);
    let mut t = Traverser::new(
        |p: Coord| hex_distance(c(0, 0), p) <= 2,
        move |p: Coord| p == dest,
        start,
    );
    assert_eq!(t.find(), Some(dest));
    assert_eq!(t.find(), None);
    assert_eq!(t.find(), None);
}
