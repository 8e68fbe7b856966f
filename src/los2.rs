//! Line of sight by flood fill checked against straight lines: a sweep
//! floods forward from the origin, and each cell it reaches is visible when
//! one of the two candidate straight lines from the origin reaches it before
//! its opaqueness uses up the light.
use crate::hex::{
    cw_direction, edge_line, hex_direction_to_cw, hex_edge_line, key, key_of, lemma_key_injective, lemma_key_range,
    Angle, Coord, Dir,
};
use crate::los::{opaq_fn, opaqueness_ok, reports};
use std::collections::HashSet;
use vstd::prelude::*;

verus! {

broadcast use vstd::std_specs::hash::group_hash_axioms;

/// Opaqueness summed along each of the two candidate lines, each sum stopping
/// once it reaches `light`, with the cell each line got to last.
pub open spec fn scan(o: spec_fn(Coord) -> int, light: int, line: Seq<(Coord, Coord)>, start: Coord) -> (
    int,
    Coord,
    int,
    Coord,
)
    decreases line.len(),
{
    if line.len() == 0 {
        (0, start, 0, start)
    } else {
        let (s1, l1, s2, l2) = scan(o, light, line.drop_last(), start);
        let (c1, c2) = line.last();
        (
            if s1 < light {
                s1 + o(c1)
            } else {
                s1
            },
            if s1 < light {
                c1
            } else {
                l1
            },
            if s2 < light {
                s2 + o(c2)
            } else {
                s2
            },
            if s2 < light {
                c2
            } else {
                l2
            },
        )
    }
}

/// Whether a candidate line reaches `pos`, and the light left there: taken
/// from the smaller sum where both lines reach it, none where neither does.
pub open spec fn line_light(
    o: spec_fn(Coord) -> int,
    light: int,
    line: Seq<(Coord, Coord)>,
    start: Coord,
    pos: Coord,
) -> (bool, int) {
    let (s1, l1, s2, l2) = scan(o, light, line, start);
    if l1 == pos && l2 == pos {
        (true, light - if s1 <= s2 {
            s1
        } else {
            s2
        })
    } else if l1 == pos {
        (true, light - s1)
    } else if l2 == pos {
        (true, light - s2)
    } else {
        (false, 0)
    }
}

/// What the line check from `start` to `pos` gives.
pub open spec fn sight(o: spec_fn(Coord) -> int, light: int, start: Coord, pos: Coord) -> (bool, int) {
    line_light(o, light, edge_line(start, pos), start, pos)
}

/// Checks the candidate lines `line`, which run from `start`, for whether
/// one reaches `pos`, and with how much light.
pub fn check_line<F: Fn(Coord) -> i32>(
    opaqueness: &F,
    light: i32,
    line: &Vec<(Coord, Coord)>,
    start: Coord,
    pos: Coord,
) -> (r: (bool, i32))
    requires
        opaqueness_ok(*opaqueness),
    ensures
        (r.0, r.1 as int) == line_light(opaq_fn(*opaqueness), light as int, line@, start, pos),
{
    let mut sum1: i64 = 0;
    let mut last1 = start;
    let mut sum2: i64 = 0;
    let mut last2 = start;
    let mut i: usize = 0;
    proof {
        assert(line@.take(0) =~= Seq::<(Coord, Coord)>::empty());
    }
    while i < line.len()
        invariant
            opaqueness_ok(*opaqueness),
            0 <= i <= line@.len(),
            (sum1 as int, last1, sum2 as int, last2) == scan(
                opaq_fn(*opaqueness),
                light as int,
                line@.take(i as int),
                start,
            ),
            0 <= sum1 < light + 2147483648 || sum1 == 0,
            0 <= sum2 < light + 2147483648 || sum2 == 0,
        decreases line@.len() - i,
    {
        let (c1, c2) = line[i];
        proof {
            assert(line@.take(i + 1).drop_last() =~= line@.take(i as int));
            assert(line@.take(i + 1).last() == (c1, c2));
        }
        if sum1 < light as i64 {
            let o1 = opaqueness(c1);
            sum1 = sum1 + o1 as i64;
            last1 = c1;
        }
        if sum2 < light as i64 {
            let o2 = opaqueness(c2);
            sum2 = sum2 + o2 as i64;
            last2 = c2;
        }
        i = i + 1;
    }
    proof {
        assert(line@.take(line@.len() as int) =~= line@);
    }
    let l1 = last1 == pos;
    let l2 = last2 == pos;
    if l1 && l2 {
        let m = if sum1 <= sum2 {
            sum1
        } else {
            sum2
        };
        (true, (light as i64 - m) as i32)
    } else if l1 {
        (true, (light as i64 - sum1) as i32)
    } else if l2 {
        (true, (light as i64 - sum2) as i32)
    } else {
        (false, 0)
    }
}

/// The line check from `start` to `pos`.
pub fn los_check_line<F: Fn(Coord) -> i32>(opaqueness: &F, light: i32, start: Coord, pos: Coord) -> (r: (
    bool,
    i32,
))
    requires
        opaqueness_ok(*opaqueness),
        start.in_line_range(),
        pos.in_line_range(),
    ensures
        (r.0, r.1 as int) == sight(opaq_fn(*opaqueness), light as int, start, pos),
{
    let line = hex_edge_line(start, pos);
    check_line(opaqueness, light, &line, start, pos)
}

/// How far `c` lies from `start` along `d`, counted in half steps: a step in
/// direction `d` adds 2, a step 60 degrees off it adds 1.
pub open spec fn reach(start: Coord, c: Coord, d: Dir) -> int {
    let vx = c.x - start.x;
    let vy = c.y - start.y;
    match d {
        Dir::YZ => vx + 2 * vy,
        Dir::XZ => 2 * vx + vy,
        Dir::XY => vx - vy,
        Dir::ZY => -vx - 2 * vy,
        Dir::ZX => -2 * vx - vy,
        Dir::YX => vy - vx,
    }
}

/// What is left of a sweep's range at `c`: it floods only cells less than
/// `light` steps from `start` along its direction.
pub open spec fn budget(light: int, start: Coord, c: Coord, d: Dir) -> nat {
    if reach(start, c, d) < 2 * light {
        (2 * light - reach(start, c, d)) as nat
    } else {
        0
    }
}

/// `c` is one a sweep along `d` may flood: where lines are exact, and less
/// than `light` steps from `start` along `d`.
pub open spec fn eligible(light: int, start: Coord, c: Coord, d: Dir) -> bool {
    c.in_line_range() && reach(start, c, d) < 2 * light
}

/// The turns a flood takes from its direction.
pub open spec fn flood_turn(a: Angle) -> bool {
    a == Angle::Forward || a == Angle::Left || a == Angle::Right
}

/// `v` is a cell a flood along `d` steps to from `u`.
pub open spec fn flood_step(d: Dir, u: Coord, v: Coord) -> bool {
    exists|a: Angle| flood_turn(a) && u.can_step(d.turned(a)) && #[trigger] u.neighbor(d.turned(a)) == v
}

/// `p` is a walk of a flood along `d` from `start` through cells it may flood
/// that a line from `start` reaches.
pub open spec fn flood_path(o: spec_fn(Coord) -> int, light: int, start: Coord, d: Dir, p: Seq<Coord>) -> bool {
    &&& p.len() >= 1
    &&& p[0] == start
    &&& forall|k: int|
        0 <= k < p.len() ==> eligible(light, start, #[trigger] p[k], d) && sight(o, light, start, p[k]).0
    &&& forall|k: int| 0 <= k < p.len() - 1 ==> #[trigger] flood_step(d, p[k], p[k + 1])
}

/// `v` holds a report of `c` with light `l`.
pub open spec fn reported(v: Seq<(Coord, i32)>, c: Coord, l: int) -> bool {
    exists|i: int| 0 <= i < v.len() && v[i].0 == c && v[i].1 as int == l
}

/// The direction from `start` to `c`, or `d` where they are the same cell.
pub open spec fn toward(start: Coord, c: Coord, d: Dir) -> Dir {
    match cw_direction(start, c) {
        Some(e) => e,
        None => d,
    }
}

/// The side neighbour of `c`, turned by `a` from the direction towards it,
/// exists and lies where lines are exact.
pub open spec fn side_ok(start: Coord, c: Coord, d: Dir, a: Angle) -> bool {
    c.can_step(toward(start, c, d).turned(a)) && c.neighbor(toward(start, c, d).turned(a)).in_line_range()
}

/// The light a cell that no line reaches is reported with: that of its left
/// side neighbour where a line reaches it, else that of its right one, else
/// none.
pub open spec fn side_light(o: spec_fn(Coord) -> int, light: int, start: Coord, c: Coord, d: Dir) -> Option<
    int,
> {
    let left = c.neighbor(toward(start, c, d).turned(Angle::Left));
    let right = c.neighbor(toward(start, c, d).turned(Angle::Right));
    if side_ok(start, c, d, Angle::Left) && sight(o, light, start, left).0 {
        Some(sight(o, light, start, left).1)
    } else if side_ok(start, c, d, Angle::Right) && sight(o, light, start, right).0 {
        Some(sight(o, light, start, right).1)
    } else {
        None
    }
}

/// The flood along `d` gets to `c`: it is `start`, or lies one flood step
/// past a walk of cells that lines reach.
pub open spec fn reached(o: spec_fn(Coord) -> int, light: int, start: Coord, d: Dir, c: Coord) -> bool {
    c == start || exists|p: Seq<Coord>|
        #[trigger] flood_path(o, light, start, d, p) && flood_step(d, p.last(), c)
}

/// `(c, l)` is a report of the flood along `d`: it gets to `c`, which it may
/// flood, and a line reaches `c` with light `l` left, or none does and `l`
/// is the light of a side neighbour.
pub open spec fn seen(o: spec_fn(Coord) -> int, light: int, start: Coord, d: Dir, c: Coord, l: int) -> bool {
    &&& reached(o, light, start, d, c)
    &&& eligible(light, start, c, d)
    &&& if sight(o, light, start, c).0 {
        sight(o, light, start, c).1 == l
    } else {
        side_light(o, light, start, c, d) == Some(l)
    }
}

fn side_report<F: Fn(Coord) -> i32>(opaqueness: &F, light: i32, start: Coord, pos: Coord, dir: Dir) -> (r: Option<i32>)
    requires
        opaqueness_ok(*opaqueness),
        start.in_line_range(),
        pos.in_line_range(),
    ensures
        match r {
            Some(l) => side_light(opaq_fn(*opaqueness), light as int, start, pos, dir) == Some(l as int),
            None => side_light(opaq_fn(*opaqueness), light as int, start, pos, dir) is None,
        },
{
    let dir_to = match hex_direction_to_cw(start, pos) {
        Some(d) => d,
        None => dir,
    };
    match pos.step(dir_to.turn(Angle::Left)) {
        Some(n) => {
            if n.is_in_line_range() {
                let (sv, sl) = los_check_line(opaqueness, light, start, n);
                if sv {
                    return Some(sl);
                }
            }
        },
        None => {},
    }
    match pos.step(dir_to.turn(Angle::Right)) {
        Some(n) => {
            if n.is_in_line_range() {
                let (sv, sl) = los_check_line(opaqueness, light, start, n);
                if sv {
                    return Some(sl);
                }
            }
        },
        None => {},
    }
    None
}

spec fn children_in(vis: Set<i64>, light: int, start: Coord, v: Coord, d: Dir) -> bool {
    forall|a: Angle|
        flood_turn(a) && v.can_step(d.turned(a)) && eligible(light, start, v.neighbor(d.turned(a)), d)
            ==> vis.contains(key(#[trigger] v.neighbor(d.turned(a))) as i64)
}

spec fn settled(
    o: spec_fn(Coord) -> int,
    light: int,
    start: Coord,
    d: Dir,
    v: Coord,
    out: Seq<(Coord, i32)>,
    vis: Set<i64>,
) -> bool {
    &&& eligible(light, start, v, d)
    &&& sight(o, light, start, v).0 ==> reported(out, v, sight(o, light, start, v).1) && children_in(
        vis,
        light,
        start,
        v,
        d,
    )
}

proof fn lemma_settled_grows(
    o: spec_fn(Coord) -> int,
    light: int,
    start: Coord,
    d: Dir,
    v: Coord,
    out1: Seq<(Coord, i32)>,
    vis1: Set<i64>,
    out2: Seq<(Coord, i32)>,
    vis2: Set<i64>,
)
    requires
        settled(o, light, start, d, v, out1, vis1),
        out2.len() >= out1.len(),
        forall|i: int| 0 <= i < out1.len() ==> out2[i] == out1[i],
        vis1.subset_of(vis2),
    ensures
        settled(o, light, start, d, v, out2, vis2),
{
    if sight(o, light, start, v).0 {
        let i = choose|i: int|
            0 <= i < out1.len() && out1[i].0 == v && out1[i].1 as int == sight(o, light, start, v).1;
        assert(out2[i] == out1[i]);
    }
}

proof fn lemma_flood_complete(
    o: spec_fn(Coord) -> int,
    light: int,
    start: Coord,
    d: Dir,
    p: Seq<Coord>,
    k: int,
    out: Seq<(Coord, i32)>,
    vis: Set<i64>,
)
    requires
        flood_path(o, light, start, d, p),
        0 <= k < p.len(),
        vis.contains(key(start) as i64),
        forall|v: Coord| #[trigger] vis.contains(key(v) as i64) ==> settled(o, light, start, d, v, out, vis),
    ensures
        vis.contains(key(p[k]) as i64),
        reported(out, p[k], sight(o, light, start, p[k]).1),
    decreases k,
{
    if k > 0 {
        lemma_flood_complete(o, light, start, d, p, k - 1, out, vis);
        let u = p[k - 1];
        assert(flood_step(d, p[k - 1], p[(k - 1) + 1]));
        assert(flood_step(d, u, p[k]));
        let a = choose|a: Angle| flood_turn(a) && u.can_step(d.turned(a)) && #[trigger] u.neighbor(d.turned(a)) == p[k];
        assert(eligible(light, start, p[k], d));
        assert(settled(o, light, start, d, u, out, vis));
    }
    assert(eligible(light, start, p[k], d) && sight(o, light, start, p[k]).0);
    assert(settled(o, light, start, d, p[k], out, vis));
}

proof fn lemma_turn_reach(start: Coord, c: Coord, d: Dir, a: Angle)
    requires
        a == Angle::Forward || a == Angle::Left || a == Angle::Right,
        c.can_step(d.turned(a)),
    ensures
        reach(start, c.neighbor(d.turned(a)), d) >= reach(start, c, d) + 1,
{
    match a {
        Angle::Forward => {},
        Angle::Left => {},
        _ => {},
    }
}

fn reach_of(start: Coord, c: Coord, d: Dir) -> (r: i64)
    requires
        start.in_line_range(),
        c.in_line_range(),
    ensures
        r == reach(start, c, d),
{
    let vx = c.x as i64 - start.x as i64;
    let vy = c.y as i64 - start.y as i64;
    match d {
        Dir::YZ => vx + 2 * vy,
        Dir::XZ => 2 * vx + vy,
        Dir::XY => vx - vy,
        Dir::ZY => -vx - 2 * vy,
        Dir::ZX => -2 * vx - vy,
        Dir::YX => vy - vx,
    }
}

/// What the flood along `d` reports from `pos` on, and the cells it has
/// visited after, given those it had visited before (as keys): nothing for a
/// cell it may not flood or has visited; for a cell no line reaches, the side
/// report if any and no further; otherwise the cell's own report, then the
/// floods from its Forward, Left and Right neighbours in that order.
#[verifier::rlimit(100)]
#[verifier::opaque]
pub open spec fn flood(
    o: spec_fn(Coord) -> int,
    light: int,
    start: Coord,
    d: Dir,
    pos: Coord,
    vis: Set<i64>,
) -> (Seq<(Coord, int)>, Set<i64>)
    decreases budget(light, start, pos, d),
{
    if !eligible(light, start, pos, d) || vis.contains(key(pos) as i64) {
        (seq![], vis)
    } else if !sight(o, light, start, pos).0 {
        (
            match side_light(o, light, start, pos, d) {
                Some(l) => seq![(pos, l)],
                None => seq![],
            },
            vis.insert(key(pos) as i64),
        )
    } else {
        let v1 = vis.insert(key(pos) as i64);
        let ef = d.turned(Angle::Forward);
        let el = d.turned(Angle::Left);
        let er = d.turned(Angle::Right);
        let f = if pos.can_step(ef) {
            flood(o, light, start, d, pos.neighbor(ef), v1)
        } else {
            (seq![], v1)
        };
        let l = if pos.can_step(el) {
            flood(o, light, start, d, pos.neighbor(el), f.1)
        } else {
            (seq![], f.1)
        };
        let r = if pos.can_step(er) {
            flood(o, light, start, d, pos.neighbor(er), l.1)
        } else {
            (seq![], l.1)
        };
        (seq![(pos, sight(o, light, start, pos).1)] + f.0 + l.0 + r.0, r.1)
    }
}

/// The turn a flood takes `j`-th from a cell: Forward, Left, then Right.
pub open spec fn turn_at(j: int) -> Angle {
    if j == 0 {
        Angle::Forward
    } else if j == 1 {
        Angle::Left
    } else {
        Angle::Right
    }
}

/// The floods from the first `j` of the Forward, Left and Right neighbours
/// of `pos`, one after the other, each starting from the cells visited by
/// the one before.
#[verifier::opaque]
pub open spec fn fan_flood(
    o: spec_fn(Coord) -> int,
    light: int,
    start: Coord,
    d: Dir,
    pos: Coord,
    vis: Set<i64>,
    j: nat,
) -> (Seq<(Coord, int)>, Set<i64>)
    decreases j,
{
    if j == 0 {
        (seq![], vis)
    } else {
        let prev = fan_flood(o, light, start, d, pos, vis, (j - 1) as nat);
        let e = d.turned(turn_at(j - 1));
        let next = if pos.can_step(e) {
            flood(o, light, start, d, pos.neighbor(e), prev.1)
        } else {
            (seq![], prev.1)
        };
        (prev.0 + next.0, next.1)
    }
}

proof fn lemma_flood_skip(o: spec_fn(Coord) -> int, light: int, start: Coord, d: Dir, pos: Coord, vis: Set<i64>)
    requires
        !eligible(light, start, pos, d) || vis.contains(key(pos) as i64),
    ensures
        flood(o, light, start, d, pos, vis) == (Seq::<(Coord, int)>::empty(), vis),
{
    reveal(flood);
    assert(flood(o, light, start, d, pos, vis).0 =~= Seq::<(Coord, int)>::empty());
}

proof fn lemma_flood_hidden(o: spec_fn(Coord) -> int, light: int, start: Coord, d: Dir, pos: Coord, vis: Set<i64>)
    requires
        eligible(light, start, pos, d),
        !vis.contains(key(pos) as i64),
        !sight(o, light, start, pos).0,
    ensures
        flood(o, light, start, d, pos, vis) == (
            match side_light(o, light, start, pos, d) {
                Some(l) => seq![(pos, l)],
                None => Seq::<(Coord, int)>::empty(),
            },
            vis.insert(key(pos) as i64),
        ),
{
    reveal(flood);
}

#[verifier::spinoff_prover]
#[verifier::rlimit(100)]
proof fn lemma_flood_lit(o: spec_fn(Coord) -> int, light: int, start: Coord, d: Dir, pos: Coord, vis: Set<i64>)
    requires
        eligible(light, start, pos, d),
        !vis.contains(key(pos) as i64),
        sight(o, light, start, pos).0,
    ensures
        flood(o, light, start, d, pos, vis) == (
            seq![(pos, sight(o, light, start, pos).1)] + fan_flood(
                o,
                light,
                start,
                d,
                pos,
                vis.insert(key(pos) as i64),
                3,
            ).0,
            fan_flood(o, light, start, d, pos, vis.insert(key(pos) as i64), 3).1,
        ),
{
    reveal(flood);
    let v1 = vis.insert(key(pos) as i64);
    lemma_fan_start(o, light, start, d, pos, v1);
    lemma_fan_step(o, light, start, d, pos, v1, 0);
    lemma_fan_step(o, light, start, d, pos, v1, 1);
    lemma_fan_step(o, light, start, d, pos, v1, 2);
    assert(turn_at(0) == Angle::Forward && turn_at(1) == Angle::Left && turn_at(2) == Angle::Right);
    let f3 = fan_flood(o, light, start, d, pos, v1, 3);
    let fl = flood(o, light, start, d, pos, vis);
    assert(fl.1 == f3.1);
    assert(fl.0 =~= seq![(pos, sight(o, light, start, pos).1)] + f3.0);
}

proof fn lemma_fan_step(
    o: spec_fn(Coord) -> int,
    light: int,
    start: Coord,
    d: Dir,
    pos: Coord,
    vis: Set<i64>,
    j: nat,
)
    requires
        j < 3,
    ensures
        fan_flood(o, light, start, d, pos, vis, j + 1) == ({
            let prev = fan_flood(o, light, start, d, pos, vis, j);
            let e = d.turned(turn_at(j as int));
            let next = if pos.can_step(e) {
                flood(o, light, start, d, pos.neighbor(e), prev.1)
            } else {
                (Seq::<(Coord, int)>::empty(), prev.1)
            };
            (prev.0 + next.0, next.1)
        }),
{
    reveal(fan_flood);
    let prev = fan_flood(o, light, start, d, pos, vis, j);
    let e = d.turned(turn_at(j as int));
    if !pos.can_step(e) {
        assert(prev.0 + seq![] =~= prev.0 + Seq::<(Coord, int)>::empty());
    }
}

proof fn lemma_fan_start(o: spec_fn(Coord) -> int, light: int, start: Coord, d: Dir, pos: Coord, vis: Set<i64>)
    ensures
        fan_flood(o, light, start, d, pos, vis, 0) == (Seq::<(Coord, int)>::empty(), vis),
{
    reveal(fan_flood);
    assert(fan_flood(o, light, start, d, pos, vis, 0).0 =~= Seq::<(Coord, int)>::empty());
}

/// `path` with `pos` added, or `pos` alone.
spec fn extend(path: Seq<Coord>, pos: Coord) -> Seq<Coord> {
    if path.len() == 0 {
        seq![pos]
    } else {
        path.push(pos)
    }
}

proof fn lemma_extend(o: spec_fn(Coord) -> int, light: int, start: Coord, dir: Dir, path: Seq<Coord>, pos: Coord)
    requires
        (path.len() == 0 && pos == start) || (flood_path(o, light, start, dir, path) && flood_step(
            dir,
            path.last(),
            pos,
        )),
        eligible(light, start, pos, dir),
        sight(o, light, start, pos).0,
    ensures
        flood_path(o, light, start, dir, extend(path, pos)),
        extend(path, pos).last() == pos,
{
    let npath = extend(path, pos);
    assert forall|k2: int|
        0 <= k2 < npath.len() implies eligible(light, start, #[trigger] npath[k2], dir) && sight(
        o,
        light,
        start,
        npath[k2],
    ).0 by {
        if k2 < path.len() {
            assert(npath[k2] == path[k2]);
        }
    }
    assert forall|k2: int| 0 <= k2 < npath.len() - 1 implies #[trigger] flood_step(
        dir,
        npath[k2],
        npath[k2 + 1],
    ) by {
        assert(npath[k2] == path[k2]);
        if k2 + 1 < path.len() {
            assert(npath[k2 + 1] == path[k2 + 1]);
            assert(flood_step(dir, path[k2], path[k2 + 1]));
        } else {
            assert(npath[k2 + 1] == pos);
            assert(path[k2] == path.last());
        }
    }
}

/// Reports pos when one of the lines from `start` reaches it, then floods on
/// forward and to both sides; where none reaches it, reports it with the light
/// of a side neighbour that one reaches, and floods no further.
#[verifier::spinoff_prover]
#[verifier::rlimit(60)]
fn los_rec<F: Fn(Coord) -> i32>(
    opaqueness: &F,
    out: &mut Vec<(Coord, i32)>,
    light: i32,
    start: Coord,
    pos: Coord,
    dir: Dir,
    visited: &mut HashSet<i64>,
    Ghost(path): Ghost<Seq<Coord>>,
)
    requires
        opaqueness_ok(*opaqueness),
        start.in_line_range(),
        (path.len() == 0 && pos == start) || (flood_path(opaq_fn(*opaqueness), light as int, start, dir, path)
            && flood_step(dir, path.last(), pos)),
    ensures
        forall|i: int|
            old(out)@.len() <= i < final(out)@.len() ==> seen(
                opaq_fn(*opaqueness),
                light as int,
                start,
                dir,
                #[trigger] final(out)@[i].0,
                final(out)@[i].1 as int,
            ),
        final(out)@.len() >= old(out)@.len(),
        forall|i: int| 0 <= i < old(out)@.len() ==> final(out)@[i] == old(out)@[i],
        old(visited)@.subset_of(final(visited)@),
        forall|v: Coord|
            #[trigger] final(visited)@.contains(key(v) as i64) && !old(visited)@.contains(
                key(v) as i64,
            ) ==> settled(opaq_fn(*opaqueness), light as int, start, dir, v, final(out)@, final(visited)@),
        reports(final(out)@) == reports(old(out)@) + flood(opaq_fn(*opaqueness), light as int, start, dir, pos, old(visited)@).0,
        final(visited)@ == flood(opaq_fn(*opaqueness), light as int, start, dir, pos, old(visited)@).1,
        eligible(light as int, start, pos, dir) ==> final(visited)@.contains(key(pos) as i64),
        forall|i: int|
            old(out)@.len() <= i < final(out)@.len() ==> final(visited)@.contains(
                key(#[trigger] final(out)@[i].0) as i64,
            ) && !old(visited)@.contains(key(final(out)@[i].0) as i64),
        forall|i: int, j: int|
            old(out)@.len() <= i < j < final(out)@.len() ==> #[trigger] final(out)@[i].0
                != #[trigger] final(out)@[j].0,
        !eligible(light as int, start, pos, dir) || old(visited)@.contains(key(pos) as i64) ==> {
            &&& final(out)@ == old(out)@
            &&& final(visited)@ == old(visited)@
        },
        eligible(light as int, start, pos, dir) && !old(visited)@.contains(key(pos) as i64)
            && !sight(opaq_fn(*opaqueness), light as int, start, pos).0 ==> {
            &&& final(visited)@ == old(visited)@.insert(key(pos) as i64)
            &&& match side_light(opaq_fn(*opaqueness), light as int, start, pos, dir) {
                Some(l) => final(out)@ == old(out)@.push((pos, l as i32)),
                None => final(out)@ == old(out)@,
            }
        },
        eligible(light as int, start, pos, dir) && !old(visited)@.contains(key(pos) as i64)
            && sight(opaq_fn(*opaqueness), light as int, start, pos).0 ==> {
            let f = final(out)@;
            let n = old(out)@.len() as int;
            &&& f.len() > n
            &&& f[n].0 == pos
            &&& f[n].1 as int == sight(opaq_fn(*opaqueness), light as int, start, pos).1
        },
    decreases budget(light as int, start, pos, dir),
{
    let ghost out00 = out@;
    if !pos.is_in_line_range() {
        proof {
            lemma_flood_skip(opaq_fn(*opaqueness), light as int, start, dir, pos, visited@);
            assert(reports(out@) =~= reports(out00) + Seq::<(Coord, int)>::empty());
        }
        return ;
    }
    let r = reach_of(start, pos, dir);
    if r >= 2 * light as i64 {
        proof {
            lemma_flood_skip(opaq_fn(*opaqueness), light as int, start, dir, pos, visited@);
            assert(reports(out@) =~= reports(out00) + Seq::<(Coord, int)>::empty());
        }
        return ;
    }
    let k = key_of(pos);
    if visited.contains(&k) {
        proof {
            lemma_key_range(pos);
            lemma_flood_skip(opaq_fn(*opaqueness), light as int, start, dir, pos, visited@);
            assert(reports(out@) =~= reports(out00) + Seq::<(Coord, int)>::empty());
        }
        return ;
    }
    let ghost vis0 = visited@;
    visited.insert(k);
    proof {
        assert forall|v: Coord|
            #[trigger] visited@.contains(key(v) as i64) && !vis0.contains(key(v) as i64) implies v
            == pos by {
            lemma_key_range(v);
            lemma_key_range(pos);
            lemma_key_injective(v, pos);
        }
        assert(reached(opaq_fn(*opaqueness), light as int, start, dir, pos)) by {
            if path.len() > 0 {
                assert(flood_path(opaq_fn(*opaqueness), light as int, start, dir, path) && flood_step(dir, path.last(), pos));
            }
        }
    }
    let (vis, l) = los_check_line(opaqueness, light, start, pos);
    if !vis {
        let side = side_report(opaqueness, light, start, pos, dir);
        proof {
            lemma_key_range(pos);
            lemma_flood_hidden(opaq_fn(*opaqueness), light as int, start, dir, pos, vis0);
        }
        match side {
            Some(sl) => {
                out.push((pos, sl));
                proof {
                    assert(reports(out@) =~= reports(out00) + seq![(pos, sl as int)]);
                }
            },
            None => {
                proof {
                    assert(reports(out@) =~= reports(out00) + Seq::<(Coord, int)>::empty());
                }
            },
        }
        return ;
    }
    proof {
        assert(seen(opaq_fn(*opaqueness), light as int, start, dir, pos, l as int));
    }
    let ghost first = out@.len();
    out.push((pos, l));
    let ghost npath = extend(path, pos);
    let ghost head = reports(out00) + seq![(pos, l as int)];
    proof {
        lemma_extend(opaq_fn(*opaqueness), light as int, start, dir, path, pos);
        lemma_fan_start(opaq_fn(*opaqueness), light as int, start, dir, pos, visited@);
        assert(reports(out@) =~= head + fan_flood(opaq_fn(*opaqueness), light as int, start, dir, pos, visited@, 0).0);
    }
    let turns = [Angle::Forward, Angle::Left, Angle::Right];
    let mut j: usize = 0;
    while j < 3
        invariant
            opaqueness_ok(*opaqueness),
            start.in_line_range(),
            0 <= j <= 3,
            turns@ == seq![Angle::Forward, Angle::Left, Angle::Right],
            reports(out@) == head + fan_flood(opaq_fn(*opaqueness), light as int, start, dir, pos, vis0.insert(k), j as nat).0,
            visited@ == fan_flood(opaq_fn(*opaqueness), light as int, start, dir, pos, vis0.insert(k), j as nat).1,
            reach(start, pos, dir) < 2 * light,
            flood_path(opaq_fn(*opaqueness), light as int, start, dir, npath),
            npath.last() == pos,
            out@.len() > first,
            out@[first as int] == (pos, l),
            forall|i: int| 0 <= i < old(out)@.len() ==> out@[i] == old(out)@[i],
            old(out)@.len() == first,
            old(visited)@ == vis0,
            vis0.insert(k).subset_of(visited@),
            k == key(pos) as i64,
            eligible(light as int, start, pos, dir),
            sight(opaq_fn(*opaqueness), light as int, start, pos) == (true, l as int),
            forall|v: Coord|
                #[trigger] visited@.contains(key(v) as i64) && !vis0.contains(key(v) as i64) && v
                    != pos ==> settled(opaq_fn(*opaqueness), light as int, start, dir, v, out@, visited@),
            forall|jj: int|
                0 <= jj < j ==> #[trigger] turns@[jj] == turns@[jj] && (pos.can_step(
                    dir.turned(turns@[jj]),
                ) && eligible(light as int, start, pos.neighbor(dir.turned(turns@[jj])), dir)
                    ==> visited@.contains(key(pos.neighbor(dir.turned(turns@[jj]))) as i64)),
            forall|i: int|
                first <= i < out@.len() ==> visited@.contains(key(#[trigger] out@[i].0) as i64)
                    && !vis0.contains(key(out@[i].0) as i64),
            forall|i: int, j: int|
                first <= i < j < out@.len() ==> #[trigger] out@[i].0 != #[trigger] out@[j].0,
            forall|i: int|
                first <= i < out@.len() ==> seen(
                    opaq_fn(*opaqueness),
                    light as int,
                    start,
                    dir,
                    #[trigger] out@[i].0,
                    out@[i].1 as int,
                ),
        decreases 3 - j,
    {
        let a = turns[j];
        let nd = dir.turn(a);
        let ghost fj = fan_flood(opaq_fn(*opaqueness), light as int, start, dir, pos, vis0.insert(k), j as nat);
        let ghost outj = out@;
        proof {
            assert(a == turn_at(j as int));
            lemma_fan_step(opaq_fn(*opaqueness), light as int, start, dir, pos, vis0.insert(k), j as nat);
        }
        match pos.step(nd) {
            Some(n) => {
                proof {
                    lemma_turn_reach(start, pos, dir, a);
                    assert(flood_step(dir, npath.last(), n));
                }
                let ghost out1 = out@;
                let ghost vis1 = visited@;
                los_rec(opaqueness, out, light, start, n, dir, visited, Ghost(npath));
                proof {
                    assert forall|v: Coord|
                        #[trigger] visited@.contains(key(v) as i64) && !vis0.contains(key(v) as i64)
                            && v != pos implies settled(opaq_fn(*opaqueness), light as int, start, dir, v, out@, visited@) by {
                        if vis1.contains(key(v) as i64) {
                            lemma_settled_grows(opaq_fn(*opaqueness), light as int, start, dir, v, out1, vis1, out@, visited@);
                        }
                    }
                    assert forall|i: int| first <= i < out@.len() implies seen(
                        opaq_fn(*opaqueness),
                        light as int,
                        start,
                        dir,
                        #[trigger] out@[i].0,
                        out@[i].1 as int,
                    ) by {
                        if i < out1.len() {
                            assert(out@[i] == out1[i]);
                        }
                    }
                    assert forall|i: int|
                        first <= i < out@.len() implies visited@.contains(
                        key(#[trigger] out@[i].0) as i64,
                    ) && !vis0.contains(key(out@[i].0) as i64) by {
                        if i < out1.len() {
                            assert(out@[i] == out1[i]);
                        }
                    }
                    assert forall|i: int, j: int|
                        first <= i < j < out@.len() implies #[trigger] out@[i].0
                        != #[trigger] out@[j].0 by {
                        if i < out1.len() {
                            assert(out@[i] == out1[i]);
                            assert(vis1.contains(key(out1[i].0) as i64));
                            if j < out1.len() {
                                assert(out@[j] == out1[j]);
                            }
                        }
                    }
                }
            },
            None => {},
        }
        proof {
            assert(reports(out@) =~= head + fan_flood(opaq_fn(*opaqueness), light as int, start, dir, pos, vis0.insert(k), (j + 1) as nat).0);
        }
        j = j + 1;
    }
    proof {
        lemma_key_range(pos);
        lemma_flood_lit(opaq_fn(*opaqueness), light as int, start, dir, pos, vis0);
        assert(reports(out@) =~= reports(out00) + flood(opaq_fn(*opaqueness), light as int, start, dir, pos, vis0).0);
    }
    proof {
        let o = opaq_fn(*opaqueness);
        assert(out@[first as int].0 == pos && out@[first as int].1 as int == sight(
            o,
            light as int,
            start,
            pos,
        ).1);
        assert(reported(out@, pos, sight(o, light as int, start, pos).1));
        assert forall|a: Angle|
            flood_turn(a) && pos.can_step(dir.turned(a)) && eligible(
                light as int,
                start,
                pos.neighbor(dir.turned(a)),
                dir,
            ) implies visited@.contains(key(#[trigger] pos.neighbor(dir.turned(a))) as i64) by {
            if a == Angle::Forward {
                assert(turns@[0] == a);
            } else if a == Angle::Left {
                assert(turns@[1] == a);
            } else {
                assert(turns@[2] == a);
            }
        }
        assert(settled(o, light as int, start, dir, pos, out@, visited@));
    }
}

/// `seg` is what one flood from `start` along `d` reports: each entry is a
/// report of it, no cell twice, every cell it can walk to through cells that
/// lines reach is there with its light, and `start` comes first where a line
/// reaches it.
pub open spec fn flood_result(
    o: spec_fn(Coord) -> int,
    light: int,
    start: Coord,
    d: Dir,
    seg: Seq<(Coord, i32)>,
) -> bool {
    &&& forall|i: int| 0 <= i < seg.len() ==> seen(o, light, start, d, #[trigger] seg[i].0, seg[i].1 as int)
    &&& forall|i: int, j: int| 0 <= i < j < seg.len() ==> #[trigger] seg[i].0 != #[trigger] seg[j].0
    &&& forall|p: Seq<Coord>|
        #[trigger] flood_path(o, light, start, d, p) ==> reported(seg, p.last(), sight(o, light, start, p.last()).1)
    &&& eligible(light, start, start, d) && sight(o, light, start, start).0 ==> seg.len() > 0
        && seg[0].0 == start && seg[0].1 as int == sight(o, light, start, start).1
}

/// The segments one after the other.
pub open spec fn joined(segs: Seq<Seq<(Coord, i32)>>) -> Seq<(Coord, i32)>
    decreases segs.len(),
{
    if segs.len() == 0 {
        seq![]
    } else {
        joined(segs.drop_last()) + segs.last()
    }
}

/// For each of `dirs` in order, a flood from `pos` along it, as `flood`
/// gives it from no visited cell, reporting each
/// cell that a line from `pos` reaches with the light left there, and once
/// each cell that none reaches, with the light of its left, else right, side
/// neighbour that one reaches; the flood goes no further past such a cell.
/// A flood reports a cell at most once, stays less than `light` steps from
/// `pos` along its direction and within the range where hex2d's lines are
/// exact; from an origin outside that range nothing is seen.
pub fn los<F: Fn(Coord) -> i32>(opaqueness: &F, light: i32, pos: Coord, dirs: &[Dir]) -> (r: Vec<
    (Coord, i32),
>)
    requires
        opaqueness_ok(*opaqueness),
    ensures
        exists|segs: Seq<Seq<(Coord, i32)>>|
            #![trigger joined(segs)]
            segs.len() == dirs@.len() && r@ == joined(segs) && forall|k: int|
                0 <= k < segs.len() ==> flood_result(opaq_fn(*opaqueness), light as int, pos, dirs@[k], #[trigger] segs[k])
                    && reports(segs[k]) == flood(opaq_fn(*opaqueness), light as int, pos, dirs@[k], pos, Set::empty()).0,
{
    let mut out: Vec<(Coord, i32)> = Vec::new();
    let inside = pos.is_in_line_range();
    let ghost mut segs: Seq<Seq<(Coord, i32)>> = seq![];
    let mut i: usize = 0;
    proof {
        assert(joined(segs) =~= out@);
    }
    while i < dirs.len()
        invariant
            opaqueness_ok(*opaqueness),
            inside == pos.in_line_range(),
            0 <= i <= dirs@.len(),
            segs.len() == i,
            out@ == joined(segs),
            forall|k: int| 0 <= k < i ==> flood_result(opaq_fn(*opaqueness), light as int, pos, dirs@[k], #[trigger] segs[k])
                && reports(segs[k]) == flood(opaq_fn(*opaqueness), light as int, pos, dirs@[k], pos, Set::empty()).0,
        decreases dirs@.len() - i,
    {
        let mut seg: Vec<(Coord, i32)> = Vec::new();
        let mut visited: HashSet<i64> = HashSet::new();
        if inside {
            proof {
                assert(reach(pos, pos, dirs@[i as int]) == 0);
            }
            los_rec(opaqueness, &mut seg, light, pos, pos, dirs[i], &mut visited, Ghost(Seq::empty()));
            proof {
                let o = opaq_fn(*opaqueness);
                assert forall|p: Seq<Coord>| #[trigger] flood_path(o, light as int, pos, dirs@[i as int], p) implies reported(
                    seg@,
                    p.last(),
                    sight(o, light as int, pos, p.last()).1,
                ) by {
                    assert(eligible(light as int, pos, p[0], dirs@[i as int]));
                    lemma_flood_complete(o, light as int, pos, dirs@[i as int], p, p.len() - 1, seg@, visited@);
                }
            }
        }
        let ghost s1 = seg@;
        proof {
            if !inside {
                lemma_flood_skip(opaq_fn(*opaqueness), light as int, pos, dirs@[i as int], pos, Set::empty());
                assert(reports(s1) =~= Seq::<(Coord, int)>::empty());
            } else {
                assert(reports(Seq::<(Coord, i32)>::empty()) =~= Seq::<(Coord, int)>::empty());
                assert(reports(s1) =~= flood(opaq_fn(*opaqueness), light as int, pos, dirs@[i as int], pos, Set::empty()).0);
            }
            assert(flood_result(opaq_fn(*opaqueness), light as int, pos, dirs@[i as int], s1));
        }
        out.append(&mut seg);
        proof {
            let nsegs = segs.push(s1);
            assert(nsegs.drop_last() =~= segs);
            assert(nsegs.last() == s1);
            assert(out@ == joined(nsegs));
            assert forall|k: int| 0 <= k < i + 1 implies flood_result(
                opaq_fn(*opaqueness),
                light as int,
                pos,
                dirs@[k],
                #[trigger] nsegs[k],
            ) by {
                if k < i {
                    assert(nsegs[k] == segs[k]);
                }
                assert(reports(nsegs[k]) == flood(opaq_fn(*opaqueness), light as int, pos, dirs@[k], pos, Set::empty()).0);
            }
            segs = nsegs;
        }
        i = i + 1;
    }
    proof {
        assert(segs.len() == dirs@.len() && out@ == joined(segs));
    }
    out
}

} // verus!
