//! Line of sight by recursive shadow casting: from the origin, each sweep
//! fans out along its direction, narrowing to single rays once they settle,
//! while each cell's opaqueness is taken from the light left.
use crate::hex::{hex_distance, lemma_neighbor_distance, Angle, Coord, Dir};
use vstd::prelude::*;

verus! {

/// The value `f` answers for `c`, for a deterministic `f`.
pub open spec fn opaq_of<F: Fn(Coord) -> i32>(f: F, c: Coord) -> int {
    let r = choose|r: i32| f.ensures((c,), r);
    r as int
}

/// The answers of a deterministic `f`, as a function.
pub open spec fn opaq_fn<F: Fn(Coord) -> i32>(f: F) -> spec_fn(Coord) -> int {
    |c: Coord| opaq_of(f, c)
}

/// Reported cells with their light as a mathematical integer.
pub open spec fn reports(v: Seq<(Coord, i32)>) -> Seq<(Coord, int)> {
    v.map_values(|p: (Coord, i32)| (p.0, p.1 as int))
}

/// `f` can be asked about every cell, answers the same for the same cell,
/// and never answers a negative value.
pub open spec fn opaqueness_ok<F: Fn(Coord) -> i32>(f: F) -> bool {
    &&& forall|c: Coord| f.requires((c,))
    &&& forall|c: Coord, a: i32, b: i32| f.ensures((c,), a) && f.ensures((c,), b) ==> a == b
    &&& forall|c: Coord, a: i32| f.ensures((c,), a) ==> a >= 0
}

/// The directions a sweep goes on in from a cell, given the direction `dir`
/// that led to it and the one `pdir` before that.
pub open spec fn branches(main: Dir, dir: Option<Dir>, pdir: Option<Dir>) -> Seq<Dir> {
    match (dir, pdir) {
        (Some(d), Some(p)) => if d == p {
            seq![d]
        } else {
            seq![d, p]
        },
        (Some(d), None) => if main == d {
            seq![d, d.turned(Angle::Left), d.turned(Angle::Right)]
        } else {
            seq![d, main]
        },
        _ => seq![main, main.turned(Angle::Left), main.turned(Angle::Right)],
    }
}

/// The cells one sweep reports from `pos` on, in order; `steps` bounds how
/// far it still goes. With `first`, a cell is reported with the light that
/// arrives at it, whatever its opaqueness; otherwise only where light is left
/// once its opaqueness is taken, with that light.
pub open spec fn sweep(
    o: spec_fn(Coord) -> int,
    first: bool,
    light: int,
    pos: Coord,
    main: Dir,
    dir: Option<Dir>,
    pdir: Option<Dir>,
    steps: nat,
) -> Seq<(Coord, int)>
    decreases steps, 0nat,
{
    if steps == 0 {
        seq![]
    } else if o(pos) >= light {
        if first {
            seq![(pos, light)]
        } else {
            seq![]
        }
    } else {
        let l = light - o(pos);
        seq![(pos, if first {
            light
        } else {
            l
        })] + fan(o, first, l, pos, main, dir, branches(main, dir, pdir), (steps - 1) as nat)
    }
}

/// The sweeps that continue from `pos` in each of `ds`, one after the other.
pub open spec fn fan(
    o: spec_fn(Coord) -> int,
    first: bool,
    light: int,
    pos: Coord,
    main: Dir,
    dir: Option<Dir>,
    ds: Seq<Dir>,
    steps: nat,
) -> Seq<(Coord, int)>
    decreases steps, ds.len(),
{
    if ds.len() == 0 {
        seq![]
    } else {
        let d = ds.last();
        fan(o, first, light, pos, main, dir, ds.drop_last(), steps) + if pos.can_step(d) {
            sweep(
                o,
                first,
                light,
                pos.neighbor(d),
                if dir is Some {
                    d
                } else {
                    main
                },
                Some(d),
                dir,
                steps,
            )
        } else {
            seq![]
        }
    }
}

/// The sweeps from `pos` in each of `dirs`, one after the other.
pub open spec fn sweeps(o: spec_fn(Coord) -> int, first: bool, light: int, pos: Coord, dirs: Seq<Dir>) -> Seq<
    (Coord, int),
>
    decreases dirs.len(),
{
    if dirs.len() == 0 {
        seq![]
    } else {
        sweeps(o, first, light, pos, dirs.drop_last()) + sweep(
            o,
            first,
            light,
            pos,
            dirs.last(),
            None,
            None,
            if light > 0 {
                light as nat
            } else {
                0
            },
        )
    }
}

fn branch_dirs(main: Dir, dir: Option<Dir>, pdir: Option<Dir>) -> (r: Vec<Dir>)
    ensures
        r@ == branches(main, dir, pdir),
{
    match (dir, pdir) {
        (Some(d), Some(p)) => if d == p {
            vec![d]
        } else {
            vec![d, p]
        },
        (Some(d), None) => if main == d {
            vec![d, d.turn(Angle::Left), d.turn(Angle::Right)]
        } else {
            vec![d, main]
        },
        _ => vec![main, main.turn(Angle::Left), main.turn(Angle::Right)],
    }
}

fn los_rec<F: Fn(Coord) -> i32>(
    opaqueness: &F,
    first: bool,
    out: &mut Vec<(Coord, i32)>,
    light: i32,
    pos: Coord,
    main_dir: Dir,
    dir: Option<Dir>,
    pdir: Option<Dir>,
    steps: u32,
)
    requires
        opaqueness_ok(*opaqueness),
    ensures
        reports(final(out)@) == reports(old(out)@) + sweep(
            opaq_fn(*opaqueness),
            first,
            light as int,
            pos,
            main_dir,
            dir,
            pdir,
            steps as nat,
        ),
    decreases steps,
{
    let ghost out0 = out@;
    if steps == 0 {
        proof {
            assert(sweep(opaq_fn(*opaqueness), first, light as int, pos, main_dir, dir, pdir, steps as nat) =~= seq![]);
            assert(reports(out@) =~= reports(out0) + seq![]);
        }
        return ;
    }
    let opaq = opaqueness(pos);
    proof {
        assert(opaq_fn(*opaqueness)(pos) == opaq as int);
    }
    if opaq >= light {
        if first {
            out.push((pos, light));
        }
        proof {
            if first {
                assert(reports(out@) =~= reports(out0) + seq![(pos, light as int)]);
            } else {
                assert(reports(out@) =~= reports(out0) + seq![]);
            }
        }
        return ;
    }
    let arrived = light;
    let light = light - opaq;
    let shown = if first {
        arrived
    } else {
        light
    };
    out.push((pos, shown));
    let ds = branch_dirs(main_dir, dir, pdir);
    let ghost base = reports(out0) + seq![(pos, shown as int)];
    proof {
        assert(reports(out@) =~= base);
        assert(ds@.take(0) =~= Seq::<Dir>::empty());
    }
    let mut i: usize = 0;
    while i < ds.len()
        invariant
            opaqueness_ok(*opaqueness),
            0 <= i <= ds@.len(),
            ds@ == branches(main_dir, dir, pdir),
            steps > 0,
            reports(out@) == base + fan(
                opaq_fn(*opaqueness),
                first,
                light as int,
                pos,
                main_dir,
                dir,
                ds@.take(i as int),
                (steps - 1) as nat,
            ),
        decreases ds@.len() - i,
    {
        let d = ds[i];
        let ghost before = reports(out@);
        match pos.step(d) {
            Some(npos) => {
                let nmain = match dir {
                    Some(_) => d,
                    None => main_dir,
                };
                los_rec(opaqueness, first, out, light, npos, nmain, Some(d), dir, steps - 1);
            },
            None => {},
        }
        proof {
            assert(ds@.take(i + 1).drop_last() =~= ds@.take(i as int));
            assert(ds@.take(i + 1).last() == d);
            assert(reports(out@) =~= base + fan(
                opaq_fn(*opaqueness),
                first,
                light as int,
                pos,
                main_dir,
                dir,
                ds@.take(i + 1),
                (steps - 1) as nat,
            ));
        }
        i = i + 1;
    }
    proof {
        assert(ds@.take(ds@.len() as int) =~= ds@);
    }
}

/// Every cell that some sweep from `pos` in one of `dirs` reaches while light
/// is left, with the light left there once its opaqueness is taken, in the
/// order the sweeps reach them. No sweep goes further than `light` steps.
pub fn los<F: Fn(Coord) -> i32>(opaqueness: &F, light: i32, pos: Coord, dirs: &[Dir]) -> (r: Vec<
    (Coord, i32),
>)
    requires
        opaqueness_ok(*opaqueness),
    ensures
        reports(r@) == sweeps(opaq_fn(*opaqueness), false, light as int, pos, dirs@),
{
    run_sweeps(opaqueness, false, light, pos, dirs)
}

/// Every cell that some sweep from `pos` in one of `dirs` reaches, with the
/// light that arrives at it, reported before its opaqueness is taken; a sweep
/// ends past a cell that uses up the light. No sweep goes further than
/// `light` steps.
pub fn los_report_first<F: Fn(Coord) -> i32>(opaqueness: &F, light: i32, pos: Coord, dirs: &[Dir]) -> (r: Vec<
    (Coord, i32),
>)
    requires
        opaqueness_ok(*opaqueness),
    ensures
        reports(r@) == sweeps(opaq_fn(*opaqueness), true, light as int, pos, dirs@),
{
    run_sweeps(opaqueness, true, light, pos, dirs)
}

fn run_sweeps<F: Fn(Coord) -> i32>(opaqueness: &F, first: bool, light: i32, pos: Coord, dirs: &[Dir]) -> (r: Vec<
    (Coord, i32),
>)
    requires
        opaqueness_ok(*opaqueness),
    ensures
        reports(r@) == sweeps(opaq_fn(*opaqueness), first, light as int, pos, dirs@),
{
    let mut out: Vec<(Coord, i32)> = Vec::new();
    let steps: u32 = if light > 0 {
        light as u32
    } else {
        0
    };
    let mut i: usize = 0;
    proof {
        assert(dirs@.take(0) =~= Seq::<Dir>::empty());
        assert(reports(out@) =~= Seq::<(Coord, int)>::empty());
    }
    while i < dirs.len()
        invariant
            opaqueness_ok(*opaqueness),
            0 <= i <= dirs@.len(),
            steps as int == (if light > 0 {
                light as int
            } else {
                0
            }),
            reports(out@) == sweeps(
                opaq_fn(*opaqueness),
                first,
                light as int,
                pos,
                dirs@.take(i as int),
            ),
        decreases dirs@.len() - i,
    {
        let d = dirs[i];
        los_rec(opaqueness, first, &mut out, light, pos, d, None, None, steps);
        proof {
            assert(dirs@.take(i + 1).drop_last() =~= dirs@.take(i as int));
            assert(dirs@.take(i + 1).last() == d);
        }
        i = i + 1;
    }
    proof {
        assert(dirs@.take(dirs@.len() as int) =~= dirs@);
    }
    out
}

/// Every cell of `b` stands in `a` too, with at least as much light.
pub open spec fn dominated(a: Seq<(Coord, int)>, b: Seq<(Coord, int)>) -> bool {
    forall|i: int| 0 <= i < b.len() ==> covers(a, #[trigger] b[i])
}

/// The cell of `x` stands in `a` with at least the light of `x`.
pub open spec fn covers(a: Seq<(Coord, int)>, x: (Coord, int)) -> bool {
    exists|j: int| 0 <= j < a.len() && a[j].0 == x.0 && a[j].1 >= x.1
}

proof fn lemma_dominated_concat(
    a1: Seq<(Coord, int)>,
    a2: Seq<(Coord, int)>,
    b1: Seq<(Coord, int)>,
    b2: Seq<(Coord, int)>,
)
    requires
        dominated(a1, b1),
        dominated(a2, b2),
    ensures
        dominated(a1 + a2, b1 + b2),
{
    let a = a1 + a2;
    let b = b1 + b2;
    assert forall|i: int| 0 <= i < b.len() implies covers(a, #[trigger] b[i]) by {
        if i < b1.len() {
            assert(b[i] == b1[i]);
            assert(covers(a1, b1[i]));
            let j = choose|j: int| 0 <= j < a1.len() && a1[j].0 == b1[i].0 && a1[j].1 >= b1[i].1;
            assert(a[j] == a1[j]);
            assert(0 <= j < a.len() && a[j].0 == b[i].0 && a[j].1 >= b[i].1);
        } else {
            let k = i - b1.len();
            assert(b[i] == b2[k]);
            assert(covers(a2, b2[k]));
            let j = choose|j: int| 0 <= j < a2.len() && a2[j].0 == b2[k].0 && a2[j].1 >= b2[k].1;
            assert(a[a1.len() + j] == a2[j]);
            let jj = a1.len() + j;
            assert(0 <= jj < a.len() && a[jj].0 == b[i].0 && a[jj].1 >= b[i].1);
        }
    }
}

proof fn lemma_sweep_monotone(
    o1: spec_fn(Coord) -> int,
    o2: spec_fn(Coord) -> int,
    first: bool,
    l1: int,
    l2: int,
    pos: Coord,
    main: Dir,
    dir: Option<Dir>,
    pdir: Option<Dir>,
    steps: nat,
)
    requires
        forall|c: Coord| #[trigger] o1(c) <= o2(c),
        l2 <= l1,
    ensures
        dominated(
            sweep(o1, first, l1, pos, main, dir, pdir, steps),
            sweep(o2, first, l2, pos, main, dir, pdir, steps),
        ),
    decreases steps, 0nat,
{
    let a = sweep(o1, first, l1, pos, main, dir, pdir, steps);
    let b = sweep(o2, first, l2, pos, main, dir, pdir, steps);
    if steps > 0 {
        assert(o1(pos) <= o2(pos));
        let ha = seq![(pos, if first { l1 } else { l1 - o1(pos) })];
        let hb = seq![(pos, if first { l2 } else { l2 - o2(pos) })];
        assert(dominated(ha, hb)) by {
            assert forall|i: int| 0 <= i < hb.len() implies covers(ha, #[trigger] hb[i]) by {
                assert(i == 0);
                assert(0 <= 0 < ha.len() && ha[0].0 == hb[i].0 && ha[0].1 >= hb[i].1);
            }
        }
        let ds = branches(main, dir, pdir);
        if o2(pos) >= l2 {
            if first {
                if o1(pos) < l1 {
                    let fa = fan(o1, first, l1 - o1(pos), pos, main, dir, ds, (steps - 1) as nat);
                    lemma_dominated_concat(ha, fa, hb, seq![]);
                    assert(hb + seq![] =~= hb);
                } else {
                    assert(a == ha);
                }
            }
        } else {
            let fa = fan(o1, first, l1 - o1(pos), pos, main, dir, ds, (steps - 1) as nat);
            let fb = fan(o2, first, l2 - o2(pos), pos, main, dir, ds, (steps - 1) as nat);
            lemma_fan_monotone(o1, o2, first, l1 - o1(pos), l2 - o2(pos), pos, main, dir, ds, (steps - 1) as nat);
            lemma_dominated_concat(ha, fa, hb, fb);
        }
    }
}

proof fn lemma_fan_monotone(
    o1: spec_fn(Coord) -> int,
    o2: spec_fn(Coord) -> int,
    first: bool,
    l1: int,
    l2: int,
    pos: Coord,
    main: Dir,
    dir: Option<Dir>,
    ds: Seq<Dir>,
    steps: nat,
)
    requires
        forall|c: Coord| #[trigger] o1(c) <= o2(c),
        l2 <= l1,
    ensures
        dominated(fan(o1, first, l1, pos, main, dir, ds, steps), fan(o2, first, l2, pos, main, dir, ds, steps)),
    decreases steps, ds.len(),
{
    if ds.len() > 0 {
        let d = ds.last();
        lemma_fan_monotone(o1, o2, first, l1, l2, pos, main, dir, ds.drop_last(), steps);
        let nmain = if dir is Some {
            d
        } else {
            main
        };
        if pos.can_step(d) {
            lemma_sweep_monotone(o1, o2, first, l1, l2, pos.neighbor(d), nmain, Some(d), dir, steps);
        }
        lemma_dominated_concat(
            fan(o1, first, l1, pos, main, dir, ds.drop_last(), steps),
            if pos.can_step(d) {
                sweep(o1, first, l1, pos.neighbor(d), nmain, Some(d), dir, steps)
            } else {
                seq![]
            },
            fan(o2, first, l2, pos, main, dir, ds.drop_last(), steps),
            if pos.can_step(d) {
                sweep(o2, first, l2, pos.neighbor(d), nmain, Some(d), dir, steps)
            } else {
                seq![]
            },
        );
    }
}

/// Raising the opaqueness of cells never lets a sweep see a cell it did not
/// see before, nor leaves more light at a cell it sees.
pub proof fn lemma_more_opaqueness_sees_less(
    o1: spec_fn(Coord) -> int,
    o2: spec_fn(Coord) -> int,
    first: bool,
    light: int,
    pos: Coord,
    dirs: Seq<Dir>,
)
    requires
        forall|c: Coord| #[trigger] o1(c) <= o2(c),
    ensures
        dominated(sweeps(o1, first, light, pos, dirs), sweeps(o2, first, light, pos, dirs)),
    decreases dirs.len(),
{
    if dirs.len() > 0 {
        let steps: nat = if light > 0 {
            light as nat
        } else {
            0
        };
        lemma_more_opaqueness_sees_less(o1, o2, first, light, pos, dirs.drop_last());
        lemma_sweep_monotone(o1, o2, first, light, light, pos, dirs.last(), None, None, steps);
        lemma_dominated_concat(
            sweeps(o1, first, light, pos, dirs.drop_last()),
            sweep(o1, first, light, pos, dirs.last(), None, None, steps),
            sweeps(o2, first, light, pos, dirs.drop_last()),
            sweep(o2, first, light, pos, dirs.last(), None, None, steps),
        );
    }
}

/// Every cell of `v` lies at most `r` steps from `origin`.
pub open spec fn within(v: Seq<(Coord, int)>, origin: Coord, r: int) -> bool {
    forall|i: int| 0 <= i < v.len() ==> hex_distance(origin, (#[trigger] v[i]).0) <= r
}

proof fn lemma_within_concat(a: Seq<(Coord, int)>, b: Seq<(Coord, int)>, origin: Coord, r: int)
    requires
        within(a, origin, r),
        within(b, origin, r),
    ensures
        within(a + b, origin, r),
{
    assert forall|i: int| 0 <= i < (a + b).len() implies hex_distance(
        origin,
        (#[trigger] (a + b)[i]).0,
    ) <= r by {
        if i < a.len() {
            assert((a + b)[i] == a[i]);
        } else {
            assert((a + b)[i] == b[i - a.len()]);
        }
    }
}

proof fn lemma_sweep_within(
    o: spec_fn(Coord) -> int,
    first: bool,
    light: int,
    pos: Coord,
    main: Dir,
    dir: Option<Dir>,
    pdir: Option<Dir>,
    steps: nat,
    origin: Coord,
    k: int,
)
    requires
        hex_distance(origin, pos) <= k,
    ensures
        within(sweep(o, first, light, pos, main, dir, pdir, steps), origin, k + steps - 1),
    decreases steps, 0nat,
{
    if steps > 0 {
        let h = seq![(pos, if first { light } else { light - o(pos) })];
        assert(within(h, origin, k + steps - 1)) by {
            assert forall|i: int| 0 <= i < h.len() implies hex_distance(origin, (#[trigger] h[i]).0)
                <= k + steps - 1 by {
                assert(h[i].0 == pos);
            }
        }
        if o(pos) < light {
            let l = light - o(pos);
            let ds = branches(main, dir, pdir);
            lemma_fan_within(o, first, l, pos, main, dir, ds, (steps - 1) as nat, origin, k);
            lemma_within_concat(h, fan(o, first, l, pos, main, dir, ds, (steps - 1) as nat), origin, k + steps - 1);
        }
    }
}

proof fn lemma_fan_within(
    o: spec_fn(Coord) -> int,
    first: bool,
    light: int,
    pos: Coord,
    main: Dir,
    dir: Option<Dir>,
    ds: Seq<Dir>,
    steps: nat,
    origin: Coord,
    k: int,
)
    requires
        hex_distance(origin, pos) <= k,
    ensures
        within(fan(o, first, light, pos, main, dir, ds, steps), origin, k + steps),
    decreases steps, ds.len(),
{
    if ds.len() > 0 {
        let d = ds.last();
        lemma_fan_within(o, first, light, pos, main, dir, ds.drop_last(), steps, origin, k);
        let nmain = if dir is Some {
            d
        } else {
            main
        };
        let tail = if pos.can_step(d) {
            sweep(o, first, light, pos.neighbor(d), nmain, Some(d), dir, steps)
        } else {
            seq![]
        };
        if pos.can_step(d) {
            lemma_neighbor_distance(origin, pos, d);
            lemma_sweep_within(o, first, light, pos.neighbor(d), nmain, Some(d), dir, steps, origin, k + 1);
        }
        lemma_within_concat(fan(o, first, light, pos, main, dir, ds.drop_last(), steps), tail, origin, k + steps);
    }
}

/// Whatever the opaqueness, zero included, the sweeps see no cell `light`
/// or more steps away from where they start.
pub proof fn lemma_sweeps_stay_in_range(
    o: spec_fn(Coord) -> int,
    first: bool,
    light: int,
    pos: Coord,
    dirs: Seq<Dir>,
)
    ensures
        within(sweeps(o, first, light, pos, dirs), pos, light - 1),
    decreases dirs.len(),
{
    if dirs.len() > 0 {
        let steps: nat = if light > 0 {
            light as nat
        } else {
            0
        };
        lemma_sweeps_stay_in_range(o, first, light, pos, dirs.drop_last());
        lemma_sweep_within(o, first, light, pos, dirs.last(), None, None, steps, pos, 0);
        lemma_within_concat(
            sweeps(o, first, light, pos, dirs.drop_last()),
            sweep(o, first, light, pos, dirs.last(), None, None, steps),
            pos,
            light - 1,
        );
    }
}

} // verus!
