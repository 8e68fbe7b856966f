//! Closest-first breadth-first search with path reconstruction.
use crate::hex::{key, key_of, lemma_key_injective, lemma_key_range, Coord, Dir};
use std::collections::HashMap;
use std::collections::VecDeque;
use vstd::prelude::*;
use vstd::std_specs::hash::spec_hash_map_len;

verus! {

broadcast use vstd::std_specs::hash::group_hash_axioms;

/// The records of a key map, read per cell.
pub open spec fn cells_of(m: Map<i64, Visit>) -> Map<Coord, Visit> {
    Map::new(|c: Coord| m.contains_key(key(c) as i64), |c: Coord| m[key(c) as i64])
}

proof fn lemma_cells_insert(m: Map<i64, Visit>, n: Coord, v: Visit)
    ensures
        cells_of(m.insert(key(n) as i64, v)) == cells_of(m).insert(n, v),
{
    assert forall|c: Coord| c != n implies key(c) as i64 != key(n) as i64 by {
        lemma_key_injective(c, n);
        lemma_key_range(c);
        lemma_key_range(n);
    }
    assert(cells_of(m.insert(key(n) as i64, v)) =~= cells_of(m).insert(n, v));
}

/// How a cell was first reached: the cell it was reached from and its number
/// of steps from the start.
#[derive(Clone, Copy, PartialEq, Eq, Structural, Debug)]
pub struct Visit {
    pub prev: Coord,
    pub dist: usize,
}

/// Finds, one after the other and closest first, the cells that satisfy
/// `is_dest` and can be reached from `start` through cells that satisfy
/// `can_pass`. The predicates are expected to answer the same for the same cell.
pub struct Traverser<FCanPass, FIsDest> {
    visited: HashMap<i64, Visit>,
    to_traverse: VecDeque<Coord>,
    can_pass: FCanPass,
    is_dest: FIsDest,
    start: Coord,
    /// Distance of the cell taken last from the queue.
    frontier: Ghost<nat>,
    /// Cells taken from the queue.
    processed: Ghost<Set<Coord>>,
    /// Cells taken from the queue that could be passed, whose neighbours were all recorded.
    expanded: Ghost<Set<Coord>>,
    /// Cells returned by `find`.
    returned: Ghost<Set<Coord>>,
}

impl<FCanPass: Fn(Coord) -> bool, FIsDest: Fn(Coord) -> bool> Traverser<FCanPass, FIsDest> {
    /// The record of each cell reached so far.
    pub closed spec fn visits(&self) -> Map<Coord, Visit> {
        cells_of(self.visited@)
    }

    /// Cells waiting to be examined, in order.
    pub closed spec fn queue(&self) -> Seq<Coord> {
        self.to_traverse@
    }

    pub closed spec fn start_cell(&self) -> Coord {
        self.start
    }

    /// Distance of the cell examined last.
    pub closed spec fn frontier(&self) -> nat {
        self.frontier@
    }

    /// `can_pass` may answer `true` for `c`.
    pub closed spec fn passable(&self, c: Coord) -> bool {
        self.can_pass.ensures((c,), true)
    }

    /// `is_dest` may answer `true` for `c`.
    pub closed spec fn destination(&self, c: Coord) -> bool {
        self.is_dest.ensures((c,), true)
    }

    /// `is_dest` may answer `false` for `c`.
    pub closed spec fn not_destination(&self, c: Coord) -> bool {
        self.is_dest.ensures((c,), false)
    }

    /// `can_pass` may answer `false` for `c`.
    pub closed spec fn blocked(&self, c: Coord) -> bool {
        self.can_pass.ensures((c,), false)
    }

    /// `c` has been returned by `find`.
    pub closed spec fn returned(&self, c: Coord) -> bool {
        self.returned@.contains(c)
    }

    /// `is_dest` answers the same for the same cell.
    pub closed spec fn dest_is_deterministic(&self) -> bool {
        forall|c: Coord, a: bool, b: bool|
            self.is_dest.ensures((c,), a) && self.is_dest.ensures((c,), b) ==> a == b
    }

    /// `c` has been taken from the queue.
    pub closed spec fn examined(&self, c: Coord) -> bool {
        self.processed@.contains(c)
    }

    /// `can_pass` answers the same for the same cell.
    pub closed spec fn passing_is_deterministic(&self) -> bool {
        forall|c: Coord, a: bool, b: bool|
            self.can_pass.ensures((c,), a) && self.can_pass.ensures((c,), b) ==> a == b
    }

    /// Both traversers ask the same predicates from the same start.
    pub closed spec fn same_search(&self, o: &Self) -> bool {
        self.can_pass == o.can_pass && self.is_dest == o.is_dest && self.start == o.start
    }

    closed spec fn dist(&self, c: Coord) -> int {
        self.visits()[c].dist as int
    }

    closed spec fn neighbors_recorded(&self, c: Coord) -> bool {
        forall|d: Dir|
            c.can_step(d) ==> self.visits().contains_key(#[trigger] c.neighbor(d)) && self.dist(
                c.neighbor(d),
            ) <= self.dist(c) + 1
    }

    closed spec fn links_ok(&self) -> bool {
        &&& self.visits().contains_key(self.start)
        &&& self.visits()[self.start] == Visit { prev: self.start, dist: 0 }
        &&& forall|c: Coord|
            #[trigger] self.visits().contains_key(c) && c != self.start ==> {
                let p = self.visits()[c].prev;
                &&& self.visits().contains_key(p)
                &&& self.expanded@.contains(p)
                &&& p.adjacent(c)
                &&& self.dist(c) == self.dist(p) + 1
            }
        &&& forall|k: i64| #[trigger]
            self.visited@.contains_key(k) ==> (self.visited@[k].dist as nat) < self.visited@.len()
        &&& forall|c: Coord| #[trigger]
            self.visits().contains_key(c) ==> self.dist(c) <= self.frontier@ + 1
    }

    closed spec fn queue_ok(&self) -> bool {
        &&& forall|i: int|
            0 <= i < self.to_traverse@.len() ==> self.visits().contains_key(
                #[trigger] self.to_traverse@[i],
            ) && self.frontier@ <= self.dist(self.to_traverse@[i]) <= self.frontier@ + 1
        &&& forall|i: int, j: int|
            0 <= i <= j < self.to_traverse@.len() ==> self.dist(#[trigger] self.to_traverse@[i])
                <= self.dist(#[trigger] self.to_traverse@[j])
        &&& forall|i: int, j: int|
            0 <= i < j < self.to_traverse@.len() ==> #[trigger] self.to_traverse@[i]
                != #[trigger] self.to_traverse@[j]
        &&& forall|i: int|
            0 <= i < self.to_traverse@.len() ==> !self.processed@.contains(
                #[trigger] self.to_traverse@[i],
            )
    }

    closed spec fn progress_ok(&self) -> bool {
        &&& forall|c: Coord| #[trigger]
            self.visits().contains_key(c) ==> self.processed@.contains(c)
                || self.to_traverse@.contains(c)
        &&& forall|c: Coord| #[trigger]
            self.processed@.contains(c) ==> self.visits().contains_key(c) && self.dist(c)
                <= self.frontier@ && (self.expanded@.contains(c) || self.can_pass.ensures(
                (c,),
                false,
            ))
        &&& forall|c: Coord| #[trigger]
            self.expanded@.contains(c) ==> self.processed@.contains(c) && self.passable(c)
    }

    closed spec fn expansion_ok(&self) -> bool {
        forall|c: Coord| #[trigger] self.expanded@.contains(c) ==> self.neighbors_recorded(c)
    }

    /// The traverser's invariant.
    pub closed spec fn wf(&self) -> bool {
        &&& self.core_ok()
        &&& self.returned@.subset_of(self.processed@)
        &&& forall|c: Coord| #[trigger]
            self.processed@.contains(c) ==> self.returned@.contains(c) || self.is_dest.ensures(
                (c,),
                false,
            )
    }

    closed spec fn core_ok(&self) -> bool {
        &&& forall|c: Coord| self.can_pass.requires((c,))
        &&& forall|c: Coord| self.is_dest.requires((c,))
        &&& self.links_ok()
        &&& self.queue_ok()
        &&& self.progress_ok()
        &&& self.expansion_ok()
    }

    /// A traverser just made: only `start` is recorded, as its own predecessor
    /// at distance 0, and it is the only cell waiting.
    pub fn new(can_pass: FCanPass, is_dest: FIsDest, start: Coord) -> (r: Self)
        requires
            forall|c: Coord| can_pass.requires((c,)),
            forall|c: Coord| is_dest.requires((c,)),
        ensures
            r.wf(),
            forall|c: Coord| r.passable(c) == can_pass.ensures((c,), true),
            forall|c: Coord| r.destination(c) == is_dest.ensures((c,), true),
            forall|c: Coord| r.blocked(c) == can_pass.ensures((c,), false),
            forall|c: Coord| r.not_destination(c) == is_dest.ensures((c,), false),
            r.passing_is_deterministic() == (forall|c: Coord, a: bool, b: bool|
                can_pass.ensures((c,), a) && can_pass.ensures((c,), b) ==> a == b),
            r.dest_is_deterministic() == (forall|c: Coord, a: bool, b: bool|
                is_dest.ensures((c,), a) && is_dest.ensures((c,), b) ==> a == b),
            forall|c: Coord| !r.examined(c) && !r.returned(c),
            r.start_cell() == start,
            r.visits() == Map::<Coord, Visit>::empty().insert(start, Visit { prev: start, dist: 0 }),
            r.queue() == seq![start],
            r.frontier() == 0,
    {
        let mut to_traverse = VecDeque::new();
        to_traverse.push_back(start);
        let mut visited = HashMap::new();
        let k = key_of(start);
        visited.insert(k, Visit { prev: start, dist: 0 });
        let r = Traverser {
            visited,
            to_traverse,
            can_pass,
            is_dest,
            start,
            frontier: Ghost(0),
            processed: Ghost(Set::empty()),
            expanded: Ghost(Set::empty()),
            returned: Ghost(Set::empty()),
        };
        proof {
            assert forall|c: Coord| #[trigger] r.visits().contains_key(c) implies c == start by {
                lemma_key_injective(c, start);
                lemma_key_range(c);
                lemma_key_range(start);
            }
            assert(r.visits() =~= Map::<Coord, Visit>::empty().insert(
                start,
                Visit { prev: start, dist: 0 },
            ));
            assert(r.to_traverse@ =~= seq![start]);
            assert(r.to_traverse@.contains(start)) by {
                assert(r.to_traverse@[0] == start);
            }
        }
        r
    }

    closed spec fn expanding(&self, pos: Coord, upto: int) -> bool {
        &&& forall|c: Coord| self.can_pass.requires((c,))
        &&& forall|c: Coord| self.is_dest.requires((c,))
        &&& self.links_ok()
        &&& self.queue_ok()
        &&& self.progress_ok()
        &&& forall|c: Coord| #[trigger]
            self.expanded@.contains(c) && c != pos ==> self.neighbors_recorded(c)
        &&& forall|d: Dir|
            d.index() < upto && pos.can_step(d) ==> self.visits().contains_key(
                #[trigger] pos.neighbor(d),
            ) && self.dist(pos.neighbor(d)) <= self.dist(pos) + 1
        &&& self.visits().contains_key(pos)
        &&& self.dist(pos) == self.frontier@
        &&& self.expanded@.contains(pos)
    }

    closed spec fn popped(&self, pos: Coord) -> bool {
        &&& forall|c: Coord| self.can_pass.requires((c,))
        &&& forall|c: Coord| self.is_dest.requires((c,))
        &&& self.links_ok()
        &&& self.queue_ok()
        &&& self.expansion_ok()
        &&& forall|c: Coord| #[trigger]
            self.visits().contains_key(c) ==> self.processed@.contains(c)
                || self.to_traverse@.contains(c)
        &&& forall|c: Coord| #[trigger]
            self.processed@.contains(c) && c != pos ==> self.visits().contains_key(c) && self.dist(
                c,
            ) <= self.frontier@ && (self.expanded@.contains(c) || self.can_pass.ensures(
                (c,),
                false,
            ))
        &&& forall|c: Coord| #[trigger]
            self.expanded@.contains(c) ==> self.processed@.contains(c) && self.passable(c)
        &&& self.visits().contains_key(pos)
        &&& self.dist(pos) == self.frontier@
        &&& self.processed@.contains(pos)
    }

    proof fn lemma_pop(before: Self, after: Self, pos: Coord)
        requires
            before.core_ok(),
            before.to_traverse@.len() > 0,
            pos == before.to_traverse@[0],
            after.to_traverse@ == before.to_traverse@.subrange(1, before.to_traverse@.len() as int),
            after.visited@ == before.visited@,
            after.frontier@ == before.dist(pos),
            after.processed@ == before.processed@.insert(pos),
            after.expanded@ == before.expanded@,
            after.same_search(&before),
        ensures
            after.popped(pos),
            before.frontier@ <= after.frontier@,
    {
        let q0 = before.to_traverse@;
        assert(after.visits() == before.visits());
        assert forall|c: Coord| #[trigger] after.visits().contains_key(c) implies
            after.processed@.contains(c) || after.to_traverse@.contains(c) by {
            if !after.processed@.contains(c) {
                assert(q0.contains(c));
                let i = choose|i: int| 0 <= i < q0.len() && q0[i] == c;
                assert(i != 0);
                assert(after.to_traverse@[i - 1] == c);
            }
        }
        assert forall|i: int| 0 <= i < after.to_traverse@.len() implies
            after.visits().contains_key(#[trigger] after.to_traverse@[i]) && after.frontier@
            <= after.dist(after.to_traverse@[i]) <= after.frontier@ + 1 by {
            assert(after.to_traverse@[i] == q0[i + 1]);
        }
        assert forall|i: int, j: int| 0 <= i <= j < after.to_traverse@.len() implies
            after.dist(#[trigger] after.to_traverse@[i]) <= after.dist(
                #[trigger] after.to_traverse@[j],
            ) by {
            assert(after.to_traverse@[i] == q0[i + 1]);
            assert(after.to_traverse@[j] == q0[j + 1]);
        }
        assert forall|i: int, j: int| 0 <= i < j < after.to_traverse@.len() implies
            #[trigger] after.to_traverse@[i] != #[trigger] after.to_traverse@[j] by {
            assert(after.to_traverse@[i] == q0[i + 1]);
            assert(after.to_traverse@[j] == q0[j + 1]);
        }
        assert forall|i: int| 0 <= i < after.to_traverse@.len() implies !after.processed@.contains(
            #[trigger] after.to_traverse@[i],
        ) by {
            assert(after.to_traverse@[i] == q0[i + 1]);
            assert(q0[0] != q0[i + 1]);
        }
        assert(after.links_ok());
        assert(after.expansion_ok());
    }

    proof fn lemma_pass(before: Self, after: Self, pos: Coord)
        requires
            before.popped(pos),
            before.passable(pos),
            after.to_traverse@ == before.to_traverse@,
            after.visited@ == before.visited@,
            after.frontier@ == before.frontier@,
            after.processed@ == before.processed@,
            after.expanded@ == before.expanded@.insert(pos),
            after.same_search(&before),
        ensures
            after.expanding(pos, 0),
    {
        assert(after.visits() == before.visits());
        assert(after.links_ok());
        assert(after.queue_ok());
    }

    proof fn lemma_block(s: Self, pos: Coord)
        requires
            s.popped(pos),
            s.can_pass.ensures((pos,), false),
        ensures
            s.core_ok(),
    {
    }

    proof fn lemma_expanded(s: Self, pos: Coord)
        requires
            s.expanding(pos, 6),
        ensures
            s.core_ok(),
    {
        assert forall|c: Coord| #[trigger] s.expanded@.contains(c) implies s.neighbors_recorded(
            c,
        ) by {
            if c == pos {
                assert forall|d: Dir| c.can_step(d) implies s.visits().contains_key(
                    #[trigger] c.neighbor(d),
                ) && s.dist(c.neighbor(d)) <= s.dist(c) + 1 by {
                    assert(d.index() < 6);
                }
            }
        }
    }

    /// Records the neighbour of `pos` in direction `d`, unless it is recorded
    /// already or lies outside the grid.
    fn expand_toward(&mut self, pos: Coord, d: Dir, dist: usize)
        requires
            old(self).expanding(pos, d.index()),
            dist == old(self).dist(pos) + 1,
            old(self).visited@.len() <= usize::MAX,
        ensures
            final(self).expanding(pos, d.index() + 1),
            final(self).same_search(old(self)),
            old(self).visits().submap_of(final(self).visits()),
            final(self).frontier() == old(self).frontier(),
            final(self).processed@ == old(self).processed@,
            final(self).returned@ == old(self).returned@,
            final(self).visited@.len() <= usize::MAX,
            final(self).visited@.len() - old(self).visited@.len() == final(self).to_traverse@.len()
                - old(self).to_traverse@.len(),
            old(self).visited@.len() <= final(self).visited@.len(),
    {
        match pos.step(d) {
            Some(npos) => {
                let nk = key_of(npos);
                if !self.visited.contains_key(&nk) {
                    let ghost vm = self.visited@;
                    let ghost before = *self;
                    proof {
                        lemma_cells_insert(vm, npos, Visit { prev: pos, dist });
                        assert(pos.adjacent(npos));
                    }
                    proof {
                        assert(!before.processed@.contains(npos));
                        assert(!before.to_traverse@.contains(npos)) by {
                            if before.to_traverse@.contains(npos) {
                                let j = choose|j: int|
                                    0 <= j < before.to_traverse@.len() && before.to_traverse@[j]
                                        == npos;
                                assert(before.visits().contains_key(before.to_traverse@[j]));
                            }
                        }
                    }
                    self.visited.insert(nk, Visit { prev: pos, dist });
                    self.to_traverse.push_back(npos);
                    proof {
                        let q = self.to_traverse@;
                        let n = q.len() - 1;
                        assert forall|i: int, j: int| 0 <= i < j < q.len() implies #[trigger] q[i]
                            != #[trigger] q[j] by {
                            if j == n {
                                assert(q[i] == before.to_traverse@[i]);
                            } else {
                                assert(q[i] == before.to_traverse@[i]);
                                assert(q[j] == before.to_traverse@[j]);
                            }
                        }
                        assert forall|i: int| 0 <= i < q.len() implies !self.processed@.contains(
                            #[trigger] q[i],
                        ) by {
                            if i < n {
                                assert(q[i] == before.to_traverse@[i]);
                            }
                        }
                        assert(self.visited@.len() == spec_hash_map_len(&self.visited));
                        assert(self.visited@.dom() == vm.dom().insert(nk));
                        assert(self.visited@.len() == vm.len() + 1);
                        assert(self.visits() == before.visits().insert(
                            npos,
                            Visit { prev: pos, dist },
                        ));
                        assert(self.to_traverse@.last() == npos);
                        assert forall|c: Coord| #[trigger]
                            self.visits().contains_key(c) implies self.processed@.contains(c)
                            || self.to_traverse@.contains(c) by {
                            if c == npos {
                                assert(self.to_traverse@[self.to_traverse@.len() - 1] == npos);
                            } else if !self.processed@.contains(c) {
                                assert(before.to_traverse@.contains(c));
                                let j = choose|j: int|
                                    0 <= j < before.to_traverse@.len() && before.to_traverse@[j]
                                        == c;
                                assert(self.to_traverse@[j] == c);
                            }
                        }
                        assert forall|e: Dir|
                            e.index() < d.index() + 1 && pos.can_step(e) implies
                            self.visits().contains_key(#[trigger] pos.neighbor(e))
                            && self.dist(pos.neighbor(e)) <= self.dist(pos) + 1 by {
                            if e.index() == d.index() {
                                assert(e == d);
                            }
                        }
                    }
                } else {
                    proof {
                        lemma_key_range(npos);
                        assert(self.visits().contains_key(npos));
                        assert(self.dist(npos) <= self.frontier@ + 1);
                        assert forall|e: Dir|
                            e.index() < d.index() + 1 && pos.can_step(e) implies
                            self.visits().contains_key(#[trigger] pos.neighbor(e))
                            && self.dist(pos.neighbor(e)) <= self.dist(pos) + 1 by {
                            if e.index() == d.index() {
                                assert(e == d);
                            }
                        }
                    }
                }
            },
            None => {
                proof {
                    assert forall|e: Dir|
                        e.index() < d.index() + 1 && pos.can_step(e) implies
                        self.visits().contains_key(#[trigger] pos.neighbor(e))
                        && self.dist(pos.neighbor(e)) <= self.dist(pos) + 1 by {
                        if e.index() == d.index() {
                            assert(e == d);
                        }
                    }
                }
            },
        }
    }

    /// What the traverser's invariant gives: `start` is recorded as its own
    /// predecessor at distance 0; every other record's predecessor is a
    /// recorded, passable neighbour one step closer; no record is further than
    /// one step past the distance reached; every record is examined or
    /// waiting; waiting cells are unexamined, no closer than the distance
    /// reached; examined cells are no further than it, were returned or are
    /// no destination, and are impassable or have all their neighbours
    /// recorded at most one step further.
    pub open spec fn consistent(&self) -> bool {
        let v = self.visits();
        let s = self.start_cell();
        &&& forall|c: Coord| #[trigger] self.returned(c) ==> self.examined(c)
        &&& forall|i: int, j: int|
            0 <= i < j < self.queue().len() ==> #[trigger] self.queue()[i] != #[trigger] self.queue()[j]
        &&& v.contains_key(s)
        &&& v[s] == Visit { prev: s, dist: 0 }
        &&& forall|c: Coord|
            #[trigger] v.contains_key(c) && c != s ==> {
                let p = v[c].prev;
                &&& v.contains_key(p)
                &&& p.adjacent(c)
                &&& self.passable(p)
                &&& v[c].dist == v[p].dist + 1
            }
        &&& forall|c: Coord| #[trigger]
            v.contains_key(c) ==> v[c].dist <= self.frontier() + 1 && (self.examined(c)
                || self.queue().contains(c))
        &&& forall|i: int|
            0 <= i < self.queue().len() ==> v.contains_key(#[trigger] self.queue()[i])
                && self.frontier() <= v[self.queue()[i]].dist && !self.examined(self.queue()[i])
        &&& forall|c: Coord| #[trigger]
            self.examined(c) ==> {
                &&& v.contains_key(c)
                &&& v[c].dist <= self.frontier()
                &&& self.returned(c) || self.not_destination(c)
                &&& self.blocked(c) || forall|d: Dir|
                    c.can_step(d) ==> v.contains_key(#[trigger] c.neighbor(d)) && v[c.neighbor(
                        d,
                    )].dist <= v[c].dist + 1
            }
    }

    /// Where the predicates answer the same for the same cell, a cell is not
    /// both passable and blocked, nor both a destination and not one.
    pub proof fn lemma_answers_agree(&self, c: Coord)
        ensures
            self.passing_is_deterministic() ==> !(self.passable(c) && self.blocked(c)),
            self.dest_is_deterministic() ==> !(self.destination(c) && self.not_destination(c)),
    {
    }

    /// The invariant gives the facts of `consistent`.
    pub proof fn lemma_consistent(&self)
        requires
            self.wf(),
        ensures
            self.consistent(),
    {
        assert forall|c: Coord| #[trigger] self.examined(c) implies self.blocked(c) || forall|d: Dir|
            c.can_step(d) ==> self.visits().contains_key(#[trigger] c.neighbor(d)) && self.visits()[c.neighbor(
                d,
            )].dist <= self.visits()[c].dist + 1 by {
            if !self.blocked(c) {
                assert(self.expanded@.contains(c));
                assert(self.neighbors_recorded(c));
            }
        }
    }

    proof fn lemma_outcome(s0: Self, s: Self, pos: Coord)
        requires
            s0.wf(),
            s.core_ok(),
            s.same_search(&s0),
            s.processed@ == s0.processed@.insert(pos),
            s.returned@ == s0.returned@ || s.returned@ == s0.returned@.insert(pos),
            s.returned@ == s0.returned@ ==> s.is_dest.ensures((pos,), false),
        ensures
            s.wf(),
    {
    }

    proof fn lemma_find_done(before: Self, s0: Self, after: Self, r: Option<Coord>)
        requires
            before.wf(),
            s0.wf(),
            after.wf(),
            after.same_search(&before),
            s0.same_search(&before),
            before.visits().submap_of(after.visits()),
            before.frontier() <= after.frontier(),
            before.processed@.subset_of(s0.processed@),
            s0.returned@ == before.returned@,
            forall|c: Coord|
                #[trigger] s0.processed@.contains(c) && !before.processed@.contains(c)
                    ==> s0.is_dest.ensures((c,), false),
            before.to_traverse@.len() == 0 ==> s0.to_traverse@.len() == 0,
            match r {
                None => after == s0 && after.to_traverse@.len() == 0,
                Some(c) => {
                    &&& after.processed@ == s0.processed@.insert(c)
                    &&& after.returned@ == s0.returned@.insert(c)
                    &&& !s0.processed@.contains(c)
                    &&& after.is_dest.ensures((c,), true)
                    &&& after.visits().contains_key(c)
                    &&& after.visits()[c].dist == after.frontier()
                    &&& s0.to_traverse@.len() > 0
                },
            },
        ensures
            Self::find_step(before, after, r),
    {
        after.lemma_consistent();
    }

    /// What one call of `find` does: it keeps every record, examines cells
    /// no closer than before, none of which but the one returned is a
    /// destination, and returns a destination at the distance it has
    /// reached, or `None` once no cell is left to examine.
    pub open spec fn find_step(before: Self, after: Self, r: Option<Coord>) -> bool {
        &&& after.wf()
        &&& after.same_search(&before)
        &&& before.visits().submap_of(after.visits())
        &&& after.consistent()
        &&& after.start_cell() == before.start_cell()
        &&& forall|c: Coord|
            #![trigger after.passable(c)]
            #![trigger after.destination(c)]
            after.passable(c) == before.passable(c) && after.blocked(c) == before.blocked(c)
                && after.destination(c) == before.destination(c) && after.not_destination(c)
                == before.not_destination(c)
        &&& after.passing_is_deterministic() == before.passing_is_deterministic()
        &&& after.dest_is_deterministic() == before.dest_is_deterministic()
        &&& forall|c: Coord| #[trigger] before.examined(c) ==> after.examined(c)
        &&& before.queue().len() == 0 ==> r is None
        &&& forall|c: Coord|
            #[trigger] after.returned(c) == (before.returned(c) || r == Some(c))
        &&& before.frontier() <= after.frontier()
        &&& forall|c: Coord|
            #[trigger] after.examined(c) && !before.examined(c) && r != Some(c)
                ==> after.not_destination(c)
        &&& match r {
            Some(c) => {
                &&& after.visits().contains_key(c)
                &&& after.examined(c)
                &&& !before.examined(c)
                &&& after.visits()[c].dist == after.frontier()
                &&& after.destination(c)
            },
            None => after.queue().len() == 0,
        }
    }

    /// Examines waiting cells in order, recording the unrecorded neighbours of
    /// each passable one, until one of them is a destination, which is returned.
    /// Examines waiting cells in order, recording the unrecorded neighbours of
    /// each passable one, until one of them is a destination, which is returned.
    pub fn find(&mut self) -> (r: Option<Coord>)
        requires
            old(self).wf(),
        ensures
            Self::find_step(*old(self), *final(self), r),
    {
        let ghost before = *self;
        let (r, Ghost(s0)) = self.search();
        proof {
            Self::lemma_find_done(before, s0, *self, r);
        }
        r
    }

    #[verifier::spinoff_prover]
    #[verifier::rlimit(100)]
    fn search(&mut self) -> (res: (Option<Coord>, Ghost<Self>))
        requires
            old(self).wf(),
        ensures
            old(self).wf(),
            res.1@.wf(),
            final(self).wf(),
            final(self).same_search(old(self)),
            res.1@.same_search(old(self)),
            old(self).visits().submap_of(final(self).visits()),
            old(self).frontier() <= final(self).frontier(),
            old(self).processed@.subset_of(res.1@.processed@),
            res.1@.returned@ == old(self).returned@,
            forall|c: Coord|
                #[trigger] res.1@.processed@.contains(c) && !old(self).processed@.contains(c)
                    ==> res.1@.is_dest.ensures((c,), false),
            old(self).to_traverse@.len() == 0 ==> res.1@.to_traverse@.len() == 0,
            match res.0 {
                None => *final(self) == res.1@ && final(self).to_traverse@.len() == 0,
                Some(c) => {
                    &&& final(self).processed@ == res.1@.processed@.insert(c)
                    &&& final(self).returned@ == res.1@.returned@.insert(c)
                    &&& !res.1@.processed@.contains(c)
                    &&& final(self).is_dest.ensures((c,), true)
                    &&& final(self).visits().contains_key(c)
                    &&& final(self).visits()[c].dist == final(self).frontier()
                    &&& res.1@.to_traverse@.len() > 0
                },
            },
    {
        proof {
            assert(self.visited@.len() == spec_hash_map_len(&self.visited));
        }
        loop
            invariant
                self.wf(),
                self.same_search(old(self)),
                old(self).visits().submap_of(self.visits()),
                old(self).frontier() <= self.frontier(),
                self.visited@.len() <= usize::MAX,
                forall|c: Coord|
                    #[trigger] self.processed@.contains(c) && !old(self).processed@.contains(c)
                        ==> self.is_dest.ensures((c,), false),
                old(self).processed@.subset_of(self.processed@),
                self.returned@ == old(self).returned@,
                old(self).to_traverse@.len() == 0 ==> self.to_traverse@.len() == 0,
                old(self).wf(),
            decreases 7 * (usize::MAX - self.visited@.len()) + self.to_traverse@.len(),
        {
            let ghost q0 = self.to_traverse@;
            let ghost l0 = self.visited@.len();
            let ghost s0 = *self;
            let pos = match self.to_traverse.pop_front() {
                None => {
                    proof {
                    }
                    return (None, Ghost(*self));
                },
                Some(c) => c,
            };
            self.frontier = Ghost(s0.dist(pos) as nat);
            self.processed = Ghost(self.processed@.insert(pos));
            proof {
                Self::lemma_pop(s0, *self, pos);
            }
            let pass = (self.can_pass)(pos);
            if pass {
                let k = key_of(pos);
                let rec = self.visited.get(&k);
                proof {
                    lemma_key_range(pos);
                }
                let d0 = rec.unwrap().dist;
                let dist = d0 + 1;
                let ghost s1 = *self;
                self.expanded = Ghost(self.expanded@.insert(pos));
                proof {
                    Self::lemma_pass(s1, *self, pos);
                }
                let mut i: u8 = 0;
                while i < 6
                    invariant
                        0 <= i <= 6,
                        self.expanding(pos, i as int),
                        dist == self.dist(pos) + 1,
                        self.same_search(old(self)),
                        old(self).visits().submap_of(self.visits()),
                        old(self).frontier() <= self.frontier(),
                        self.visited@.len() <= usize::MAX,
                        self.visited@.len() + q0.len() == l0 + self.to_traverse@.len() + 1,
                        l0 <= self.visited@.len(),
                        self.processed@ == s0.processed@.insert(pos),
                        self.returned@ == s0.returned@,
                    decreases 6 - i,
                {
                    let ghost vb = self.visits();
                    self.expand_toward(pos, Dir::from_index(i), dist);
                    proof {
                        assert forall|c: Coord| #[trigger]
                            old(self).visits().contains_key(c) implies self.visits().contains_key(c)
                            && self.visits()[c] == old(self).visits()[c] by {
                            assert(vb.contains_key(c));
                        }
                    }
                    i = i + 1;
                }
                proof {
                    Self::lemma_expanded(*self, pos);
                }
            } else {
                proof {
                    Self::lemma_block(*self, pos);
                }
            }
            proof {
                assert(self.visited@.len() == spec_hash_map_len(&self.visited));
                assert(!s0.processed@.contains(pos));
            }
            let ghost s2 = *self;
            let dest = (self.is_dest)(pos);
            if dest {
                self.returned = Ghost(self.returned@.insert(pos));
                proof {
                    Self::lemma_outcome(s0, *self, pos);
                }
                return (Some(pos), Ghost(s0));
            }
            proof {
                Self::lemma_outcome(s0, *self, pos);
            }
        }
    }

    /// The cell reached from `c` by following predecessors `n` times.
    pub open spec fn walk_back(&self, c: Coord, n: nat) -> Coord
        decreases n,
    {
        if n == 0 {
            c
        } else {
            self.visits()[self.walk_back(c, (n - 1) as nat)].prev
        }
    }

    /// The predecessor recorded for `pos`: `start` for `start` itself, `None`
    /// where `pos` has not been reached.
    pub fn backtrace(&self, pos: Coord) -> (r: Option<Coord>)
        ensures
            r == (if self.visits().contains_key(pos) {
                Some(self.visits()[pos].prev)
            } else {
                None::<Coord>
            }),
    {
        proof {
            lemma_key_range(pos);
        }
        match self.visited.get(&key_of(pos)) {
            Some(v) => Some(v.prev),
            None => None,
        }
    }

    /// The neighbour of `start` on the recorded path to `pos` (`start` for
    /// `start` itself), or `None` where `pos` has not been reached.
    pub fn backtrace_last(&self, pos: Coord) -> (r: Option<Coord>)
        requires
            self.wf(),
        ensures
            !self.visits().contains_key(pos) ==> r is None,
            self.visits().contains_key(pos) ==> r == Some(
                if self.visits()[pos].dist == 0 {
                    pos
                } else {
                    self.walk_back(pos, (self.visits()[pos].dist - 1) as nat)
                },
            ),
    {
        let mut cur = pos;
        let ghost mut n: nat = 0;
        proof {
            if self.visits().contains_key(pos) {
                self.lemma_walk_back(pos, 0);
            }
        }
        loop
            invariant
                self.core_ok(),
                n == 0 ==> cur == pos,
                n > 0 ==> self.visits().contains_key(pos) && n < self.dist(pos),
                self.visits().contains_key(pos) ==> cur == self.walk_back(pos, n)
                    && self.visits().contains_key(cur) && self.dist(cur) == self.dist(pos) - n,
            decreases self.dist(cur),
        {
            proof {
                lemma_key_range(cur);
            }
            match self.visited.get(&key_of(cur)) {
                None => {
                    return None;
                },
                Some(entry) => {
                    if entry.prev == self.start {
                        proof {
                            if cur != self.start {
                                assert(self.dist(cur) == 1);
                            }
                        }
                        return Some(cur);
                    } else {
                        proof {
                            assert(cur != self.start);
                            self.lemma_walk_back(pos, n + 1);
                        }
                        cur = entry.prev;
                        proof {
                            n = n + 1;
                        }
                    }
                },
            }
        }
    }

    proof fn lemma_walk_back(&self, c: Coord, i: nat)
        requires
            self.core_ok(),
            self.visits().contains_key(c),
            i <= self.dist(c),
        ensures
            self.visits().contains_key(self.walk_back(c, i)),
            self.dist(self.walk_back(c, i)) == self.dist(c) - i,
            i < self.dist(c) ==> self.walk_back(c, i) != self.start,
            i > 0 ==> self.walk_back(c, i).adjacent(self.walk_back(c, (i - 1) as nat))
                && self.passable(self.walk_back(c, i)),
        decreases i,
    {
        if i > 0 {
            self.lemma_walk_back(c, (i - 1) as nat);
        }
    }

    /// Following predecessors from a reached cell `c` arrives at `start` after
    /// exactly as many steps as the distance recorded for `c`, and not
    /// before; each step goes to a neighbour that `can_pass` accepted.
    pub proof fn lemma_backtrace_reaches_start(&self, c: Coord)
        requires
            self.wf(),
            self.visits().contains_key(c),
        ensures
            self.walk_back(c, self.visits()[c].dist as nat) == self.start_cell(),
            forall|i: nat| i < self.visits()[c].dist ==> #[trigger] self.walk_back(c, i) != self.start_cell(),
            forall|i: nat|
                0 < i <= self.visits()[c].dist ==> #[trigger] self.walk_back(c, i).adjacent(
                    self.walk_back(c, (i - 1) as nat),
                ) && self.passable(self.walk_back(c, i)),
    {
        self.lemma_walk_back(c, self.visits()[c].dist as nat);
        assert forall|i: nat| i < self.visits()[c].dist implies #[trigger] self.walk_back(c, i)
            != self.start_cell() by {
            self.lemma_walk_back(c, i);
        }
        assert forall|i: nat| 0 < i <= self.visits()[c].dist implies #[trigger] self.walk_back(
            c,
            i,
        ).adjacent(self.walk_back(c, (i - 1) as nat)) && self.passable(self.walk_back(c, i)) by {
            self.lemma_walk_back(c, i);
        }
    }

    /// Where `can_pass` answers the same for the same cell, the distance
    /// recorded for a cell is at most the number of steps of any walk to it
    /// from `start` through neighbours, every cell of which but the last is
    /// passable; with `lemma_backtrace_reaches_start`, it is the least such.
    pub proof fn lemma_shortest_path(&self, path: Seq<Coord>)
        requires
            self.wf(),
            self.passing_is_deterministic(),
            path.len() >= 1,
            path[0] == self.start_cell(),
            forall|i: int|
                0 <= i < path.len() - 1 ==> (#[trigger] path[i]).adjacent(path[i + 1])
                    && self.passable(path[i]),
            self.visits().contains_key(path.last()),
        ensures
            self.visits()[path.last()].dist <= path.len() - 1,
    {
        self.lemma_walk_from(path, 0);
    }

    proof fn lemma_walk_from(&self, path: Seq<Coord>, i: int)
        requires
            self.core_ok(),
            self.passing_is_deterministic(),
            0 <= i < path.len(),
            forall|j: int|
                0 <= j < path.len() - 1 ==> (#[trigger] path[j]).adjacent(path[j + 1])
                    && self.passable(path[j]),
            self.visits().contains_key(path[i]),
            self.dist(path[i]) <= i,
            self.visits().contains_key(path.last()),
        ensures
            self.dist(path.last()) <= path.len() - 1,
        decreases path.len() - i,
    {
        if i < path.len() - 1 {
            let p = path[i];
            assert(p.adjacent(path[i + 1]));
            assert(self.passable(p));
            if self.processed@.contains(p) {
                assert(self.expanded@.contains(p));
                let d = choose|d: Dir| p.can_step(d) && #[trigger] p.neighbor(d) == path[i + 1];
                assert(self.neighbors_recorded(p));
                self.lemma_walk_from(path, i + 1);
            } else {
                assert(self.to_traverse@.contains(p));
                let j = choose|j: int| 0 <= j < self.to_traverse@.len() && self.to_traverse@[j] == p;
                assert(self.frontier@ <= self.dist(self.to_traverse@[j]));
            }
        }
    }

    /// Where `can_pass` answers the same for the same cell, the end of a walk
    /// from `start` through neighbours, every cell of which but the last is
    /// passable, is recorded, once no cell is left to examine or once the
    /// search has reached the walk's length.
    pub proof fn lemma_reachable_recorded(&self, path: Seq<Coord>)
        requires
            self.wf(),
            self.queue().len() == 0 || path.len() - 1 <= self.frontier(),
            self.passing_is_deterministic(),
            path.len() >= 1,
            path[0] == self.start_cell(),
            forall|i: int|
                0 <= i < path.len() - 1 ==> (#[trigger] path[i]).adjacent(path[i + 1])
                    && self.passable(path[i]),
        ensures
            self.visits().contains_key(path.last()),
    {
        self.lemma_path_prefix(path, path.len() - 1);
    }

    proof fn lemma_path_prefix(&self, path: Seq<Coord>, k: int)
        requires
            self.core_ok(),
            self.queue().len() == 0 || path.len() - 1 <= self.frontier(),
            self.passing_is_deterministic(),
            0 <= k < path.len(),
            path[0] == self.start_cell(),
            forall|i: int|
                0 <= i < path.len() - 1 ==> (#[trigger] path[i]).adjacent(path[i + 1])
                    && self.passable(path[i]),
        ensures
            self.visits().contains_key(path[k]),
            self.dist(path[k]) <= k,
        decreases k,
    {
        if k > 0 {
            self.lemma_path_prefix(path, k - 1);
            let p = path[k - 1];
            assert(p.adjacent(path[k]));
            assert(self.passable(p));
            if self.to_traverse@.contains(p) {
                let j = choose|j: int| 0 <= j < self.to_traverse@.len() && self.to_traverse@[j] == p;
                assert(self.frontier@ <= self.dist(self.to_traverse@[j]));
            }
            assert(self.processed@.contains(p));
            assert(self.expanded@.contains(p));
            let d = choose|d: Dir| p.can_step(d) && #[trigger] p.neighbor(d) == path[k];
            assert(self.neighbors_recorded(p));
        }
    }

    /// The effects of `find` that carry over any number of calls: records
    /// are kept and the distance reached does not go down.
    pub open spec fn later(t1: Self, t2: Self) -> bool {
        t1.visits().submap_of(t2.visits()) && t1.frontier() <= t2.frontier()
    }

    /// One call of `find` leads to a later state, and later states chain.
    pub proof fn lemma_later(t0: Self, t1: Self, t2: Self, r: Option<Coord>)
        ensures
            Self::find_step(t0, t1, r) ==> Self::later(t0, t1),
            Self::later(t0, t1) && Self::later(t1, t2) ==> Self::later(t0, t2),
    {
        if Self::later(t0, t1) && Self::later(t1, t2) {
            assert forall|c: Coord| #[trigger] t0.visits().contains_key(c) implies t2.visits().contains_key(c)
                && t2.visits()[c] == t0.visits()[c] by {
                assert(t1.visits().contains_key(c));
            }
        }
    }

    /// A destination returned by any earlier call of `find` is no further
    /// than one returned later, and keeps its record.
    pub proof fn lemma_returned_in_order(t1: Self, t2: Self, a: Coord, b: Coord)
        requires
            t1.visits().contains_key(a),
            t1.visits()[a].dist == t1.frontier(),
            Self::later(t1, t2),
            t2.visits().contains_key(b),
            t2.visits()[b].dist == t2.frontier(),
        ensures
            t2.visits()[a] == t1.visits()[a],
            t2.visits()[a].dist <= t2.visits()[b].dist,
    {
        assert(t1.visits().dom().contains(a));
        assert(t1.visits().submap_of(t2.visits()));
        assert(t2.visits().contains_key(a) && t2.visits()[a] == t1.visits()[a]);
    }

    /// Destinations come out of successive calls of `find` in order of
    /// distance, and the record of the earlier one is kept.
    pub proof fn lemma_find_in_order(t0: Self, t1: Self, t2: Self, a: Coord, b: Coord)
        requires
            Self::find_step(t0, t1, Some(a)),
            Self::find_step(t1, t2, Some(b)),
        ensures
            t2.visits().contains_key(a),
            t2.visits()[a] == t1.visits()[a],
            t2.visits()[a].dist <= t2.visits()[b].dist,
    {
        assert(t1.visits().dom().contains(a));
        assert(t1.visits().submap_of(t2.visits()));
        assert(t2.visits().contains_key(a) && t2.visits()[a] == t1.visits()[a]);
    }
}

} // verus!
