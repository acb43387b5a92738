//! A* search over boards, from a start board to a goal board.

use std::collections::HashMap;

use vstd::prelude::*;

use crate::counting::{digits_below, lemma_distinct_count, power};
use crate::frontier::{Entry, Frontier};
use crate::game::{
    fingerprint_of, is_permutation, lemma_slide_back, slide, slide_all, well_formed, Board, Move,
};
use crate::parity::{lemma_parity_unreachable, parity_class};

verus! {

broadcast use vstd::std_specs::hash::group_hash_axioms;

/// Every move of `p` is one of `moves`.
pub open spec fn uses_only(p: Seq<Move>, moves: Seq<Move>) -> bool {
    forall|i: int| 0 <= i < p.len() ==> moves.contains(#[trigger] p[i])
}

/// Some sequence of `moves` takes the cells `start` to the cells `goal`.
pub open spec fn reachable(start: Seq<u8>, goal: Seq<u8>, side: nat, moves: Seq<Move>) -> bool {
    exists|p: Seq<Move>| uses_only(p, moves) && #[trigger] slide_all(start, side, p) == Some(goal)
}

/// One of `moves` takes the cells `start` to the cells `goal`.
pub open spec fn one_move_apart(start: Seq<u8>, goal: Seq<u8>, side: nat, moves: Seq<Move>) -> bool {
    exists|k: int| 0 <= k < moves.len() && slide(start, side, #[trigger] moves[k]) == Some(goal)
}

/// The number of steps from slot `i` back to the start, following `parents`.
spec fn depth(parents: Seq<int>, i: int) -> nat
    decreases i,
{
    if 0 < i < parents.len() && 0 <= parents[i] < i {
        depth(parents, parents[i]) + 1
    } else {
        0
    }
}

/// The boards discovered so far: each with the move that first reached it
/// (`None` for the start), and an index from fingerprints to slots.
struct Discovered {
    boards: Vec<Board>,
    arrivals: Vec<Option<Move>>,
    buckets: HashMap<u64, Vec<usize>>,
    parents: Ghost<Seq<int>>,
    side: Ghost<nat>,
    moves: Ghost<Seq<Move>>,
}

impl Discovered {
    /// Some discovered board has the cells `s`.
    spec fn holds(&self, s: Seq<u8>) -> bool {
        exists|j: int| 0 <= j < self.boards@.len() && (#[trigger] self.boards@[j])@ == s
    }

    /// Every move from the board in slot `i` leads to a discovered board.
    spec fn expanded(&self, i: int, side: nat, moves: Seq<Move>) -> bool {
        forall|k: int|
            0 <= k < moves.len() ==> match #[trigger] slide(self.boards@[i]@, side, moves[k]) {
                Some(b) => self.holds(b),
                None => true,
            }
    }

    /// A record that holds `start` alone.
    fn new(start: Board, Ghost(moves): Ghost<Seq<Move>>) -> (r: Discovered)
        ensures
            r.wf(),
            r.boards@ == seq![start],
            r.side@ == start.edge(),
            r.moves@ == moves,
    {
        proof {
            use_type_invariant(&start);
        }
        let key = start.fingerprint();
        let mut buckets: HashMap<u64, Vec<usize>> = HashMap::new();
        let mut first: Vec<usize> = Vec::new();
        first.push(0);
        buckets.insert(key, first);
        let mut boards: Vec<Board> = Vec::new();
        boards.push(start);
        let mut arrivals: Vec<Option<Move>> = Vec::new();
        arrivals.push(None);
        let ghost side = start.edge();
        let ghost parents = seq![0int];
        let r = Discovered {
            boards,
            arrivals,
            buckets,
            parents: Ghost(parents),
            side: Ghost(side),
            moves: Ghost(moves),
        };
        assert(r.buckets@[key]@[0] == 0);
        r
    }

    fn len(&self) -> (r: usize)
        ensures
            r == self.boards@.len(),
    {
        self.boards.len()
    }

    /// The slot of a board with the cells of `b`, if there is one.
    fn find(&self, b: &Board) -> (r: Option<usize>)
        requires
            self.wf(),
            b.edge() == self.side@,
        ensures
            r matches Some(j) ==> j < self.boards@.len() && self.boards@[j as int]@ == b@,
            r is None ==> !self.holds(b@),
    {
        let count = self.boards.len();
        let key = b.fingerprint();
        match self.buckets.get(&key) {
            None => {
                proof {
                    if self.holds(b@) {
                        let j = choose|j: int| 0 <= j < self.boards@.len() && (#[trigger] self.boards@[j])@ == b@;
                        assert(self.buckets@.contains_key(fingerprint_of(self.boards@[j]@)));
                        assert(self.buckets@.contains_key(key));
                    }
                }
                None
            },
            Some(bucket) => {
                let mut p: usize = 0;
                while p < bucket.len()
                    invariant
                        self.wf(),
                        b.edge() == self.side@,
                        key == fingerprint_of(b@),
                        count == self.boards@.len(),
                        self.buckets@.contains_key(key),
                        *bucket == self.buckets@[key],
                        0 <= p <= bucket@.len(),
                        forall|q: int| 0 <= q < p ==> self.boards@[bucket@[q] as int]@ != b@,
                    decreases bucket@.len() - p,
                {
                    let slot = bucket[p];
                    assert(self.buckets@[key]@[p as int] == slot);
                    if self.boards[slot] == *b {
                        return Some(slot);
                    }
                    p = p + 1;
                }
                proof {
                    if self.holds(b@) {
                        let j = choose|j: int| 0 <= j < self.boards@.len() && (#[trigger] self.boards@[j])@ == b@;
                        assert(fingerprint_of(self.boards@[j]@) == key);
                        assert(bucket@.contains(j as usize));
                        let q = choose|q: int| 0 <= q < bucket@.len() && bucket@[q] == j as usize;
                        assert(bucket@[q] as int == j);
                        assert(self.boards@[bucket@[q] as int]@ != b@);
                    }
                }
                None
            },
        }
    }

    /// Records `b`, first reached by `arrival` from the board in slot
    /// `parent`, and returns its slot.
    fn add(&mut self, b: Board, arrival: Move, parent: usize) -> (r: usize)
        requires
            old(self).wf(),
            b.edge() == old(self).side@,
            !old(self).holds(b@),
            parent < old(self).boards@.len(),
            old(self).moves@.contains(arrival),
            slide(old(self).boards@[parent as int]@, old(self).side@, arrival) == Some(b@),
        ensures
            final(self).wf(),
            r == old(self).boards@.len(),
            final(self).boards@ == old(self).boards@.push(b),
            final(self).arrivals@ == old(self).arrivals@.push(Some(arrival)),
            final(self).parents@ == old(self).parents@.push(parent as int),
            final(self).side@ == old(self).side@,
            final(self).moves@ == old(self).moves@,
            final(self).holds(b@),
            forall|s: Seq<u8>| #[trigger] old(self).holds(s) ==> final(self).holds(s),
    {
        proof {
            use_type_invariant(&b);
        }
        let key = b.fingerprint();
        let slot = self.boards.len();
        let mut bucket = match self.buckets.remove(&key) {
            Some(v) => v,
            None => Vec::new(),
        };
        let ghost old_bucket = bucket@;
        bucket.push(slot);
        self.buckets.insert(key, bucket);
        self.boards.push(b);
        self.arrivals.push(Some(arrival));
        let ghost parents = self.parents@.push(parent as int);
        self.parents = Ghost(parents);
        proof {
            let n = self.boards@.len();
            assert(self.boards@[slot as int] == b);
            assert forall|i: int| 0 <= i < n implies self.buckets@.contains_key(
                #[trigger] fingerprint_of(self.boards@[i]@),
            ) && self.buckets@[fingerprint_of(self.boards@[i]@)]@.contains(i as usize) by {
                if i < slot {
                    assert(old(self).boards@[i] == self.boards@[i]);
                    let k = fingerprint_of(self.boards@[i]@);
                    assert(old(self).buckets@.contains_key(k));
                    let q = choose|q: int| 0 <= q < old(self).buckets@[k]@.len() && old(self).buckets@[k]@[q] == i as usize;
                    if k == key {
                        assert(self.buckets@[k]@[q] == i as usize);
                    }
                } else {
                    assert(self.buckets@[key]@[old_bucket.len() as int] == slot);
                }
            }
            assert forall|k: u64, p: int|
                #![trigger self.buckets@[k]@[p]]
                self.buckets@.contains_key(k) && 0 <= p < self.buckets@[k]@.len() implies {
                    &&& (self.buckets@[k]@[p] as int) < n
                    &&& fingerprint_of(self.boards@[self.buckets@[k]@[p] as int]@) == k
                } by {
                if k == key && p == old_bucket.len() {
                } else {
                    assert(old(self).buckets@.contains_key(k));
                    assert(self.buckets@[k]@[p] == old(self).buckets@[k]@[p]);
                    let j = old(self).buckets@[k]@[p] as int;
                    assert(j < slot);
                    assert(old(self).boards@[j] == self.boards@[j]);
                }
            }
            assert forall|i: int, j: int|
                0 <= i < n && 0 <= j < n && i != j implies (#[trigger] self.boards@[i])@ != (
                #[trigger] self.boards@[j])@ by {
                if i < slot && j < slot {
                    assert(old(self).boards@[i] == self.boards@[i]);
                    assert(old(self).boards@[j] == self.boards@[j]);
                } else if i < slot {
                    assert(old(self).boards@[i] == self.boards@[i]);
                } else {
                    assert(old(self).boards@[j] == self.boards@[j]);
                }
            }
            assert forall|s: Seq<u8>| #[trigger] old(self).holds(s) implies self.holds(s) by {
                let j = choose|j: int| 0 <= j < old(self).boards@.len() && (#[trigger] old(self).boards@[j])@ == s;
                assert(self.boards@[j] == old(self).boards@[j]);
            }
        }
        slot
    }

    /// The board in slot `i`.
    fn board(&self, i: usize) -> (r: &Board)
        requires
            i < self.boards@.len(),
        ensures
            *r == self.boards@[i as int],
    {
        &self.boards[i]
    }

    /// The move that first reached the board in slot `i`.
    fn arrival(&self, i: usize) -> (r: Option<Move>)
        requires
            i < self.boards@.len(),
            self.wf(),
        ensures
            r == self.arrivals@[i as int],
    {
        self.arrivals[i]
    }

    /// The slots agree in length; slot 0, the start, has no arrival; every
    /// other board was reached by a move in `moves` from a board of an
    /// earlier slot; the boards are well formed and distinct; the index lists
    /// each slot under its board's fingerprint and nothing else.
    spec fn wf(&self) -> bool {
        let n = self.boards@.len();
        let side = self.side@;
        let moves = self.moves@;
        &&& n > 0
        &&& self.arrivals@.len() == n
        &&& self.parents@.len() == n
        &&& self.arrivals@[0] is None
        &&& forall|i: int|
            0 <= i < n ==> (#[trigger] self.boards@[i]).edge() == side && well_formed(
                self.boards@[i]@,
                side,
            )
        &&& forall|i: int, j: int|
            0 <= i < n && 0 <= j < n && i != j ==> (#[trigger] self.boards@[i])@ != (
            #[trigger] self.boards@[j])@
        &&& forall|i: int|
            0 < i < n ==> {
                &&& (#[trigger] self.arrivals@[i]) is Some
                &&& 0 <= self.parents@[i] < i
                &&& moves.contains(self.arrivals@[i]->0)
                &&& slide(self.boards@[self.parents@[i]]@, side, self.arrivals@[i]->0) == Some(
                    self.boards@[i]@,
                )
            }
        &&& forall|i: int|
            0 <= i < n ==> self.buckets@.contains_key(#[trigger] fingerprint_of(self.boards@[i]@))
                && self.buckets@[fingerprint_of(self.boards@[i]@)]@.contains(i as usize)
        &&& forall|k: u64, p: int|
            #![trigger self.buckets@[k]@[p]]
            self.buckets@.contains_key(k) && 0 <= p < self.buckets@[k]@.len() ==> {
                &&& (self.buckets@[k]@[p] as int) < n
                &&& fingerprint_of(self.boards@[self.buckets@[k]@[p] as int]@) == k
            }
    }
}

/// Finds moves that take `start` to `goal` by A* search, or `None` when no
/// sequence of `moves` does.
///
/// The search expands a board of lowest priority first: the moves that reached
/// it plus its Manhattan distance from `goal`. A board reached again is
/// dropped, and the goal is taken as soon as a move produces it. When
/// `start` is `goal` the answer is no move at all.
pub fn a_star(start: Board, goal: &Board, moves: &[Move]) -> (r: Option<Vec<Move>>)
    requires
        start.edge() == goal.edge(),
    ensures
        start@ == goal@ ==> (r matches Some(p) && p@.len() == 0),
        r matches Some(p) ==> slide_all(start@, start.edge(), p@) == Some(goal@) && uses_only(
            p@,
            moves@,
        ),
        r is None ==> !reachable(start@, goal@, start.edge(), moves@),
        start@ != goal@ && one_move_apart(start@, goal@, start.edge(), moves@) ==> (r matches Some(
            p,
        ) && p@.len() == 1),
        parity_class(start@, start.edge()) != parity_class(goal@, start.edge()) ==> r is None,
{
    if start == *goal {
        assert(slide_all(start@, start.edge(), Seq::<Move>::empty()) == Some(start@));
        return Some(Vec::new());
    }
    proof {
        use_type_invariant(&start);
        use_type_invariant(goal);
    }
    let ghost side = start.edge();
    let ghost origin = start@;
    let ghost ms = moves@;
    let ghost n = origin.len();
    let ghost bound = power(n, n) as int;
    let first_cost = start.estimate_cost(goal);
    let mut found = Discovered::new(start, Ghost(ms));
    let mut fringe = Frontier::new();
    let first = Entry { priority: first_cost as u128, depth: 0, slot: 0 };
    fringe.push(first);
    let ghost mut first_round = true;
    proof {
        lemma_boards_bounded(found.boards@, side);
        assert(fringe@.contains(first));
        assert(fringe@[0] == first);
    }
    loop
        invariant
            found.wf(),
            found.side@ == side,
            found.moves@ == ms,
            ms == moves@,
            found.boards@[0]@ == origin,
            origin == start@,
            side == start.edge(),
            origin.len() == n,
            origin != goal@,
            goal.edge() == side,
            well_formed(goal@, side),
            bound == power(n, n) as int,
            !found.holds(goal@),
            fringe.wf(),
            forall|q: int|
                0 <= q < fringe@.len() ==> (#[trigger] fringe@[q]).slot < found.boards@.len()
                    && fringe@[q].depth < found.boards@.len(),
            forall|i: int|
                0 <= i < found.boards@.len() ==> pending(fringe@, i) || #[trigger] found.expanded(
                    i,
                    side,
                    ms,
                ),
            found.boards@.len() <= bound,
            first_round ==> fringe@.len() == 1 && fringe@[0].slot == 0 && found.boards@.len() == 1,
            !first_round ==> forall|k: int|
                0 <= k < ms.len() ==> slide(origin, side, #[trigger] ms[k]) != Some(goal@),
        decreases 2 * (bound - found.boards@.len()) + fringe@.len(),
    {
        let ghost before = fringe@;
        let ghost measure = 2 * (bound - found.boards@.len()) + fringe@.len();
        let entry = match fringe.pop() {
            Some(e) => e,
            None => {
                proof {
                    lemma_exhausted(found, goal@);
                }
                return None;
            },
        };
        let ghost was_first = first_round;
        proof {
            let q = choose|q: int| 0 <= q < before.len() && before[q] == entry;
            assert(before[q] == entry);
            assert(entry.depth < found.boards@.len());
            assert forall|q: int| 0 <= q < fringe@.len() implies (#[trigger] fringe@[q]).slot
                < found.boards@.len() && fringe@[q].depth < found.boards@.len() by {
                assert(fringe@.contains(fringe@[q]));
                let w = choose|w: int| 0 <= w < before.len() && before[w] == fringe@[q];
                assert(before[w] == fringe@[q]);
            }
            if was_first {
                assert(entry == before[0]);
            }
            assert forall|i: int|
                0 <= i < found.boards@.len() && i != entry.slot && pending(before, i) implies pending(
                fringe@,
                i,
            ) by {
                let w = choose|w: int| 0 <= w < before.len() && (#[trigger] before[w]).slot == i;
                assert(before.contains(before[w]));
                assert(fringe@.contains(before[w]));
                let v = choose|v: int| 0 <= v < fringe@.len() && fringe@[v] == before[w];
                assert(fringe@[v].slot == i);
            }
        }
        let count = found.len();
        let current_depth = entry.depth + 1;
        let mut k: usize = 0;
        while k < moves.len()
            invariant
                found.wf(),
                found.side@ == side,
                found.moves@ == ms,
                ms == moves@,
                found.boards@[0]@ == origin,
                origin == start@,
                side == start.edge(),
                origin != goal@,
                origin.len() == n,
                goal.edge() == side,
                well_formed(goal@, side),
                bound == power(n, n) as int,
                !found.holds(goal@),
                fringe.wf(),
                0 <= k <= ms.len(),
                entry.slot < found.boards@.len(),
                current_depth == entry.depth + 1,
                current_depth <= found.boards@.len(),
                forall|q: int|
                    0 <= q < fringe@.len() ==> (#[trigger] fringe@[q]).slot < found.boards@.len()
                        && fringe@[q].depth < found.boards@.len(),
                forall|i: int|
                    0 <= i < found.boards@.len() && i != entry.slot ==> pending(fringe@, i)
                        || #[trigger] found.expanded(i, side, ms),
                forall|j: int|
                    0 <= j < k ==> match #[trigger] slide(
                        found.boards@[entry.slot as int]@,
                        side,
                        ms[j],
                    ) {
                        Some(b) => found.holds(b),
                        None => true,
                    },
                found.boards@.len() <= bound,
                2 * (bound - found.boards@.len()) + fringe@.len() < measure,
                was_first ==> entry.slot == 0 && found.boards@.len() >= 1 && forall|j: int|
                    0 <= j < k ==> slide(origin, side, #[trigger] ms[j]) != Some(goal@),
                !was_first ==> forall|j: int|
                    0 <= j < ms.len() ==> slide(origin, side, #[trigger] ms[j]) != Some(goal@),
            decreases ms.len() - k,
        {
            let play = moves[k];
            let current = found.board(entry.slot);
            match current.update(play) {
                Some(next) => {
                    if next == *goal {
                        let slot = found.add(next, play, entry.slot);
                        let path = build_path(&found, slot);
                        proof {
                            if parity_class(origin, side) != parity_class(goal@, side) {
                                lemma_parity_unreachable(origin, goal@, side, ms);
                                assert(uses_only(path@, ms) && slide_all(origin, side, path@) == Some(goal@));
                            }
                            if was_first {
                                assert(depth(found.parents@, 0) == 0);
                            }
                        }
                        return Some(path);
                    }
                    if found.find(&next).is_none() {
                        let cost = next.estimate_cost(goal);
                        proof {
                            use_type_invariant(&next);
                            lemma_boards_bounded(found.boards@.push(next), side);
                        }
                        let ghost earlier = found;
                        let slot = found.add(next, play, entry.slot);
                        let fresh = Entry {
                            priority: current_depth as u128 + cost as u128,
                            depth: current_depth,
                            slot,
                        };
                        let ghost pre_push = fringe@;
                        fringe.push(fresh);
                        proof {
                            assert(fringe@.contains(fresh));
                            assert forall|q: int| 0 <= q < fringe@.len() implies (
                            #[trigger] fringe@[q]).slot < found.boards@.len() && fringe@[q].depth
                                < found.boards@.len() by {
                                assert(fringe@.contains(fringe@[q]));
                                if fringe@[q] != fresh {
                                    assert(pre_push.contains(fringe@[q]));
                                }
                            }
                            assert forall|i: int|
                                0 <= i < found.boards@.len() && i != entry.slot implies pending(
                                fringe@,
                                i,
                            ) || #[trigger] found.expanded(i, side, ms) by {
                                if i == slot {
                                    let v = choose|v: int| 0 <= v < fringe@.len() && fringe@[v] == fresh;
                                    assert(fringe@[v].slot == i);
                                } else if pending(pre_push, i) {
                                    let w = choose|w: int| 0 <= w < pre_push.len() && (#[trigger] pre_push[w]).slot == i;
                                    assert(pre_push.contains(pre_push[w]));
                                    assert(fringe@.contains(pre_push[w]));
                                    let v = choose|v: int| 0 <= v < fringe@.len() && fringe@[v] == pre_push[w];
                                    assert(fringe@[v].slot == i);
                                } else {
                                    assert(earlier.expanded(i, side, ms));
                                    assert(found.boards@[i] == earlier.boards@[i]);
                                    assert forall|j: int| 0 <= j < ms.len() implies match #[trigger] slide(found.boards@[i]@, side, ms[j]) {
                                        Some(b) => found.holds(b),
                                        None => true,
                                    } by {
                                        match slide(earlier.boards@[i]@, side, ms[j]) {
                                            Some(b) => {
                                                assert(earlier.holds(b));
                                            },
                                            None => {},
                                        }
                                    }
                                }
                            }
                        }
                    }
                },
                None => {},
            }
            k = k + 1;
        }
        proof {
            first_round = false;
        }
    }
}

/// Some entry of the frontier `f` is for slot `i`.
spec fn pending(f: Seq<Entry>, i: int) -> bool {
    exists|q: int| 0 <= q < f.len() && (#[trigger] f[q]).slot == i
}

/// Distinct boards of one edge are at most as many as the sequences that
/// could be their cells.
proof fn lemma_boards_bounded(bs: Seq<Board>, side: nat)
    requires
        bs.len() > 0,
        forall|i: int| 0 <= i < bs.len() ==> well_formed(#[trigger] bs[i]@, side),
        forall|i: int, j: int|
            0 <= i < bs.len() && 0 <= j < bs.len() && i != j ==> (#[trigger] bs[i])@ != (
            #[trigger] bs[j])@,
    ensures
        bs.len() <= power(bs[0]@.len(), bs[0]@.len()),
{
    let n = bs[0]@.len();
    let vs = bs.map_values(|b: Board| b@);
    assert forall|i: int| 0 <= i < vs.len() implies (#[trigger] vs[i]).len() == n && digits_below(
        vs[i],
        n,
    ) by {
        assert(vs[i] == bs[i]@);
        assert(well_formed(bs[i]@, side));
        assert(well_formed(bs[0]@, side));
        assert(is_permutation(bs[i]@));
    }
    assert forall|i: int, j: int| 0 <= i < vs.len() && 0 <= j < vs.len() && i != j implies vs[i]
        != vs[j] by {
        assert(vs[i] == bs[i]@);
        assert(vs[j] == bs[j]@);
    }
    lemma_distinct_count(vs, n);
}

/// With every discovered board expanded and the goal not among them, no
/// sequence of the moves reaches the goal from the start.
proof fn lemma_exhausted(found: Discovered, goal: Seq<u8>)
    requires
        found.wf(),
        !found.holds(goal),
        forall|i: int|
            0 <= i < found.boards@.len() ==> #[trigger] found.expanded(i, found.side@, found.moves@),
    ensures
        !reachable(found.boards@[0]@, goal, found.side@, found.moves@),
{
    let vs = found.boards@.map_values(|b: Board| b@);
    let side = found.side@;
    let moves = found.moves@;
    assert forall|i: int, k: int| 0 <= i < vs.len() && 0 <= k < moves.len() implies match #[trigger] slide(
        vs[i],
        side,
        #[trigger] moves[k],
    ) {
        Some(b) => vs.contains(b),
        None => true,
    } by {
        assert(vs[i] == found.boards@[i]@);
        assert(found.expanded(i, side, moves));
        match slide(vs[i], side, moves[k]) {
            Some(b) => {
                assert(found.holds(b));
                let j = choose|j: int| 0 <= j < found.boards@.len() && (#[trigger] found.boards@[j])@ == b;
                assert(vs[j] == b);
            },
            None => {},
        }
    }
    assert(vs[0] == found.boards@[0]@);
    if reachable(found.boards@[0]@, goal, side, moves) {
        let p = choose|p: Seq<Move>| uses_only(p, moves) && #[trigger] slide_all(found.boards@[0]@, side, p) == Some(goal);
        lemma_closed_set(vs, side, moves, found.boards@[0]@, p);
        let j = choose|j: int| 0 <= j < vs.len() && vs[j] == goal;
        assert(found.boards@[j]@ == goal);
    }
}

/// One move, then the rest.
proof fn lemma_slide_all_first(s: Seq<u8>, side: nat, m: Move, rest: Seq<Move>)
    ensures
        slide_all(s, side, seq![m] + rest) == match slide(s, side, m) {
            Some(n) => slide_all(n, side, rest),
            None => None,
        },
{
    let p = seq![m] + rest;
    assert(p.len() > 0);
    assert(p[0] == m);
    assert(p.drop_first() =~= rest);
}

/// From a set of boards that every move in `moves` leads back into, those
/// moves never lead out.
proof fn lemma_closed_set(
    vs: Seq<Seq<u8>>,
    side: nat,
    moves: Seq<Move>,
    s: Seq<u8>,
    p: Seq<Move>,
)
    requires
        vs.contains(s),
        forall|i: int, k: int|
            0 <= i < vs.len() && 0 <= k < moves.len() ==> match #[trigger] slide(
                vs[i],
                side,
                #[trigger] moves[k],
            ) {
                Some(b) => vs.contains(b),
                None => true,
            },
        uses_only(p, moves),
    ensures
        slide_all(s, side, p) matches Some(e) ==> vs.contains(e),
    decreases p.len(),
{
    if p.len() > 0 {
        let i = choose|i: int| 0 <= i < vs.len() && vs[i] == s;
        assert(moves.contains(p[0]));
        let k = choose|k: int| 0 <= k < moves.len() && moves[k] == p[0];
        assert(slide(vs[i], side, moves[k]) == slide(s, side, p[0]));
        let rest = p.drop_first();
        assert(uses_only(rest, moves)) by {
            assert forall|j: int| 0 <= j < rest.len() implies moves.contains(#[trigger] rest[j]) by {
                assert(rest[j] == p[j + 1]);
            }
        }
        match slide(s, side, p[0]) {
            Some(n) => {
                lemma_closed_set(vs, side, moves, n, rest);
            },
            None => {},
        }
    }
}

/// The moves that lead from the start to the board in slot `ending`,
/// walking back from it by the recorded moves.
fn build_path(movements: &Discovered, ending: usize) -> (path: Vec<Move>)
    requires
        movements.wf(),
        ending < movements.boards@.len(),
    ensures
        slide_all(movements.boards@[0]@, movements.side@, path@) == Some(
            movements.boards@[ending as int]@,
        ),
        uses_only(path@, movements.moves@),
        path@.len() == depth(movements.parents@, ending as int),
{
    let ghost side = movements.side@;
    let ghost goal = movements.boards@[ending as int]@;
    let mut backwards: Vec<Move> = Vec::new();
    let mut cursor: usize = ending;
    loop
        invariant
            movements.wf(),
            side == movements.side@,
            goal == movements.boards@[ending as int]@,
            cursor < movements.boards@.len(),
            slide_all(movements.boards@[cursor as int]@, side, backwards@.reverse()) == Some(goal),
            uses_only(backwards@, movements.moves@),
            backwards@.len() + depth(movements.parents@, cursor as int) == depth(
                movements.parents@,
                ending as int,
            ),
        ensures
            cursor == 0,
            slide_all(movements.boards@[0]@, side, backwards@.reverse()) == Some(goal),
            uses_only(backwards@, movements.moves@),
            backwards@.len() == depth(movements.parents@, ending as int),
        decreases cursor,
    {
        let movement = match movements.arrival(cursor) {
            None => {
                break;
            },
            Some(m) => m,
        };
        let here = movements.board(cursor);
        let ghost parent = movements.parents@[cursor as int];
        proof {
            lemma_slide_back(movements.boards@[parent]@, side, movement);
            assert(backwards@.push(movement).reverse() =~= seq![movement] + backwards@.reverse());
            lemma_slide_all_first(movements.boards@[parent]@, side, movement, backwards@.reverse());
        }
        let back = match here.update(movement.reverse()) {
            Some(b) => b,
            None => {
                break;
            },
        };
        let previous = match movements.find(&back) {
            Some(j) => j,
            None => {
                break;
            },
        };
        assert(previous as int == parent);
        backwards.push(movement);
        cursor = previous;
    }
    let mut path: Vec<Move> = Vec::new();
    let mut k: usize = backwards.len();
    while k > 0
        invariant
            k <= backwards@.len(),
            path@.len() == backwards@.len() - k,
            forall|q: int| 0 <= q < path@.len() ==> path@[q] == backwards@[backwards@.len() - 1 - q],
        decreases k,
    {
        k = k - 1;
        path.push(backwards[k]);
    }
    assert(path@ =~= backwards@.reverse());
    assert(uses_only(path@, movements.moves@)) by {
        assert forall|q: int| 0 <= q < path@.len() implies movements.moves@.contains(#[trigger] path@[q]) by {
            assert(path@[q] == backwards@[backwards@.len() - 1 - q]);
        }
    }
    path
}

} // verus!
