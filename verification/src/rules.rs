//! The B3/S23 rule: neighbor counting and the per-generation update.

use vstd::prelude::*;
use crate::grid::Cell;
use crate::grid::LiveCellSet;
use crate::grid::positions_of;
use crate::grid::distinct_positions;
use crate::grid::lemma_positions_push;
use crate::grid::lemma_distinct_push;

verus! {

/// 1 if position `(x, y)` is alive in `s`, else 0.
pub open spec fn live_at(s: Set<(int, int)>, x: int, y: int) -> int {
    if s.contains((x, y)) {
        1int
    } else {
        0int
    }
}

/// The number of live cells among the 8 positions at Chebyshev distance 1
/// from `(x, y)`. The center cell itself is not counted.
pub open spec fn neighbor_count(s: Set<(int, int)>, x: int, y: int) -> int {
    live_at(s, x - 1, y - 1) + live_at(s, x, y - 1) + live_at(s, x + 1, y - 1) + live_at(
        s,
        x - 1,
        y,
    ) + live_at(s, x + 1, y) + live_at(s, x - 1, y + 1) + live_at(s, x, y + 1) + live_at(
        s,
        x + 1,
        y + 1,
    )
}

/// Whether position `(x, y)` is alive in the generation after `s`:
/// a live cell survives with 2 or 3 live neighbors, a dead cell is born
/// with exactly 3 live neighbors.
pub open spec fn next_alive(s: Set<(int, int)>, x: int, y: int) -> bool {
    if s.contains((x, y)) {
        2 <= neighbor_count(s, x, y) <= 3
    } else {
        neighbor_count(s, x, y) == 3
    }
}

/// The whole next generation of `s`.
pub open spec fn next_gen(s: Set<(int, int)>) -> Set<(int, int)> {
    Set::new(|p: (int, int)| next_alive(s, p.0, p.1))
}

/// `p` is one of the 8 neighbors of `q`.
pub open spec fn adjacent(q: (int, int), p: (int, int)) -> bool {
    let dx = p.0 - q.0;
    let dy = p.1 - q.1;
    -1 <= dx <= 1 && -1 <= dy <= 1 && !(dx == 0 && dy == 0)
}

/// An alive position that keeps its life through the tick.
pub open spec fn survives(s: Set<(int, int)>, p: (int, int)) -> bool {
    s.contains(p) && 2 <= neighbor_count(s, p.0, p.1) <= 3
}

/// A dead position that comes to life through the tick.
pub open spec fn born(s: Set<(int, int)>, p: (int, int)) -> bool {
    !s.contains(p) && neighbor_count(s, p.0, p.1) == 3
}

/// How many of the 8 neighbors of `cell` are alive. The cell itself need not
/// be alive; the same count serves survival checks on live cells and birth
/// checks on dead candidates.
pub fn count_live_neighbors(set: &LiveCellSet, cell: Cell) -> (n: u32)
    requires
        i64::MIN < cell.x < i64::MAX,
        i64::MIN < cell.y < i64::MAX,
    ensures
        n == neighbor_count(set@, cell.x as int, cell.y as int),
        n <= 8,
{
    let mut n: u32 = 0;
    if set.is_alive(Cell::new(cell.x - 1, cell.y - 1)) {
        n += 1;
    }
    if set.is_alive(Cell::new(cell.x, cell.y - 1)) {
        n += 1;
    }
    if set.is_alive(Cell::new(cell.x + 1, cell.y - 1)) {
        n += 1;
    }
    if set.is_alive(Cell::new(cell.x - 1, cell.y)) {
        n += 1;
    }
    if set.is_alive(Cell::new(cell.x + 1, cell.y)) {
        n += 1;
    }
    if set.is_alive(Cell::new(cell.x - 1, cell.y + 1)) {
        n += 1;
    }
    if set.is_alive(Cell::new(cell.x, cell.y + 1)) {
        n += 1;
    }
    if set.is_alive(Cell::new(cell.x + 1, cell.y + 1)) {
        n += 1;
    }
    n
}

/// A dead cell with no alive neighbor stays dead after a tick.
pub proof fn lemma_isolated_position_stays_dead(s: Set<(int, int)>, p: (int, int))
    requires
        !s.contains(p),
        forall|q: (int, int)| adjacent(q, p) ==> !s.contains(q),
    ensures
        !next_gen(s).contains(p),
{
    let x = p.0;
    let y = p.1;
    assert(adjacent((x - 1, y - 1), p));
    assert(adjacent((x, y - 1), p));
    assert(adjacent((x + 1, y - 1), p));
    assert(adjacent((x - 1, y), p));
    assert(adjacent((x + 1, y), p));
    assert(adjacent((x - 1, y + 1), p));
    assert(adjacent((x, y + 1), p));
    assert(adjacent((x + 1, y + 1), p));
    assert(neighbor_count(s, x, y) == 0);
}

/// The empty universe ticks to the empty universe.
pub proof fn lemma_tick_empty_is_empty()
    ensures
        next_gen(Set::<(int, int)>::empty()) == Set::<(int, int)>::empty(),
{
    let e = Set::<(int, int)>::empty();
    assert forall|p: (int, int)| !next_gen(e).contains(p) by {
        assert(neighbor_count(e, p.0, p.1) == 0);
    }
    assert(next_gen(e) =~= e);
}

/// An alive cell with at most one live neighbor dies of underpopulation.
pub proof fn lemma_isolated_cell_dies(s: Set<(int, int)>, p: (int, int))
    requires
        s.contains(p),
        neighbor_count(s, p.0, p.1) <= 1,
    ensures
        !next_gen(s).contains(p),
{
}

/// An alive cell with exactly 2 or 3 live neighbors survives the tick.
pub proof fn lemma_survival(s: Set<(int, int)>, p: (int, int))
    requires
        s.contains(p),
        2 <= neighbor_count(s, p.0, p.1) <= 3,
    ensures
        next_gen(s).contains(p),
{
}

/// A dead cell is born exactly when it has 3 live neighbors; with any other
/// count it stays dead.
pub proof fn lemma_birth_rule(s: Set<(int, int)>, p: (int, int))
    requires
        !s.contains(p),
    ensures
        next_gen(s).contains(p) <==> neighbor_count(s, p.0, p.1) == 3,
{
}

/// Both coordinates lie at least two steps inside the representable range,
/// so a tick can address every neighbor of every candidate around the cell.
pub open spec fn in_tick_range(p: (int, int)) -> bool {
    i64::MIN + 2 <= p.0 <= i64::MAX - 2 && i64::MIN + 2 <= p.1 <= i64::MAX - 2
}

/// True iff every alive cell lies far enough from the coordinate limits for
/// `tick` to evaluate all of its candidates.
pub fn tick_safe(set: &LiveCellSet) -> (r: bool)
    ensures
        r <==> (forall|p: (int, int)| set@.contains(p) ==> in_tick_range(p)),
{
    let cells = set.iterate();
    let mut i: usize = 0;
    while i < cells.len()
        invariant
            0 <= i <= cells@.len(),
            positions_of(cells@) == set@,
            forall|j: int| 0 <= j < i ==> in_tick_range((#[trigger] cells@[j]).pos()),
        decreases cells@.len() - i,
    {
        let c = cells[i];
        if c.x < i64::MIN + 2 || c.x > i64::MAX - 2 || c.y < i64::MIN + 2 || c.y > i64::MAX - 2 {
            proof {
                assert(cells@[i as int].pos() == c.pos());
                assert(set@.contains(c.pos()));
                assert(!in_tick_range(c.pos()));
            }
            return false;
        }
        i += 1;
    }
    proof {
        assert forall|p: (int, int)| set@.contains(p) implies in_tick_range(p) by {
            let j = choose|j: int| 0 <= j < cells@.len() && (#[trigger] cells@[j]).pos() == p;
            assert(cells@[j].pos() == p);
        }
    }
    true
}

/// Whether some cell of the vector already names this position.
fn seq_has_position(v: &Vec<Cell>, cell: Cell) -> (r: bool)
    ensures
        r == positions_of(v@).contains(cell.pos()),
{
    let mut i: usize = 0;
    while i < v.len()
        invariant
            0 <= i <= v@.len(),
            forall|j: int| 0 <= j < i ==> (#[trigger] v@[j]).pos() != cell.pos(),
        decreases v@.len() - i,
    {
        if v[i].x == cell.x && v[i].y == cell.y {
            proof {
                assert(v@[i as int].pos() == cell.pos());
            }
            return true;
        }
        i += 1;
    }
    proof {
        assert(!positions_of(v@).contains(cell.pos()));
    }
    false
}

/// Record `cand` as a birth if the rule gives it life and it is not yet
/// recorded.
fn record_birth(set: &LiveCellSet, births: &mut Vec<Cell>, cand: Cell)
    requires
        i64::MIN < cand.x < i64::MAX,
        i64::MIN < cand.y < i64::MAX,
        distinct_positions(old(births)@),
        forall|p: (int, int)| #[trigger]
            positions_of(old(births)@).contains(p) ==> born(set@, p),
    ensures
        distinct_positions(final(births)@),
        forall|p: (int, int)| #[trigger]
            positions_of(final(births)@).contains(p) ==> born(set@, p),
        forall|p: (int, int)| #[trigger]
            positions_of(old(births)@).contains(p) ==> positions_of(final(births)@).contains(p),
        born(set@, cand.pos()) ==> positions_of(final(births)@).contains(cand.pos()),
{
    if !set.is_alive(cand) {
        let n = count_live_neighbors(set, cand);
        if n == 3 {
            if !seq_has_position(births, cand) {
                let ghost old_b = births@;
                births.push(cand);
                proof {
                    lemma_positions_push(old_b, cand);
                    lemma_distinct_push(old_b, cand);
                }
            }
        }
    }
}

/// Every alive cell with 2 or 3 live neighbors, and nothing else.
fn collect_survivors(set: &LiveCellSet, cells: &Vec<Cell>) -> (surv: Vec<Cell>)
    requires
        positions_of(cells@) == set@,
        distinct_positions(cells@),
        forall|p: (int, int)| set@.contains(p) ==> in_tick_range(p),
    ensures
        distinct_positions(surv@),
        forall|p: (int, int)| #[trigger]
            positions_of(surv@).contains(p) ==> survives(set@, p),
        forall|p: (int, int)| survives(set@, p) ==> #[trigger] positions_of(surv@).contains(p),
{
    let ghost s = set@;
    let mut surv: Vec<Cell> = Vec::new();
    let mut i: usize = 0;
    while i < cells.len()
        invariant
            0 <= i <= cells@.len(),
            s == set@,
            positions_of(cells@) == s,
            distinct_positions(cells@),
            forall|p: (int, int)| s.contains(p) ==> in_tick_range(p),
            distinct_positions(surv@),
            forall|p: (int, int)| #[trigger] positions_of(surv@).contains(p) ==> survives(s, p),
            forall|p: (int, int)| #[trigger]
                positions_of(surv@).contains(p) ==> exists|j: int|
                    0 <= j < i && (#[trigger] cells@[j]).pos() == p,
            forall|j: int|
                0 <= j < i && survives(s, (#[trigger] cells@[j]).pos())
                    ==> positions_of(surv@).contains(cells@[j].pos()),
        decreases cells@.len() - i,
    {
        let c = cells[i];
        proof {
            assert(cells@[i as int].pos() == c.pos());
            assert(s.contains(c.pos()));
            assert(in_tick_range(c.pos()));
        }
        let n = count_live_neighbors(set, c);
        if n == 2 || n == 3 {
            let ghost old_surv = surv@;
            proof {
                if positions_of(old_surv).contains(c.pos()) {
                    let j = choose|j: int| 0 <= j < i && (#[trigger] cells@[j]).pos() == c.pos();
                    assert(cells@[j].pos() != cells@[i as int].pos());
                    assert(false);
                }
            }
            surv.push(c);
            proof {
                lemma_positions_push(old_surv, c);
                lemma_distinct_push(old_surv, c);
                assert(survives(s, c.pos()));
                assert forall|p: (int, int)| #[trigger]
                    positions_of(surv@).contains(p) implies exists|j: int|
                    0 <= j < i + 1 && (#[trigger] cells@[j]).pos() == p by {
                    if positions_of(old_surv).contains(p) {
                        let j = choose|j: int|
                            0 <= j < i && (#[trigger] cells@[j]).pos() == p;
                        assert(cells@[j].pos() == p);
                    } else {
                        assert(cells@[i as int].pos() == p);
                    }
                }
            }
        }
        i += 1;
    }
    proof {
        assert forall|p: (int, int)| survives(s, p) implies #[trigger]
            positions_of(surv@).contains(p) by {
            let j = choose|j: int| 0 <= j < cells@.len() && (#[trigger] cells@[j]).pos() == p;
            assert(cells@[j].pos() == p);
            assert(survives(s, cells@[j].pos()));
        }
    }
    surv
}

/// A position with a positive neighbor count has an alive neighbor.
proof fn lemma_positive_count_has_live_neighbor(s: Set<(int, int)>, p: (int, int))
    requires
        neighbor_count(s, p.0, p.1) >= 1,
    ensures
        exists|q: (int, int)| s.contains(q) && adjacent(q, p),
{
    let x = p.0;
    let y = p.1;
    if s.contains((x - 1, y - 1)) {
        assert(s.contains((x - 1, y - 1)) && adjacent((x - 1, y - 1), p));
    } else if s.contains((x, y - 1)) {
        assert(s.contains((x, y - 1)) && adjacent((x, y - 1), p));
    } else if s.contains((x + 1, y - 1)) {
        assert(s.contains((x + 1, y - 1)) && adjacent((x + 1, y - 1), p));
    } else if s.contains((x - 1, y)) {
        assert(s.contains((x - 1, y)) && adjacent((x - 1, y), p));
    } else if s.contains((x + 1, y)) {
        assert(s.contains((x + 1, y)) && adjacent((x + 1, y), p));
    } else if s.contains((x - 1, y + 1)) {
        assert(s.contains((x - 1, y + 1)) && adjacent((x - 1, y + 1), p));
    } else if s.contains((x, y + 1)) {
        assert(s.contains((x, y + 1)) && adjacent((x, y + 1), p));
    } else if s.contains((x + 1, y + 1)) {
        assert(s.contains((x + 1, y + 1)) && adjacent((x + 1, y + 1), p));
    } else {
        assert(neighbor_count(s, x, y) == 0);
    }
}

/// Every dead cell adjacent to an alive cell that has exactly 3 live
/// neighbors, and nothing else.
fn collect_births(set: &LiveCellSet, cells: &Vec<Cell>) -> (births: Vec<Cell>)
    requires
        positions_of(cells@) == set@,
        forall|p: (int, int)| set@.contains(p) ==> in_tick_range(p),
    ensures
        distinct_positions(births@),
        forall|p: (int, int)| #[trigger]
            positions_of(births@).contains(p) ==> born(set@, p),
        forall|p: (int, int)| born(set@, p) ==> #[trigger] positions_of(births@).contains(p),
{
    let ghost s = set@;
    let mut births: Vec<Cell> = Vec::new();
    let mut i: usize = 0;
    while i < cells.len()
        invariant
            0 <= i <= cells@.len(),
            s == set@,
            positions_of(cells@) == s,
            forall|p: (int, int)| s.contains(p) ==> in_tick_range(p),
            distinct_positions(births@),
            forall|p: (int, int)| #[trigger] positions_of(births@).contains(p) ==> born(s, p),
            forall|j: int, p: (int, int)|
                #![trigger adjacent(cells@[j].pos(), p)]
                0 <= j < i && adjacent(cells@[j].pos(), p) && born(s, p)
                    ==> positions_of(births@).contains(p),
        decreases cells@.len() - i,
    {
        let c = cells[i];
        proof {
            assert(cells@[i as int].pos() == c.pos());
            assert(s.contains(c.pos()));
            assert(in_tick_range(c.pos()));
        }
        let ghost b0 = births@;
        let c1 = Cell::new(c.x - 1, c.y - 1);
        record_birth(set, &mut births, c1);
        let c2 = Cell::new(c.x, c.y - 1);
        record_birth(set, &mut births, c2);
        let c3 = Cell::new(c.x + 1, c.y - 1);
        record_birth(set, &mut births, c3);
        let c4 = Cell::new(c.x - 1, c.y);
        record_birth(set, &mut births, c4);
        let c5 = Cell::new(c.x + 1, c.y);
        record_birth(set, &mut births, c5);
        let c6 = Cell::new(c.x - 1, c.y + 1);
        record_birth(set, &mut births, c6);
        let c7 = Cell::new(c.x, c.y + 1);
        record_birth(set, &mut births, c7);
        let c8 = Cell::new(c.x + 1, c.y + 1);
        record_birth(set, &mut births, c8);
        proof {
            assert forall|j: int, p: (int, int)|
                #![trigger adjacent(cells@[j].pos(), p)]
                0 <= j < i + 1 && adjacent(cells@[j].pos(), p) && born(s, p)
                    implies positions_of(births@).contains(p) by {
                if j < i {
                    assert(positions_of(b0).contains(p));
                } else {
                    let q = cells@[i as int].pos();
                    let dx = p.0 - q.0;
                    let dy = p.1 - q.1;
                    assert(p =~= (q.0 + dx, q.1 + dy));
                    if dx == -1 && dy == -1 {
                        assert(p =~= c1.pos());
                    } else if dx == 0 && dy == -1 {
                        assert(p =~= c2.pos());
                    } else if dx == 1 && dy == -1 {
                        assert(p =~= c3.pos());
                    } else if dx == -1 && dy == 0 {
                        assert(p =~= c4.pos());
                    } else if dx == 1 && dy == 0 {
                        assert(p =~= c5.pos());
                    } else if dx == -1 && dy == 1 {
                        assert(p =~= c6.pos());
                    } else if dx == 0 && dy == 1 {
                        assert(p =~= c7.pos());
                    } else {
                        assert(dx == 1 && dy == 1);
                        assert(p =~= c8.pos());
                    }
                }
            }
        }
        i += 1;
    }
    proof {
        assert forall|p: (int, int)| born(s, p) implies #[trigger] positions_of(
            births@,
        ).contains(p) by {
            lemma_positive_count_has_live_neighbor(s, p);
            let q = choose|q: (int, int)| s.contains(q) && adjacent(q, p);
            let j = choose|j: int| 0 <= j < cells@.len() && (#[trigger] cells@[j]).pos() == q;
            assert(cells@[j].pos() == q);
            assert(adjacent(cells@[j].pos(), p));
        }
    }
    births
}

/// One application of the rule, simultaneously over the whole universe:
/// afterwards exactly the positions that the rule keeps or brings to life
/// are alive. Every alive cell must lie far enough from the coordinate
/// limits for its whole candidate neighborhood to be representable; see
/// `tick_safe`.
pub fn tick(set: &mut LiveCellSet)
    requires
        forall|p: (int, int)| old(set)@.contains(p) ==> in_tick_range(p),
    ensures
        final(set)@ == next_gen(old(set)@),
{
    let ghost s = set@;
    let cells = set.iterate();
    let surv = collect_survivors(&*set, &cells);
    let births = collect_births(&*set, &cells);
    let mut next = surv;
    let mut k: usize = 0;
    while k < births.len()
        invariant
            0 <= k <= births@.len(),
            distinct_positions(births@),
            forall|p: (int, int)| #[trigger] positions_of(births@).contains(p) ==> born(s, p),
            forall|p: (int, int)| born(s, p) ==> #[trigger] positions_of(births@).contains(p),
            distinct_positions(next@),
            forall|p: (int, int)| #[trigger]
                positions_of(next@).contains(p) ==> survives(s, p) || (exists|j: int|
                    0 <= j < k && (#[trigger] births@[j]).pos() == p),
            forall|p: (int, int)| survives(s, p) ==> #[trigger] positions_of(next@).contains(p),
            forall|j: int|
                0 <= j < k ==> positions_of(next@).contains((#[trigger] births@[j]).pos()),
        decreases births@.len() - k,
    {
        let b = births[k];
        let ghost old_next = next@;
        proof {
            assert(births@[k as int].pos() == b.pos());
            assert(positions_of(births@).contains(b.pos()));
            assert(born(s, b.pos()));
            if positions_of(old_next).contains(b.pos()) {
                if survives(s, b.pos()) {
                    assert(false);
                } else {
                    let j = choose|j: int| 0 <= j < k && (#[trigger] births@[j]).pos() == b.pos();
                    assert(births@[j].pos() != births@[k as int].pos());
                    assert(false);
                }
            }
        }
        next.push(b);
        proof {
            lemma_positions_push(old_next, b);
            lemma_distinct_push(old_next, b);
            assert forall|p: (int, int)| #[trigger]
                positions_of(next@).contains(p) implies survives(s, p) || (exists|j: int|
                0 <= j < k + 1 && (#[trigger] births@[j]).pos() == p) by {
                if positions_of(old_next).contains(p) {
                    if !survives(s, p) {
                        let j = choose|j: int|
                            0 <= j < k && (#[trigger] births@[j]).pos() == p;
                        assert(births@[j].pos() == p);
                    }
                } else {
                    assert(births@[k as int].pos() == p);
                }
            }
        }
        k += 1;
    }
    proof {
        assert forall|p: (int, int)|
            positions_of(next@).contains(p) <==> next_gen(s).contains(p) by {
            if positions_of(next@).contains(p) {
                if !survives(s, p) {
                    let j = choose|j: int|
                        0 <= j < births@.len() && (#[trigger] births@[j]).pos() == p;
                    assert(births@[j].pos() == p);
                    assert(positions_of(births@).contains(p));
                    assert(born(s, p));
                }
            }
            if next_gen(s).contains(p) {
                if s.contains(p) {
                    assert(survives(s, p));
                } else {
                    assert(born(s, p));
                    assert(positions_of(births@).contains(p));
                    let j = choose|j: int|
                        0 <= j < births@.len() && (#[trigger] births@[j]).pos() == p;
                    assert(positions_of(next@).contains(births@[j].pos()));
                }
            }
        }
        assert(positions_of(next@) =~= next_gen(s));
    }
    *set = LiveCellSet::from_cells(next);
}

} // verus!
