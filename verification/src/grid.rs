//! The live-cell set: the set of currently alive integer grid positions.
//!
//! The universe is conceptually infinite and sparsely populated: a cell is
//! alive exactly when its position is a member of the set, and dead cells are
//! never materialized. The set is modeled in specifications as a
//! `Set<(int, int)>` of positions.

use vstd::prelude::*;

verus! {

/// A position on the unbounded grid, identified by a pair of signed integer
/// coordinates. Immutable value type; equality is by coordinate pair.
#[derive(Clone, Copy, PartialEq, Eq, Structural, Hash, Debug)]
pub struct Cell {
    pub x: i64,
    pub y: i64,
}

impl Cell {
    /// The mathematical position this cell names.
    pub open spec fn pos(self) -> (int, int) {
        (self.x as int, self.y as int)
    }

    pub fn new(x: i64, y: i64) -> (c: Cell)
        ensures
            c.pos() == (x as int, y as int),
    {
        Cell { x, y }
    }
}

/// The set of positions covered by a sequence of cells.
pub open spec fn positions_of(cells: Seq<Cell>) -> Set<(int, int)> {
    Set::new(|p: (int, int)| exists|i: int| 0 <= i < cells.len() && (#[trigger] cells[i]).pos() == p)
}

/// No two cells of the sequence name the same position.
pub open spec fn distinct_positions(cells: Seq<Cell>) -> bool {
    forall|i: int, j: int|
        #![trigger cells[i], cells[j]]
        0 <= i < j < cells.len() ==> cells[i].pos() != cells[j].pos()
}

/// Pushing a cell covers exactly one more position.
pub(crate) proof fn lemma_positions_push(cells: Seq<Cell>, c: Cell)
    ensures
        positions_of(cells.push(c)) == positions_of(cells).insert(c.pos()),
{
    let l = cells.push(c);
    assert forall|p: (int, int)|
        positions_of(l).contains(p) <==> positions_of(cells).insert(c.pos()).contains(p) by {
        if positions_of(l).contains(p) {
            let i = choose|i: int| 0 <= i < l.len() && (#[trigger] l[i]).pos() == p;
            if i < cells.len() {
                assert(cells[i].pos() == p);
            } else {
                assert(l[i] == c);
            }
        }
        if positions_of(cells).contains(p) {
            let i = choose|i: int| 0 <= i < cells.len() && (#[trigger] cells[i]).pos() == p;
            assert(l[i].pos() == p);
        }
        if p == c.pos() {
            assert(l[cells.len() as int].pos() == p);
        }
    }
    assert(positions_of(l) =~= positions_of(cells).insert(c.pos()));
}

/// Pushing a cell at a fresh position keeps the positions distinct.
pub(crate) proof fn lemma_distinct_push(cells: Seq<Cell>, c: Cell)
    requires
        distinct_positions(cells),
        !positions_of(cells).contains(c.pos()),
    ensures
        distinct_positions(cells.push(c)),
{
    let l = cells.push(c);
    assert forall|i: int, j: int|
        #![trigger l[i], l[j]]
        0 <= i < j < l.len() implies l[i].pos() != l[j].pos() by {
        assert(l[i] == cells[i]);
        if j < cells.len() {
            assert(l[j] == cells[j]);
        } else {
            assert(l[j] == c);
            if cells[i].pos() == c.pos() {
                assert(positions_of(cells).contains(c.pos()));
            }
        }
    }
}

/// Removing the cell at index `i` uncovers exactly its position, provided
/// no other cell names the same position.
proof fn lemma_positions_remove(cells: Seq<Cell>, i: int)
    requires
        0 <= i < cells.len(),
        distinct_positions(cells),
    ensures
        positions_of(cells.remove(i)) == positions_of(cells).remove(cells[i].pos()),
{
    cells.remove_ensures(i);
    let l = cells.remove(i);
    assert forall|p: (int, int)|
        positions_of(l).contains(p) <==> positions_of(cells).remove(cells[i].pos()).contains(
            p,
        ) by {
        if positions_of(l).contains(p) {
            let k = choose|k: int| 0 <= k < l.len() && (#[trigger] l[k]).pos() == p;
            if k < i {
                assert(l[k] == cells[k]);
                assert(cells[k].pos() == p);
            } else {
                assert(l[k] == cells[k + 1]);
                assert(cells[k + 1].pos() == p);
            }
        }
        if positions_of(cells).contains(p) && p != cells[i].pos() {
            let k = choose|k: int| 0 <= k < cells.len() && (#[trigger] cells[k]).pos() == p;
            if k < i {
                assert(l[k] == cells[k]);
                assert(l[k].pos() == p);
            } else {
                assert(l[k - 1] == cells[k]);
                assert(l[k - 1].pos() == p);
            }
        }
    }
    assert(positions_of(l) =~= positions_of(cells).remove(cells[i].pos()));
}

/// Removing a cell keeps the positions distinct.
proof fn lemma_distinct_remove(cells: Seq<Cell>, i: int)
    requires
        0 <= i < cells.len(),
        distinct_positions(cells),
    ensures
        distinct_positions(cells.remove(i)),
{
    cells.remove_ensures(i);
    let l = cells.remove(i);
    assert forall|a: int, b: int|
        #![trigger l[a], l[b]]
        0 <= a < b < l.len() implies l[a].pos() != l[b].pos() by {
        let a2 = if a < i {
            a
        } else {
            a + 1
        };
        let b2 = if b < i {
            b
        } else {
            b + 1
        };
        assert(l[a] == cells[a2]);
        assert(l[b] == cells[b2]);
    }
}

/// The set of currently alive cells, stored sparsely.
pub struct LiveCellSet {
    cells: Vec<Cell>,
}

impl View for LiveCellSet {
    type V = Set<(int, int)>;

    closed spec fn view(&self) -> Set<(int, int)> {
        positions_of(self.cells@)
    }
}

impl LiveCellSet {
    #[verifier::type_invariant]
    spec fn wf(self) -> bool {
        distinct_positions(self.cells@)
    }

    /// An empty universe: every cell is dead.
    pub fn new() -> (s: LiveCellSet)
        ensures
            s@ == Set::<(int, int)>::empty(),
    {
        let s = LiveCellSet { cells: Vec::new() };
        proof {
            assert(s@ =~= Set::<(int, int)>::empty());
        }
        s
    }

    /// Membership test: true iff the cell is currently alive.
    pub fn is_alive(&self, cell: Cell) -> (r: bool)
        ensures
            r == self@.contains(cell.pos()),
    {
        let mut i: usize = 0;
        while i < self.cells.len()
            invariant
                0 <= i <= self.cells@.len(),
                forall|j: int| 0 <= j < i ==> (#[trigger] self.cells@[j]).pos() != cell.pos(),
            decreases self.cells@.len() - i,
        {
            if self.cells[i].x == cell.x && self.cells[i].y == cell.y {
                proof {
                    assert(self.cells@[i as int].pos() == cell.pos());
                }
                return true;
            }
            i += 1;
        }
        proof {
            assert(!self@.contains(cell.pos()));
        }
        false
    }

    /// Idempotent insertion: afterwards the cell is alive, and nothing else
    /// has changed.
    pub fn set_alive(&mut self, cell: Cell)
        ensures
            final(self)@ == old(self)@.insert(cell.pos()),
    {
        proof {
            use_type_invariant(&*self);
        }
        if !self.is_alive(cell) {
            let ghost old_cells = self.cells@;
            let mut cells: Vec<Cell> = Vec::new();
            core::mem::swap(&mut cells, &mut self.cells);
            cells.push(cell);
            proof {
                lemma_positions_push(old_cells, cell);
                lemma_distinct_push(old_cells, cell);
            }
            self.cells = cells;
        } else {
            proof {
                assert(self@ =~= self@.insert(cell.pos()));
            }
        }
    }

    /// Idempotent removal: afterwards the cell is dead; removing a dead cell
    /// is a no-op.
    pub fn set_dead(&mut self, cell: Cell)
        ensures
            final(self)@ == old(self)@.remove(cell.pos()),
    {
        proof {
            use_type_invariant(&*self);
        }
        let mut i: usize = 0;
        while i < self.cells.len()
            invariant
                0 <= i <= self.cells@.len(),
                self == old(self),
                distinct_positions(self.cells@),
                forall|j: int| 0 <= j < i ==> (#[trigger] self.cells@[j]).pos() != cell.pos(),
            decreases self.cells@.len() - i,
        {
            if self.cells[i].x == cell.x && self.cells[i].y == cell.y {
                proof {
                    assert(self.cells@[i as int].pos() == cell.pos());
                }
                let ghost old_cells = self.cells@;
                let mut cells: Vec<Cell> = Vec::new();
                core::mem::swap(&mut cells, &mut self.cells);
                cells.remove(i);
                proof {
                    lemma_positions_remove(old_cells, i as int);
                    lemma_distinct_remove(old_cells, i as int);
                }
                self.cells = cells;
                return;
            }
            i += 1;
        }
        proof {
            assert(!self@.contains(cell.pos()));
            assert(self@ =~= self@.remove(cell.pos()));
        }
    }

    /// Remove all members: afterwards every cell is dead.
    pub fn clear(&mut self)
        ensures
            final(self)@ == Set::<(int, int)>::empty(),
    {
        self.cells = Vec::new();
        proof {
            assert(self@ =~= Set::<(int, int)>::empty());
        }
    }

    /// All currently alive cells, in unspecified order and without
    /// duplicates.
    pub fn iterate(&self) -> (r: Vec<Cell>)
        ensures
            positions_of(r@) == self@,
            distinct_positions(r@),
    {
        proof {
            use_type_invariant(&*self);
        }
        let mut r: Vec<Cell> = Vec::new();
        let mut i: usize = 0;
        while i < self.cells.len()
            invariant
                0 <= i <= self.cells@.len(),
                r@ == self.cells@.take(i as int),
            decreases self.cells@.len() - i,
        {
            r.push(self.cells[i]);
            proof {
                assert(self.cells@.take(i as int).push(self.cells@[i as int]) =~= self.cells@.take(
                    i + 1,
                ));
            }
            i += 1;
        }
        proof {
            assert(r@ =~= self.cells@);
        }
        r
    }

    /// Build a set from cells already known to cover distinct positions.
    pub(crate) fn from_cells(cells: Vec<Cell>) -> (s: LiveCellSet)
        requires
            distinct_positions(cells@),
        ensures
            s@ == positions_of(cells@),
    {
        LiveCellSet { cells }
    }
}

/// After marking a position alive it is a member; after marking it dead it
/// is not — for arbitrary positions and prior states.
pub proof fn lemma_edit_then_query(s: Set<(int, int)>, p: (int, int))
    ensures
        s.insert(p).contains(p),
        !s.remove(p).contains(p),
{
}

/// Idempotence of edits: inserting a position twice has the same effect as
/// inserting it once, and likewise for removal.
pub proof fn lemma_edit_idempotent(s: Set<(int, int)>, p: (int, int))
    ensures
        s.insert(p).insert(p) == s.insert(p),
        s.remove(p).remove(p) == s.remove(p),
{
    assert(s.insert(p).insert(p) =~= s.insert(p));
    assert(s.remove(p).remove(p) =~= s.remove(p));
}

} // verus!
