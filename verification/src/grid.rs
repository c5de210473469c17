use vstd::prelude::*;

verus! {

/// The lawn: inclusive upper bounds of the grid and the set of currently
/// occupied cells, kept as a sequence of coordinates.
#[derive(Clone, Debug)]
pub struct Pelouse {
    pub max_x: u8,
    pub max_y: u8,
    pub occupied: Vec<(u8, u8)>,
}

/// A cell is free when it lies within the grid and is not occupied.
pub open spec fn cell_free(max_x: u8, max_y: u8, occ: Seq<(u8, u8)>, x: u8, y: u8) -> bool {
    x <= max_x && y <= max_y && !occ.contains((x, y))
}

/// The occupancy sequence with every entry equal to `(x, y)` taken out,
/// the order of the others kept.
pub open spec fn remove_cell(occ: Seq<(u8, u8)>, x: u8, y: u8) -> Seq<(u8, u8)>
    decreases occ.len(),
{
    if occ.len() == 0 {
        Seq::empty()
    } else if occ[0] == (x, y) {
        remove_cell(occ.drop_first(), x, y)
    } else {
        seq![occ[0]] + remove_cell(occ.drop_first(), x, y)
    }
}

/// `remove_cell` keeps exactly the entries other than `(x, y)`.
pub proof fn lemma_remove_cell_contains(occ: Seq<(u8, u8)>, x: u8, y: u8, c: (u8, u8))
    ensures
        remove_cell(occ, x, y).contains(c) <==> (occ.contains(c) && c != (x, y)),
    decreases occ.len(),
{
    if occ.len() == 0 {
        assert(!occ.contains(c));
    } else {
        let rest = occ.drop_first();
        lemma_remove_cell_contains(rest, x, y, c);
        assert(occ.contains(c) <==> (occ[0] == c || rest.contains(c))) by {
            if occ.contains(c) {
                let i = choose|i: int| 0 <= i < occ.len() && occ[i] == c;
                if i > 0 {
                    assert(rest[i - 1] == c);
                }
            }
            if rest.contains(c) {
                let i = choose|i: int| 0 <= i < rest.len() && rest[i] == c;
                assert(occ[i + 1] == c);
            }
        }
        if occ[0] == (x, y) {
        } else {
            let s = seq![occ[0]] + remove_cell(rest, x, y);
            assert(s.contains(c) <==> (occ[0] == c || remove_cell(rest, x, y).contains(c))) by {
                if s.contains(c) {
                    let i = choose|i: int| 0 <= i < s.len() && s[i] == c;
                    if i > 0 {
                        assert(remove_cell(rest, x, y)[i - 1] == c);
                    }
                }
                if remove_cell(rest, x, y).contains(c) {
                    let i = choose|i: int| 0 <= i < remove_cell(rest, x, y).len()
                        && remove_cell(rest, x, y)[i] == c;
                    assert(s[i + 1] == c);
                }
                assert(s[0] == occ[0]);
            }
        }
    }
}

/// Removing a cell from a duplicate-free occupancy sequence leaves it
/// duplicate-free.
pub proof fn lemma_remove_cell_no_duplicates(occ: Seq<(u8, u8)>, x: u8, y: u8)
    requires
        occ.no_duplicates(),
    ensures
        remove_cell(occ, x, y).no_duplicates(),
    decreases occ.len(),
{
    if occ.len() == 0 {
    } else {
        let rest = occ.drop_first();
        assert(rest.no_duplicates());
        lemma_remove_cell_no_duplicates(rest, x, y);
        if occ[0] == (x, y) {
        } else {
            let tail = remove_cell(rest, x, y);
            let s = seq![occ[0]] + tail;
            assert(!rest.contains(occ[0])) by {
                if rest.contains(occ[0]) {
                    let i = choose|i: int| 0 <= i < rest.len() && rest[i] == occ[0];
                    assert(occ[i + 1] == occ[0]);
                }
            }
            assert(!tail.contains(occ[0])) by {
                lemma_remove_cell_contains(rest, x, y, occ[0]);
            }
            assert(s.no_duplicates()) by {
                assert forall|i: int, j: int| 0 <= i < s.len() && 0 <= j < s.len() && i != j
                    implies s[i] != s[j]
                by {
                    if i > 0 && j > 0 {
                        assert(s[i] == tail[i - 1]);
                        assert(s[j] == tail[j - 1]);
                    } else if i == 0 {
                        assert(s[j] == tail[j - 1]);
                        assert(tail.contains(tail[j - 1]));
                    } else {
                        assert(s[i] == tail[i - 1]);
                        assert(tail.contains(tail[i - 1]));
                    }
                }
            }
        }
    }
}

impl Pelouse {
    /// Whether the occupancy sequence holds the cell `(x, y)`.
    fn holds_cell(&self, x: u8, y: u8) -> (r: bool)
        ensures
            r == self.occupied@.contains((x, y)),
    {
        let n = self.occupied.len();
        let mut i: usize = 0;
        while i < n
            invariant
                0 <= i <= n,
                n == self.occupied@.len(),
                forall|j: int| 0 <= j < i ==> self.occupied@[j] != (x, y),
            decreases n - i,
        {
            let c = self.occupied[i];
            if c.0 == x && c.1 == y {
                assert(self.occupied@[i as int] == (x, y));
                return true;
            }
            i += 1;
        }
        assert(!self.occupied@.contains((x, y)));
        false
    }

    /// True iff `(x, y)` lies within the grid and no agent occupies it.
    pub fn is_free(&self, x: u8, y: u8) -> (r: bool)
        ensures
            r == cell_free(self.max_x, self.max_y, self.occupied@, x, y),
    {
        x <= self.max_x && y <= self.max_y && !self.holds_cell(x, y)
    }

    /// Adds `(x, y)` to the occupied cells. The caller is responsible for
    /// checking `is_free` first where overlaps must be avoided.
    pub fn occupe(&mut self, x: u8, y: u8)
        ensures
            final(self).occupied@ == old(self).occupied@.push((x, y)),
            final(self).max_x == old(self).max_x,
            final(self).max_y == old(self).max_y,
    {
        self.occupied.push((x, y));
    }

    /// Removes every entry equal to `(x, y)` from the occupied cells;
    /// a no-op when the cell is not occupied.
    pub fn libere(&mut self, x: u8, y: u8)
        ensures
            final(self).occupied@ == remove_cell(old(self).occupied@, x, y),
            final(self).max_x == old(self).max_x,
            final(self).max_y == old(self).max_y,
    {
        let ghost occ0 = self.occupied@;
        let n = self.occupied.len();
        let mut out: Vec<(u8, u8)> = Vec::new();
        let mut i: usize = 0;
        assert(occ0.skip(0) =~= occ0);
        assert(remove_cell(occ0, x, y) =~= out@ + remove_cell(occ0.skip(0), x, y));
        while i < n
            invariant
                0 <= i <= n,
                n == self.occupied@.len(),
                self.occupied@ == occ0,
                remove_cell(occ0, x, y) == out@ + remove_cell(occ0.skip(i as int), x, y),
            decreases n - i,
        {
            let c = self.occupied[i];
            let ghost tail = occ0.skip(i as int);
            proof {
                assert(tail.len() > 0);
                assert(tail[0] == occ0[i as int]);
                assert(tail.drop_first() =~= occ0.skip(i as int + 1));
            }
            if c.0 == x && c.1 == y {
                proof {
                    assert(tail[0] == (x, y));
                    assert(remove_cell(tail, x, y) == remove_cell(occ0.skip(i as int + 1), x, y));
                }
            } else {
                proof {
                    assert(tail[0] != (x, y));
                    assert(remove_cell(tail, x, y) == seq![tail[0]]
                        + remove_cell(occ0.skip(i as int + 1), x, y));
                    assert(out@ + remove_cell(tail, x, y) =~= out@.push(occ0[i as int])
                        + remove_cell(occ0.skip(i as int + 1), x, y));
                }
                out.push(c);
            }
            i += 1;
        }
        proof {
            assert(occ0.skip(n as int) =~= Seq::<(u8, u8)>::empty());
            assert(remove_cell(occ0.skip(n as int), x, y) =~= Seq::<(u8, u8)>::empty());
            assert(out@ + remove_cell(occ0.skip(n as int), x, y) =~= out@);
        }
        self.occupied = out;
    }
}

} // verus!
