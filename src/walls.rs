use vstd::prelude::*;

use crate::grid::{same_pos, Pos};

verus! {

/// A set of blocked grid positions, kept as a vector without duplicates.
pub struct Walls {
    pub walls: Vec<Pos>,
}

impl View for Walls {
    type V = Set<Pos>;

    open spec fn view(&self) -> Set<Pos> {
        self.walls@.to_set()
    }
}

impl Walls {
    pub open spec fn wf(&self) -> bool {
        self.walls@.no_duplicates()
    }

    pub fn new() -> (r: Walls)
        ensures
            r.wf(),
            r@ == Set::<Pos>::empty(),
    {
        let r = Walls { walls: Vec::new() };
        assert(r@ =~= Set::<Pos>::empty());
        r
    }

    /// Blocks `pos`; does nothing where it is blocked already.
    pub fn try_add(&mut self, pos: Pos)
        requires
            old(self).wf(),
        ensures
            final(self).wf(),
            final(self)@ == old(self)@.insert(pos),
    {
        if !self.contains(&pos) {
            self.walls.push(pos);
            assert forall|q: Pos| self.walls@.contains(q) <==> old(self).walls@.contains(q) || q
                == pos by {
                if old(self).walls@.contains(q) {
                    let k = choose|k: int| 0 <= k < old(self).walls@.len() && old(self).walls@[k] == q;
                    assert(self.walls@[k] == q);
                }
                if q == pos {
                    assert(self.walls@[self.walls@.len() - 1] == q);
                }
            }
        }
        assert(self@ =~= old(self)@.insert(pos));
    }

    /// Unblocks `pos`; does nothing where it is not blocked.
    pub fn try_remove(&mut self, pos: Pos)
        requires
            old(self).wf(),
        ensures
            final(self).wf(),
            final(self)@ == old(self)@.remove(pos),
    {
        let mut i: usize = 0;
        while i < self.walls.len()
            invariant
                self.walls@ == old(self).walls@,
                old(self).wf(),
                0 <= i <= self.walls@.len(),
                forall|j: int| 0 <= j < i ==> self.walls@[j] != pos,
            decreases self.walls@.len() - i,
        {
            if same_pos(&self.walls[i], &pos) {
                let ghost s = self.walls@;
                self.walls.remove(i);
                assert forall|a: int, b: int|
                    0 <= a < b < self.walls@.len() implies self.walls@[a] != self.walls@[b] by {
                    let a2 = if a < i { a } else { a + 1 };
                    let b2 = if b < i { b } else { b + 1 };
                    assert(s[a2] != s[b2]);
                }
                assert forall|q: Pos| self@.contains(q) <==> old(self)@.remove(pos).contains(q) by {
                    if self.walls@.contains(q) {
                        let k = choose|k: int| 0 <= k < self.walls@.len() && self.walls@[k] == q;
                        let k2 = if k < i { k } else { k + 1 };
                        assert(s[k2] == q);
                    }
                    if q != pos && s.contains(q) {
                        let k = choose|k: int| 0 <= k < s.len() && s[k] == q;
                        assert(k != i);
                        let k2 = if k < i { k } else { k - 1 };
                        assert(self.walls@[k2] == q);
                    }
                }
                assert(self@ =~= old(self)@.remove(pos));
                return;
            }
            i = i + 1;
        }
        assert(self@ =~= old(self)@.remove(pos));
    }

    /// Number of blocked positions.
    pub fn len(&self) -> (r: usize)
        requires
            self.wf(),
        ensures
            r == self@.len(),
    {
        proof {
            self.walls@.unique_seq_to_set();
        }
        self.walls.len()
    }

    /// Whether `pos` is blocked.
    pub fn contains(&self, pos: &Pos) -> (r: bool)
        ensures
            r == self@.contains(*pos),
    {
        let mut i: usize = 0;
        while i < self.walls.len()
            invariant
                0 <= i <= self.walls@.len(),
                forall|j: int| 0 <= j < i ==> self.walls@[j] != *pos,
            decreases self.walls@.len() - i,
        {
            if same_pos(&self.walls[i], pos) {
                return true;
            }
            i = i + 1;
        }
        false
    }
}

} // verus!
