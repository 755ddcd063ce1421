use vstd::prelude::*;

use crate::grid::Grid;

verus! {

/// `a` comes out of the frontier no later than `b`: lower f cost first,
/// then lower h cost, then the lower cell index.
pub open spec fn precedes(g: &Grid, a: int, b: int) -> bool {
    let ta = g.cells()[a];
    let tb = g.cells()[b];
    let fa = ta.g_cost + ta.h_cost;
    let fb = tb.g_cost + tb.h_cost;
    fa < fb || (fa == fb && (ta.h_cost < tb.h_cost || (ta.h_cost == tb.h_cost && a <= b)))
}

/// The open set of a search over `n` cells, keyed by cell index. A cell is
/// held at most once; its priority is read from the grid when it is taken
/// out, so lowering a cell's cost in the grid is all a decrease-key needs.
pub struct Frontier {
    member: Vec<bool>,
    count: usize,
    contents: Ghost<Set<int>>,
}

impl Frontier {
    /// The cell indices held.
    pub closed spec fn view(&self) -> Set<int> {
        self.contents@
    }

    /// Number of cells the frontier ranges over.
    pub closed spec fn n(&self) -> int {
        self.member.len() as int
    }

    pub closed spec fn wf(&self) -> bool {
        &&& self.contents@.finite()
        &&& self.contents@.len() == self.count
        &&& forall|i: int| #[trigger]
            self.contents@.contains(i) <==> (0 <= i < self.member.len() && self.member@[i])
    }

    /// An empty frontier over `n` cells.
    pub fn new(n: usize) -> (r: Frontier)
        ensures
            r.wf(),
            r.n() == n,
            r@ == Set::<int>::empty(),
    {
        let mut member: Vec<bool> = Vec::new();
        let mut i: usize = 0;
        while i < n
            invariant
                i <= n,
                member.len() == i,
                forall|j: int| 0 <= j < i ==> !#[trigger] member@[j],
            decreases n - i,
        {
            member.push(false);
            i = i + 1;
        }
        let r = Frontier { member, count: 0, contents: Ghost(Set::empty()) };
        assert(r.contents@ =~= Set::<int>::empty());
        r
    }

    /// Whether cell `i` is held.
    pub fn contains(&self, i: usize) -> (r: bool)
        requires
            self.wf(),
            i < self.n(),
        ensures
            r == self@.contains(i as int),
    {
        self.member[i]
    }

    pub fn is_empty(&self) -> (r: bool)
        requires
            self.wf(),
        ensures
            r == (self@ == Set::<int>::empty()),
    {
        proof {
            if self.count == 0 {
                vstd::set_lib::lemma_set_empty_equivalency_len(self.contents@);
                assert(self.contents@ =~= Set::<int>::empty());
            } else {
                assert(self.contents@.len() != Set::<int>::empty().len());
            }
        }
        self.count == 0
    }

    /// Adds cell `i`; a cell already held stays held once.
    pub fn push(&mut self, i: usize)
        requires
            old(self).wf(),
            i < old(self).n(),
        ensures
            final(self).wf(),
            final(self).n() == old(self).n(),
            final(self)@ == old(self)@.insert(i as int),
    {
        if !self.member[i] {
            proof {
                let range = vstd::set_lib::set_int_range(0, self.n());
                vstd::set_lib::lemma_int_range(0, self.n());
                assert(self.contents@.subset_of(range.remove(i as int)));
                vstd::set_lib::lemma_len_subset(self.contents@, range.remove(i as int));
            }
            self.member.set(i, true);
            self.count = self.count + 1;
            self.contents = Ghost(self.contents@.insert(i as int));
        } else {
            assert(self.contents@.insert(i as int) =~= self.contents@);
        }
        assert forall|j: int| #[trigger]
            self.contents@.contains(j) <==> (0 <= j < self.member.len() && self.member@[j]) by {}
    }
    /// Takes out the held cell that comes first (see `precedes`).
    pub fn pop_min(&mut self, grid: &Grid) -> (r: usize)
        requires
            old(self).wf(),
            old(self)@ != Set::<int>::empty(),
            old(self).n() == grid.cells().len(),
        ensures
            final(self).wf(),
            final(self).n() == old(self).n(),
            old(self)@.contains(r as int),
            final(self)@ == old(self)@.remove(r as int),
            forall|j: int| #[trigger] old(self)@.contains(j) ==> precedes(grid, r as int, j),
    {
        let n = self.member.len();
        let mut found = false;
        let mut best: usize = 0;
        let mut i: usize = 0;
        while i < n
            invariant
                self.wf(),
                n == self.member.len(),
                n == grid.cells().len(),
                i <= n,
                found ==> best < i && self@.contains(best as int),
                found ==> forall|j: int|
                    0 <= j < i && #[trigger] self@.contains(j) ==> precedes(grid, best as int, j),
                !found ==> forall|j: int| 0 <= j < i ==> !#[trigger] self@.contains(j),
            decreases n - i,
        {
            if self.member[i] {
                if !found {
                    found = true;
                    best = i;
                } else {
                    let a = grid.tiles[best];
                    let b = grid.tiles[i];
                    let fa: i64 = a.g_cost as i64 + a.h_cost as i64;
                    let fb: i64 = b.g_cost as i64 + b.h_cost as i64;
                    if fb < fa || (fb == fa && b.h_cost < a.h_cost) {
                        best = i;
                    }
                }
            }
            i = i + 1;
        }
        if !found {
            assert(self.contents@ =~= Set::<int>::empty());
        }
        self.member.set(best, false);
        self.count = self.count - 1;
        self.contents = Ghost(self.contents@.remove(best as int));
        assert forall|j: int| #[trigger]
            self.contents@.contains(j) <==> (0 <= j < self.member.len() && self.member@[j]) by {}
        best
    }
}

} // verus!
