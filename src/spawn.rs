use vstd::prelude::*;
use rand::rngs::StdRng;
use crate::actions::Action;
use crate::grid::{adjacent, Game, Owner};
use crate::rng::random_index;

verus! {

/// Matter paid for one new unit.
pub const SPAWN_COST: u32 = 10;

/// A spawn of one unit on the cell `p = (row, column)`.
pub open spec fn spawn_at(p: (usize, usize)) -> Action {
    Action::Spawn { amount: 1, x: p.1, y: p.0 }
}

impl Game {
    /// A cell of ours next to an outside cell.
    pub open spec fn is_frontier(self, r: int, c: int) -> bool {
        &&& self.in_grid(r, c)
        &&& self.cell_at(r, c).owner == Owner::Mine
        &&& (self.outside(r, c + 1) || self.outside(r + 1, c) || self.outside(r, c - 1)
            || self.outside(r - 1, c))
    }

    /// Frontier cells among `(r, 0) .. (r, c)`.
    pub open spec fn row_frontier(self, r: int, c: int) -> Seq<(usize, usize)>
        decreases c,
    {
        if c <= 0 {
            Seq::empty()
        } else {
            self.row_frontier(r, c - 1) + if self.is_frontier(r, c - 1) {
                seq![(r as usize, (c - 1) as usize)]
            } else {
                Seq::empty()
            }
        }
    }

    /// Frontier cells of the rows `0 .. r`, in row-major order.
    pub open spec fn grid_frontier(self, r: int) -> Seq<(usize, usize)>
        decreases r,
    {
        if r <= 0 {
            Seq::empty()
        } else {
            self.grid_frontier(r - 1) + self.row_frontier(r - 1, self.width as int)
        }
    }

    pub open spec fn spawn_budget(self) -> nat {
        (self.my_matter / SPAWN_COST) as nat
    }

    /// What any spawn plan of this turn looks like: one unit on a frontier
    /// cell for each unit the matter pays for, and nothing without a
    /// frontier.
    pub open spec fn spawns_ok(self, s: Seq<Action>) -> bool {
        let f = self.grid_frontier(self.height as int);
        &&& s.len() == if f.len() == 0 {
            0
        } else {
            self.spawn_budget()
        }
        &&& forall|i: int|
            0 <= i < s.len() ==> exists|j: int| 0 <= j < f.len() && #[trigger] s[i] == spawn_at(f[j])
    }

    /// Whether `(r, c)` is a frontier cell.
    pub fn frontier_cell(&self, r: usize, c: usize) -> (b: bool)
        requires
            self.wf(),
            self.in_grid(r as int, c as int),
        ensures
            b == self.is_frontier(r as int, c as int),
    {
        let cell = self.cells[self.index(r, c)];
        if cell.owner != Owner::Mine {
            return false;
        }
        let nbrs = self.neighbors(r, c);
        let mut found = false;
        let mut s: usize = 0;
        while s < nbrs.len()
            invariant
                self.wf(),
                s <= nbrs@.len(),
                forall|k: int|
                    0 <= k < nbrs@.len() ==> {
                        &&& self.in_grid(#[trigger] nbrs@[k].0 as int, nbrs@[k].1 as int)
                        &&& adjacent(
                            r as int,
                            c as int,
                            nbrs@[k].0 as int,
                            nbrs@[k].1 as int,
                        )
                    },
                found == exists|k: int|
                    0 <= k < s && self.outside(#[trigger] nbrs@[k].0 as int, nbrs@[k].1 as int),
            decreases nbrs@.len() - s,
        {
            let (nr, nc) = nbrs[s];
            if self.cells[self.index(nr, nc)].is_outside() {
                found = true;
            }
            s += 1;
        }
        proof {
            let ri = r as int;
            let ci = c as int;
            if self.is_frontier(ri, ci) {
                let (r2, c2) = if self.outside(ri, ci + 1) {
                    (ri, ci + 1)
                } else if self.outside(ri + 1, ci) {
                    (ri + 1, ci)
                } else if self.outside(ri, ci - 1) {
                    (ri, ci - 1)
                } else {
                    (ri - 1, ci)
                };
                assert(adjacent(ri, ci, r2, c2));
                assert(nbrs@.contains((r2 as usize, c2 as usize)));
                let k = choose|k: int| 0 <= k < nbrs@.len() && nbrs@[k] == (r2 as usize, c2 as usize);
                assert(self.outside(nbrs@[k].0 as int, nbrs@[k].1 as int));
            }
        }
        found
    }

    /// The frontier cells, in row-major order.
    pub fn frontier(&self) -> (f: Vec<(usize, usize)>)
        requires
            self.wf(),
        ensures
            f@ == self.grid_frontier(self.height as int),
    {
        let mut f: Vec<(usize, usize)> = Vec::new();
        let mut r: usize = 0;
        while r < self.height
            invariant
                self.wf(),
                r <= self.height,
                f@ == self.grid_frontier(r as int),
            decreases self.height - r,
        {
            let mut c: usize = 0;
            while c < self.width
                invariant
                    self.wf(),
                    r < self.height,
                    c <= self.width,
                    f@ == self.grid_frontier(r as int) + self.row_frontier(r as int, c as int),
                decreases self.width - c,
            {
                if self.frontier_cell(r, c) {
                    f.push((r, c));
                }
                assert(f@ =~= self.grid_frontier(r as int) + self.row_frontier(r as int, c + 1));
                c += 1;
            }
            assert(f@ =~= self.grid_frontier(r + 1));
            r += 1;
        }
        f
    }

    /// Spawns for this turn: each unit the matter pays for lands on a frontier
    /// cell drawn uniformly from `rng`.
    pub fn plan_spawns(&self, rng: &mut StdRng) -> (s: Vec<Action>)
        requires
            self.wf(),
        ensures
            self.spawns_ok(s@),
    {
        let f = self.frontier();
        if f.len() == 0 {
            return Vec::new();
        }
        let budget = (self.my_matter / SPAWN_COST) as usize;
        let mut draws: Vec<usize> = Vec::new();
        let mut i: usize = 0;
        while i < budget
            invariant
                f@.len() > 0,
                i <= budget,
                draws@.len() == i,
                forall|k: int| 0 <= k < draws@.len() ==> #[trigger] draws@[k] < f@.len(),
            decreases budget - i,
        {
            let d = random_index(rng, f.len());
            draws.push(d);
            i += 1;
        }
        let s = spawns_from_draws(&f, &draws);
        assert forall|i: int| 0 <= i < s@.len() implies exists|j: int|
            0 <= j < f@.len() && #[trigger] s@[i] == spawn_at(f@[j]) by {
            assert(s@[i] == spawn_at(f@[draws@[i] as int]));
        }
        s
    }
}

/// One spawn per draw, on the frontier cell that the draw points at.
pub fn spawns_from_draws(frontier: &Vec<(usize, usize)>, draws: &Vec<usize>) -> (s: Vec<Action>)
    requires
        forall|k: int| 0 <= k < draws@.len() ==> #[trigger] draws@[k] < frontier@.len(),
    ensures
        s@ == Seq::new(draws@.len(), |i: int| spawn_at(frontier@[draws@[i] as int])),
{
    let mut s: Vec<Action> = Vec::new();
    let mut i: usize = 0;
    while i < draws.len()
        invariant
            i <= draws@.len(),
            forall|k: int| 0 <= k < draws@.len() ==> #[trigger] draws@[k] < frontier@.len(),
            s@ == Seq::new(i as nat, |k: int| spawn_at(frontier@[draws@[k] as int])),
        decreases draws@.len() - i,
    {
        let (y, x) = frontier[draws[i]];
        s.push(Action::Spawn { amount: 1, x, y });
        assert(s@ =~= Seq::new((i + 1) as nat, |k: int| spawn_at(frontier@[draws@[k] as int])));
        i += 1;
    }
    s
}

} // verus!
