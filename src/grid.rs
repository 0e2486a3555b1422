use vstd::prelude::*;

verus! {

/// Who controls a cell.
#[derive(Clone, Copy, Debug, PartialEq, Eq, Structural)]
pub enum Owner {
    Neutral,
    Mine,
    Enemy,
}

/// The wire code of an owner: `-1` neutral, `0` enemy, `1` mine.
pub open spec fn owner_code_spec(o: Owner) -> int {
    match o {
        Owner::Neutral => -1,
        Owner::Enemy => 0,
        Owner::Mine => 1,
    }
}

impl Owner {
    /// Reads an owner from its wire code; any other code gives `None`.
    pub fn from_code(n: i32) -> (r: Option<Owner>)
        ensures
            match r {
                Some(o) => owner_code_spec(o) == n,
                None => n != -1 && n != 0 && n != 1,
            },
    {
        match n {
            -1 => Some(Owner::Neutral),
            0 => Some(Owner::Enemy),
            1 => Some(Owner::Mine),
            _ => None,
        }
    }

    /// The wire code of this owner.
    pub fn code(&self) -> (r: i32)
        ensures
            r == owner_code_spec(*self),
    {
        match self {
            Owner::Neutral => -1,
            Owner::Enemy => 0,
            Owner::Mine => 1,
        }
    }
}

/// A wire flag: `0` is false, anything else is true.
pub fn bool_from_i32(n: i32) -> (r: bool)
    ensures
        r == (n != 0),
{
    match n {
        0 => false,
        _ => true,
    }
}

/// One board position.
#[derive(Clone, Copy, Debug)]
pub struct Cell {
    pub scrap_amount: u32,
    pub owner: Owner,
    pub unit_count: u32,
    pub is_recycler: bool,
    pub can_build: bool,
    pub can_spawn: bool,
    pub in_range_of_recycler: bool,
}

impl Cell {
    /// A cell that units can stand on.
    pub open spec fn passable_spec(self) -> bool {
        self.scrap_amount > 0
    }

    /// A passable cell that is not ours: what the conquest aims at.
    pub open spec fn outside_spec(self) -> bool {
        self.scrap_amount > 0 && self.owner != Owner::Mine
    }

    pub fn is_passable(&self) -> (r: bool)
        ensures
            r == self.passable_spec(),
    {
        self.scrap_amount > 0
    }

    pub fn is_outside(&self) -> (r: bool)
        ensures
            r == self.outside_spec(),
    {
        self.scrap_amount > 0 && self.owner != Owner::Mine
    }
}

/// Four-connected adjacency of two positions.
pub open spec fn adjacent(r1: int, c1: int, r2: int, c2: int) -> bool {
    (r1 == r2 && (c1 - c2 == 1 || c2 - c1 == 1)) || (c1 == c2 && (r1 - r2 == 1 || r2 - r1
        == 1))
}

/// The snapshot of one turn: a `height` by `width` board, row-major, and the
/// players' matter.
pub struct Game {
    pub width: usize,
    pub height: usize,
    pub cells: Vec<Cell>,
    pub my_matter: u32,
    pub enemy_matter: u32,
}

impl Game {
    pub open spec fn wf(self) -> bool {
        self.cells@.len() == self.width * self.height
    }

    pub open spec fn in_grid(self, r: int, c: int) -> bool {
        0 <= r < self.height && 0 <= c < self.width
    }

    /// Position of `(r, c)` in the row-major cell sequence.
    pub open spec fn idx(self, r: int, c: int) -> int {
        r * self.width + c
    }

    pub open spec fn cell_at(self, r: int, c: int) -> Cell {
        self.cells@[self.idx(r, c)]
    }

    pub open spec fn passable(self, r: int, c: int) -> bool {
        self.in_grid(r, c) && self.cell_at(r, c).passable_spec()
    }

    pub open spec fn outside(self, r: int, c: int) -> bool {
        self.in_grid(r, c) && self.cell_at(r, c).outside_spec()
    }

    /// The in-grid neighbours of `(r, c)`, east, south, west, north.
    pub open spec fn neighbor_seq(self, r: int, c: int) -> Seq<(usize, usize)> {
        let e = if c + 1 < self.width {
            seq![(r as usize, (c + 1) as usize)]
        } else {
            Seq::<(usize, usize)>::empty()
        };
        let s = if r + 1 < self.height {
            seq![((r + 1) as usize, c as usize)]
        } else {
            Seq::<(usize, usize)>::empty()
        };
        let w = if c > 0 {
            seq![(r as usize, (c - 1) as usize)]
        } else {
            Seq::<(usize, usize)>::empty()
        };
        let n = if r > 0 {
            seq![((r - 1) as usize, c as usize)]
        } else {
            Seq::<(usize, usize)>::empty()
        };
        e + s + w + n
    }

    pub proof fn lemma_idx(self, r: int, c: int)
        requires
            self.in_grid(r, c),
        ensures
            0 <= self.idx(r, c) < self.width * self.height,
    {
        let w = self.width as int;
        let h = self.height as int;
        assert(0 <= r * w + c < w * h) by (nonlinear_arith)
            requires
                0 <= r < h,
                0 <= c < w,
        ;
    }

    pub proof fn lemma_idx_injective(self, r1: int, c1: int, r2: int, c2: int)
        requires
            self.in_grid(r1, c1),
            self.in_grid(r2, c2),
            self.idx(r1, c1) == self.idx(r2, c2),
        ensures
            r1 == r2 && c1 == c2,
    {
        let w = self.width as int;
        assert(r1 == r2) by (nonlinear_arith)
            requires
                r1 * w + c1 == r2 * w + c2,
                0 <= c1 < w,
                0 <= c2 < w,
        {
            if r1 < r2 {
                assert(r1 * w + w <= r2 * w);
            } else if r2 < r1 {
                assert(r2 * w + w <= r1 * w);
            }
        }
    }

    /// Position of `(r, c)` in `cells`.
    pub fn index(&self, r: usize, c: usize) -> (p: usize)
        requires
            self.wf(),
            self.in_grid(r as int, c as int),
        ensures
            p as int == self.idx(r as int, c as int),
            p < self.cells@.len(),
    {
        let n = self.cells.len();
        proof {
            self.lemma_idx(r as int, c as int);
            assert(self.idx(r as int, c as int) < n);
        }
        r * self.width + c
    }

    /// The four-connected neighbours of `(i, j)` inside the grid, in the order
    /// east, south, west, north.
    pub fn neighbors(&self, i: usize, j: usize) -> (r: Vec<(usize, usize)>)
        requires
            self.in_grid(i as int, j as int),
        ensures
            r@ == self.neighbor_seq(i as int, j as int),
            forall|k: int|
                0 <= k < r@.len() ==> {
                    &&& self.in_grid(#[trigger] r@[k].0 as int, r@[k].1 as int)
                    &&& adjacent(i as int, j as int, r@[k].0 as int, r@[k].1 as int)
                },
            forall|r2: int, c2: int|
                #![trigger adjacent(i as int, j as int, r2, c2)]
                self.in_grid(r2, c2) && adjacent(i as int, j as int, r2, c2) ==> r@.contains(
                    (r2 as usize, c2 as usize),
                ),
    {
        let mut r: Vec<(usize, usize)> = Vec::new();
        if j + 1 < self.width {
            r.push((i, j + 1));
        }
        if i + 1 < self.height {
            r.push((i + 1, j));
        }
        if j > 0 {
            r.push((i, j - 1));
        }
        if i > 0 {
            r.push((i - 1, j));
        }
        proof {
            let ghost s = self.neighbor_seq(i as int, j as int);
            assert(r@ =~= s);
            assert forall|r2: int, c2: int|
                #![trigger adjacent(i as int, j as int, r2, c2)]
                self.in_grid(r2, c2) && adjacent(i as int, j as int, r2, c2) implies r@.contains(
                (r2 as usize, c2 as usize),
            ) by {
                let p = (r2 as usize, c2 as usize);
                if r2 == i && c2 == j + 1 {
                    assert(r@[0] == p);
                } else if r2 == i + 1 && c2 == j {
                    assert(r@[if j + 1 < self.width { 1int } else { 0int }] == p);
                } else if r2 == i && c2 + 1 == j {
                    let k = (if j + 1 < self.width { 1int } else { 0int }) + (if i + 1
                        < self.height { 1int } else { 0int });
                    assert(r@[k] == p);
                } else {
                    let k = (if j + 1 < self.width { 1int } else { 0int }) + (if i + 1
                        < self.height { 1int } else { 0int }) + (if j > 0 { 1int } else { 0int });
                    assert(r@[k] == p);
                }
            }
        }
        r
    }
}

} // verus!
