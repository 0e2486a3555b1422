use vstd::prelude::*;
use vstd::arithmetic::div_mod::{lemma_fundamental_div_mod, lemma_fundamental_div_mod_converse};
use crate::actions::{moved_units, Action};
use crate::grid::{Game, Owner};

verus! {

/// Units sent to the `i`-th of `k` destinations when `n` units split evenly,
/// the remainder going to the first ones.
pub open spec fn share(n: nat, k: nat, i: nat) -> nat {
    n / k + if i < n % k {
        1nat
    } else {
        0nat
    }
}

/// How many destinations receive at least one unit.
pub open spec fn move_count(n: nat, k: nat) -> nat {
    if n < k {
        n
    } else {
        k
    }
}

/// Sum of the first `j` shares.
pub open spec fn share_sum(n: nat, k: nat, j: nat) -> nat
    decreases j,
{
    if j == 0 {
        0
    } else {
        share_sum(n, k, (j - 1) as nat) + share(n, k, (j - 1) as nat)
    }
}

/// The move orders that split `n` units standing on `(r, c)` over `dests`.
pub open spec fn split_moves(r: int, c: int, n: nat, dests: Seq<(usize, usize)>, j: nat) -> Seq<
    Action,
> {
    Seq::new(
        j,
        |i: int|
            Action::Move {
                amount: share(n, dests.len(), i as nat) as u32,
                from_x: c as usize,
                from_y: r as usize,
                to_x: dests[i].1,
                to_y: dests[i].0,
            },
    )
}

/// Shares are positive exactly on the first `move_count` destinations, at
/// most `n`, and are the ceiling of `n / k` before index `n % k` and the
/// floor from there on.
pub proof fn lemma_share(n: nat, k: nat, i: nat)
    requires
        k > 0,
        i < k,
    ensures
        share(n, k, i) > 0 <==> i < move_count(n, k),
        share(n, k, i) <= n,
        i < n % k ==> share(n, k, i) == ((n + k - 1) as int) / (k as int),
        i >= n % k ==> share(n, k, i) == n / k,
{
    let q = n / k;
    let m = n % k;
    lemma_fundamental_div_mod(n as int, k as int);
    if n < k {
        lemma_fundamental_div_mod_converse(n as int, k as int, 0, n as int);
    } else {
        if q == 0 {
            assert(n == k * q + m);
            assert(k * 0 == 0);
        }
    }
    assert(q <= k * q) by (nonlinear_arith)
        requires
            k >= 1,
            q >= 0,
    ;
    if m > 0 {
        assert((n + k - 1) as int == (q + 1) * k + (m - 1)) by (nonlinear_arith)
            requires
                n == k * q + m,
        ;
        lemma_fundamental_div_mod_converse((n + k - 1) as int, k as int, q + 1int, m - 1int);
    }
}

/// The first `j` shares add up to `j * (n / k) + min(j, n % k)`.
pub proof fn lemma_share_sum(n: nat, k: nat, j: nat)
    requires
        k > 0,
        j <= k,
    ensures
        share_sum(n, k, j) == j * (n / k) + if j < n % k {
            j
        } else {
            n % k
        },
    decreases j,
{
    if j == 0 {
        assert(0 * (n / k) == 0) by (nonlinear_arith);
    } else {
        let jj = (j - 1) as nat;
        lemma_share_sum(n, k, jj);
        let q = n / k;
        assert(jj * q + q == j * q) by (nonlinear_arith)
            requires
                jj + 1 == j,
        ;
        assert(share_sum(n, k, j) == share_sum(n, k, jj) + share(n, k, jj));
    }
}

/// The units of a split add up to the number of units that stood there.
pub proof fn lemma_split_conserves(r: int, c: int, n: nat, dests: Seq<(usize, usize)>)
    requires
        dests.len() > 0,
        n <= u32::MAX,
    ensures
        moved_units(split_moves(r, c, n, dests, move_count(n, dests.len()))) == n,
{
    let k = dests.len();
    lemma_split_prefix(r, c, n, dests, move_count(n, k));
    lemma_share_sum(n, k, move_count(n, k));
    lemma_fundamental_div_mod(n as int, k as int);
    if n < k {
        lemma_fundamental_div_mod_converse(n as int, k as int, 0, n as int);
        assert(n * (n / k) == 0) by (nonlinear_arith)
            requires
                n / k == 0,
        ;
    } else {
        assert(k * (n / k) == (n / k) * k) by (nonlinear_arith);
    }
}

proof fn lemma_split_prefix(r: int, c: int, n: nat, dests: Seq<(usize, usize)>, j: nat)
    requires
        dests.len() > 0,
        j <= move_count(n, dests.len()),
        n <= u32::MAX,
    ensures
        moved_units(split_moves(r, c, n, dests, j)) == share_sum(n, dests.len(), j),
    decreases j,
{
    if j > 0 {
        let jj = (j - 1) as nat;
        assert(split_moves(r, c, n, dests, j).drop_last() =~= split_moves(r, c, n, dests, jj));
        lemma_split_prefix(r, c, n, dests, jj);
        lemma_share(n, dests.len(), jj);
    }
}

impl Game {
    /// The entries of `s` that are passable cells.
    pub open spec fn passable_only(self, s: Seq<(usize, usize)>) -> Seq<(usize, usize)>
        decreases s.len(),
    {
        if s.len() == 0 {
            s
        } else {
            let rest = self.passable_only(s.drop_last());
            if self.passable(s.last().0 as int, s.last().1 as int) {
                rest.push(s.last())
            } else {
                rest
            }
        }
    }

    /// The least known distance among the cells of `s`; `None` where no cell
    /// of `s` has one.
    pub open spec fn min_dist(self, dist: Seq<Option<usize>>, s: Seq<(usize, usize)>) -> Option<
        usize,
    >
        decreases s.len(),
    {
        if s.len() == 0 {
            None
        } else {
            let m = self.min_dist(dist, s.drop_last());
            let x = self.dist_at(dist, s.last().0 as int, s.last().1 as int);
            match (m, x) {
                (None, _) => x,
                (Some(a), None) => Some(a),
                (Some(a), Some(b)) => if b < a {
                    Some(b)
                } else {
                    Some(a)
                },
            }
        }
    }

    /// The cells of `s` at distance `m`, in order.
    pub open spec fn at_dist(self, dist: Seq<Option<usize>>, s: Seq<(usize, usize)>, m: usize) -> Seq<
        (usize, usize),
    >
        decreases s.len(),
    {
        if s.len() == 0 {
            s
        } else {
            let rest = self.at_dist(dist, s.drop_last(), m);
            if self.dist_at(dist, s.last().0 as int, s.last().1 as int) == Some(m) {
                rest.push(s.last())
            } else {
                rest
            }
        }
    }

    /// The cells a unit stack on `(r, c)` would step to: its passable
    /// neighbours at the least distance.
    pub open spec fn destinations(self, dist: Seq<Option<usize>>, r: int, c: int) -> Seq<
        (usize, usize),
    > {
        let cands = self.passable_only(self.neighbor_seq(r, c));
        match self.min_dist(dist, cands) {
            Some(m) => self.at_dist(dist, cands, m),
            None => Seq::empty(),
        }
    }

    pub open spec fn is_robot(self, r: int, c: int) -> bool {
        self.cell_at(r, c).owner == Owner::Mine && self.cell_at(r, c).unit_count > 0
    }

    /// The move orders for the cell `(r, c)`.
    pub open spec fn cell_moves(self, dist: Seq<Option<usize>>, r: int, c: int) -> Seq<Action> {
        if self.is_robot(r, c) {
            let n = self.cell_at(r, c).unit_count as nat;
            let dests = self.destinations(dist, r, c);
            split_moves(r, c, n, dests, move_count(n, dests.len()))
        } else {
            Seq::empty()
        }
    }
}

impl Game {
    /// A least distance that exists is held by some cell.
    pub proof fn lemma_min_dist_attained(self, dist: Seq<Option<usize>>, s: Seq<(usize, usize)>)
        ensures
            self.min_dist(dist, s) matches Some(m) ==> self.at_dist(dist, s, m).len() > 0,
        decreases s.len(),
    {
        if s.len() > 0 {
            let rest = s.drop_last();
            self.lemma_min_dist_attained(dist, rest);
            if let Some(m) = self.min_dist(dist, s) {
                if self.dist_at(dist, s.last().0 as int, s.last().1 as int) != Some(m) {
                    assert(self.min_dist(dist, rest) == Some(m));
                    self.lemma_at_dist_grows(dist, s, m);
                }
            }
        }
    }

    proof fn lemma_at_dist_grows(self, dist: Seq<Option<usize>>, s: Seq<(usize, usize)>, m: usize)
        requires
            s.len() > 0,
        ensures
            self.at_dist(dist, s.drop_last(), m).len() <= self.at_dist(dist, s, m).len(),
    {
    }

    /// The move orders for the unit stack on `(r, c)`: its units split over
    /// the passable neighbours that are closest to the outside.
    pub fn plan_cell_moves(&self, dist: &Vec<Option<usize>>, r: usize, c: usize) -> (moves: Vec<
        Action,
    >)
        requires
            self.wf(),
            dist@.len() == self.cells@.len(),
            self.in_grid(r as int, c as int),
        ensures
            moves@ == self.cell_moves(dist@, r as int, c as int),
    {
        let mut moves: Vec<Action> = Vec::new();
        let cell = self.cells[self.index(r, c)];
        if cell.owner != Owner::Mine || cell.unit_count == 0 {
            assert(moves@ =~= self.cell_moves(dist@, r as int, c as int));
            return moves;
        }
        let nbrs = self.neighbors(r, c);
        let mut cands: Vec<(usize, usize)> = Vec::new();
        let mut best: Option<usize> = None;
        let mut i: usize = 0;
        while i < nbrs.len()
            invariant
                self.wf(),
                dist@.len() == self.cells@.len(),
                i <= nbrs@.len(),
                nbrs@ == self.neighbor_seq(r as int, c as int),
                forall|k: int|
                    0 <= k < nbrs@.len() ==> self.in_grid(
                        #[trigger] nbrs@[k].0 as int,
                        nbrs@[k].1 as int,
                    ),
                cands@ == self.passable_only(nbrs@.take(i as int)),
                forall|k: int|
                    0 <= k < cands@.len() ==> self.in_grid(
                        #[trigger] cands@[k].0 as int,
                        cands@[k].1 as int,
                    ),
                best == self.min_dist(dist@, cands@),
            decreases nbrs@.len() - i,
        {
            let (nr, nc) = nbrs[i];
            let q = self.index(nr, nc);
            assert(nbrs@.take(i + 1).drop_last() =~= nbrs@.take(i as int));
            if self.cells[q].is_passable() {
                let ghost before = cands@;
                cands.push((nr, nc));
                assert(cands@.drop_last() =~= before);
                let x = dist[q];
                best = match (best, x) {
                    (None, _) => x,
                    (Some(a), None) => Some(a),
                    (Some(a), Some(b)) => if b < a {
                        Some(b)
                    } else {
                        Some(a)
                    },
                };
            }
            i += 1;
        }
        assert(nbrs@.take(nbrs@.len() as int) =~= nbrs@);
        let m = match best {
            Some(m) => m,
            None => {
                assert(moves@ =~= self.cell_moves(dist@, r as int, c as int));
                return moves;
            },
        };
        let mut dests: Vec<(usize, usize)> = Vec::new();
        let mut j: usize = 0;
        while j < cands.len()
            invariant
                self.wf(),
                dist@.len() == self.cells@.len(),
                j <= cands@.len(),
                forall|k: int|
                    0 <= k < cands@.len() ==> self.in_grid(
                        #[trigger] cands@[k].0 as int,
                        cands@[k].1 as int,
                    ),
                dests@ == self.at_dist(dist@, cands@.take(j as int), m),
            decreases cands@.len() - j,
        {
            let (nr, nc) = cands[j];
            let q = self.index(nr, nc);
            assert(cands@.take(j + 1).drop_last() =~= cands@.take(j as int));
            if dist[q] == Some(m) {
                let ghost before = dests@;
                dests.push((nr, nc));
                assert(dests@.drop_last() =~= before);
            }
            j += 1;
        }
        assert(cands@.take(cands@.len() as int) =~= cands@);
        proof {
            self.lemma_min_dist_attained(dist@, cands@);
        }
        let n = cell.unit_count as usize;
        let k = dests.len();
        let ghost nn = cell.unit_count as nat;
        let ghost all = split_moves(r as int, c as int, nn, dests@, move_count(nn, k as nat));
        let mut t: usize = 0;
        while t < k && t < n
            invariant
                n == nn,
                n <= u32::MAX,
                k == dests@.len(),
                k > 0,
                t <= move_count(nn, k as nat),
                moves@ == split_moves(r as int, c as int, nn, dests@, t as nat),
            decreases k - t,
        {
            proof {
                lemma_share(nn, k as nat, t as nat);
            }
            let amount = n / k + if t < n % k {
                1usize
            } else {
                0usize
            };
            let (tr, tc) = dests[t];
            moves.push(Action::Move { amount: amount as u32, from_x: c, from_y: r, to_x: tc, to_y: tr });
            assert(moves@ =~= split_moves(r as int, c as int, nn, dests@, (t + 1) as nat));
            t += 1;
        }
        moves
    }
}

impl Game {
    /// Move orders of the cells `(r, 0) .. (r, c)`.
    pub open spec fn row_moves(self, dist: Seq<Option<usize>>, r: int, c: int) -> Seq<Action>
        decreases c,
    {
        if c <= 0 {
            Seq::empty()
        } else {
            self.row_moves(dist, r, c - 1) + self.cell_moves(dist, r, c - 1)
        }
    }

    /// Move orders of the rows `0 .. r`, row by row.
    pub open spec fn grid_moves(self, dist: Seq<Option<usize>>, r: int) -> Seq<Action>
        decreases r,
    {
        if r <= 0 {
            Seq::empty()
        } else {
            self.grid_moves(dist, r - 1) + self.row_moves(dist, r - 1, self.width as int)
        }
    }

    /// The move orders of every unit stack of ours, in row-major order of the
    /// cells they stand on.
    pub fn plan_moves(&self, dist: &Vec<Option<usize>>) -> (moves: Vec<Action>)
        requires
            self.wf(),
            dist@.len() == self.cells@.len(),
        ensures
            moves@ == self.grid_moves(dist@, self.height as int),
    {
        let mut moves: Vec<Action> = Vec::new();
        let mut r: usize = 0;
        while r < self.height
            invariant
                self.wf(),
                dist@.len() == self.cells@.len(),
                r <= self.height,
                moves@ == self.grid_moves(dist@, r as int),
            decreases self.height - r,
        {
            let mut c: usize = 0;
            while c < self.width
                invariant
                    self.wf(),
                    dist@.len() == self.cells@.len(),
                    r < self.height,
                    c <= self.width,
                    moves@ == self.grid_moves(dist@, r as int) + self.row_moves(
                        dist@,
                        r as int,
                        c as int,
                    ),
                decreases self.width - c,
            {
                let mut more = self.plan_cell_moves(dist, r, c);
                moves.append(&mut more);
                assert(moves@ =~= self.grid_moves(dist@, r as int) + self.row_moves(
                    dist@,
                    r as int,
                    c + 1,
                ));
                c += 1;
            }
            assert(moves@ =~= self.grid_moves(dist@, r + 1));
            r += 1;
        }
        moves
    }

    /// A unit stack with somewhere to go sends all of its units, no more and
    /// no fewer.
    pub proof fn lemma_unit_conservation(self, dist: Seq<Option<usize>>, r: int, c: int)
        requires
            self.wf(),
            self.in_grid(r, c),
            self.is_robot(r, c),
            self.destinations(dist, r, c).len() > 0,
        ensures
            moved_units(self.cell_moves(dist, r, c)) == self.cell_at(r, c).unit_count,
    {
        lemma_split_conserves(
            r,
            c,
            self.cell_at(r, c).unit_count as nat,
            self.destinations(dist, r, c),
        );
    }

    /// With `n` units and `k` equally close destinations, the `i`-th order
    /// goes to the `i`-th destination and carries the ceiling of `n / k`
    /// units before index `n % k` and the floor from there on; destinations
    /// whose share is zero get no order.
    pub proof fn lemma_remainder_tie_break(self, dist: Seq<Option<usize>>, r: int, c: int, i: int)
        requires
            self.wf(),
            self.in_grid(r, c),
            self.is_robot(r, c),
            0 <= i < self.destinations(dist, r, c).len(),
        ensures
            ({
                let n = self.cell_at(r, c).unit_count as int;
                let dests = self.destinations(dist, r, c);
                let k = dests.len() as int;
                let moves = self.cell_moves(dist, r, c);
                let amount = if i < n % k {
                    (n + k - 1) / k
                } else {
                    n / k
                };
                &&& moves.len() == if n < k {
                    n
                } else {
                    k
                }
                &&& i < moves.len() ==> moves[i] == Action::Move {
                    amount: amount as u32,
                    from_x: c as usize,
                    from_y: r as usize,
                    to_x: dests[i].1,
                    to_y: dests[i].0,
                }
                &&& i >= moves.len() ==> amount == 0
            }),
    {
        let n = self.cell_at(r, c).unit_count as nat;
        let k = self.destinations(dist, r, c).len();
        lemma_share(n, k, i as nat);
    }
}

impl Game {
    /// The destinations of a stack are passable neighbours at one distance
    /// `m`, and no passable neighbour has a smaller distance.
    pub proof fn lemma_destinations_are_closest(self, dist: Seq<Option<usize>>, r: int, c: int)
        requires
            self.wf(),
            self.in_grid(r, c),
        ensures
            ({
                let cands = self.passable_only(self.neighbor_seq(r, c));
                let dests = self.destinations(dist, r, c);
                &&& forall|i: int|
                    0 <= i < cands.len() ==> self.passable(
                        #[trigger] cands[i].0 as int,
                        cands[i].1 as int,
                    )
                &&& forall|i: int|
                    0 <= i < dests.len() ==> cands.contains(#[trigger] dests[i])
                        && self.dist_at(dist, dests[i].0 as int, dests[i].1 as int) == self.min_dist(
                        dist,
                        cands,
                    )
                &&& forall|i: int|
                    0 <= i < cands.len() ==> match (
                        self.min_dist(dist, cands),
                        #[trigger] self.dist_at(dist, cands[i].0 as int, cands[i].1 as int),
                    ) {
                        (Some(m), Some(d)) => m <= d,
                        (None, d) => d is None,
                        _ => true,
                    }
            }),
    {
        let cands = self.passable_only(self.neighbor_seq(r, c));
        self.lemma_passable_only(self.neighbor_seq(r, c));
        self.lemma_min_dist_lower(dist, cands);
        if let Some(m) = self.min_dist(dist, cands) {
            self.lemma_at_dist(dist, cands, m);
        }
    }

    proof fn lemma_passable_only(self, s: Seq<(usize, usize)>)
        ensures
            forall|i: int|
                0 <= i < self.passable_only(s).len() ==> self.passable(
                    #[trigger] self.passable_only(s)[i].0 as int,
                    self.passable_only(s)[i].1 as int,
                ),
        decreases s.len(),
    {
        if s.len() > 0 {
            let rest = self.passable_only(s.drop_last());
            self.lemma_passable_only(s.drop_last());
            let p = self.passable_only(s);
            assert forall|i: int| 0 <= i < p.len() implies self.passable(
                #[trigger] p[i].0 as int,
                p[i].1 as int,
            ) by {
                if i < rest.len() {
                    assert(p[i] == rest[i]);
                }
            }
        }
    }

    proof fn lemma_min_dist_lower(self, dist: Seq<Option<usize>>, s: Seq<(usize, usize)>)
        ensures
            forall|i: int|
                0 <= i < s.len() ==> match (
                    self.min_dist(dist, s),
                    #[trigger] self.dist_at(dist, s[i].0 as int, s[i].1 as int),
                ) {
                    (Some(m), Some(d)) => m <= d,
                    (None, d) => d is None,
                    _ => true,
                },
        decreases s.len(),
    {
        if s.len() > 0 {
            let rest = s.drop_last();
            self.lemma_min_dist_lower(dist, rest);
            assert forall|i: int| 0 <= i < s.len() implies match (
                self.min_dist(dist, s),
                #[trigger] self.dist_at(dist, s[i].0 as int, s[i].1 as int),
            ) {
                (Some(m), Some(d)) => m <= d,
                (None, d) => d is None,
                _ => true,
            } by {
                if i < s.len() - 1 {
                    assert(s[i] == rest[i]);
                }
            }
        }
    }

    proof fn lemma_at_dist(self, dist: Seq<Option<usize>>, s: Seq<(usize, usize)>, m: usize)
        ensures
            forall|i: int|
                0 <= i < self.at_dist(dist, s, m).len() ==> s.contains(
                    #[trigger] self.at_dist(dist, s, m)[i],
                ) && self.dist_at(
                    dist,
                    self.at_dist(dist, s, m)[i].0 as int,
                    self.at_dist(dist, s, m)[i].1 as int,
                ) == Some(m),
        decreases s.len(),
    {
        if s.len() > 0 {
            let rest = s.drop_last();
            self.lemma_at_dist(dist, rest, m);
            let a = self.at_dist(dist, s, m);
            assert forall|i: int| 0 <= i < a.len() implies s.contains(#[trigger] a[i]) by {
                if i < self.at_dist(dist, rest, m).len() {
                    let x = self.at_dist(dist, rest, m)[i];
                    assert(rest.contains(x));
                    let j = choose|j: int| 0 <= j < rest.len() && rest[j] == x;
                    assert(s[j] == x);
                } else {
                    assert(s[s.len() - 1] == a[i]);
                }
            }
        }
    }
}

impl Game {
    /// Our unit stacks among `(r, 0) .. (r, c)`.
    pub open spec fn row_robots(self, r: int, c: int) -> Seq<(usize, usize)>
        decreases c,
    {
        if c <= 0 {
            Seq::empty()
        } else {
            self.row_robots(r, c - 1) + if self.is_robot(r, c - 1) {
                seq![(r as usize, (c - 1) as usize)]
            } else {
                Seq::empty()
            }
        }
    }

    /// Our unit stacks in the rows `0 .. r`, in row-major order.
    pub open spec fn grid_robots(self, r: int) -> Seq<(usize, usize)>
        decreases r,
    {
        if r <= 0 {
            Seq::empty()
        } else {
            self.grid_robots(r - 1) + self.row_robots(r - 1, self.width as int)
        }
    }

    /// The cells where units of ours stand, in row-major order.
    pub fn my_robots(&self) -> (v: Vec<(usize, usize)>)
        requires
            self.wf(),
        ensures
            v@ == self.grid_robots(self.height as int),
    {
        let mut v: Vec<(usize, usize)> = Vec::new();
        let mut r: usize = 0;
        while r < self.height
            invariant
                self.wf(),
                r <= self.height,
                v@ == self.grid_robots(r as int),
            decreases self.height - r,
        {
            let mut c: usize = 0;
            while c < self.width
                invariant
                    self.wf(),
                    r < self.height,
                    c <= self.width,
                    v@ == self.grid_robots(r as int) + self.row_robots(r as int, c as int),
                decreases self.width - c,
            {
                let cell = self.cells[self.index(r, c)];
                if cell.owner == Owner::Mine && cell.unit_count > 0 {
                    v.push((r, c));
                }
                assert(v@ =~= self.grid_robots(r as int) + self.row_robots(r as int, c + 1));
                c += 1;
            }
            assert(v@ =~= self.grid_robots(r + 1));
            r += 1;
        }
        v
    }
}

} // verus!
