use vstd::prelude::*;
use crate::grid::{adjacent, Game};

verus! {

/// Number of unassigned entries of a distance field.
pub open spec fn count_none(s: Seq<Option<usize>>) -> nat
    decreases s.len(),
{
    if s.len() == 0 {
        0
    } else {
        count_none(s.drop_last()) + if s.last() is None {
            1nat
        } else {
            0nat
        }
    }
}

proof fn lemma_count_none_bound(s: Seq<Option<usize>>)
    ensures
        count_none(s) <= s.len(),
    decreases s.len(),
{
    if s.len() > 0 {
        lemma_count_none_bound(s.drop_last());
    }
}

proof fn lemma_count_none_some(s: Seq<Option<usize>>, i: int)
    requires
        0 <= i < s.len(),
        s[i] is Some,
    ensures
        count_none(s) < s.len(),
    decreases s.len(),
{
    lemma_count_none_bound(s.drop_last());
    if i < s.len() - 1 {
        lemma_count_none_some(s.drop_last(), i);
    }
}

proof fn lemma_count_none_update(s: Seq<Option<usize>>, i: int, v: usize)
    requires
        0 <= i < s.len(),
        s[i] is None,
    ensures
        count_none(s.update(i, Some(v))) + 1 == count_none(s),
    decreases s.len(),
{
    let t = s.update(i, Some(v));
    if i < s.len() - 1 {
        assert(t.drop_last() =~= s.drop_last().update(i, Some(v)));
        lemma_count_none_update(s.drop_last(), i, v);
    } else {
        assert(t.drop_last() =~= s.drop_last());
    }
}

impl Game {
    /// `(r, c)` reaches an outside cell in at most `k` steps, moving between
    /// adjacent passable cells.
    pub open spec fn within(self, k: nat, r: int, c: int) -> bool
        decreases k,
    {
        if k == 0 {
            self.outside(r, c)
        } else {
            let j = (k - 1) as nat;
            self.outside(r, c) || (self.passable(r, c) && (self.within(j, r, c + 1)
                || self.within(j, r + 1, c) || self.within(j, r, c - 1) || self.within(
                j,
                r - 1,
                c,
            )))
        }
    }

    /// `d` is the length of a shortest passable path from `(r, c)` to an
    /// outside cell.
    pub open spec fn has_distance(self, d: nat, r: int, c: int) -> bool {
        self.within(d, r, c) && (d == 0 || !self.within((d - 1) as nat, r, c))
    }

    pub open spec fn dist_at(self, dist: Seq<Option<usize>>, r: int, c: int) -> Option<usize> {
        dist[self.idx(r, c)]
    }

    /// Every entry is the exact distance to the nearest outside cell, or
    /// `None` exactly where no outside cell can be reached.
    pub open spec fn field_correct(self, dist: Seq<Option<usize>>) -> bool {
        &&& dist.len() == self.cells@.len()
        &&& forall|r: int, c: int|
            self.in_grid(r, c) ==> match #[trigger] self.dist_at(dist, r, c) {
                Some(d) => self.has_distance(d as nat, r, c),
                None => forall|k: nat| !#[trigger] self.within(k, r, c),
            }
    }

    /// Assigned entries are exact and at most `hi`; unassigned cells do not
    /// reach an outside cell within `lo` steps.
    pub open spec fn partial_field(self, dist: Seq<Option<usize>>, hi: nat, lo: nat) -> bool {
        &&& dist.len() == self.cells@.len()
        &&& forall|r: int, c: int|
            self.in_grid(r, c) ==> match #[trigger] self.dist_at(dist, r, c) {
                Some(d) => d <= hi && self.has_distance(d as nat, r, c),
                None => !self.within(lo, r, c),
            }
    }

    pub proof fn lemma_within_in_grid(self, k: nat, r: int, c: int)
        requires
            self.within(k, r, c),
        ensures
            self.passable(r, c),
    {
    }

    pub proof fn lemma_within_mono(self, k1: nat, k2: nat, r: int, c: int)
        requires
            k1 <= k2,
            self.within(k1, r, c),
        ensures
            self.within(k2, r, c),
        decreases k2,
    {
        if k1 < k2 {
            self.lemma_within_mono(k1, (k2 - 1) as nat, r, c);
            if !self.outside(r, c) {
                let j = (k2 - 2) as nat;
                let i = (k2 - 1) as nat;
                if self.within(j, r, c + 1) {
                    self.lemma_within_mono(j, i, r, c + 1);
                } else if self.within(j, r + 1, c) {
                    self.lemma_within_mono(j, i, r + 1, c);
                } else if self.within(j, r, c - 1) {
                    self.lemma_within_mono(j, i, r, c - 1);
                } else {
                    self.lemma_within_mono(j, i, r - 1, c);
                }
            }
        }
    }

    /// A passable neighbour of a cell that is within `k` steps is within
    /// `k + 1` steps.
    pub proof fn lemma_within_step(self, k: nat, r: int, c: int, r2: int, c2: int)
        requires
            self.passable(r, c),
            adjacent(r, c, r2, c2),
            self.within(k, r2, c2),
        ensures
            self.within(k + 1, r, c),
    {
        let k1: nat = k + 1;
        assert(self.within(k1, r, c));
    }

    proof fn lemma_unreached_step(
        self,
        dist: Seq<Option<usize>>,
        d: usize,
        k: nat,
        r: int,
        c: int,
        r2: int,
        c2: int,
    )
        requires
            self.partial_field(dist, d as nat, d as nat),
            forall|r3: int, c3: int|
                self.in_grid(r3, c3) ==> #[trigger] self.dist_at(dist, r3, c3) != Some(d),
            forall|r3: int, c3: int|
                self.in_grid(r3, c3) && #[trigger] self.dist_at(dist, r3, c3) is None
                    ==> !self.within(k, r3, c3),
            self.in_grid(r, c),
            self.passable(r, c),
            adjacent(r, c, r2, c2),
            self.within(k, r2, c2),
        ensures
            self.dist_at(dist, r, c) is Some,
    {
        self.lemma_within_in_grid(k, r2, c2);
        if self.dist_at(dist, r, c) is None {
            match self.dist_at(dist, r2, c2) {
                None => {},
                Some(j) => {
                    assert(j < d);
                    self.lemma_within_step(j as nat, r, c, r2, c2);
                    self.lemma_within_mono((j + 1) as nat, d as nat, r, c);
                },
            }
        }
    }

    proof fn lemma_unreached(self, dist: Seq<Option<usize>>, d: usize, k: nat)
        requires
            self.partial_field(dist, d as nat, d as nat),
            forall|r2: int, c2: int|
                self.in_grid(r2, c2) ==> #[trigger] self.dist_at(dist, r2, c2) != Some(d),
        ensures
            forall|r: int, c: int|
                self.in_grid(r, c) && #[trigger] self.dist_at(dist, r, c) is None
                    ==> !self.within(k, r, c),
        decreases k,
    {
        if k <= d {
            assert forall|r: int, c: int|
                self.in_grid(r, c) && #[trigger] self.dist_at(dist, r, c) is None
                    implies !self.within(k, r, c) by {
                if self.within(k, r, c) {
                    self.lemma_within_mono(k, d as nat, r, c);
                }
            }
        } else {
            let j = (k - 1) as nat;
            self.lemma_unreached(dist, d, j);
            assert forall|r: int, c: int|
                self.in_grid(r, c) && #[trigger] self.dist_at(dist, r, c) is None
                    implies !self.within(k, r, c) by {
                if self.within(k, r, c) {
                    assert(!self.within(j, r, c));
                    if self.within(j, r, c + 1) {
                        self.lemma_unreached_step(dist, d, j, r, c, r, c + 1);
                    } else if self.within(j, r + 1, c) {
                        self.lemma_unreached_step(dist, d, j, r, c, r + 1, c);
                    } else if self.within(j, r, c - 1) {
                        self.lemma_unreached_step(dist, d, j, r, c, r, c - 1);
                    } else {
                        self.lemma_unreached_step(dist, d, j, r, c, r - 1, c);
                    }
                }
            }
        }
    }
}

impl Game {
    proof fn lemma_layer_step(
        self,
        dist: Seq<Option<usize>>,
        current: Seq<(usize, usize)>,
        d: usize,
        r: int,
        c: int,
        r2: int,
        c2: int,
    )
        requires
            d < usize::MAX,
            self.partial_field(dist, (d + 1) as nat, d as nat),
            forall|rr: int, cc: int|
                self.in_grid(rr, cc) && #[trigger] self.dist_at(dist, rr, cc) == Some(d)
                    ==> current.contains((rr as usize, cc as usize)),
            forall|t: int, rr: int, cc: int|
                0 <= t < current.len() && self.passable(rr, cc) && #[trigger] adjacent(
                    current[t].0 as int,
                    current[t].1 as int,
                    rr,
                    cc,
                ) ==> self.dist_at(dist, rr, cc) is Some,
            self.in_grid(r, c),
            self.passable(r, c),
            adjacent(r, c, r2, c2),
            self.within(d as nat, r2, c2),
        ensures
            self.dist_at(dist, r, c) is Some,
    {
        self.lemma_within_in_grid(d as nat, r2, c2);
        if self.dist_at(dist, r, c) is None {
            match self.dist_at(dist, r2, c2) {
                None => {},
                Some(j) => {
                    if j < d {
                        self.lemma_within_step(j as nat, r, c, r2, c2);
                        self.lemma_within_mono((j + 1) as nat, d as nat, r, c);
                    } else if j == d {
                        let t = choose|t: int|
                            0 <= t < current.len() && current[t] == (r2 as usize, c2 as usize);
                        assert(adjacent(current[t].0 as int, current[t].1 as int, r, c));
                    }
                },
            }
        }
    }

    /// Once every cell of layer `d` has handed its number on, unassigned
    /// cells are more than `d + 1` steps away.
    proof fn lemma_layer_closed(
        self,
        dist: Seq<Option<usize>>,
        current: Seq<(usize, usize)>,
        d: usize,
    )
        requires
            d < usize::MAX,
            self.partial_field(dist, (d + 1) as nat, d as nat),
            forall|rr: int, cc: int|
                self.in_grid(rr, cc) && #[trigger] self.dist_at(dist, rr, cc) == Some(d)
                    ==> current.contains((rr as usize, cc as usize)),
            forall|t: int, rr: int, cc: int|
                0 <= t < current.len() && self.passable(rr, cc) && #[trigger] adjacent(
                    current[t].0 as int,
                    current[t].1 as int,
                    rr,
                    cc,
                ) ==> self.dist_at(dist, rr, cc) is Some,
        ensures
            self.partial_field(dist, (d + 1) as nat, (d + 1) as nat),
    {
        assert forall|r: int, c: int| self.in_grid(r, c) implies match #[trigger] self.dist_at(
            dist,
            r,
            c,
        ) {
            Some(k) => k <= d + 1 && self.has_distance(k as nat, r, c),
            None => !self.within((d + 1) as nat, r, c),
        } by {
            let k1: nat = (d + 1) as nat;
            if self.dist_at(dist, r, c) is None && self.within(k1, r, c) {
                let j = d as nat;
                assert(!self.within(j, r, c));
                if self.within(j, r, c + 1) {
                    self.lemma_layer_step(dist, current, d, r, c, r, c + 1);
                } else if self.within(j, r + 1, c) {
                    self.lemma_layer_step(dist, current, d, r, c, r + 1, c);
                } else if self.within(j, r, c - 1) {
                    self.lemma_layer_step(dist, current, d, r, c, r, c - 1);
                } else {
                    self.lemma_layer_step(dist, current, d, r, c, r - 1, c);
                }
            }
        }
    }
}

impl Game {
    /// The distance field of the board: multi-source breadth-first search
    /// from every outside cell, stepping only onto passable cells.
    pub fn distance_field(&self) -> (dist: Vec<Option<usize>>)
        requires
            self.wf(),
        ensures
            self.field_correct(dist@),
    {
        let n = self.cells.len();
        let w = self.width;
        let mut dist: Vec<Option<usize>> = Vec::new();
        let mut current: Vec<(usize, usize)> = Vec::new();
        let mut r: usize = 0;
        let mut c: usize = 0;
        let mut p: usize = 0;
        proof {
            if n > 0 {
                assert(self.height > 0 && w > 0) by (nonlinear_arith)
                    requires
                        n == w * self.height,
                        n > 0,
                ;
            }
        }
        while p < n
            invariant
                self.wf(),
                n == self.cells@.len(),
                w == self.width,
                p <= n,
                dist@.len() == p,
                p == r * w + c,
                p < n ==> r < self.height && c < w,
                forall|q: int|
                    0 <= q < p ==> #[trigger] dist@[q] == (if self.cells@[q].outside_spec() {
                        Some(0usize)
                    } else {
                        None::<usize>
                    }),
                forall|t: int|
                    0 <= t < current@.len() ==> {
                        &&& self.in_grid(#[trigger] current@[t].0 as int, current@[t].1 as int)
                        &&& self.idx(current@[t].0 as int, current@[t].1 as int) < p
                        &&& self.cells@[self.idx(
                            current@[t].0 as int,
                            current@[t].1 as int,
                        )].outside_spec()
                    },
                forall|rr: int, cc: int|
                    self.in_grid(rr, cc) && #[trigger] self.idx(rr, cc) < p
                        && self.cells@[self.idx(rr, cc)].outside_spec() ==> current@.contains(
                        (rr as usize, cc as usize),
                    ),
            decreases n - p,
        {
            proof {
                self.lemma_idx(r as int, c as int);
            }
            let ghost before = current@;
            if self.cells[p].is_outside() {
                dist.push(Some(0));
                current.push((r, c));
            } else {
                dist.push(None);
            }
            proof {
                assert forall|rr: int, cc: int|
                    self.in_grid(rr, cc) && #[trigger] self.idx(rr, cc) < p + 1
                        && self.cells@[self.idx(rr, cc)].outside_spec() implies current@.contains(
                    (rr as usize, cc as usize),
                ) by {
                    if self.idx(rr, cc) == p {
                        self.lemma_idx_injective(rr, cc, r as int, c as int);
                        assert(current@[current@.len() - 1] == (r, c));
                    } else {
                        assert(before.contains((rr as usize, cc as usize)));
                        let t = choose|t: int|
                            0 <= t < before.len() && before[t] == (rr as usize, cc as usize);
                        assert(current@[t] == before[t]);
                    }
                }
            }
            p += 1;
            if c + 1 < w {
                c += 1;
            } else {
                proof {
                    let ww = w as int;
                    let rr = r as int;
                    assert((rr + 1) * ww == rr * ww + ww) by (nonlinear_arith);
                    if p < n {
                        assert(rr + 1 < self.height as int) by (nonlinear_arith)
                            requires
                                (rr + 1) * ww < ww * self.height,
                                ww > 0,
                        ;
                    }
                }
                c = 0;
                r += 1;
            }
        }
        assert(self.partial_field(dist@, 0, 0)) by {
            assert forall|rr: int, cc: int| self.in_grid(rr, cc) implies match #[trigger] self.dist_at(
                dist@,
                rr,
                cc,
            ) {
                Some(k) => k <= 0 && self.has_distance(k as nat, rr, cc),
                None => !self.within(0, rr, cc),
            } by {
                self.lemma_idx(rr, cc);
            }
        }
        assert forall|rr: int, cc: int|
            self.in_grid(rr, cc) && #[trigger] self.dist_at(dist@, rr, cc) == Some(0usize)
                implies current@.contains((rr as usize, cc as usize)) by {
            self.lemma_idx(rr, cc);
        }
        assert forall|t: int| 0 <= t < current@.len() implies self.dist_at(
            dist@,
            #[trigger] current@[t].0 as int,
            current@[t].1 as int,
        ) == Some(0usize) by {
            self.lemma_idx(current@[t].0 as int, current@[t].1 as int);
        }
        proof {
            if current@.len() > 0 {
                let q = self.idx(current@[0].0 as int, current@[0].1 as int);
                self.lemma_idx(current@[0].0 as int, current@[0].1 as int);
                lemma_count_none_some(dist@, q);
            }
        }
        let mut d: usize = 0;
        while current.len() > 0
            invariant
                self.wf(),
                n == self.cells@.len(),
                self.partial_field(dist@, d as nat, d as nat),
                forall|t: int|
                    0 <= t < current@.len() ==> self.in_grid(
                        #[trigger] current@[t].0 as int,
                        current@[t].1 as int,
                    ) && self.dist_at(dist@, current@[t].0 as int, current@[t].1 as int) == Some(
                        d,
                    ),
                forall|rr: int, cc: int|
                    self.in_grid(rr, cc) && #[trigger] self.dist_at(dist@, rr, cc) == Some(d)
                        ==> current@.contains((rr as usize, cc as usize)),
                current@.len() > 0 ==> d + count_none(dist@) < n,
            decreases count_none(dist@) + if current@.len() > 0 {
                1int
            } else {
                0int
            },
        {
            let ghost start = dist@;
            let mut next: Vec<(usize, usize)> = Vec::new();
            let mut t: usize = 0;
            while t < current.len()
                invariant
                    self.wf(),
                    n == self.cells@.len(),
                    d + count_none(start) < n,
                    t <= current@.len(),
                    self.partial_field(dist@, (d + 1) as nat, d as nat),
                    forall|i: int|
                        0 <= i < current@.len() ==> self.in_grid(
                            #[trigger] current@[i].0 as int,
                            current@[i].1 as int,
                        ) && self.dist_at(dist@, current@[i].0 as int, current@[i].1 as int)
                            == Some(d),
                    forall|i: int, rr: int, cc: int|
                        0 <= i < t && self.passable(rr, cc) && #[trigger] adjacent(
                            current@[i].0 as int,
                            current@[i].1 as int,
                            rr,
                            cc,
                        ) ==> self.dist_at(dist@, rr, cc) is Some,
                    forall|rr: int, cc: int|
                        self.in_grid(rr, cc) ==> {
                            &&& (self.dist_at(start, rr, cc) is Some ==> #[trigger] self.dist_at(
                                dist@,
                                rr,
                                cc,
                            ) == self.dist_at(start, rr, cc))
                            &&& (self.dist_at(dist@, rr, cc) != self.dist_at(start, rr, cc)
                                ==> self.dist_at(dist@, rr, cc) == Some((d + 1) as usize))
                        },
                    forall|rr: int, cc: int|
                        self.in_grid(rr, cc) && self.dist_at(start, rr, cc) == Some(d)
                            ==> current@.contains((rr as usize, cc as usize)),
                    forall|i: int|
                        0 <= i < next@.len() ==> self.in_grid(
                            #[trigger] next@[i].0 as int,
                            next@[i].1 as int,
                        ) && self.dist_at(dist@, next@[i].0 as int, next@[i].1 as int) == Some(
                            (d + 1) as usize,
                        ),
                    forall|rr: int, cc: int|
                        self.in_grid(rr, cc) && #[trigger] self.dist_at(dist@, rr, cc) == Some(
                            (d + 1) as usize,
                        ) ==> next@.contains((rr as usize, cc as usize)),
                    count_none(dist@) + next@.len() == count_none(start),
                decreases current@.len() - t,
            {
                let (cr, cc) = current[t];
                let nbrs = self.neighbors(cr, cc);
                let mut s: usize = 0;
                while s < nbrs.len()
                    invariant
                        self.wf(),
                        n == self.cells@.len(),
                        d + count_none(start) < n,
                        t < current@.len(),
                        (cr, cc) == current@[t as int],
                        self.in_grid(cr as int, cc as int),
                        self.dist_at(dist@, cr as int, cc as int) == Some(d),
                        forall|k: int|
                            0 <= k < nbrs@.len() ==> {
                                &&& self.in_grid(#[trigger] nbrs@[k].0 as int, nbrs@[k].1 as int)
                                &&& adjacent(
                                    cr as int,
                                    cc as int,
                                    nbrs@[k].0 as int,
                                    nbrs@[k].1 as int,
                                )
                            },
                        forall|k: int|
                            0 <= k < s && self.passable(
                                #[trigger] nbrs@[k].0 as int,
                                nbrs@[k].1 as int,
                            ) ==> self.dist_at(dist@, nbrs@[k].0 as int, nbrs@[k].1 as int) is Some,
                        self.partial_field(dist@, (d + 1) as nat, d as nat),
                        forall|i: int|
                            0 <= i < current@.len() ==> self.in_grid(
                                #[trigger] current@[i].0 as int,
                                current@[i].1 as int,
                            ) && self.dist_at(dist@, current@[i].0 as int, current@[i].1 as int)
                                == Some(d),
                        forall|i: int, rr: int, cc: int|
                            0 <= i < t && self.passable(rr, cc) && #[trigger] adjacent(
                                current@[i].0 as int,
                                current@[i].1 as int,
                                rr,
                                cc,
                            ) ==> self.dist_at(dist@, rr, cc) is Some,
                        forall|rr: int, cc: int|
                            self.in_grid(rr, cc) ==> {
                                &&& (self.dist_at(start, rr, cc) is Some
                                    ==> #[trigger] self.dist_at(dist@, rr, cc) == self.dist_at(
                                    start,
                                    rr,
                                    cc,
                                ))
                                &&& (self.dist_at(dist@, rr, cc) != self.dist_at(start, rr, cc)
                                    ==> self.dist_at(dist@, rr, cc) == Some((d + 1) as usize))
                            },
                        forall|i: int|
                            0 <= i < next@.len() ==> self.in_grid(
                                #[trigger] next@[i].0 as int,
                                next@[i].1 as int,
                            ) && self.dist_at(dist@, next@[i].0 as int, next@[i].1 as int)
                                == Some((d + 1) as usize),
                        forall|rr: int, cc: int|
                            self.in_grid(rr, cc) && #[trigger] self.dist_at(dist@, rr, cc) == Some(
                                (d + 1) as usize,
                            ) ==> next@.contains((rr as usize, cc as usize)),
                        count_none(dist@) + next@.len() == count_none(start),
                    decreases nbrs@.len() - s,
                {
                    let (nr, nc) = nbrs[s];
                    let q = self.index(nr, nc);
                    if self.cells[q].is_passable() && dist[q].is_none() {
                        let ghost before = dist@;
                        let ghost next_before = next@;
                        proof {
                            lemma_count_none_update(dist@, q as int, (d + 1) as usize);
                            lemma_count_none_bound(dist@);
                            self.lemma_within_step(d as nat, nr as int, nc as int, cr as int, cc as int);
                        }
                        dist.set(q, Some(d + 1));
                        next.push((nr, nc));
                        proof {
                            self.lemma_idx(cr as int, cc as int);
                            assert(self.dist_at(before, cr as int, cc as int) == Some(d));
                            assert(self.dist_at(dist@, cr as int, cc as int) == Some(d));
                            assert forall|rr: int, cc2: int| self.in_grid(rr, cc2)
                                && self.idx(rr, cc2) == q implies rr == nr && cc2 == nc by {
                                self.lemma_idx_injective(rr, cc2, nr as int, nc as int);
                            }
                            assert forall|rr: int, cc2: int| self.in_grid(rr, cc2) implies match #[trigger] self.dist_at(
                                dist@,
                                rr,
                                cc2,
                            ) {
                                Some(k) => k <= d + 1 && self.has_distance(k as nat, rr, cc2),
                                None => !self.within(d as nat, rr, cc2),
                            } by {
                                self.lemma_idx(rr, cc2);
                                if self.idx(rr, cc2) == q {
                                    self.lemma_idx_injective(rr, cc2, nr as int, nc as int);
                                } else {
                                    assert(self.dist_at(dist@, rr, cc2) == self.dist_at(before, rr, cc2));
                                }
                            }
                            assert forall|rr: int, cc2: int|
                                self.in_grid(rr, cc2) && self.dist_at(before, rr, cc2) is Some implies #[trigger] self.dist_at(
                                dist@,
                                rr,
                                cc2,
                            ) == self.dist_at(before, rr, cc2) by {
                                self.lemma_idx(rr, cc2);
                            }
                            assert forall|rr: int, cc2: int| self.in_grid(rr, cc2) implies {
                                &&& (self.dist_at(start, rr, cc2) is Some
                                    ==> #[trigger] self.dist_at(dist@, rr, cc2) == self.dist_at(
                                    start,
                                    rr,
                                    cc2,
                                ))
                                &&& (self.dist_at(dist@, rr, cc2) != self.dist_at(start, rr, cc2)
                                    ==> self.dist_at(dist@, rr, cc2) == Some((d + 1) as usize))
                            } by {
                                self.lemma_idx(rr, cc2);
                                assert(self.dist_at(before, rr, cc2) == before[self.idx(rr, cc2)]);
                                if self.idx(rr, cc2) != q {
                                    assert(self.dist_at(dist@, rr, cc2) == self.dist_at(before, rr, cc2));
                                }
                            }
                            assert forall|k: int|
                                0 <= k < s + 1 && self.passable(
                                    #[trigger] nbrs@[k].0 as int,
                                    nbrs@[k].1 as int,
                                ) implies self.dist_at(dist@, nbrs@[k].0 as int, nbrs@[k].1 as int) is Some by {
                                self.lemma_idx(nbrs@[k].0 as int, nbrs@[k].1 as int);
                                if k < s {
                                    assert(self.dist_at(before, nbrs@[k].0 as int, nbrs@[k].1 as int) is Some);
                                }
                            }
                            assert forall|rr: int, cc2: int|
                                self.in_grid(rr, cc2) && #[trigger] self.dist_at(dist@, rr, cc2)
                                    == Some((d + 1) as usize) implies next@.contains(
                                (rr as usize, cc2 as usize),
                            ) by {
                                if self.idx(rr, cc2) == q {
                                    assert(next@[next@.len() - 1] == (nr, nc));
                                } else {
                                    self.lemma_idx(rr, cc2);
                                    assert(self.dist_at(before, rr, cc2) == Some((d + 1) as usize));
                                    assert(next_before.contains((rr as usize, cc2 as usize)));
                                    let i = choose|i: int|
                                        0 <= i < next_before.len() && next_before[i] == (
                                            rr as usize,
                                            cc2 as usize,
                                        );
                                    assert(next@[i] == next_before[i]);
                                }
                            }
                        }
                    }
                    s += 1;
                }
                proof {
                    assert forall|i: int, rr: int, cc2: int|
                        0 <= i < t + 1 && self.passable(rr, cc2) && #[trigger] adjacent(
                            current@[i].0 as int,
                            current@[i].1 as int,
                            rr,
                            cc2,
                        ) implies self.dist_at(dist@, rr, cc2) is Some by {
                        if i == t {
                            assert(nbrs@.contains((rr as usize, cc2 as usize)));
                            let k = choose|k: int|
                                0 <= k < nbrs@.len() && nbrs@[k] == (rr as usize, cc2 as usize);
                            assert(self.passable(nbrs@[k].0 as int, nbrs@[k].1 as int));
                        }
                    }
                }
                t += 1;
            }
            proof {
                assert forall|rr: int, cc2: int|
                    self.in_grid(rr, cc2) && #[trigger] self.dist_at(dist@, rr, cc2) == Some(d)
                        implies current@.contains((rr as usize, cc2 as usize)) by {
                    assert(self.dist_at(start, rr, cc2) == Some(d));
                }
                self.lemma_layer_closed(dist@, current@, d);
                if next@.len() > 0 {
                    assert(d + 1 + count_none(dist@) < n);
                }
            }
            current = next;
            d += 1;
        }
        proof {
            assert forall|rr: int, cc2: int| self.in_grid(rr, cc2) implies #[trigger] self.dist_at(
                dist@,
                rr,
                cc2,
            ) != Some(d) by {
                if self.dist_at(dist@, rr, cc2) == Some(d) {
                    assert(current@.contains((rr as usize, cc2 as usize)));
                }
            }
            assert forall|k: nat, rr: int, cc2: int|
                self.in_grid(rr, cc2) && self.dist_at(dist@, rr, cc2) is None implies !#[trigger] self.within(
                k,
                rr,
                cc2,
            ) by {
                self.lemma_unreached(dist@, d, k);
            }
        }
        dist
    }
}

impl Game {
    /// Adjacent cells that both have a distance differ by at most one.
    pub proof fn lemma_distance_lipschitz(
        self,
        dist: Seq<Option<usize>>,
        r1: int,
        c1: int,
        r2: int,
        c2: int,
    )
        requires
            self.wf(),
            self.field_correct(dist),
            self.in_grid(r1, c1),
            self.in_grid(r2, c2),
            adjacent(r1, c1, r2, c2),
            self.dist_at(dist, r1, c1) is Some,
            self.dist_at(dist, r2, c2) is Some,
        ensures
            self.dist_at(dist, r1, c1).unwrap() - self.dist_at(dist, r2, c2).unwrap() <= 1,
            self.dist_at(dist, r2, c2).unwrap() - self.dist_at(dist, r1, c1).unwrap() <= 1,
    {
        let d1 = self.dist_at(dist, r1, c1).unwrap() as nat;
        let d2 = self.dist_at(dist, r2, c2).unwrap() as nat;
        self.lemma_within_in_grid(d1, r1, c1);
        self.lemma_within_in_grid(d2, r2, c2);
        self.lemma_within_step(d1, r2, c2, r1, c1);
        self.lemma_within_step(d2, r1, c1, r2, c2);
        if d2 > d1 + 1 {
            self.lemma_within_mono(d1 + 1, (d2 - 1) as nat, r2, c2);
        }
        if d1 > d2 + 1 {
            self.lemma_within_mono(d2 + 1, (d1 - 1) as nat, r1, c1);
        }
    }
}

impl Game {
    /// Outside cells are at distance zero, and only they are.
    pub proof fn lemma_seeds_at_zero(self, dist: Seq<Option<usize>>, r: int, c: int)
        requires
            self.wf(),
            self.field_correct(dist),
            self.in_grid(r, c),
        ensures
            self.outside(r, c) <==> self.dist_at(dist, r, c) == Some(0usize),
    {
        if self.outside(r, c) {
            assert(self.within(0, r, c));
            if let Some(d) = self.dist_at(dist, r, c) {
                if d > 0 {
                    self.lemma_within_mono(0, (d - 1) as nat, r, c);
                }
            }
        }
    }
}

} // verus!
