use vstd::prelude::*;
use rand::rngs::StdRng;
use crate::actions::Action;
use crate::grid::Game;

verus! {

impl Game {
    /// All orders of the turn: the move orders of every unit stack of ours,
    /// steered by the distance field, then the spawns drawn from `rng`.
    pub fn compute_actions(&self, rng: &mut StdRng) -> (actions: Vec<Action>)
        requires
            self.wf(),
        ensures
            exists|f: Seq<Option<usize>>, s: Seq<Action>|
                {
                    &&& self.field_correct(f)
                    &&& self.spawns_ok(s)
                    &&& actions@ == self.grid_moves(f, self.height as int) + s
                },
    {
        let dist = self.distance_field();
        let mut actions = self.plan_moves(&dist);
        let ghost moves = actions@;
        let mut spawns = self.plan_spawns(rng);
        let ghost s = spawns@;
        actions.append(&mut spawns);
        assert(self.field_correct(dist@) && self.spawns_ok(s) && actions@ == self.grid_moves(
            dist@,
            self.height as int,
        ) + s);
        actions
    }
}

} // verus!
