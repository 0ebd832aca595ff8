//! The schedule of the iterative collision pass: which particles take part in
//! each iteration, when their candidate lists are refreshed, and when the pass
//! stops. The pairwise position corrections themselves are the caller's.
use vstd::prelude::*;

verus! {

/// The pass stops once fewer than this many particles came to rest in an iteration.
pub const MIN_SETTLED: usize = 10;

/// The particles of `active` whose collision count is positive, in order.
pub open spec fn colliding(active: Seq<usize>, n_collisions: Seq<u32>) -> Seq<usize>
    decreases active.len(),
{
    if active.len() == 0 {
        seq![]
    } else {
        let i = active.last();
        colliding(active.drop_last(), n_collisions) + (if n_collisions[i as int] > 0 { seq![i] } else { seq![] })
    }
}

/// State of one collision pass.
pub struct CollisionPass {
    /// Largest number of iterations.
    pub n_collision_steps: u32,
    /// Iterations between refreshes of the candidate lists.
    pub n_update_cache_steps: u32,
    /// Iterations done so far; `n_collision_steps` once the pass has stopped.
    pub step: u32,
    /// The particles that take part in the next iteration.
    pub active: Vec<usize>,
}

impl CollisionPass {
    /// A pass over particles `0..n_particles`, none of its iterations done.
    pub fn new(n_particles: usize, n_collision_steps: u32, n_update_cache_steps: u32) -> (r: CollisionPass)
        requires
            n_update_cache_steps > 0,
        ensures
            r.active@ == Seq::new(n_particles as nat, |i: int| i as usize),
            r.step == 0,
            r.n_collision_steps == n_collision_steps,
            r.n_update_cache_steps == n_update_cache_steps,
    {
        let mut active: Vec<usize> = Vec::new();
        let mut i: usize = 0;
        while i < n_particles
            invariant
                i <= n_particles,
                active@ == Seq::new(i as nat, |j: int| j as usize),
            decreases n_particles - i,
        {
            active.push(i);
            i += 1;
        }
        CollisionPass { n_collision_steps, n_update_cache_steps, step: 0, active }
    }

    /// Whether another iteration is due.
    pub fn is_running(&self) -> (r: bool)
        ensures
            r == (self.step < self.n_collision_steps),
    {
        self.step < self.n_collision_steps
    }

    /// Whether the candidate lists of the active particles are to be rebuilt before
    /// this iteration.
    pub fn refresh_due(&self) -> (r: bool)
        requires
            self.n_update_cache_steps > 0,
        ensures
            r == (self.step % self.n_update_cache_steps == 0),
    {
        self.step % self.n_update_cache_steps == 0
    }

    /// Ends an iteration in which particle `i` took part in `n_collisions[i]`
    /// collisions. The particles that collided stay active; when fewer than
    /// `MIN_SETTLED` came to rest the pass stops instead.
    pub fn finish_iteration(&mut self, n_collisions: &Vec<u32>)
        requires
            old(self).step < old(self).n_collision_steps,
            forall|k: int| 0 <= k < old(self).active@.len() ==> #[trigger] old(self).active@[k] < n_collisions@.len(),
        ensures
            final(self).n_collision_steps == old(self).n_collision_steps,
            final(self).n_update_cache_steps == old(self).n_update_cache_steps,
            ({
                let next = colliding(old(self).active@, n_collisions@);
                if old(self).active@.len() - next.len() < MIN_SETTLED {
                    final(self).step == old(self).n_collision_steps && final(self).active@ == old(self).active@
                } else {
                    final(self).step == old(self).step + 1 && final(self).active@ == next
                }
            }),
    {
        let mut next: Vec<usize> = Vec::new();
        let mut k: usize = 0;
        while k < self.active.len()
            invariant
                k <= self.active@.len(),
                forall|j: int| 0 <= j < self.active@.len() ==> #[trigger] self.active@[j] < n_collisions@.len(),
                next@ == colliding(self.active@.subrange(0, k as int), n_collisions@),
                next@.len() <= k,
            decreases self.active@.len() - k,
        {
            let i = self.active[k];
            proof {
                let s = self.active@.subrange(0, k as int + 1);
                assert(s.drop_last() =~= self.active@.subrange(0, k as int));
                assert(s.last() == i);
            }
            if n_collisions[i] > 0 {
                next.push(i);
            }
            k += 1;
        }
        proof {
            assert(self.active@.subrange(0, self.active@.len() as int) =~= self.active@);
        }
        if self.active.len() - next.len() < MIN_SETTLED {
            self.step = self.n_collision_steps;
        } else {
            self.active = next;
            self.step = self.step + 1;
        }
    }
}

} // verus!
