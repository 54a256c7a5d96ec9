//! The particle collection, split into partitions of `PARTICLES_PER_THREAD`
//! particles, and the tick-level passes over it.
use vstd::prelude::*;
use crate::config::{INITIAL_SPEED, PARTICLES_PER_THREAD, SCALE, TOP_Y};
use crate::arith::abs;
use crate::particle::{
    Particle, all_wf, cool, floor_hits, merge_window, step_result, collision_range,
    kinematics_range, thermal_range, lemma_floor_hits_concat, motion_facts, lemma_motion_facts,
    gains_only, lemma_rows_gains, agree_on, lemma_window_local,
};

verus! {

/// End of partition `c` when partitions hold `size` particles out of `n`.
pub open spec fn chunk_end(c: int, size: int, n: int) -> int {
    if (c + 1) * size <= n {
        (c + 1) * size
    } else {
        n
    }
}

/// Number of partitions of `size` particles that cover `n` particles.
pub open spec fn chunk_count(n: int, size: int) -> nat {
    ((n + size - 1) / size) as nat
}

/// `s` after merge passes over its first `c` partitions, one after another.
pub open spec fn merge_chunks(s: Seq<Particle>, c: nat, size: int) -> Seq<Particle>
    decreases c,
{
    if c == 0 {
        s
    } else {
        let t = merge_chunks(s, (c - 1) as nat, size);
        merge_window(t, (c - 1) * size, chunk_end(c - 1, size, s.len() as int))
    }
}

/// `s` after a merge pass over each of its partitions.
pub open spec fn partition_merge(s: Seq<Particle>) -> Seq<Particle> {
    merge_chunks(s, chunk_count(s.len() as int, PARTICLES_PER_THREAD as int), PARTICLES_PER_THREAD as int)
}


/// Start of partition `c`, or `n` past the last one.
pub open spec fn chunk_start(c: int, size: int, n: int) -> int {
    if c * size <= n {
        c * size
    } else {
        n
    }
}

/// `s` with thermal decay over `dt` applied to the indices `[lo, hi)`.
pub open spec fn cool_window(s: Seq<Particle>, lo: int, hi: int, dt: int) -> Seq<Particle> {
    Seq::new(s.len(), |k: int| if lo <= k < hi { cool(s[k], dt) } else { s[k] })
}

/// `s` after its first `c` partitions have each been merged and then cooled.
pub open spec fn batch_chunks(s: Seq<Particle>, c: nat, size: int, dt: int) -> Seq<Particle>
    decreases c,
{
    if c == 0 {
        s
    } else {
        let t = batch_chunks(s, (c - 1) as nat, size, dt);
        let lo = (c - 1) * size;
        let hi = chunk_end(c - 1, size, s.len() as int);
        cool_window(merge_window(t, lo, hi), lo, hi, dt)
    }
}

/// The rest of a batch-mode tick once motion has produced `mid`.
pub open spec fn batch_rest(mid: Seq<Particle>, dt: int) -> Seq<Particle> {
    batch_chunks(mid, chunk_count(mid.len() as int, PARTICLES_PER_THREAD as int), PARTICLES_PER_THREAD as int, dt)
}

/// `mid` is `s` after one tick of motion of every particle.
pub open spec fn all_moved(s: Seq<Particle>, mid: Seq<Particle>) -> bool {
    &&& mid.len() == s.len()
    &&& forall|k: int| 0 <= k < s.len() ==> step_result(s[k], #[trigger] mid[k])
}

/// Processing the first `c` partitions changes nothing from their end on, and
/// what it leaves before that end depends only on the particles there.
pub proof fn lemma_batch_prefix(a: Seq<Particle>, b: Seq<Particle>, c: nat, size: int, dt: int)
    requires
        size > 0,
        a.len() == b.len(),
        agree_on(a, b, 0, chunk_start(c as int, size, a.len() as int)),
    ensures
        batch_chunks(a, c, size, dt).len() == a.len(),
        agree_on(batch_chunks(a, c, size, dt), batch_chunks(b, c, size, dt), 0, chunk_start(c as int, size, a.len() as int)),
        agree_on(batch_chunks(a, c, size, dt), a, chunk_start(c as int, size, a.len() as int), a.len() as int),
    decreases c,
{
    if c > 0 {
        let n = a.len() as int;
        let lo = (c - 1) * size;
        let hi = chunk_end(c - 1, size, n);
        let prev = chunk_start(c - 1, size, n);
        let cur = chunk_start(c as int, size, n);
        assert(prev <= cur) by (nonlinear_arith)
            requires size > 0, c >= 1, prev == chunk_start(c - 1, size, n), cur == chunk_start(c as int, size, n);
        assert(agree_on(a, b, 0, prev));
        lemma_batch_prefix(a, b, (c - 1) as nat, size, dt);
        lemma_batch_prefix(b, a, (c - 1) as nat, size, dt);
        let ta = batch_chunks(a, (c - 1) as nat, size, dt);
        let tb = batch_chunks(b, (c - 1) as nat, size, dt);
        if lo < n {
            assert(prev == lo);
            assert(hi == cur);
            lemma_window_local(ta, tb, lo, hi);
            lemma_window_local(tb, ta, lo, hi);
        } else {
            assert(prev == n);
            assert(merge_window(ta, lo, hi) == ta);
            assert(merge_window(tb, lo, hi) == tb);
        }
    }
}


/// Lateral positions of the start-up grid: nine columns from -0.4 to 0.4.
pub open spec fn grid_coord(i: int) -> int {
    -400_000 + 100_000 * i
}

/// The start-up particle of column `i` and row `j`: at `0.2 x` on the top
/// line, with drift `0.006 y + 0.02 x` for the grid point `(x, y)`.
pub open spec fn grid_particle(i: int, j: int) -> Particle {
    let d = grid_coord(j) * 6 / 1000 + grid_coord(i) * 2 / 100;
    Particle {
        x: (grid_coord(i) * 2 / 10) as i64,
        y: TOP_Y,
        v: INITIAL_SPEED,
        d: d as i64,
        d_abs: abs(d) as i64,
        m: SCALE,
        t: SCALE,
    }
}

/// The collection of particles that the simulation owns. Its length changes
/// only when a particle is added; the passes update particles in place.
pub struct ParticleSystem {
    particles: Vec<Particle>,
}

impl View for ParticleSystem {
    type V = Seq<Particle>;

    closed spec fn view(&self) -> Seq<Particle> {
        self.particles@
    }
}

impl ParticleSystem {
    /// Every particle is well formed.
    pub open spec fn wf(&self) -> bool {
        all_wf(self@)
    }

    pub fn new() -> (r: ParticleSystem)
        ensures
            r@ == Seq::<Particle>::empty(),
            r.wf(),
    {
        ParticleSystem { particles: Vec::new() }
    }

    /// Adds `p` after the particles already held.
    pub fn push(&mut self, p: Particle)
        requires
            old(self).wf(),
            p.wf(),
        ensures
            final(self)@ == old(self)@.push(p),
            final(self).wf(),
    {
        self.particles.push(p);
        proof {
            assert(self@ == old(self)@.push(p));
        }
    }

    /// Number of particles.
    pub fn len(&self) -> (r: usize)
        ensures
            r == self@.len(),
    {
        self.particles.len()
    }

    /// The particles, in order, for reading.
    pub fn particles(&self) -> (r: &[Particle])
        ensures
            r@ == self@,
    {
        self.particles.as_slice()
    }

    /// Interactive-mode motion pass: one tick of motion over every partition;
    /// returns the floor hits summed over the partitions.
    pub fn move_particle_basic(&mut self) -> (count: u32)
        requires
            old(self).wf(),
            old(self)@.len() <= u32::MAX,
        ensures
            final(self).wf(),
            final(self)@.len() == old(self)@.len(),
            forall|k: int| 0 <= k < old(self)@.len() ==> step_result(old(self)@[k], #[trigger] final(self)@[k]),
            forall|k: int| 0 <= k < old(self)@.len() ==> motion_facts(old(self)@[k], #[trigger] final(self)@[k]),
            count == floor_hits(old(self)@),
    {
        let ghost s0 = self@;
        let n = self.particles.len();
        let list = self.particles.as_mut_slice();
        let mut lo: usize = 0;
        let mut count: u32 = 0;
        while lo < n
            invariant
                lo <= n == list@.len() == s0.len(),
                n <= u32::MAX,
                all_wf(list@),
                forall|k: int| 0 <= k < lo ==> step_result(s0[k], #[trigger] list@[k]),
                forall|k: int| lo <= k < n ==> #[trigger] list@[k] == s0[k],
                count == floor_hits(s0.subrange(0, lo as int)),
                count <= lo,
            decreases n - lo,
        {
            let hi = if n - lo > PARTICLES_PER_THREAD {
                lo + PARTICLES_PER_THREAD
            } else {
                n
            };
            let ghost before = list@;
            let c = kinematics_range(list, lo, hi);
            proof {
                assert(before.subrange(lo as int, hi as int) =~= s0.subrange(lo as int, hi as int));
                lemma_floor_hits_concat(s0.subrange(0, lo as int), s0.subrange(lo as int, hi as int));
                assert(s0.subrange(0, lo as int) + s0.subrange(lo as int, hi as int) =~= s0.subrange(0, hi as int));
                assert forall|k: int| 0 <= k < hi implies step_result(s0[k], #[trigger] list@[k]) by {
                    if k < lo {
                        assert(list@[k] == before[k]);
                    }
                }
            }
            count = count + c;
            lo = hi;
        }
        proof {
            assert(s0.subrange(0, n as int) =~= s0);
            assert forall|k: int| 0 <= k < s0.len() implies motion_facts(s0[k], #[trigger] list@[k]) by {
                lemma_motion_facts(s0[k], list@[k]);
            }
        }
        count
    }

    /// Interactive-mode merge pass: a merge pass over each partition, which
    /// never merges particles of two different partitions.
    pub fn collide_particle(&mut self)
        requires
            old(self).wf(),
        ensures
            final(self).wf(),
            final(self)@ == partition_merge(old(self)@),
            gains_only(old(self)@, final(self)@),
    {
        let ghost s0 = self@;
        let n = self.particles.len();
        let list = self.particles.as_mut_slice();
        let mut lo: usize = 0;
        let mut c: usize = 0;
        while lo < n
            invariant
                n == list@.len() == s0.len(),
                lo == (if c * PARTICLES_PER_THREAD <= n { c * PARTICLES_PER_THREAD } else { n as int }),
                c == 0 || (c - 1) * PARTICLES_PER_THREAD < n,
                c <= lo,
                all_wf(list@),
                list@ == merge_chunks(s0, c as nat, PARTICLES_PER_THREAD as int),
                gains_only(s0, list@),
            decreases n - lo,
        {
            let hi = if n - lo > PARTICLES_PER_THREAD {
                lo + PARTICLES_PER_THREAD
            } else {
                n
            };
            assert(hi == chunk_end(c as int, PARTICLES_PER_THREAD as int, n as int));
            let ghost before = list@;
            collision_range(list, lo, hi);
            assert forall|k: int| 0 <= k < s0.len() implies #[trigger] list@[k].m >= s0[k].m
                && list@[k].t == s0[k].t && list@[k].x == s0[k].x && list@[k].d == s0[k].d
                && list@[k].d_abs == s0[k].d_abs by {
                assert(list@[k].m >= before[k].m);
            }
            c = c + 1;
            lo = hi;
        }
        proof {
            let k = PARTICLES_PER_THREAD as int;
            if n > 0 {
                assert(c == (n + k - 1) / k) by (nonlinear_arith)
                    requires c * k >= n, (c - 1) * k < n, k == 25, n > 0;
            } else {
                assert(c == 0);
            }
        }
    }

    /// Interactive-mode cooling pass: thermal decay over `delta_t`
    /// microseconds for every particle, partition by partition.
    pub fn temp_particle(&mut self, delta_t: i64)
        requires
            old(self).wf(),
        ensures
            final(self).wf(),
            final(self)@.len() == old(self)@.len(),
            forall|k: int| 0 <= k < old(self)@.len() ==> #[trigger] final(self)@[k] == cool(old(self)@[k], delta_t as int),
    {
        let ghost s0 = self@;
        let n = self.particles.len();
        let list = self.particles.as_mut_slice();
        let mut lo: usize = 0;
        while lo < n
            invariant
                lo <= n == list@.len() == s0.len(),
                all_wf(list@),
                forall|k: int| 0 <= k < lo ==> #[trigger] list@[k] == cool(s0[k], delta_t as int),
                forall|k: int| lo <= k < n ==> #[trigger] list@[k] == s0[k],
            decreases n - lo,
        {
            let hi = if n - lo > PARTICLES_PER_THREAD {
                lo + PARTICLES_PER_THREAD
            } else {
                n
            };
            let ghost before = list@;
            thermal_range(list, lo, hi, delta_t);
            assert forall|k: int| 0 <= k < lo implies #[trigger] list@[k] == cool(s0[k], delta_t as int) by {
                assert(list@[k] == before[k]);
            }
            lo = hi;
        }
    }
    /// Batch-mode tick: each partition in turn runs one tick of motion, a
    /// merge pass and thermal decay over `delta_t` microseconds; returns the
    /// floor hits summed over the partitions.
    pub fn move_particle(&mut self, delta_t: i64) -> (count: u32)
        requires
            old(self).wf(),
            old(self)@.len() <= u32::MAX,
        ensures
            final(self).wf(),
            final(self)@.len() == old(self)@.len(),
            forall|k: int| 0 <= k < final(self)@.len() ==> 0 <= #[trigger] final(self)@[k].t <= SCALE
                && final(self)@[k].m >= SCALE,
            exists|mid: Seq<Particle>| #[trigger] all_moved(old(self)@, mid)
                && final(self)@ == batch_rest(mid, delta_t as int),
            count == floor_hits(old(self)@),
    {
        let ghost s0 = self@;
        let ghost size = PARTICLES_PER_THREAD as int;
        let n = self.particles.len();
        let list = self.particles.as_mut_slice();
        let mut lo: usize = 0;
        let mut c: usize = 0;
        let mut count: u32 = 0;
        let ghost mut mid = s0;
        while lo < n
            invariant
                n == list@.len() == s0.len() == mid.len(),
                n <= u32::MAX,
                size == 25,
                lo == chunk_start(c as int, size, n as int),
                c == 0 || (c - 1) * size < n,
                c <= lo,
                all_wf(list@),
                forall|k: int| 0 <= k < lo ==> step_result(s0[k], #[trigger] mid[k]),
                forall|k: int| lo <= k < n ==> #[trigger] mid[k] == s0[k],
                list@ == batch_chunks(mid, c as nat, size, delta_t as int),
                count == floor_hits(s0.subrange(0, lo as int)),
                count <= lo,
            decreases n - lo,
        {
            let hi = if n - lo > PARTICLES_PER_THREAD {
                lo + PARTICLES_PER_THREAD
            } else {
                n
            };
            assert(hi == chunk_end(c as int, size, n as int));
            proof {
                lemma_batch_prefix(mid, mid, c as nat, size, delta_t as int);
            }
            let ghost before = list@;
            let k = kinematics_range(list, lo, hi);
            let ghost moved_list = list@;
            let ghost next_mid = Seq::new(n as nat, |q: int| if lo <= q < hi { moved_list[q] } else { mid[q] });
            proof {
                assert(before.subrange(lo as int, hi as int) =~= s0.subrange(lo as int, hi as int));
                lemma_floor_hits_concat(s0.subrange(0, lo as int), s0.subrange(lo as int, hi as int));
                assert(s0.subrange(0, lo as int) + s0.subrange(lo as int, hi as int) =~= s0.subrange(0, hi as int));
                lemma_batch_prefix(next_mid, mid, c as nat, size, delta_t as int);
                assert(moved_list =~= batch_chunks(next_mid, c as nat, size, delta_t as int));
                mid = next_mid;
            }
            collision_range(list, lo, hi);
            thermal_range(list, lo, hi, delta_t);
            proof {
                assert(list@ =~= batch_chunks(mid, (c + 1) as nat, size, delta_t as int));
            }
            count = count + k;
            c = c + 1;
            lo = hi;
        }
        proof {
            let k = PARTICLES_PER_THREAD as int;
            if n > 0 {
                assert(c == (n + k - 1) / k) by (nonlinear_arith)
                    requires c * k >= n, (c - 1) * k < n, k == 25, n > 0;
            } else {
                assert(c == 0);
            }
            assert(s0.subrange(0, n as int) =~= s0);
            assert(all_moved(s0, mid));
            assert forall|k: int| 0 <= k < list@.len() implies 0 <= #[trigger] list@[k].t <= SCALE
                && list@[k].m >= SCALE by {
                assert(list@[k].wf());
            }
        }
        count
    }
    /// A system holding `particles`, in order, if every one is well formed.
    pub fn from_particles(particles: Vec<Particle>) -> (r: Option<ParticleSystem>)
        ensures
            r.is_some() <==> all_wf(particles@),
            r matches Some(sys) ==> sys@ == particles@,
    {
        let mut k: usize = 0;
        while k < particles.len()
            invariant
                k <= particles@.len(),
                forall|q: int| 0 <= q < k ==> #[trigger] particles@[q].wf(),
            decreases particles@.len() - k,
        {
            if !particles[k].in_range() {
                return None;
            }
            k = k + 1;
        }
        Some(ParticleSystem { particles })
    }

    /// The particles, in order, handed over by value.
    pub fn into_particles(self) -> (r: Vec<Particle>)
        ensures
            r@ == self@,
    {
        self.particles
    }

    /// The start-up collection: `layers` copies of a nine-by-nine grid, each
    /// laid out column by column.
    pub fn seeded(layers: usize) -> (r: ParticleSystem)
        requires
            layers * 81 <= usize::MAX,
        ensures
            r.wf(),
            r@.len() == layers * 81,
            forall|k: int| 0 <= k < r@.len() ==> #[trigger] r@[k] == grid_particle((k % 81) / 9, k % 9),
    {
        let mut particles: Vec<Particle> = Vec::new();
        let mut z: usize = 0;
        while z < layers
            invariant
                z <= layers,
                layers * 81 <= usize::MAX,
                particles@.len() == z * 81,
                all_wf(particles@),
                forall|k: int| 0 <= k < particles@.len() ==> #[trigger] particles@[k] == grid_particle((k % 81) / 9, k % 9),
            decreases layers - z,
        {
            let mut i: i64 = 0;
            while i < 9
                invariant
                    0 <= i <= 9,
                    z < layers,
                    layers * 81 <= usize::MAX,
                    particles@.len() == z * 81 + i * 9,
                    all_wf(particles@),
                    forall|k: int| 0 <= k < particles@.len() ==> #[trigger] particles@[k] == grid_particle((k % 81) / 9, k % 9),
                decreases 9 - i,
            {
                let mut j: i64 = 0;
                while j < 9
                    invariant
                        0 <= i < 9,
                        0 <= j <= 9,
                        z < layers,
                        layers * 81 <= usize::MAX,
                        particles@.len() == z * 81 + i * 9 + j,
                        all_wf(particles@),
                        forall|k: int| 0 <= k < particles@.len() ==> #[trigger] particles@[k] == grid_particle((k % 81) / 9, k % 9),
                    decreases 9 - j,
                {
                    let x = -400_000 + 100_000 * i;
                    let y = -400_000 + 100_000 * j;
                    let d = y * 6 / 1000 + x * 2 / 100;
                    let p = Particle::new(x * 2 / 10, TOP_Y, INITIAL_SPEED, d, SCALE, SCALE);
                    proof {
                        let k = z * 81 + i * 9 + j;
                        assert(k % 81 == i * 9 + j && (k % 81) / 9 == i && k % 9 == j) by (nonlinear_arith)
                            requires k == z * 81 + i * 9 + j, 0 <= i < 9, 0 <= j < 9, z >= 0;
                    }
                    particles.push(p);
                    j = j + 1;
                }
                i = i + 1;
            }
            z = z + 1;
        }
        ParticleSystem { particles }
    }
}

} // verus!
