//! A single particle and the per-partition steps: kinematics, merging and
//! cooling.
use vstd::prelude::*;
use crate::arith::{abs, tdiv, abs_i64, tdiv_i64, tdiv_i128};
use crate::config::{
    COLLISION_DISTANCE, COORD_LIMIT, COOL_DEN, COOL_NUM, DRAW_HI, DRAW_LO, FLOOR_Y, GRAVITY,
    HIT_ABOVE_Y, INERT_Y, INITIAL_SPEED, MASS_CAP, SCALE, TOP_Y, WALL,
};
use crate::rng::draw_in;

verus! {

/// A point mass: position `(x, y)`, vertical speed `v`, lateral drift `d`
/// with its magnitude `d_abs`, mass `m` and temperature `t`.
#[derive(Debug, Clone, Copy, PartialEq, Eq, Structural)]
pub struct Particle {
    pub x: i64,
    pub y: i64,
    pub v: i64,
    pub d: i64,
    pub d_abs: i64,
    pub m: i64,
    pub t: i64,
}

/// Whether `b` lies in the square window of half-width `COLLISION_DISTANCE`
/// around `a`.
pub open spec fn near(a: Particle, b: Particle) -> bool {
    &&& a.x - COLLISION_DISTANCE <= b.x <= a.x + COLLISION_DISTANCE
    &&& a.y - COLLISION_DISTANCE <= b.y <= a.y + COLLISION_DISTANCE
}

/// Lateral position after one tick.
pub open spec fn next_x(p: Particle) -> int {
    if -WALL < p.x + p.d < WALL {
        p.x + p.d
    } else {
        p.x as int
    }
}

/// Lateral drift after one tick: kept while the particle stays between the
/// walls, else reversed and damped by `d - 1.8 d`.
pub open spec fn next_d(p: Particle) -> int {
    if -WALL < p.x + p.d < WALL {
        p.d as int
    } else {
        p.d - tdiv(p.d * 18, 10)
    }
}

/// Vertical speed after gravity.
pub open spec fn next_v(p: Particle) -> int {
    p.v - GRAVITY
}

/// Vertical displacement of one tick: the speed, less a drag of a tenth of
/// the drift's magnitude.
pub open spec fn fall(p: Particle) -> int {
    next_v(p) - abs(next_d(p)) / 10
}

/// The particle crosses the floor on its next tick and respawns.
pub open spec fn recycles(p: Particle) -> bool {
    p.y + fall(p) <= FLOOR_Y
}

/// The particle respawns on its next tick and counts as a floor hit.
pub open spec fn hits_floor(p: Particle) -> bool {
    recycles(p) && p.y > HIT_ABOVE_Y
}

/// A particle respawned at the top with the drawn offset `r`.
pub open spec fn respawned(r: int) -> Particle {
    Particle {
        x: tdiv(r * 3, 10) as i64,
        y: TOP_Y,
        v: INITIAL_SPEED,
        d: tdiv(r * 25, 1000) as i64,
        d_abs: abs(tdiv(r * 25, 1000)) as i64,
        m: SCALE,
        t: SCALE,
    }
}

/// The particle after one tick of motion, where `r` is the offset drawn if
/// it respawns.
pub open spec fn moved(p: Particle, r: int) -> Particle {
    if recycles(p) {
        respawned(r)
    } else {
        Particle {
            x: next_x(p) as i64,
            y: (p.y + fall(p)) as i64,
            v: next_v(p) as i64,
            d: next_d(p) as i64,
            d_abs: abs(next_d(p)) as i64,
            ..p
        }
    }
}

/// `n` is `p` after one tick of motion, for some admissible drawn offset.
pub open spec fn step_result(p: Particle, n: Particle) -> bool {
    exists|r: int| DRAW_LO <= r < DRAW_HI && n == #[trigger] moved(p, r)
}


/// `a` and `b` hold the same particles at the indices `[lo, hi)`.
pub open spec fn agree_on(a: Seq<Particle>, b: Seq<Particle>, lo: int, hi: int) -> bool {
    forall|k: int| #![trigger a[k]] #![trigger b[k]] lo <= k < hi ==> a[k] == b[k]
}

/// `a` and `b` have one length and hold the same particles outside `[lo, hi)`.
pub open spec fn same_outside(a: Seq<Particle>, b: Seq<Particle>, lo: int, hi: int) -> bool {
    &&& a.len() == b.len()
    &&& forall|k: int| 0 <= k < a.len() && !(lo <= k < hi) ==> #[trigger] a[k] == b[k]
}

pub proof fn lemma_row_frame(s0: Seq<Particle>, s: Seq<Particle>, lo: int, i: int, j: int, hi: int)
    requires
        s0.len() == s.len(),
        0 <= lo <= i < j <= hi + 1,
        hi <= s.len(),
    ensures
        same_outside(merge_row(s0, s, i, j, hi), s, lo, hi),
    decreases hi - j,
{
    if j < hi {
        lemma_row_frame(s0, pair_step(s0, s, i, j), lo, i, j + 1, hi);
    }
}

pub proof fn lemma_rows_frame(s0: Seq<Particle>, s: Seq<Particle>, lo: int, i: int, hi: int)
    requires
        s0.len() == s.len(),
        0 <= lo <= i,
        hi <= s.len(),
    ensures
        same_outside(merge_rows(s0, s, i, hi), s, lo, hi),
    decreases hi - i,
{
    if i < hi {
        lemma_row_frame(s0, s, lo, i, i + 1, hi);
        lemma_rows_frame(s0, merge_row(s0, s, i, i + 1, hi), lo, i + 1, hi);
    }
}

pub proof fn lemma_row_local(
    s0a: Seq<Particle>,
    sa: Seq<Particle>,
    s0b: Seq<Particle>,
    sb: Seq<Particle>,
    lo: int,
    i: int,
    j: int,
    hi: int,
)
    requires
        s0a.len() == sa.len(),
        s0b.len() == sb.len(),
        0 <= lo <= i < j <= hi + 1,
        hi <= sa.len(),
        hi <= sb.len(),
        agree_on(s0a, s0b, lo, hi),
        agree_on(sa, sb, lo, hi),
    ensures
        agree_on(merge_row(s0a, sa, i, j, hi), merge_row(s0b, sb, i, j, hi), lo, hi),
    decreases hi - j,
{
    if j < hi {
        assert(s0a[i] == s0b[i] && s0a[j] == s0b[j]);
        assert(sa[i] == sb[i] && sa[j] == sb[j]);
        lemma_row_local(s0a, pair_step(s0a, sa, i, j), s0b, pair_step(s0b, sb, i, j), lo, i, j + 1, hi);
    }
}

pub proof fn lemma_rows_local(
    s0a: Seq<Particle>,
    sa: Seq<Particle>,
    s0b: Seq<Particle>,
    sb: Seq<Particle>,
    lo: int,
    i: int,
    hi: int,
)
    requires
        s0a.len() == sa.len(),
        s0b.len() == sb.len(),
        0 <= lo <= i,
        hi <= sa.len(),
        hi <= sb.len(),
        agree_on(s0a, s0b, lo, hi),
        agree_on(sa, sb, lo, hi),
    ensures
        agree_on(merge_rows(s0a, sa, i, hi), merge_rows(s0b, sb, i, hi), lo, hi),
    decreases hi - i,
{
    if i < hi {
        lemma_row_local(s0a, sa, s0b, sb, lo, i, i + 1, hi);
        lemma_row_frame(s0a, sa, lo, i, i + 1, hi);
        lemma_row_frame(s0b, sb, lo, i, i + 1, hi);
        lemma_rows_local(
            s0a,
            merge_row(s0a, sa, i, i + 1, hi),
            s0b,
            merge_row(s0b, sb, i, i + 1, hi),
            lo,
            i + 1,
            hi,
        );
    }
}

/// A merge pass over `[lo, hi)` leaves every other particle as it was, and
/// what it leaves in `[lo, hi)` depends on nothing outside `[lo, hi)`.
pub proof fn lemma_window_local(a: Seq<Particle>, b: Seq<Particle>, lo: int, hi: int)
    requires
        0 <= lo <= hi,
        hi <= a.len(),
        hi <= b.len(),
        agree_on(a, b, lo, hi),
    ensures
        same_outside(merge_window(a, lo, hi), a, lo, hi),
        agree_on(merge_window(a, lo, hi), merge_window(b, lo, hi), lo, hi),
{
    lemma_rows_frame(a, a, lo, lo, hi);
    lemma_rows_local(a, a, b, b, lo, lo, hi);
}


/// `b` is `a` with some masses raised: same length, and each particle keeps
/// its temperature, lateral position and drift, and has at least its mass.
pub open spec fn gains_only(a: Seq<Particle>, b: Seq<Particle>) -> bool {
    &&& a.len() == b.len()
    &&& forall|k: int| 0 <= k < a.len() ==> {
        &&& #[trigger] b[k].m >= a[k].m
        &&& b[k].t == a[k].t
        &&& b[k].x == a[k].x
        &&& b[k].d == a[k].d
        &&& b[k].d_abs == a[k].d_abs
    }
}

pub proof fn lemma_row_gains(s0: Seq<Particle>, s: Seq<Particle>, i: int, j: int, hi: int)
    requires
        s0.len() == s.len(),
        0 <= i < j <= hi + 1,
        hi <= s.len(),
        all_wf(s),
    ensures
        all_wf(merge_row(s0, s, i, j, hi)),
        gains_only(s, merge_row(s0, s, i, j, hi)),
    decreases hi - j,
{
    if j < hi {
        lemma_absorb_wf(s[i], s[j]);
        let t = pair_step(s0, s, i, j);
        lemma_row_gains(s0, t, i, j + 1, hi);
        assert(gains_only(s, t));
    }
}

pub proof fn lemma_rows_gains(s0: Seq<Particle>, s: Seq<Particle>, i: int, hi: int)
    requires
        s0.len() == s.len(),
        0 <= i,
        hi <= s.len(),
        all_wf(s),
    ensures
        all_wf(merge_rows(s0, s, i, hi)),
        gains_only(s, merge_rows(s0, s, i, hi)),
    decreases hi - i,
{
    if i < hi {
        lemma_row_gains(s0, s, i, i + 1, hi);
        lemma_rows_gains(s0, merge_row(s0, s, i, i + 1, hi), i + 1, hi);
    } else {
        assert(gains_only(s, s));
    }
}


/// What one tick of motion guarantees of the particle `n` that `p` becomes,
/// whatever offset was drawn: a particle that crosses the floor respawns at
/// the top with the initial speed, unit mass and temperature and `d_abs` the
/// magnitude of its drift; any other keeps its mass and temperature.
pub open spec fn motion_facts(p: Particle, n: Particle) -> bool {
    &&& recycles(p) ==> {
        &&& n.y == TOP_Y
        &&& n.v == INITIAL_SPEED
        &&& n.m == SCALE
        &&& n.t == SCALE
        &&& n.d_abs == abs(n.d as int)
    }
    &&& !recycles(p) ==> n.m == p.m && n.t == p.t
    &&& 0 <= n.t <= SCALE
    &&& n.m >= SCALE
}

pub proof fn lemma_motion_facts(p: Particle, n: Particle)
    requires
        p.wf(),
        step_result(p, n),
    ensures
        motion_facts(p, n),
{
    let r = choose|r: int| DRAW_LO <= r < DRAW_HI && n == #[trigger] moved(p, r);
    assert(n == moved(p, r));
}

/// Number of floor hits that one tick of motion makes in `s`.
pub open spec fn floor_hits(s: Seq<Particle>) -> nat
    decreases s.len(),
{
    if s.len() == 0 {
        0
    } else {
        floor_hits(s.drop_last()) + if hits_floor(s.last()) {
            1nat
        } else {
            0nat
        }
    }
}


pub proof fn lemma_floor_hits_concat(a: Seq<Particle>, b: Seq<Particle>)
    ensures
        floor_hits(a + b) == floor_hits(a) + floor_hits(b),
    decreases b.len(),
{
    if b.len() == 0 {
        assert(a + b =~= a);
    } else {
        lemma_floor_hits_concat(a, b.drop_last());
        assert((a + b).drop_last() =~= a + b.drop_last());
    }
}

/// Temperature after `dt` microseconds of cooling, before clamping.
pub open spec fn cooled_raw(t: int, m: int, dt: int) -> int {
    t - tdiv(dt * COOL_NUM * SCALE * SCALE, COOL_DEN * m)
}

/// Temperature after `dt` microseconds of cooling, clamped to `[0, SCALE]`.
pub open spec fn cooled(t: int, m: int, dt: int) -> int {
    let n = cooled_raw(t, m, dt);
    if n < 0 {
        0
    } else if n > SCALE {
        SCALE as int
    } else {
        n
    }
}


/// `a` after absorbing `b`: momentum-weighted speed and summed mass, the mass
/// stopping at `MASS_CAP`.
pub open spec fn absorb(a: Particle, b: Particle) -> Particle {
    Particle {
        v: tdiv(a.m * a.v + b.m * b.v, a.m + b.m) as i64,
        m: (if a.m + b.m <= MASS_CAP { a.m + b.m } else { MASS_CAP as int }) as i64,
        ..a
    }
}

/// `b` marked as merged: moved to the inert height, otherwise unchanged.
pub open spec fn inert(b: Particle) -> Particle {
    Particle { y: INERT_Y, ..b }
}

/// The test of pair `(i, j)` of a merge pass. The survivor `i` is tested at
/// its position in `s0`, the state before the pass; the candidate `j` at its
/// position in `s`, the current state, so a particle already marked inert is
/// tested at the inert height. Speeds and masses come from `s`.
pub open spec fn pair_step(s0: Seq<Particle>, s: Seq<Particle>, i: int, j: int) -> Seq<Particle> {
    if near(s0[i], s[j]) {
        s.update(i, absorb(s[i], s[j])).update(j, inert(s[j]))
    } else {
        s
    }
}

/// The pairs `(i, j)`, `j` from `j` up to `hi`, tested in order.
pub open spec fn merge_row(s0: Seq<Particle>, s: Seq<Particle>, i: int, j: int, hi: int) -> Seq<Particle>
    decreases hi - j,
{
    if j < hi {
        merge_row(s0, pair_step(s0, s, i, j), i, j + 1, hi)
    } else {
        s
    }
}

/// The rows `i` up to `hi`, each against the later indices below `hi`.
pub open spec fn merge_rows(s0: Seq<Particle>, s: Seq<Particle>, i: int, hi: int) -> Seq<Particle>
    decreases hi - i,
{
    if i < hi {
        merge_rows(s0, merge_row(s0, s, i, i + 1, hi), i + 1, hi)
    } else {
        s
    }
}

/// `s` after a merge pass over the partition `[lo, hi)`.
pub open spec fn merge_window(s: Seq<Particle>, lo: int, hi: int) -> Seq<Particle> {
    merge_rows(s, s, lo, hi)
}

/// `s` after a merge pass over all of it.
pub open spec fn merged(s: Seq<Particle>) -> Seq<Particle> {
    merge_window(s, 0, s.len() as int)
}

/// Number of merges that `merge_row` makes from the state `s`.
pub open spec fn row_merges(s0: Seq<Particle>, s: Seq<Particle>, i: int, j: int, hi: int) -> nat
    decreases hi - j,
{
    if j < hi {
        (if near(s0[i], s[j]) { 1nat } else { 0nat }) + row_merges(s0, pair_step(s0, s, i, j), i, j + 1, hi)
    } else {
        0
    }
}

/// Number of merges that `merge_rows` makes from the state `s`.
pub open spec fn rows_merges(s0: Seq<Particle>, s: Seq<Particle>, i: int, hi: int) -> nat
    decreases hi - i,
{
    if i < hi {
        row_merges(s0, s, i, i + 1, hi) + rows_merges(s0, merge_row(s0, s, i, i + 1, hi), i + 1, hi)
    } else {
        0
    }
}

/// Number of merges of a merge pass over the partition `[lo, hi)` of `s`.
pub open spec fn window_merges(s: Seq<Particle>, lo: int, hi: int) -> nat {
    rows_merges(s, s, lo, hi)
}

pub proof fn lemma_row_merges_bound(s0: Seq<Particle>, s: Seq<Particle>, i: int, j: int, hi: int)
    requires
        j <= hi,
    ensures
        row_merges(s0, s, i, j, hi) <= hi - j,
    decreases hi - j,
{
    if j < hi {
        lemma_row_merges_bound(s0, pair_step(s0, s, i, j), i, j + 1, hi);
    }
}

pub proof fn lemma_rows_merges_bound(s0: Seq<Particle>, s: Seq<Particle>, i: int, hi: int)
    requires
        i <= hi,
    ensures
        rows_merges(s0, s, i, hi) <= (hi - i) * (hi - i),
    decreases hi - i,
{
    if i < hi {
        lemma_row_merges_bound(s0, s, i, i + 1, hi);
        lemma_rows_merges_bound(s0, merge_row(s0, s, i, i + 1, hi), i + 1, hi);
        let k = hi - i;
        assert((k - 1) + (k - 1) * (k - 1) <= k * k) by (nonlinear_arith)
            requires k >= 1;
    }
}

pub proof fn lemma_weighted_speed(ma: int, va: int, mb: int, vb: int)
    requires
        1 <= ma,
        1 <= mb,
        -COORD_LIMIT <= va <= 0,
        -COORD_LIMIT <= vb <= 0,
    ensures
        -COORD_LIMIT <= tdiv(ma * va + mb * vb, ma + mb) <= 0,
{
    let n = ma * (-va) + mb * (-vb);
    let den = ma + mb;
    assert(ma * va + mb * vb == -n) by (nonlinear_arith)
        requires n == ma * (-va) + mb * (-vb);
    assert(0 <= n <= COORD_LIMIT * den) by (nonlinear_arith)
        requires
            1 <= ma,
            1 <= mb,
            -COORD_LIMIT <= va <= 0,
            -COORD_LIMIT <= vb <= 0,
            n == ma * (-va) + mb * (-vb),
            den == ma + mb,
    ;
    assert(0 <= n / den <= COORD_LIMIT) by (nonlinear_arith)
        requires
            0 <= n <= COORD_LIMIT * den,
            den >= 2,
    ;
}

pub proof fn lemma_absorb_wf(a: Particle, b: Particle)
    requires
        a.wf(),
        b.wf(),
    ensures
        absorb(a, b).wf(),
        inert(b).wf(),
{
    lemma_weighted_speed(a.m as int, a.v as int, b.m as int, b.v as int);
}

/// The particle after thermal decay over `dt` microseconds.
pub open spec fn cool(p: Particle, dt: int) -> Particle {
    Particle { t: cooled(p.t as int, p.m as int, dt) as i64, ..p }
}

/// Every particle of `s` is well formed.
pub open spec fn all_wf(s: Seq<Particle>) -> bool {
    forall|i: int| 0 <= i < s.len() ==> #[trigger] s[i].wf()
}

impl Particle {
    /// The ranges the representation keeps: temperature in `[0, 1]`, mass at
    /// least 1, the particle at or below the top and never rising, and
    /// `d_abs` the magnitude of `d`.
    pub open spec fn wf(self) -> bool {
        &&& -COORD_LIMIT <= self.x <= COORD_LIMIT
        &&& -COORD_LIMIT <= self.y <= TOP_Y
        &&& -COORD_LIMIT <= self.v <= 0
        &&& -COORD_LIMIT <= self.d <= COORD_LIMIT
        &&& self.d_abs == abs(self.d as int)
        &&& SCALE <= self.m <= MASS_CAP
        &&& 0 <= self.t <= SCALE
    }

    /// A particle with the given state and `d_abs = |d|`. The values must lie
    /// in the ranges of `wf`: at or below the top, not rising, mass at least 1
    /// and temperature in `[0, 1]`.
    pub fn new(x_value: i64, y_value: i64, v_value: i64, d_value: i64, m_value: i64, t_value: i64) -> (r: Particle)
        requires
            -COORD_LIMIT <= x_value <= COORD_LIMIT,
            -COORD_LIMIT <= y_value <= TOP_Y,
            -COORD_LIMIT <= v_value <= 0,
            -COORD_LIMIT <= d_value <= COORD_LIMIT,
            SCALE <= m_value <= MASS_CAP,
            0 <= t_value <= SCALE,
        ensures
            r.wf(),
            r == (Particle {
                x: x_value,
                y: y_value,
                v: v_value,
                d: d_value,
                d_abs: abs(d_value as int) as i64,
                m: m_value,
                t: t_value,
            }),
    {
        Particle {
            x: x_value,
            y: y_value,
            v: v_value,
            d: d_value,
            d_abs: abs_i64(d_value),
            m: m_value,
            t: t_value,
        }
    }

    /// Whether this particle lies in the ranges that the passes require.
    pub fn in_range(&self) -> (r: bool)
        ensures
            r == self.wf(),
    {
        -COORD_LIMIT <= self.x && self.x <= COORD_LIMIT && -COORD_LIMIT <= self.y && self.y <= TOP_Y
            && -COORD_LIMIT <= self.v && self.v <= 0 && -COORD_LIMIT <= self.d && self.d <= COORD_LIMIT
            && self.d > i64::MIN && self.d_abs == abs_i64(self.d) && SCALE <= self.m && self.m <= MASS_CAP
            && 0 <= self.t && self.t <= SCALE
    }

    /// Whether `test_particle` lies in the merge window around `self`.
    pub fn collide(&self, test_particle: &Particle) -> (r: bool)
        requires
            self.wf(),
        ensures
            r == near(*self, *test_particle),
    {
        self.x - COLLISION_DISTANCE <= test_particle.x && test_particle.x <= self.x
            + COLLISION_DISTANCE && self.y - COLLISION_DISTANCE <= test_particle.y
            && test_particle.y <= self.y + COLLISION_DISTANCE
    }

    /// Whether the next tick of motion takes this particle across the floor.
    pub fn will_recycle(&self) -> (r: bool)
        requires
            self.wf(),
        ensures
            r == recycles(*self),
    {
        let (_, d) = self.lateral();
        let v = self.v - GRAVITY;
        self.y + v - abs_i64(d) / 10 <= FLOOR_Y
    }

    fn lateral(&self) -> (r: (i64, i64))
        requires
            self.wf(),
        ensures
            r.0 == next_x(*self),
            r.1 == next_d(*self),
            -COORD_LIMIT <= r.0 <= COORD_LIMIT,
            -COORD_LIMIT <= r.1 <= COORD_LIMIT,
    {
        let nx = self.x + self.d;
        if -WALL < nx && nx < WALL {
            (nx, self.d)
        } else {
            let k = tdiv_i64(self.d * 18, 10);
            assert(abs(self.d - k) <= abs(self.d as int));
            (self.x, self.d - k)
        }
    }

    /// One tick of motion. `offset`, from `[-0.5, 0.5)`, places the particle
    /// and sets its drift if it respawns, and is ignored otherwise.
    pub fn step(&self, offset: i64) -> (r: Particle)
        requires
            self.wf(),
            DRAW_LO <= offset < DRAW_HI,
        ensures
            r == moved(*self, offset as int),
            r.wf(),
    {
        let (x, d) = self.lateral();
        let d_abs = abs_i64(d);
        let v = self.v - GRAVITY;
        if self.y + v - d_abs / 10 > FLOOR_Y {
            Particle { x, y: self.y + v - d_abs / 10, v, d, d_abs, m: self.m, t: self.t }
        } else {
            let d = tdiv_i64(offset * 25, 1000);
            Particle {
                x: tdiv_i64(offset * 3, 10),
                y: TOP_Y,
                v: INITIAL_SPEED,
                d,
                d_abs: abs_i64(d),
                m: SCALE,
                t: SCALE,
            }
        }
    }
    /// This particle after absorbing `other`.
    pub fn absorbed(&self, other: &Particle) -> (r: Particle)
        requires
            self.wf(),
            other.wf(),
        ensures
            r == absorb(*self, *other),
            r.wf(),
    {
        proof {
            lemma_absorb_wf(*self, *other);
        }
        let ma = self.m as i128;
        let mb = other.m as i128;
        assert(ma * (self.v as i128) + mb * (other.v as i128) == self.m * self.v + other.m * other.v);
        assert(-MASS_CAP * COORD_LIMIT <= self.m * self.v <= 0) by (nonlinear_arith)
            requires SCALE <= self.m <= MASS_CAP, -COORD_LIMIT <= self.v <= 0;
        assert(-MASS_CAP * COORD_LIMIT <= other.m * other.v <= 0) by (nonlinear_arith)
            requires SCALE <= other.m <= MASS_CAP, -COORD_LIMIT <= other.v <= 0;
        let num = ma * (self.v as i128) + mb * (other.v as i128);
        let v = tdiv_i128(num, ma + mb) as i64;
        let m = if self.m + other.m <= MASS_CAP {
            self.m + other.m
        } else {
            MASS_CAP
        };
        Particle { v, m, ..*self }
    }

    /// This particle after thermal decay over `delta_t` microseconds.
    pub fn cooled(&self, delta_t: i64) -> (r: Particle)
        requires
            self.wf(),
        ensures
            r == cool(*self, delta_t as int),
            r.wf(),
    {
        let k: i128 = 3_000_000_000_000;
        assert(k == COOL_NUM * SCALE * SCALE);
        assert(-0x8000_0000_0000_0000 * 3_000_000_000_000 <= delta_t * k <= 0x8000_0000_0000_0000 * 3_000_000_000_000) by (nonlinear_arith)
            requires k == 3_000_000_000_000, i64::MIN <= delta_t <= i64::MAX;
        let num = (delta_t as i128) * k;
        let den = (COOL_DEN as i128) * (self.m as i128);
        assert(den >= 1) by (nonlinear_arith)
            requires den == COOL_DEN * self.m, self.m >= SCALE;
        let drop = tdiv_i128(num, den);
        assert(abs(drop as int) <= abs(num as int)) by (nonlinear_arith)
            requires den >= 1, drop == tdiv(num as int, den as int);
        let n = (self.t as i128) - drop;
        let t: i64 = if n < 0 {
            0
        } else if n > SCALE as i128 {
            SCALE
        } else {
            n as i64
        };
        Particle { t, ..*self }
    }
}

/// Runs one tick of motion over `list[lo..hi]` and returns its floor hits.
pub(crate) fn kinematics_range(list: &mut [Particle], lo: usize, hi: usize) -> (count: u32)
    requires
        lo <= hi <= old(list)@.len(),
        hi - lo <= u32::MAX,
        all_wf(old(list)@),
    ensures
        final(list)@.len() == old(list)@.len(),
        all_wf(final(list)@),
        forall|k: int| lo <= k < hi ==> step_result(old(list)@[k], #[trigger] final(list)@[k]),
        forall|k: int| 0 <= k < old(list)@.len() && !(lo <= k < hi) ==> #[trigger] final(list)@[k] == old(list)@[k],
        count == floor_hits(old(list)@.subrange(lo as int, hi as int)),
        count <= hi - lo,
{
    let ghost s0 = list@;
    let mut count: u32 = 0;
    let mut i = lo;
    while i < hi
        invariant
            lo <= i <= hi <= list@.len(),
            hi - lo <= u32::MAX,
            list@.len() == s0.len(),
            all_wf(s0),
            all_wf(list@),
            forall|k: int| lo <= k < i ==> step_result(s0[k], #[trigger] list@[k]),
            forall|k: int| 0 <= k < s0.len() && !(lo <= k < i) ==> #[trigger] list@[k] == s0[k],
            count == floor_hits(s0.subrange(lo as int, i as int)),
            count <= i - lo,
        decreases hi - i,
    {
        let p = list[i];
        assert(p == s0[i as int]);
        let recycle = p.will_recycle();
        let offset: i64 = if recycle {
            draw_in(DRAW_LO, DRAW_HI)
        } else {
            0
        };
        let n = p.step(offset);
        assert(step_result(p, n));
        list[i] = n;
        assert(s0.subrange(lo as int, i + 1).drop_last() =~= s0.subrange(lo as int, i as int));
        if recycle && p.y > HIT_ABOVE_Y {
            count = count + 1;
        }
        i = i + 1;
    }
    count
}

/// Runs one tick of cooling over `list[lo..hi]`.
pub(crate) fn thermal_range(list: &mut [Particle], lo: usize, hi: usize, delta_t: i64)
    requires
        lo <= hi <= old(list)@.len(),
        all_wf(old(list)@),
    ensures
        final(list)@.len() == old(list)@.len(),
        all_wf(final(list)@),
        forall|k: int| lo <= k < hi ==> #[trigger] final(list)@[k] == cool(old(list)@[k], delta_t as int),
        forall|k: int| 0 <= k < old(list)@.len() && !(lo <= k < hi) ==> #[trigger] final(list)@[k] == old(list)@[k],
{
    let ghost s0 = list@;
    let mut i = lo;
    while i < hi
        invariant
            lo <= i <= hi <= list@.len(),
            list@.len() == s0.len(),
            all_wf(s0),
            all_wf(list@),
            forall|k: int| lo <= k < i ==> #[trigger] list@[k] == cool(s0[k], delta_t as int),
            forall|k: int| 0 <= k < s0.len() && !(lo <= k < i) ==> #[trigger] list@[k] == s0[k],
        decreases hi - i,
    {
        let p = list[i];
        list[i] = p.cooled(delta_t);
        i = i + 1;
    }
}

impl Particle {
    /// One tick of motion over every particle of `list`; returns how many
    /// crossed the floor from above the inert height.
    pub fn thread_main(list: &mut [Particle]) -> (count: u32)
        requires
            old(list)@.len() <= u32::MAX,
            all_wf(old(list)@),
        ensures
            final(list)@.len() == old(list)@.len(),
            all_wf(final(list)@),
            forall|k: int| 0 <= k < old(list)@.len() ==> step_result(old(list)@[k], #[trigger] final(list)@[k]),
            forall|k: int| 0 <= k < old(list)@.len() ==> motion_facts(old(list)@[k], #[trigger] final(list)@[k]),
            count == floor_hits(old(list)@),
    {
        let n = list.len();
        let r = kinematics_range(list, 0, n);
        assert(old(list)@.subrange(0, n as int) =~= old(list)@);
        assert forall|k: int| 0 <= k < old(list)@.len() implies motion_facts(old(list)@[k], #[trigger] list@[k]) by {
            lemma_motion_facts(old(list)@[k], list@[k]);
        }
        r
    }

    /// Thermal decay over `delta_t` microseconds for every particle of `list`.
    pub fn temp_thread(list: &mut [Particle], delta_t: i64)
        requires
            all_wf(old(list)@),
        ensures
            final(list)@.len() == old(list)@.len(),
            all_wf(final(list)@),
            forall|k: int| 0 <= k < old(list)@.len() ==> #[trigger] final(list)@[k] == cool(old(list)@[k], delta_t as int),
    {
        let n = list.len();
        thermal_range(list, 0, n, delta_t);
    }
}

/// Runs a merge pass over the partition `list[lo..hi]`; returns how many
/// pairs merged.
pub(crate) fn collision_range(list: &mut [Particle], lo: usize, hi: usize) -> (collisions: u32)
    requires
        lo <= hi <= old(list)@.len(),
        hi - lo <= 0xffff,
        all_wf(old(list)@),
    ensures
        final(list)@ == merge_window(old(list)@, lo as int, hi as int),
        final(list)@.len() == old(list)@.len(),
        all_wf(final(list)@),
        collisions == window_merges(old(list)@, lo as int, hi as int),
        gains_only(old(list)@, final(list)@),
{
    let ghost s0 = list@;
    let mut snap: Vec<Particle> = Vec::new();
    let mut k = lo;
    while k < hi
        invariant
            lo <= k <= hi <= list@.len(),
            list@ == s0,
            snap@.len() == k - lo,
            forall|q: int| 0 <= q < snap@.len() ==> #[trigger] snap@[q] == s0[q + lo],
        decreases hi - k,
    {
        snap.push(list[k]);
        k = k + 1;
    }
    proof {
        lemma_rows_merges_bound(s0, s0, lo as int, hi as int);
        assert((hi - lo) * (hi - lo) <= 0xffff * 0xffff) by (nonlinear_arith)
            requires 0 <= hi - lo <= 0xffff;
    }
    let mut collisions: u32 = 0;
    let mut i = lo;
    while i < hi
        invariant
            lo <= i <= hi <= list@.len(),
            list@.len() == s0.len(),
            snap@.len() == hi - lo,
            forall|q: int| 0 <= q < snap@.len() ==> #[trigger] snap@[q] == s0[q + lo],
            all_wf(s0),
            all_wf(list@),
            merge_rows(s0, list@, i as int, hi as int) == merge_window(s0, lo as int, hi as int),
            collisions + rows_merges(s0, list@, i as int, hi as int) == window_merges(s0, lo as int, hi as int),
            window_merges(s0, lo as int, hi as int) <= 0xffff * 0xffff,
        decreases hi - i,
    {
        let ghost row_start = list@;
        let ghost c_start = collisions;
        let mut j = i + 1;
        while j < hi
            invariant
                lo <= i < j <= hi <= list@.len(),
                list@.len() == s0.len(),
                snap@.len() == hi - lo,
                forall|q: int| 0 <= q < snap@.len() ==> #[trigger] snap@[q] == s0[q + lo],
                all_wf(s0),
                all_wf(list@),
                merge_row(s0, list@, i as int, j as int, hi as int) == merge_row(s0, row_start, i as int, i + 1, hi as int),
                collisions + row_merges(s0, list@, i as int, j as int, hi as int) == c_start + row_merges(s0, row_start, i as int, i + 1, hi as int),
                c_start + rows_merges(s0, row_start, i as int, hi as int) == window_merges(s0, lo as int, hi as int),
                window_merges(s0, lo as int, hi as int) <= 0xffff * 0xffff,
            decreases hi - j,
        {
            assert(snap@[i - lo] == s0[i as int]);
            let b = list[j];
            if snap[i - lo].collide(&b) {
                let a = list[i];
                proof {
                    lemma_absorb_wf(a, b);
                }
                list[i] = a.absorbed(&b);
                list[j] = Particle { y: INERT_Y, ..b };
                collisions = collisions + 1;
            }
            j = j + 1;
        }
        i = i + 1;
    }
    proof {
        lemma_rows_gains(s0, s0, lo as int, hi as int);
    }
    collisions
}

impl Particle {
    /// A merge pass over the partition `list`: each pair `(i, j)`, `i < j`,
    /// in ascending order, merges `j` into `i` when `j`, where it is now, lies
    /// in the window around `i`'s position before the pass. Returns how many
    /// pairs merged.
    pub fn collision_thread(list: &mut [Particle]) -> (collisions: u32)
        requires
            old(list)@.len() <= 0xffff,
            all_wf(old(list)@),
        ensures
            final(list)@ == merged(old(list)@),
            all_wf(final(list)@),
            collisions == window_merges(old(list)@, 0, old(list)@.len() as int),
            gains_only(old(list)@, final(list)@),
    {
        let n = list.len();
        collision_range(list, 0, n)
    }
}

} // verus!
