//! Properties of the simulation, stated over the models that the passes'
//! contracts use and proved.
use vstd::prelude::*;
use crate::arith::{abs, tdiv};
use crate::config::{
    COOL_DEN, COOL_NUM, DRAW_HI, DRAW_LO, HIT_ABOVE_Y, INERT_Y, INITIAL_SPEED, MASS_CAP, SCALE,
    TOP_Y,
};
use crate::particle::{
    Particle, absorb, agree_on, all_wf, cool, floor_hits, inert, lemma_absorb_wf, lemma_weighted_speed,
    lemma_floor_hits_concat, lemma_window_local, lemma_row_frame, lemma_rows_gains, merged, merge_row, merge_rows, merge_window,
    moved, near, pair_step, recycles, row_merges, rows_merges, window_merges,
};
use crate::system::{
    batch_chunks, batch_rest, chunk_count, chunk_end, chunk_start, cool_window, merge_chunks,
    partition_merge, lemma_batch_prefix,
};

verus! {

/// Every step keeps a particle's temperature in `[0, 1]` and its mass at
/// least 1 (with the rest of its ranges): motion, absorbing another particle,
/// being marked inert, and cooling over any elapsed time.
pub proof fn law_ranges_kept(p: Particle, q: Particle, r: int, dt: int)
    requires
        p.wf(),
        q.wf(),
        DRAW_LO <= r < DRAW_HI,
    ensures
        moved(p, r).wf(),
        absorb(p, q).wf(),
        inert(q).wf(),
        cool(p, dt).wf(),
        0 <= moved(p, r).t <= SCALE && moved(p, r).m >= SCALE,
        0 <= absorb(p, q).t <= SCALE && absorb(p, q).m >= SCALE,
        0 <= cool(p, dt).t <= SCALE && cool(p, dt).m >= SCALE,
{
    assert(abs(p.d - tdiv(p.d * 18, 10)) <= abs(p.d as int));
    lemma_absorb_wf(p, q);
}

proof fn lemma_merge_chunks_wf(s: Seq<Particle>, c: nat)
    requires
        all_wf(s),
    ensures
        all_wf(merge_chunks(s, c, 25)),
        merge_chunks(s, c, 25).len() == s.len(),
    decreases c,
{
    if c > 0 {
        lemma_merge_chunks_wf(s, (c - 1) as nat);
        let t = merge_chunks(s, (c - 1) as nat, 25);
        let lo = (c - 1) * 25;
        if lo < s.len() {
            lemma_rows_gains(t, t, lo, chunk_end(c - 1, 25, s.len() as int));
        }
    }
}

/// A merge pass over the partitions keeps every particle well formed, so
/// temperatures stay in `[0, 1]` and masses at least 1.
pub proof fn law_partition_merge_keeps_ranges(s: Seq<Particle>)
    requires
        all_wf(s),
    ensures
        all_wf(partition_merge(s)),
        partition_merge(s).len() == s.len(),
{
    lemma_merge_chunks_wf(s, chunk_count(s.len() as int, 25));
}

/// A particle that crosses the floor respawns at the top with the initial
/// speed, unit mass and temperature, and `d_abs` the magnitude of its new
/// drift, whatever offset was drawn.
pub proof fn law_recycle(p: Particle, r: int)
    requires
        p.wf(),
        recycles(p),
        DRAW_LO <= r < DRAW_HI,
    ensures
        moved(p, r).y == TOP_Y,
        moved(p, r).v == INITIAL_SPEED,
        moved(p, r).m == SCALE,
        moved(p, r).t == SCALE,
        moved(p, r).d_abs == abs(moved(p, r).d as int),
{
}

/// A particle that crosses the floor from above -1.9 adds exactly one floor
/// hit; one that crosses it from the inert height adds none, and an inert
/// particle always crosses it.
pub proof fn law_floor_counting(s: Seq<Particle>, p: Particle)
    requires
        p.wf(),
    ensures
        recycles(p) && p.y > HIT_ABOVE_Y ==> floor_hits(s.push(p)) == floor_hits(s) + 1,
        p.y == INERT_Y ==> recycles(p) && floor_hits(s.push(p)) == floor_hits(s),
{
    assert(s.push(p).drop_last() =~= s);
}

/// Two near particles in one partition merge: the first takes the
/// momentum-weighted speed `(m1 v1 + m2 v2) / (m1 + m2)` and the mass
/// `m1 + m2`, and the second is marked inert. Momentum is kept up to the
/// rounding of one division.
pub proof fn law_merge_momentum(a: Particle, b: Particle)
    requires
        a.wf(),
        b.wf(),
        near(a, b),
        a.m + b.m <= MASS_CAP,
    ensures
        merged(seq![a, b]) == seq![absorb(a, b), inert(b)],
        merged(seq![a, b])[0].v == tdiv(a.m * a.v + b.m * b.v, a.m + b.m),
        merged(seq![a, b])[0].m == a.m + b.m,
        merged(seq![a, b])[1].y == INERT_Y,
        window_merges(seq![a, b], 0, 2) == 1,
        abs(merged(seq![a, b])[0].m * merged(seq![a, b])[0].v - (a.m * a.v + b.m * b.v)) < a.m + b.m,
{
    let s = seq![a, b];
    lemma_absorb_wf(a, b);
    lemma_weighted_speed(a.m as int, a.v as int, b.m as int, b.v as int);
    assert(merge_row(s, s, 0, 1, 2) == merge_row(s, pair_step(s, s, 0, 1), 0, 2, 2));
    assert(pair_step(s, s, 0, 1) =~= seq![absorb(a, b), inert(b)]);
    let t = seq![absorb(a, b), inert(b)];
    assert(merge_rows(s, t, 1, 2) == merge_rows(s, merge_row(s, t, 1, 2, 2), 2, 2));
    assert(row_merges(s, s, 0, 1, 2) == 1 + row_merges(s, t, 0, 2, 2));
    assert(rows_merges(s, s, 0, 2) == row_merges(s, s, 0, 1, 2) + rows_merges(s, t, 1, 2));
    assert(rows_merges(s, t, 1, 2) == row_merges(s, t, 1, 2, 2) + rows_merges(s, merge_row(s, t, 1, 2, 2), 2, 2));
    let num = a.m * a.v + b.m * b.v;
    let den = a.m + b.m;
    let q = tdiv(num, den);
    assert(abs(den * q - num) < den) by (nonlinear_arith)
        requires den > 0, q == tdiv(num, den);
    assert(absorb(a, b).v == q);
    assert(absorb(a, b).m == den);
}

proof fn lemma_merge_chunks_frame(s: Seq<Particle>, c: nat)
    ensures
        merge_chunks(s, c, 25).len() == s.len(),
        agree_on(merge_chunks(s, c, 25), s, chunk_start(c as int, 25, s.len() as int), s.len() as int),
    decreases c,
{
    if c > 0 {
        lemma_merge_chunks_frame(s, (c - 1) as nat);
        let t = merge_chunks(s, (c - 1) as nat, 25);
        let lo = (c - 1) * 25;
        let hi = chunk_end(c - 1, 25, s.len() as int);
        if lo < s.len() {
            lemma_window_local(t, t, lo, hi);
        } else {
            assert(merge_window(t, lo, hi) == t);
        }
    }
}

proof fn lemma_merge_chunks_keep(s: Seq<Particle>, c: nat, c2: nat)
    requires
        c <= c2,
    ensures
        agree_on(merge_chunks(s, c2, 25), merge_chunks(s, c, 25), 0, chunk_start(c as int, 25, s.len() as int)),
    decreases c2,
{
    if c < c2 {
        lemma_merge_chunks_keep(s, c, (c2 - 1) as nat);
        lemma_merge_chunks_frame(s, (c2 - 1) as nat);
        let t = merge_chunks(s, (c2 - 1) as nat, 25);
        let lo = (c2 - 1) * 25;
        let hi = chunk_end(c2 - 1, 25, s.len() as int);
        assert(chunk_start(c as int, 25, s.len() as int) <= chunk_start(c2 - 1, 25, s.len() as int)) by (nonlinear_arith)
            requires c <= c2 - 1;
        if lo < s.len() {
            lemma_window_local(t, t, lo, hi);
        } else {
            assert(merge_window(t, lo, hi) == t);
        }
    }
}

/// No merge crosses a partition: what the partitioned merge pass leaves in
/// partition `c` depends only on the particles of partition `c`, however
/// near the particles of other partitions are.
pub proof fn law_partition_locality(a: Seq<Particle>, b: Seq<Particle>, c: nat)
    requires
        a.len() == b.len(),
        c < chunk_count(a.len() as int, 25),
        agree_on(a, b, (c * 25) as int, chunk_end(c as int, 25, a.len() as int)),
    ensures
        agree_on(partition_merge(a), partition_merge(b), (c * 25) as int, chunk_end(c as int, 25, a.len() as int)),
{
    let n = a.len() as int;
    let lo = (c * 25) as int;
    let hi = chunk_end(c as int, 25, n);
    let last = chunk_count(n, 25);
    assert(lo < n) by (nonlinear_arith)
        requires c < last, last == (n + 24) / 25, lo == c * 25;
    assert(chunk_start(c as int, 25, n) == lo);
    assert(chunk_start(c as int + 1, 25, n) == hi);
    lemma_merge_chunks_frame(a, c);
    lemma_merge_chunks_frame(b, c);
    let ta = merge_chunks(a, c, 25);
    let tb = merge_chunks(b, c, 25);
    assert(agree_on(ta, tb, lo, hi));
    lemma_window_local(ta, tb, lo, hi);
    lemma_merge_chunks_keep(a, c + 1, last);
    lemma_merge_chunks_keep(b, c + 1, last);
}


proof fn lemma_row_shift(s0: Seq<Particle>, s: Seq<Particle>, lo: int, i: int, j: int, hi: int)
    requires
        s0.len() == s.len(),
        0 <= lo <= i < j <= hi + 1,
        hi <= s.len(),
    ensures
        merge_row(s0, s, i, j, hi).subrange(lo, hi)
            == merge_row(s0.subrange(lo, hi), s.subrange(lo, hi), i - lo, j - lo, hi - lo),
    decreases hi - j,
{
    lemma_row_frame(s0, s, lo, i, j, hi);
    if j < hi {
        let t = pair_step(s0, s, i, j);
        assert(t.subrange(lo, hi) =~= pair_step(s0.subrange(lo, hi), s.subrange(lo, hi), i - lo, j - lo));
        lemma_row_shift(s0, t, lo, i, j + 1, hi);
    }
}

proof fn lemma_rows_shift(s0: Seq<Particle>, s: Seq<Particle>, lo: int, i: int, hi: int)
    requires
        s0.len() == s.len(),
        0 <= lo <= i,
        hi <= s.len(),
        lo <= hi,
    ensures
        merge_rows(s0, s, i, hi).subrange(lo, hi)
            == merge_rows(s0.subrange(lo, hi), s.subrange(lo, hi), i - lo, hi - lo),
    decreases hi - i,
{
    if i < hi {
        lemma_row_shift(s0, s, lo, i, i + 1, hi);
        lemma_row_frame(s0, s, lo, i, i + 1, hi);
        lemma_rows_shift(s0, merge_row(s0, s, i, i + 1, hi), lo, i + 1, hi);
    }
}

/// The partitioned merge pass is the concatenation of independent merge
/// passes over the partitions: partition `c` of the result is what a merge
/// pass over partition `c` alone gives.
pub proof fn law_partition_concat(s: Seq<Particle>, c: nat)
    requires
        c < chunk_count(s.len() as int, 25),
    ensures
        partition_merge(s).subrange((c * 25) as int, chunk_end(c as int, 25, s.len() as int))
            == merged(s.subrange((c * 25) as int, chunk_end(c as int, 25, s.len() as int))),
{
    let n = s.len() as int;
    let lo = (c * 25) as int;
    let hi = chunk_end(c as int, 25, n);
    let last = chunk_count(n, 25);
    assert(lo < n) by (nonlinear_arith)
        requires c < last, last == (n + 24) / 25, lo == c * 25;
    assert(chunk_start(c as int, 25, n) == lo);
    assert(chunk_start(c as int + 1, 25, n) == hi);
    lemma_merge_chunks_frame(s, c);
    let t = merge_chunks(s, c, 25);
    assert(t.subrange(lo, hi) =~= s.subrange(lo, hi));
    lemma_rows_shift(t, t, lo, lo, hi);
    lemma_merge_chunks_keep(s, c + 1, last);
    lemma_merge_chunks_frame(s, c + 1);
    lemma_merge_chunks_frame(s, last);
    lemma_window_local(t, t, lo, hi);
    assert(partition_merge(s) == merge_chunks(s, last, 25));
    assert(partition_merge(s).subrange(lo, hi) =~= merge_chunks(s, c + 1, 25).subrange(lo, hi));
}

proof fn lemma_batch_keep(s: Seq<Particle>, c: nat, c2: nat, dt: int)
    requires
        c <= c2,
    ensures
        agree_on(batch_chunks(s, c2, 25, dt), batch_chunks(s, c, 25, dt), 0, chunk_start(c as int, 25, s.len() as int)),
    decreases c2,
{
    if c < c2 {
        lemma_batch_keep(s, c, (c2 - 1) as nat, dt);
        lemma_batch_prefix(s, s, (c2 - 1) as nat, 25, dt);
        let t = batch_chunks(s, (c2 - 1) as nat, 25, dt);
        let lo = (c2 - 1) * 25;
        let hi = chunk_end(c2 - 1, 25, s.len() as int);
        assert(chunk_start(c as int, 25, s.len() as int) <= chunk_start(c2 - 1, 25, s.len() as int)) by (nonlinear_arith)
            requires c <= c2 - 1;
        if lo < s.len() {
            lemma_window_local(t, t, lo, hi);
        } else {
            assert(merge_window(t, lo, hi) == t);
        }
    }
}

/// No merge crosses a partition in a batch-mode tick either: what the tick
/// leaves in partition `c` after motion produced `a` depends only on the
/// particles of partition `c` in `a`.
pub proof fn law_batch_locality(a: Seq<Particle>, b: Seq<Particle>, c: nat, dt: int)
    requires
        a.len() == b.len(),
        c < chunk_count(a.len() as int, 25),
        agree_on(a, b, (c * 25) as int, chunk_end(c as int, 25, a.len() as int)),
    ensures
        agree_on(batch_rest(a, dt), batch_rest(b, dt), (c * 25) as int, chunk_end(c as int, 25, a.len() as int)),
{
    let n = a.len() as int;
    let lo = (c * 25) as int;
    let hi = chunk_end(c as int, 25, n);
    let last = chunk_count(n, 25);
    assert(lo < n) by (nonlinear_arith)
        requires c < last, last == (n + 24) / 25, lo == c * 25;
    assert(chunk_start(c as int, 25, n) == lo);
    assert(chunk_start(c as int + 1, 25, n) == hi);
    lemma_batch_prefix(a, a, c, 25, dt);
    lemma_batch_prefix(b, b, c, 25, dt);
    let ta = batch_chunks(a, c, 25, dt);
    let tb = batch_chunks(b, c, 25, dt);
    assert(agree_on(ta, tb, lo, hi));
    lemma_window_local(ta, tb, lo, hi);
    lemma_window_local(tb, ta, lo, hi);
    let ra = batch_chunks(a, c + 1, 25, dt);
    let rb = batch_chunks(b, c + 1, 25, dt);
    assert(ra == cool_window(merge_window(ta, lo, hi), lo, hi, dt));
    assert(rb == cool_window(merge_window(tb, lo, hi), lo, hi, dt));
    assert(agree_on(ra, rb, lo, hi));
    lemma_batch_keep(a, c + 1, last, dt);
    lemma_batch_keep(b, c + 1, last, dt);
    assert(batch_rest(a, dt) == batch_chunks(a, last, 25, dt));
    assert(batch_rest(b, dt) == batch_chunks(b, last, 25, dt));
}

proof fn lemma_batch_is_merge_then_cool(s: Seq<Particle>, c: nat, dt: int)
    ensures
        batch_chunks(s, c, 25, dt) == cool_window(merge_chunks(s, c, 25), 0, chunk_start(c as int, 25, s.len() as int), dt),
    decreases c,
{
    let n = s.len() as int;
    if c == 0 {
        assert(batch_chunks(s, c, 25, dt) =~= cool_window(s, 0, 0, dt));
    } else {
        lemma_batch_is_merge_then_cool(s, (c - 1) as nat, dt);
        lemma_merge_chunks_frame(s, (c - 1) as nat);
        let m = merge_chunks(s, (c - 1) as nat, 25);
        let lo = (c - 1) * 25;
        let hi = chunk_end(c - 1, 25, n);
        let prev = chunk_start(c - 1, 25, n);
        let w = cool_window(m, 0, prev, dt);
        if lo < n {
            assert(prev == lo);
            assert(hi == chunk_start(c as int, 25, n));
            assert(agree_on(w, m, lo, hi));
            lemma_window_local(w, m, lo, hi);
            lemma_window_local(m, m, lo, hi);
            assert(cool_window(merge_window(w, lo, hi), lo, hi, dt)
                =~= cool_window(merge_window(m, lo, hi), 0, hi, dt));
        } else {
            assert(prev == n);
            assert(chunk_start(c as int, 25, n) == n);
            assert(merge_window(w, lo, hi) == w);
            assert(merge_window(m, lo, hi) == m);
            assert(cool_window(w, lo, hi, dt) =~= cool_window(m, 0, n, dt));
        }
    }
}

/// The two scheduling modes agree: once motion has produced `mid`, the
/// batch-mode tick leaves what the interactive passes leave, a merge pass
/// over every partition followed by cooling of every particle.
pub proof fn law_modes_agree(mid: Seq<Particle>, dt: int)
    ensures
        batch_rest(mid, dt) == cool_window(partition_merge(mid), 0, mid.len() as int, dt),
{
    let n = mid.len() as int;
    let c = chunk_count(n, 25);
    lemma_batch_is_merge_then_cool(mid, c, dt);
    assert(c * 25 >= n) by (nonlinear_arith)
        requires c == (n + 24) / 25, n >= 0;
}

/// Cooling over no elapsed time leaves a particle as it was.
pub proof fn law_cool_zero(p: Particle)
    requires
        p.wf(),
    ensures
        cool(p, 0) == p,
{
}

/// Cooling over a time long enough to remove a whole unit of temperature
/// (`dt * COOL_FACTOR / m >= 1`) leaves the temperature at exactly 0.
pub proof fn law_cool_long(p: Particle, dt: int)
    requires
        p.wf(),
        dt * COOL_NUM * SCALE >= COOL_DEN * p.m,
    ensures
        cool(p, dt).t == 0,
{
    let num = dt * COOL_NUM * SCALE * SCALE;
    let den = COOL_DEN * p.m;
    assert(num >= den * SCALE && den > 0) by (nonlinear_arith)
        requires dt * COOL_NUM * SCALE >= COOL_DEN * p.m, num == dt * COOL_NUM * SCALE * SCALE,
            den == COOL_DEN * p.m, p.m >= SCALE;
    assert(num / den >= SCALE) by (nonlinear_arith)
        requires num >= den * SCALE, den > 0;
}

/// Floor hits of the first `c` partitions of `s`, counted partition by
/// partition.
pub open spec fn chunk_hits(s: Seq<Particle>, c: nat, size: int) -> nat
    decreases c,
{
    if c == 0 {
        0
    } else {
        chunk_hits(s, (c - 1) as nat, size) + floor_hits(
            s.subrange(chunk_start(c - 1, size, s.len() as int), chunk_end(c - 1, size, s.len() as int)),
        )
    }
}

proof fn lemma_chunk_hits_prefix(s: Seq<Particle>, c: nat, size: int)
    requires
        size > 0,
    ensures
        chunk_hits(s, c, size) == floor_hits(s.subrange(0, chunk_start(c as int, size, s.len() as int))),
    decreases c,
{
    let n = s.len() as int;
    if c == 0 {
        assert(s.subrange(0, 0) =~= Seq::<Particle>::empty());
    } else {
        lemma_chunk_hits_prefix(s, (c - 1) as nat, size);
        let lo = chunk_start(c - 1, size, n);
        let hi = chunk_end(c - 1, size, n);
        assert(lo <= hi) by (nonlinear_arith)
            requires size > 0, lo == chunk_start(c - 1, size, n), hi == chunk_end(c - 1, size, n), n >= 0;
        assert(hi == chunk_start(c as int, size, n));
        lemma_floor_hits_concat(s.subrange(0, lo), s.subrange(lo, hi));
        assert(s.subrange(0, lo) + s.subrange(lo, hi) =~= s.subrange(0, hi));
    }
}

/// Counting floor hits partition by partition, for any partition size, and
/// summing gives the count of one pass over the whole collection.
pub proof fn law_partitioned_count(s: Seq<Particle>, size: int)
    requires
        size > 0,
    ensures
        chunk_hits(s, chunk_count(s.len() as int, size), size) == floor_hits(s),
{
    let n = s.len() as int;
    let c = chunk_count(n, size);
    lemma_chunk_hits_prefix(s, c, size);
    assert(c * size >= n) by (nonlinear_arith)
        requires size > 0, c == (n + size - 1) / size, n >= 0;
    assert(s.subrange(0, n) =~= s);
}

} // verus!
