use particle_sim::config::{
    COLLISION_DISTANCE, INERT_Y, INITIAL_SPEED, PARTICLES_PER_THREAD, SCALE, TOP_Y,
};
use particle_sim::particle::Particle;
use particle_sim::system::ParticleSystem;

fn fresh(x: i64, y: i64) -> Particle {
    Particle::new(x, y, INITIAL_SPEED, 0, SCALE, SCALE)
}

#[test]
fn single_particle_falls_in_predicted_ticks() {
    // y after n ticks is 1.0 + sum of (-0.02 - 0.0005 k) for k in 1..=n.
    let mut predicted = 0i64;
    loop {
        predicted += 1;
        let n = predicted;
        let y = SCALE - 20_000 * n - 250 * n * (n + 1);
        if y <= -SCALE {
            break;
        }
    }
    assert_eq!(predicted, 58);

    let mut list = vec![fresh(0, TOP_Y)];
    let mut ticks = 0i64;
    loop {
        ticks += 1;
        let hits = Particle::thread_main(&mut list);
        if hits == 1 {
            break;
        }
        assert_eq!(hits, 0);
        assert!(list[0].y > -SCALE);
        assert!(ticks < 1000);
    }
    assert_eq!(ticks, predicted);
    assert_eq!(list[0].y, TOP_Y);
    assert_eq!(list[0].v, INITIAL_SPEED);
}

#[test]
fn motion_before_floor() {
    let mut list = vec![Particle::new(0, 0, -10_000, 1_000, SCALE, SCALE)];
    let hits = Particle::thread_main(&mut list);
    assert_eq!(hits, 0);
    let p = list[0];
    assert_eq!(p.x, 1_000);
    assert_eq!(p.v, -10_500);
    assert_eq!(p.y, -10_500 - 100);
    assert_eq!(p.d, 1_000);
    assert_eq!(p.d_abs, 1_000);
}

#[test]
fn wall_bounce_damps_drift() {
    let mut list = vec![Particle::new(499_000, 0, 0, 2_000, SCALE, SCALE)];
    Particle::thread_main(&mut list);
    let p = list[0];
    assert_eq!(p.x, 499_000);
    assert_eq!(p.d, 2_000 - 3_600);
    assert_eq!(p.d_abs, 1_600);
    assert_eq!(p.y, -500 - 160);
}

#[test]
fn recycle_resets_state_and_counts_once() {
    let mut heavy = fresh(0, -990_000);
    heavy.m = 5 * SCALE;
    heavy.t = 0;
    let mut list = vec![heavy];
    let hits = Particle::thread_main(&mut list);
    assert_eq!(hits, 1);
    let p = list[0];
    assert_eq!(p.y, TOP_Y);
    assert_eq!(p.v, INITIAL_SPEED);
    assert_eq!(p.m, SCALE);
    assert_eq!(p.t, SCALE);
    assert_eq!(p.d_abs, p.d.abs());
    assert!(p.x >= -150_000 && p.x < 150_000);
    assert!(p.d >= -12_500 && p.d <= 12_500);
}

#[test]
fn inert_particle_recycles_without_counting() {
    let mut list = vec![fresh(0, INERT_Y), fresh(0, -1_995_000)];
    let hits = Particle::thread_main(&mut list);
    assert_eq!(hits, 0);
    assert_eq!(list[0].y, TOP_Y);
    assert_eq!(list[1].y, TOP_Y);
}

#[test]
fn respawn_positions_are_drawn() {
    let mut list: Vec<Particle> = (0..300).map(|_| fresh(0, -995_000)).collect();
    let hits = Particle::thread_main(&mut list);
    assert_eq!(hits, 300);
    for p in &list {
        assert!(p.x >= -150_000 && p.x < 150_000);
        assert_eq!(p.d_abs, p.d.abs());
    }
    assert!(list.iter().any(|p| p.x != list[0].x));
}

#[test]
fn two_particles_merge_conserving_momentum() {
    let a = Particle::new(0, 0, -10_000, 0, SCALE, SCALE);
    let b = Particle::new(0, 0, -20_000, 0, 2 * SCALE, SCALE);
    let mut list = vec![a, b];
    let merges = Particle::collision_thread(&mut list);
    assert_eq!(merges, 1);
    assert_eq!(list[0].m, 3 * SCALE);
    assert_eq!(list[0].v, -16_666);
    assert_eq!(list[0].y, 0);
    assert_eq!(list[1].y, INERT_Y);
    assert_eq!(list[1].m, 2 * SCALE);
    assert_eq!(list[1].v, -20_000);
    let before = a.m as i128 * a.v as i128 + b.m as i128 * b.v as i128;
    let after = list[0].m as i128 * list[0].v as i128;
    assert!((after - before).abs() < list[0].m as i128);
}

#[test]
fn far_particles_do_not_merge() {
    let a = fresh(0, 0);
    let b = fresh(COLLISION_DISTANCE + 1, 0);
    let c = fresh(0, -COLLISION_DISTANCE);
    let mut list = vec![a, b, c];
    let merges = Particle::collision_thread(&mut list);
    assert_eq!(merges, 1);
    assert_eq!(list[1], b);
    assert_eq!(list[2].y, INERT_Y);
    assert_eq!(list[0].m, 2 * SCALE);
}

#[test]
fn inert_survivor_still_absorbs() {
    // Particle 1 is absorbed by 0, yet still absorbs 2, which lies near its
    // position before the pass.
    let a = fresh(0, 0);
    let b = fresh(COLLISION_DISTANCE, 0);
    let c = fresh(2 * COLLISION_DISTANCE, 0);
    let mut list = vec![a, b, c];
    let merges = Particle::collision_thread(&mut list);
    assert_eq!(merges, 2);
    assert_eq!(list[0].m, 2 * SCALE);
    assert_eq!(list[1].y, INERT_Y);
    assert_eq!(list[1].m, 2 * SCALE);
    assert_eq!(list[2].y, INERT_Y);
}

#[test]
fn absorbed_particle_is_not_absorbed_again() {
    // Particle 2 merges into particle 0; particle 1 then tests it at the
    // inert height, where it no longer lies in its window.
    let a = fresh(0, 0);
    let b = fresh(0, 18_000);
    let c = fresh(0, 9_000);
    let mut list = vec![a, b, c];
    let merges = Particle::collision_thread(&mut list);
    assert_eq!(merges, 1);
    assert_eq!(list[0].m, 2 * SCALE);
    assert_eq!(list[1], b);
    assert_eq!(list[2].y, INERT_Y);
}

#[test]
fn partitions_do_not_merge_across() {
    let mut sys = ParticleSystem::new();
    for k in 0..PARTICLES_PER_THREAD + 1 {
        let x = if k + 2 > PARTICLES_PER_THREAD { 0 } else { 100_000 + 30_000 * k as i64 };
        sys.push(fresh(x, 0));
    }
    let last = PARTICLES_PER_THREAD;
    sys.collide_particle();
    let ps = sys.particles();
    assert_eq!(ps[last - 1].y, 0);
    assert_eq!(ps[last].y, 0);
    assert_eq!(ps[last - 1].m, SCALE);
    assert_eq!(ps[last].m, SCALE);

    let mut one = vec![ps[last - 1], ps[last]];
    assert_eq!(Particle::collision_thread(&mut one), 1);
}

#[test]
fn cooling_over_no_time_keeps_temperature() {
    let mut p = fresh(0, 0);
    p.t = 123_456;
    let mut list = vec![p];
    Particle::temp_thread(&mut list, 0);
    assert_eq!(list[0].t, 123_456);
}

#[test]
fn cooling_over_a_second_reaches_zero() {
    let mut list = vec![fresh(0, 0)];
    Particle::temp_thread(&mut list, 1_000_000);
    assert_eq!(list[0].t, 0);
}

#[test]
fn cooling_scales_with_mass() {
    let mut heavy = fresh(0, 0);
    heavy.m = 3 * SCALE;
    let mut list = vec![fresh(0, 0), heavy];
    Particle::temp_thread(&mut list, 100_000);
    assert_eq!(list[0].t, SCALE - 150_000);
    assert_eq!(list[1].t, SCALE - 50_000);
}

#[test]
fn negative_time_is_clamped_to_hottest() {
    let mut p = fresh(0, 0);
    p.t = SCALE / 2;
    let mut list = vec![p];
    Particle::temp_thread(&mut list, -10_000_000);
    assert_eq!(list[0].t, SCALE);
}

#[test]
fn partitioned_count_matches_whole_pass() {
    let mut whole: Vec<Particle> = Vec::new();
    for k in 0..300i64 {
        let y = if k % 3 == 0 { -995_000 } else if k % 7 == 0 { INERT_Y } else { 500_000 - k * 1_000 };
        whole.push(fresh(0, y));
    }
    let mut sys = ParticleSystem::from_particles(whole.clone()).unwrap();
    let mut sliced = whole.clone();
    let mut sum = 0u32;
    for slice in sliced.chunks_mut(PARTICLES_PER_THREAD) {
        sum += Particle::thread_main(slice);
    }
    let single = Particle::thread_main(&mut whole);
    assert_eq!(sum, single);
    assert_eq!(single, 100);
    assert_eq!(sys.move_particle_basic(), single);
}

#[test]
fn batch_tick_merges_and_cools() {
    let mut sys = ParticleSystem::new();
    sys.push(fresh(0, 0));
    sys.push(fresh(0, 0));
    sys.push(fresh(100_000, -995_000));
    let hits = sys.move_particle(1_000);
    assert_eq!(hits, 1);
    let ps = sys.particles();
    assert_eq!(ps[0].m, 2 * SCALE);
    assert_eq!(ps[1].y, INERT_Y);
    assert_eq!(ps[0].t, SCALE - 750);
    assert_eq!(ps[2].y, TOP_Y);
    assert_eq!(ps[2].t, SCALE - 1_500);
}

#[test]
fn interactive_passes_in_order() {
    let mut sys = ParticleSystem::new();
    sys.push(fresh(0, 0));
    sys.push(fresh(0, 0));
    assert_eq!(sys.move_particle_basic(), 0);
    sys.collide_particle();
    sys.temp_particle(2_000);
    let ps = sys.particles();
    assert_eq!(ps[0].m, 2 * SCALE);
    assert_eq!(ps[0].v, INITIAL_SPEED - 500);
    assert_eq!(ps[1].y, INERT_Y);
    assert_eq!(ps[0].t, SCALE - 1_500);
    assert_eq!(ps[1].t, SCALE - 3_000);
    assert_eq!(sys.len(), 2);
}

#[test]
fn seeded_grid_layout() {
    let sys = ParticleSystem::seeded(2);
    assert_eq!(sys.len(), 162);
    let ps = sys.particles();
    assert_eq!(ps[0], Particle::new(-80_000, TOP_Y, INITIAL_SPEED, -2_400 - 8_000, SCALE, SCALE));
    assert_eq!(ps[80].x, 80_000);
    assert_eq!(ps[80].d, 2_400 + 8_000);
    assert_eq!(ps[81], ps[0]);
}

#[test]
fn invalid_particles_are_refused() {
    let mut p = fresh(0, 0);
    assert!(p.in_range());
    p.t = SCALE + 1;
    assert!(!p.in_range());
    assert!(ParticleSystem::from_particles(vec![fresh(0, 0), p]).is_none());
    let mut q = fresh(0, 0);
    q.d = 5;
    assert!(!q.in_range());
    assert!(ParticleSystem::from_particles(vec![fresh(0, 0)]).is_some());
}
