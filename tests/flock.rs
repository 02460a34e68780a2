use boids::{
    ceil_sqrt_u64, seed_population, tick, tick_with_boundary, Agent, Boundary, Vec3, COORD_LIMIT,
    GRID_SIZE, GRID_SPACING, MAX_SPEED,
};

fn v(x: i64, y: i64, z: i64) -> Vec3 {
    Vec3 { x, y, z }
}

fn agent(position: Vec3, velocity: Vec3, heading: Vec3) -> Agent {
    Agent { position, velocity, heading }
}

fn at_rest(x: i64, y: i64) -> Agent {
    agent(v(x, y, 0), v(0, 0, 0), v(0, 1000, 0))
}

fn speed_squared(a: &Agent) -> i128 {
    let x = a.velocity.x as i128;
    let y = a.velocity.y as i128;
    let z = a.velocity.z as i128;
    x * x + y * y + z * z
}

#[test]
fn seed_grid_layout() {
    let agents = seed_population(3, 8000);
    assert_eq!(agents.len(), 9);
    assert_eq!(agents[0], at_rest(0, 0));
    assert_eq!(agents[4], at_rest(8000, 8000));
    assert_eq!(agents[5], at_rest(8000, 16000));
    assert_eq!(agents[6], at_rest(16000, 0));
}

#[test]
fn seed_default_grid() {
    let agents = seed_population(GRID_SIZE, GRID_SPACING);
    assert_eq!(agents.len(), 900);
    assert_eq!(agents[899], at_rest(29 * 8000, 29 * 8000));
}

#[test]
fn seed_empty_grid() {
    assert!(seed_population(0, 8000).is_empty());
}

#[test]
fn tick_empty_flock() {
    let mut agents: Vec<Agent> = Vec::new();
    tick(&mut agents, 16, 1000);
    assert!(agents.is_empty());
}

#[test]
fn pair_inside_protected_range_is_left_alone() {
    let mut agents = vec![at_rest(0, 0), at_rest(30_000, 0)];
    tick(&mut agents, 16, 1000);
    assert_eq!(agents, vec![at_rest(0, 0), at_rest(30_000, 0)]);
}

#[test]
fn resting_isolated_agent_stays() {
    let mut agents = vec![at_rest(100_000, 0), at_rest(-350_000, 0)];
    tick(&mut agents, 16, 5000);
    assert_eq!(agents, vec![at_rest(100_000, 0), at_rest(-350_000, 0)]);
}

#[test]
fn fast_agent_is_slowed_to_max_speed() {
    let mut agents = vec![agent(v(0, 0, 0), v(300_000, 400_000, 0), v(0, 1000, 0))];
    tick(&mut agents, 10, 0);
    assert_eq!(agents[0].velocity, v(120_000, 160_000, 0));
    assert_eq!(agents[0].position, v(1200, 1600, 0));
    assert_eq!(agents[0].heading, v(120_000, 160_000, 0));
}

#[test]
fn separation_pushes_apart_symmetrically() {
    let mut agents = vec![at_rest(0, 0), at_rest(10_000, 0)];
    tick(&mut agents, 100, 0);
    assert_eq!(agents[0].velocity, v(-1000, 0, 0));
    assert_eq!(agents[1].velocity, v(1000, 0, 0));
    assert_eq!(agents[0].position, v(-100, 0, 0));
    assert_eq!(agents[1].position, v(10_100, 0, 0));
}

#[test]
fn alignment_pulls_velocities_together() {
    let mut agents = vec![
        agent(v(0, 0, 0), v(1000, 0, 0), v(1000, 0, 0)),
        agent(v(250_000, 0, 0), v(-1000, 0, 0), v(-1000, 0, 0)),
    ];
    tick(&mut agents, 1000, 0);
    assert_eq!(agents[0].velocity, v(875, 0, 0));
    assert_eq!(agents[1].velocity, v(-875, 0, 0));
    assert_eq!(agents[0].position, v(875, 0, 0));
    assert_eq!(agents[1].position, v(249_125, 0, 0));
}

#[test]
fn alignment_moves_each_toward_the_average() {
    let mut agents = vec![
        agent(v(0, 0, 0), v(10_000, 0, 0), v(1000, 0, 0)),
        agent(v(250_000, 0, 0), v(0, 0, 0), v(0, 1000, 0)),
    ];
    tick(&mut agents, 1000, 0);
    assert_eq!(agents[0].velocity, v(9375, 0, 0));
    assert_eq!(agents[1].velocity, v(625, 0, 0));
}

#[test]
fn alignment_converges_over_ticks() {
    let mut agents = vec![
        agent(v(0, 0, 0), v(10_000, 0, 0), v(1000, 0, 0)),
        agent(v(250_000, 0, 0), v(0, 0, 0), v(0, 1000, 0)),
    ];
    let mut gap = 10_000;
    for step in 0..30u32 {
        tick(&mut agents, 16, step * 16);
        let next = agents[0].velocity.x - agents[1].velocity.x;
        assert!(0 <= next && next < gap);
        assert_eq!(agents[0].velocity.x + agents[1].velocity.x, 10_000);
        gap = next;
    }
}

#[test]
fn cohesion_scales_with_elapsed_time() {
    let mut agents = vec![at_rest(0, 0), at_rest(100_000, 0)];
    tick(&mut agents, 0, 2000);
    assert_eq!(agents[0].velocity, v(100, 0, 0));
    assert_eq!(agents[1].velocity, v(-100, 0, 0));
    assert_eq!(agents[0].position, v(0, 0, 0));
    assert_eq!(agents[0].heading, v(100, 0, 0));
}

#[test]
fn centering_pulls_a_distant_agent_back() {
    let mut agents = vec![at_rest(1_000_000, 0)];
    tick(&mut agents, 0, 1000);
    assert_eq!(agents[0].velocity, v(-500, 0, 0));
    assert_eq!(agents[0].position, v(1_000_000, 0, 0));
}

#[test]
fn stopping_agent_keeps_heading() {
    let mut agents = vec![
        agent(v(0, 0, 0), v(1000, 0, 0), v(1000, 0, 0)),
        agent(v(10_000, 0, 0), v(0, 0, 0), v(0, 1000, 0)),
    ];
    tick(&mut agents, 100, 0);
    assert_eq!(agents[0].velocity, v(0, 0, 0));
    assert_eq!(agents[0].heading, v(1000, 0, 0));
    assert_eq!(agents[1].velocity, v(1000, 0, 0));
    assert_eq!(agents[1].heading, v(1000, 0, 0));
}

#[test]
fn positions_saturate_at_the_limit() {
    let mut agents = vec![agent(v(COORD_LIMIT, 0, 0), v(MAX_SPEED, 0, 0), v(1000, 0, 0))];
    tick(&mut agents, 1000, 0);
    assert_eq!(agents[0].position, v(COORD_LIMIT, 0, 0));
    assert_eq!(agents[0].velocity, v(MAX_SPEED, 0, 0));
}

#[test]
fn repeated_runs_agree() {
    let mut a = seed_population(4, 8000);
    a[3].velocity = v(150_000, -20_000, 0);
    let mut b = a.clone();
    for step in 0..20u32 {
        tick(&mut a, 16, step * 16);
        tick(&mut b, 16, step * 16);
    }
    assert_eq!(a, b);
}

#[test]
fn speeds_stay_bounded() {
    let mut agents = seed_population(5, 8000);
    agents[0].velocity = v(190_000, 60_000, 0);
    agents[7].velocity = v(-150_000, 150_000, 0);
    agents.push(agent(v(900_000, -700_000, 0), v(0, 0, 0), v(0, 1000, 0)));
    let limit = (MAX_SPEED as i128) * (MAX_SPEED as i128);
    for step in 0..40u32 {
        tick(&mut agents, 50, 2000 + step * 50);
        for a in &agents {
            assert!(speed_squared(a) <= limit);
        }
    }
}

#[test]
fn square_root_rounds_up() {
    assert_eq!(ceil_sqrt_u64(0), 0);
    assert_eq!(ceil_sqrt_u64(1), 1);
    assert_eq!(ceil_sqrt_u64(10), 4);
    assert_eq!(ceil_sqrt_u64(16), 4);
    assert_eq!(ceil_sqrt_u64(250_000_000_000), 500_000);
    assert_eq!(ceil_sqrt_u64(u64::MAX), 0x1_0000_0000);
}

#[test]
fn reflect_reverses_and_clamps_at_the_edge() {
    let mut agents = vec![agent(v(0, 0, 0), v(100_000, -50_000, 0), v(0, 1000, 0))];
    let boundary = Boundary::Reflect { min: v(-60_000, -50_000, 0), max: v(60_000, 50_000, 0) };
    tick_with_boundary(&mut agents, 1000, 0, boundary);
    assert_eq!(agents[0].position, v(60_000, -50_000, 0));
    assert_eq!(agents[0].velocity, v(-100_000, -50_000, 0));
    assert_eq!(agents[0].heading, v(100_000, -50_000, 0));
}

#[test]
fn reflect_mode_has_no_centering() {
    let mut agents = vec![at_rest(1_000_000, 0)];
    let boundary = Boundary::Reflect { min: v(-2_000_000, -2_000_000, 0), max: v(2_000_000, 2_000_000, 0) };
    tick_with_boundary(&mut agents, 16, 1000, boundary);
    assert_eq!(agents, vec![at_rest(1_000_000, 0)]);
}

#[test]
fn centering_mode_matches_tick() {
    let mut a = seed_population(3, 30_000);
    a[2].velocity = v(40_000, 0, 0);
    let mut b = a.clone();
    tick(&mut a, 16, 700);
    tick_with_boundary(&mut b, 16, 700, Boundary::Centering);
    assert_eq!(a, b);
}
