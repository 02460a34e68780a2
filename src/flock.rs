//! A flock of agents and the tick that advances it: every unordered pair is
//! evaluated once, in the order `(0, 1), (0, 2), .., (1, 2), ..`, then each
//! agent is centered and speed-limited, then every agent moves.
use vstd::prelude::*;
use crate::fixed::{is_zero, norm2, Vec3, COORD_LIMIT, SCALE};
use crate::rules::{
    bounded_by, bounded_by_exec, finished, finished_exec, integrated, integrated_exec, sq,
    steer_pair, steer_pair_exec, wf_agent, wf_boundary, with_velocity, Agent, Boundary, MAX_SPEED,
};

verus! {

/// Agents per side of the seeded grid.
pub const GRID_SIZE: u32 = 30;

/// Distance between neighbouring seeded agents (eight world units).
pub const GRID_SPACING: u32 = 8000;

pub open spec fn wf_agents(s: Seq<Agent>) -> bool {
    forall|k: int| 0 <= k < s.len() ==> #[trigger] wf_agent(s[k])
}

/// The flock after the pair `(i, j)` is evaluated.
pub open spec fn pair_step(s: Seq<Agent>, i: int, j: int, dt: int, t: int) -> Seq<Agent> {
    let (va, vb) = steer_pair(s[i], s[j], dt, t);
    s.update(i, with_velocity(s[i], va)).update(j, with_velocity(s[j], vb))
}

/// The flock after the pairs `(i, i + 1), .., (i, j - 1)`.
pub open spec fn row_pass(s: Seq<Agent>, i: int, j: int, dt: int, t: int) -> Seq<Agent>
    decreases j - i,
{
    if j <= i + 1 {
        s
    } else {
        pair_step(row_pass(s, i, j - 1, dt, t), i, j - 1, dt, t)
    }
}

/// The flock after every pair whose first index is below `i`.
pub open spec fn pair_pass(s: Seq<Agent>, i: int, dt: int, t: int) -> Seq<Agent>
    decreases i,
{
    if i <= 0 {
        s
    } else {
        let p = pair_pass(s, i - 1, dt, t);
        row_pass(p, i - 1, p.len() as int, dt, t)
    }
}

/// The flock after the whole interaction pass.
pub open spec fn interaction(s: Seq<Agent>, dt: int, t: int, b: Boundary) -> Seq<Agent> {
    let p = pair_pass(s, s.len() as int, dt, t);
    Seq::new(p.len(), |k: int| finished(p[k], t, b))
}

/// The flock after one tick of `dt` milliseconds at total elapsed time `t`,
/// kept in its region by `b`.
pub open spec fn tick_result(s: Seq<Agent>, dt: int, t: int, b: Boundary) -> Seq<Agent> {
    let q = interaction(s, dt, t, b);
    Seq::new(q.len(), |k: int| bounded_by(integrated(q[k], dt), b))
}

/// The flock after one tick for each `(dt, t)` of `steps`, in order.
pub open spec fn run(s: Seq<Agent>, steps: Seq<(u32, u32)>, b: Boundary) -> Seq<Agent>
    decreases steps.len(),
{
    if steps.len() == 0 {
        s
    } else {
        run(tick_result(s, steps[0].0 as int, steps[0].1 as int, b), steps.drop_first(), b)
    }
}

/// The pair `(i, j)` changes only the velocities of agents `i` and `j`.
pub proof fn lemma_pair_step_frame(s: Seq<Agent>, i: int, j: int, dt: int, t: int)
    requires
        wf_agents(s),
        0 <= i < j < s.len(),
        dt >= 0,
        t >= 0,
    ensures
        ({
            let r = pair_step(s, i, j, dt, t);
            &&& r.len() == s.len()
            &&& wf_agents(r)
            &&& forall|k: int| 0 <= k < s.len() ==> (#[trigger] r[k]).position == s[k].position
                && r[k].heading == s[k].heading
            &&& forall|k: int| 0 <= k < s.len() && k != i && k != j ==> #[trigger] r[k] == s[k]
        }),
{
    crate::rules::lemma_steer_pair_wf(s[i], s[j], dt, t);
    let r = pair_step(s, i, j, dt, t);
    assert(wf_agent(s[i]) && wf_agent(s[j]));
    assert forall|k: int| 0 <= k < r.len() implies #[trigger] wf_agent(r[k]) by {
        if k != i && k != j {
            assert(wf_agent(s[k]));
        }
    }
}

pub proof fn lemma_row_pass_frame(s: Seq<Agent>, i: int, j: int, dt: int, t: int)
    requires
        wf_agents(s),
        0 <= i < s.len(),
        j <= s.len(),
        dt >= 0,
        t >= 0,
    ensures
        ({
            let r = row_pass(s, i, j, dt, t);
            &&& r.len() == s.len()
            &&& wf_agents(r)
            &&& forall|k: int| 0 <= k < s.len() ==> (#[trigger] r[k]).position == s[k].position
                && r[k].heading == s[k].heading
        }),
    decreases j - i,
{
    if j > i + 1 {
        lemma_row_pass_frame(s, i, j - 1, dt, t);
        lemma_pair_step_frame(row_pass(s, i, j - 1, dt, t), i, j - 1, dt, t);
    }
}

pub proof fn lemma_pair_pass_frame(s: Seq<Agent>, i: int, dt: int, t: int)
    requires
        wf_agents(s),
        i <= s.len(),
        dt >= 0,
        t >= 0,
    ensures
        ({
            let r = pair_pass(s, i, dt, t);
            &&& r.len() == s.len()
            &&& wf_agents(r)
            &&& forall|k: int| 0 <= k < s.len() ==> (#[trigger] r[k]).position == s[k].position
                && r[k].heading == s[k].heading
        }),
    decreases i,
{
    if i > 0 {
        lemma_pair_pass_frame(s, i - 1, dt, t);
        let p = pair_pass(s, i - 1, dt, t);
        lemma_row_pass_frame(p, i - 1, p.len() as int, dt, t);
    }
}

fn interaction_pass(agents: &mut Vec<Agent>, dt: u32, t: u32, b: Boundary)
    requires
        wf_agents(old(agents)@),
    ensures
        final(agents)@ == interaction(old(agents)@, dt as int, t as int, b),
        wf_agents(final(agents)@),
        forall|k: int|
            0 <= k < final(agents)@.len() ==> norm2((#[trigger] final(agents)@[k]).velocity) <= sq(
                MAX_SPEED as int,
            ),
{
    let ghost s0 = agents@;
    let n = agents.len();
    let mut i: usize = 0;
    while i < n
        invariant
            i <= n,
            n == agents.len(),
            s0.len() == n,
            agents@ == pair_pass(s0, i as int, dt as int, t as int),
            wf_agents(agents@),
        decreases n - i,
    {
        let ghost p = agents@;
        let mut j: usize = i + 1;
        while j < n
            invariant
                i < n,
                i + 1 <= j <= n,
                n == agents.len(),
                p.len() == n,
                p == pair_pass(s0, i as int, dt as int, t as int),
                agents@ == row_pass(p, i as int, j as int, dt as int, t as int),
                wf_agents(agents@),
            decreases n - j,
        {
            let a = agents[i];
            let b = agents[j];
            assert(wf_agent(agents@[i as int]) && wf_agent(agents@[j as int]));
            let (va, vb) = steer_pair_exec(a, b, dt, t);
            agents.set(i, Agent { position: a.position, velocity: va, heading: a.heading });
            agents.set(j, Agent { position: b.position, velocity: vb, heading: b.heading });
            assert forall|k: int| 0 <= k < agents@.len() implies #[trigger] wf_agent(agents@[k]) by {
                if k != i && k != j {
                    assert(wf_agent(row_pass(p, i as int, j as int, dt as int, t as int)[k]));
                }
            }
            j += 1;
        }
        i += 1;
    }
    let ghost p = agents@;
    let mut k: usize = 0;
    while k < n
        invariant
            k <= n,
            n == agents.len(),
            p.len() == n,
            p == pair_pass(s0, n as int, dt as int, t as int),
            wf_agents(p),
            forall|m: int| 0 <= m < k ==> #[trigger] agents@[m] == finished(p[m], t as int, b),
            forall|m: int| k <= m < n ==> #[trigger] agents@[m] == p[m],
            forall|m: int| 0 <= m < k ==> norm2((#[trigger] agents@[m]).velocity) <= sq(MAX_SPEED as int),
            wf_agents(agents@),
        decreases n - k,
    {
        let a = agents[k];
        let r = finished_exec(a, t, b);
        agents.set(k, r);
        k += 1;
    }
    assert(agents@ =~= interaction(s0, dt as int, t as int, b));
}

fn integration_pass(agents: &mut Vec<Agent>, dt: u32, b: Boundary)
    requires
        wf_agents(old(agents)@),
        wf_boundary(b),
    ensures
        final(agents)@ == Seq::new(
            old(agents)@.len(),
            |k: int| bounded_by(integrated(old(agents)@[k], dt as int), b),
        ),
        wf_agents(final(agents)@),
{
    let ghost s0 = agents@;
    let n = agents.len();
    let mut k: usize = 0;
    while k < n
        invariant
            k <= n,
            n == agents.len(),
            s0.len() == n,
            wf_agents(s0),
            wf_boundary(b),
            forall|m: int|
                0 <= m < k ==> #[trigger] agents@[m] == bounded_by(integrated(s0[m], dt as int), b),
            forall|m: int| k <= m < n ==> #[trigger] agents@[m] == s0[m],
            wf_agents(agents@),
        decreases n - k,
    {
        let a = agents[k];
        let r = bounded_by_exec(integrated_exec(a, dt), b);
        agents.set(k, r);
        k += 1;
    }
    assert(agents@ =~= Seq::new(s0.len(), |k: int| bounded_by(integrated(s0[k], dt as int), b)));
}

/// Advances the flock by one tick of `dt` milliseconds, `elapsed` being the
/// total simulated time in milliseconds: the interaction pass over every
/// pair, then the per-agent boundary force and speed limit, then the
/// movement and, where `boundary` reflects, the reflection.
pub fn tick_with_boundary(agents: &mut Vec<Agent>, dt: u32, elapsed: u32, boundary: Boundary)
    requires
        wf_agents(old(agents)@),
        wf_boundary(boundary),
    ensures
        final(agents)@ == tick_result(old(agents)@, dt as int, elapsed as int, boundary),
        final(agents)@.len() == old(agents)@.len(),
        wf_agents(final(agents)@),
        forall|k: int|
            0 <= k < final(agents)@.len() ==> norm2((#[trigger] final(agents)@[k]).velocity) <= sq(
                MAX_SPEED as int,
            ),
        forall|k: int|
            0 <= k < final(agents)@.len() && is_zero((#[trigger] final(agents)@[k]).velocity)
                ==> final(agents)@[k].heading == old(agents)@[k].heading,
{
    let ghost s0 = agents@;
    proof {
        lemma_pair_pass_frame(s0, s0.len() as int, dt as int, elapsed as int);
    }
    interaction_pass(agents, dt, elapsed, boundary);
    let ghost q = agents@;
    integration_pass(agents, dt, boundary);
    assert forall|k: int| 0 <= k < agents@.len() implies norm2((#[trigger] agents@[k]).velocity) <= sq(
        MAX_SPEED as int,
    ) by {
        assert(agents@[k] == bounded_by(integrated(q[k], dt as int), boundary));
        assert(wf_agent(integrated(q[k], dt as int)) && norm2(q[k].velocity) <= sq(MAX_SPEED as int));
        crate::rules::lemma_bounded_by_keeps_speed(integrated(q[k], dt as int), boundary);
    }
    assert forall|k: int|
        0 <= k < agents@.len() && is_zero((#[trigger] agents@[k]).velocity) implies agents@[k].heading
        == s0[k].heading by {
        assert(agents@[k] == bounded_by(integrated(q[k], dt as int), boundary));
        assert(wf_agent(q[k]));
        assert(wf_agent(integrated(q[k], dt as int)));
        crate::rules::lemma_bounded_by_keeps_speed(integrated(q[k], dt as int), boundary);
    }
}

/// Advances the flock by one tick, keeping it near the origin by the
/// centering force.
pub fn tick(agents: &mut Vec<Agent>, dt: u32, elapsed: u32)
    requires
        wf_agents(old(agents)@),
    ensures
        final(agents)@ == tick_result(old(agents)@, dt as int, elapsed as int, Boundary::Centering),
        final(agents)@.len() == old(agents)@.len(),
        wf_agents(final(agents)@),
        forall|k: int|
            0 <= k < final(agents)@.len() ==> norm2((#[trigger] final(agents)@[k]).velocity) <= sq(
                MAX_SPEED as int,
            ),
        forall|k: int|
            0 <= k < final(agents)@.len() && is_zero((#[trigger] final(agents)@[k]).velocity)
                ==> final(agents)@[k].heading == old(agents)@[k].heading,
        forall|k: int|
            0 <= k < final(agents)@.len() && !is_zero((#[trigger] final(agents)@[k]).velocity)
                ==> final(agents)@[k].heading == final(agents)@[k].velocity,
{
    let ghost s0 = agents@;
    tick_with_boundary(agents, dt, elapsed, Boundary::Centering);
    assert forall|k: int|
        0 <= k < agents@.len() && !is_zero((#[trigger] agents@[k]).velocity) implies agents@[k].heading
        == agents@[k].velocity by {
        let q = interaction(s0, dt as int, elapsed as int, Boundary::Centering);
        assert(agents@[k] == integrated(q[k], dt as int));
    }
}

/// The direction a seeded agent faces: the positive `y` axis.
pub open spec fn forward() -> Vec3 {
    Vec3 { x: 0, y: SCALE, z: 0 }
}

/// The seeded agent in row `row` and column `col` of a grid whose
/// neighbours are `spacing` apart: at rest, facing forward.
pub open spec fn seeded_agent(row: int, col: int, spacing: int) -> Agent {
    Agent {
        position: Vec3 { x: (row * spacing) as i64, y: (col * spacing) as i64, z: 0 },
        velocity: Vec3 { x: 0, y: 0, z: 0 },
        heading: forward(),
    }
}

/// A `grid_size` by `grid_size` grid of agents at rest, `spacing` apart,
/// listed row by row: agent `row * grid_size + col` stands at
/// `(row * spacing, col * spacing, 0)`.
pub fn seed_population(grid_size: u32, spacing: u32) -> (r: Vec<Agent>)
    requires
        (grid_size - 1) * spacing <= COORD_LIMIT,
        grid_size * grid_size <= usize::MAX,
    ensures
        r@.len() == grid_size * grid_size,
        forall|k: int|
            0 <= k < r@.len() ==> #[trigger] r@[k] == seeded_agent(
                k / grid_size as int,
                k % grid_size as int,
                spacing as int,
            ),
        wf_agents(r@),
{
    let g = grid_size as usize;
    let mut r: Vec<Agent> = Vec::new();
    let mut x: u32 = 0;
    while x < grid_size
        invariant
            x <= grid_size,
            g == grid_size,
            (grid_size - 1) * spacing <= COORD_LIMIT,
            grid_size * grid_size <= usize::MAX,
            r@.len() == x * grid_size,
            forall|k: int|
                0 <= k < r@.len() ==> #[trigger] r@[k] == seeded_agent(
                    k / grid_size as int,
                    k % grid_size as int,
                    spacing as int,
                ),
            wf_agents(r@),
        decreases grid_size - x,
    {
        assert(0 <= (x as int) * (spacing as int) <= COORD_LIMIT) by (nonlinear_arith)
            requires x < grid_size, (grid_size - 1) * spacing <= COORD_LIMIT;
        let px: i64 = x as i64 * spacing as i64;
        let mut y: u32 = 0;
        while y < grid_size
            invariant
                y <= grid_size,
                x < grid_size,
                g == grid_size,
                (grid_size - 1) * spacing <= COORD_LIMIT,
                grid_size * grid_size <= usize::MAX,
                px == x * spacing,
                0 <= px <= COORD_LIMIT,
                r@.len() == x * grid_size + y,
                forall|k: int|
                    0 <= k < r@.len() ==> #[trigger] r@[k] == seeded_agent(
                        k / grid_size as int,
                        k % grid_size as int,
                        spacing as int,
                    ),
                wf_agents(r@),
            decreases grid_size - y,
        {
            assert(0 <= (y as int) * (spacing as int) <= COORD_LIMIT) by (nonlinear_arith)
                requires y < grid_size, (grid_size - 1) * spacing <= COORD_LIMIT;
            let py: i64 = y as i64 * spacing as i64;
            let a = Agent {
                position: Vec3 { x: px, y: py, z: 0 },
                velocity: Vec3 { x: 0, y: 0, z: 0 },
                heading: Vec3 { x: 0, y: SCALE, z: 0 },
            };
            proof {
                vstd::arithmetic::div_mod::lemma_fundamental_div_mod_converse(
                    r@.len() as int,
                    grid_size as int,
                    x as int,
                    y as int,
                );
                assert(x * grid_size + y < grid_size * grid_size) by (nonlinear_arith)
                    requires x < grid_size, y < grid_size;
            }
            r.push(a);
            assert forall|k: int| 0 <= k < r@.len() implies #[trigger] wf_agent(r@[k]) by {
                if k < r@.len() - 1 {
                    assert(wf_agent(r@.drop_last()[k]));
                }
            }
            y += 1;
        }
        assert(x * grid_size + grid_size == (x + 1) * grid_size) by (nonlinear_arith);
        x += 1;
    }
    r
}

} // verus!
