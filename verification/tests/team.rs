use prana::kernels::pool::{execute_chunks, global, run_mode, worker_look, Job, Look, Pool, RunMode};
use prana::kernels::simd::{available, available_vnni, Tier};
use prana::kernels::team::{
    chunk_rows, is_worth_splitting, team_fill_rows, team_fill_rows_weighted, team_fill_slices, Team, TeamCell, TeamCtx,
    Wait,
};
use std::sync::atomic::{AtomicUsize, Ordering};

#[test]
fn cell_guards_enforce_the_protocol() {
    let mut cell = TeamCell::new(vec![0f32; 8]);
    {
        let w = cell.get_mut().unwrap();
        cell.value_mut(&w)[3] = 7.0;
        cell.release_mut(w);
    }
    let r1 = cell.read().unwrap();
    let r2 = cell.read().unwrap();
    assert_eq!(cell.get(&r1)[3], 7.0);
    assert_eq!(cell.get(&r2)[3], 7.0);
    cell.release(r1);
    cell.release(r2);
    let w = cell.get_mut().unwrap();
    assert_eq!(cell.value_mut(&w)[3], 7.0);
}

#[test]
fn cell_refuses_a_writer_while_reading() {
    let mut cell = TeamCell::new(0u32);
    let r = cell.read().unwrap();
    assert!(cell.get_mut().is_none());
    cell.release(r);
    let w = cell.get_mut().unwrap();
    assert!(cell.get_mut().is_none());
    assert!(cell.read().is_none());
    cell.set(&w, 5);
    cell.release_mut(w);
    let r = cell.read().unwrap();
    assert_eq!(*cell.get(&r), 5);
}

#[test]
fn team_of_one_runs_everything_inline() {
    let mut ctx = TeamCtx::new(1);
    let team = Team::new(0, &ctx);
    let mut hits = 0;
    assert_eq!(team.barrier(&mut ctx), None);
    if team.serial() {
        hits += 1;
    }
    let mut c = team.for_chunks(&mut ctx);
    while c < 5 {
        hits += 1;
        c = ctx.claim() as usize;
    }
    assert_eq!(hits, 6);
}

#[test]
fn a_barrier_opens_for_the_last_to_arrive() {
    let mut ctx = TeamCtx::new(3);
    let team: Vec<Team> = (0..3).map(|i| Team::new(i, &ctx)).collect();
    let a = team[2].barrier(&mut ctx).unwrap();
    let b = team[0].barrier(&mut ctx).unwrap();
    assert_eq!(ctx.poll(a), Wait::Spin);
    assert_eq!(team[1].barrier(&mut ctx), None);
    assert_eq!(ctx.poll(a), Wait::Proceed);
    // A fast member at the next barrier does not hold back a slow one at this.
    let c = team[2].barrier(&mut ctx).unwrap();
    assert_eq!(ctx.poll(b), Wait::Proceed);
    assert_eq!(ctx.poll(c), Wait::Spin);
    // A failed member never arrives: those that wait give up.
    ctx.poison();
    assert_eq!(ctx.poll(c), Wait::Fail);
    assert_eq!(ctx.poll(b), Wait::Proceed);
}

#[test]
fn a_serial_section_is_run_by_one_member_while_the_others_wait() {
    let mut ctx = TeamCtx::new(3);
    let team: Vec<Team> = (0..3).map(|i| Team::new(i, &ctx)).collect();
    let mut runs = 0;
    // Every member arrives at the barrier before the section.
    let waits: Vec<_> = [1, 0, 2].iter().map(|&i| team[i].barrier(&mut ctx)).collect();
    assert!(waits[0].is_some() && waits[1].is_some() && waits[2].is_none());
    // The others go to the barrier behind it, which stays closed.
    let one = team[1].barrier(&mut ctx).unwrap();
    let two = team[2].barrier(&mut ctx).unwrap();
    for t in &team {
        if t.serial() {
            assert_eq!((ctx.poll(one), ctx.poll(two)), (Wait::Spin, Wait::Spin));
            runs += 1;
        }
    }
    assert_eq!(team[0].barrier(&mut ctx), None);
    assert_eq!((ctx.poll(one), ctx.poll(two)), (Wait::Proceed, Wait::Proceed));
    assert_eq!(runs, 1);
}

#[test]
fn stolen_chunks_cover_every_index_once() {
    let mut ctx = TeamCtx::new(4);
    let mut held: Vec<usize> = (0..4).rev().map(|i| Team::new(i, &ctx).for_chunks(&mut ctx)).collect();
    let mut hits = vec![0; 37];
    // Members take turns of uneven length.
    let mut turn = 0;
    while held.iter().any(|&c| c < hits.len()) {
        let m = (turn * 7 + turn / 3) % 4;
        if held[m] < hits.len() {
            hits[held[m]] += 1;
            held[m] = ctx.claim() as usize;
        }
        turn += 1;
    }
    assert!(hits.iter().all(|&h| h == 1));
}

/// A member on its way through operations of shared rows.
struct Walker {
    team: Team,
    op: usize,
    /// Past the barrier that starts the operation.
    working: bool,
    chunk: usize,
    waits: Option<u32>,
}

#[test]
fn members_in_any_order_compute_what_one_thread_does() {
    let (nth, n_rows, n_ops) = (3usize, 100usize, 4usize);
    let row = |before: &[u32], r: usize| before[(r * 7 + 3) % n_rows].wrapping_mul(31).wrapping_add(r as u32);
    let mut want: Vec<Vec<u32>> = vec![(0..n_rows as u32).collect()];
    for o in 0..n_ops {
        let next: Vec<u32> = (0..n_rows).map(|r| row(&want[o], r)).collect();
        want.push(next);
    }
    let rows = chunk_rows(n_rows, nth);
    let n_chunks = n_rows.div_ceil(rows);
    for seed in 1..20u64 {
        let mut ctx = TeamCtx::new(nth);
        let mut walkers: Vec<Walker> = (0..nth)
            .map(|i| Walker { team: Team::new(i, &ctx), op: 0, working: false, chunk: 0, waits: None })
            .collect();
        let mut results = vec![vec![0u32; n_rows]; n_ops + 1];
        results[0] = want[0].clone();
        let mut order = seed;
        while walkers.iter().any(|w| w.op < n_ops) {
            order = order.wrapping_mul(6364136223846793005).wrapping_add(1442695040888963407);
            let w = &mut walkers[(order >> 33) as usize % nth];
            if let Some(generation) = w.waits {
                if ctx.poll(generation) == Wait::Spin {
                    continue;
                }
                w.waits = None;
            } else if w.op == n_ops {
                continue;
            } else if !w.working {
                w.chunk = w.team.for_chunks(&mut ctx);
                w.waits = w.team.barrier(&mut ctx);
                w.working = true;
            } else if w.chunk < n_chunks {
                for r in w.chunk * rows..n_rows.min((w.chunk + 1) * rows) {
                    let v = row(&results[w.op], r);
                    results[w.op + 1][r] = v;
                }
                w.chunk = ctx.claim() as usize;
            } else {
                w.waits = w.team.barrier(&mut ctx);
                w.working = false;
                w.op += 1;
            }
        }
        assert_eq!(results, want);
    }
}

#[test]
fn rows_and_slices_are_filled_in_whole() {
    let square = |r: usize| (r * r) as u32;
    for (n, macs) in [(5, 1), (100, 1), (100, 1000), (1000, 4096)] {
        let mut out = vec![1u32; n + 3];
        team_fill_rows_weighted(3, &mut out, n, macs, &square);
        assert!((0..n).all(|r| out[r] == (r * r) as u32));
        assert_eq!(out[n..], [1, 1, 1]);
    }
    let mut out = vec![0u32; 40];
    team_fill_rows(2, &mut out, 40, &square);
    assert_eq!(out[39], 39 * 39);
    let slice = |i: usize| vec![i as u32, 10 * i as u32];
    let mut out = vec![9u32; 7];
    team_fill_slices(&mut out, 3, 2, &slice);
    assert_eq!(out, vec![0, 0, 1, 10, 2, 20, 9]);
}

#[test]
fn chunks_hold_at_least_sixteen_rows() {
    assert_eq!(chunk_rows(100, 4), 16);
    assert_eq!(chunk_rows(1000, 4), 63);
    assert!(!is_worth_splitting(16, 2047));
    assert!(is_worth_splitting(16, 2048));
}

#[test]
fn covers_every_chunk_exactly_once_across_reuse() {
    let pool = global(Some(4));
    for round in 0..300 {
        let n = 1 + (round % 13);
        let hits: Vec<AtomicUsize> = (0..n).map(|_| AtomicUsize::new(0)).collect();
        pool.run(n, &|i: usize| {
            hits[i].fetch_add(1, Ordering::Relaxed);
        });
        assert!(hits.iter().all(|h| h.load(Ordering::Relaxed) == 1), "round {round}");
    }
}

#[test]
fn borrowed_output_is_visible_after_run() {
    let pool = global(Some(4));
    let out: Vec<AtomicUsize> = (0..64).map(|_| AtomicUsize::new(0)).collect();
    pool.run(8, &|c: usize| {
        for (i, v) in out.iter().enumerate().skip(c * 8).take(8) {
            v.store(i * 3, Ordering::Relaxed);
        }
    });
    for (i, v) in out.iter().enumerate() {
        assert_eq!(v.load(Ordering::Relaxed), i * 3);
    }
}

#[test]
fn every_member_of_a_team_is_visited_once() {
    let pool = Pool { threads: 5 };
    let hits: Vec<AtomicUsize> = (0..5).map(|_| AtomicUsize::new(0)).collect();
    pool.run_team(&|ith: usize| {
        hits[ith].fetch_add(1, Ordering::Relaxed);
    });
    assert!(hits.iter().all(|h| h.load(Ordering::Relaxed) == 1));
}

#[test]
fn run_team_visits_every_member_once_and_barriers_work() {
    for _ in 0..50 {
        let pool = global(Some(4));
        let nth = pool.threads;
        let seen = std::sync::Mutex::new(Vec::new());
        let sum = AtomicUsize::new(0);
        pool.run_team(&|ith: usize| {
            seen.lock().unwrap().push(ith);
            sum.fetch_add(1, Ordering::Relaxed);
        });
        assert_eq!(sum.load(Ordering::Relaxed), nth);
        let mut ids = seen.into_inner().unwrap();
        ids.sort_unstable();
        assert_eq!(ids, (0..nth).collect::<Vec<_>>());
        // A barrier that the members reach one after the other.
        let mut ctx = TeamCtx::new(nth);
        let waits: Vec<Option<u32>> = ids.iter().map(|&i| Team::new(i, &ctx).barrier(&mut ctx)).collect();
        assert!(waits[..nth - 1].iter().all(|w| ctx.poll(w.unwrap()) == Wait::Proceed));
        assert_eq!(waits[nth - 1], None);
    }
}

#[test]
fn a_job_is_done_when_all_its_chunks_are() {
    let mut job = Job::new(3, false);
    let a = job.claim().unwrap();
    let b = job.claim().unwrap();
    assert_eq!((a, b), (0, 1));
    job.finish(false);
    let c = job.claim().unwrap();
    assert_eq!(c, 2);
    assert_eq!(job.claim(), None);
    assert!(!job.is_done());
    job.finish(true);
    job.finish(false);
    assert!(job.is_done());
    assert!(job.has_failed());
}

#[test]
fn a_thread_holds_one_membership_of_a_team_job() {
    let mut job = Job::new(2, true);
    assert!(!job.shares_out());
    let seen = AtomicUsize::new(0);
    execute_chunks(&mut job, &|i: usize| {
        seen.fetch_add(i + 1, Ordering::Relaxed);
    });
    assert_eq!(seen.load(Ordering::Relaxed), 1);
    assert!(!job.is_done());
    execute_chunks(&mut job, &|i: usize| {
        seen.fetch_add(i + 1, Ordering::Relaxed);
    });
    assert_eq!(seen.load(Ordering::Relaxed), 3);
    assert!(job.is_done());
}

#[test]
fn runs_are_inline_where_helpers_have_nothing_to_do() {
    assert_eq!(run_mode(0, 4), RunMode::Nothing);
    assert_eq!(run_mode(1, 4), RunMode::Inline);
    assert_eq!(run_mode(9, 1), RunMode::Inline);
    assert_eq!(run_mode(9, 4), RunMode::Dispatch);
}

#[test]
fn workers_spin_before_they_park() {
    assert_eq!(worker_look(3, 4, 0), Look::Work);
    assert_eq!(worker_look(3, 3, 199_999), Look::Spin);
    assert_eq!(worker_look(3, 3, 200_000), Look::Park);
}

#[test]
fn tiers_need_all_their_features() {
    assert!(available(true, true));
    assert!(!available(true, false));
    assert!(!available_vnni(false, true, true));
    assert_eq!(Tier::best(true, true, true).name(), "AVX2+FMA+AVX-VNNI");
    assert_eq!(Tier::best(true, true, false).name(), "AVX2+FMA");
    assert_eq!(Tier::best(true, false, true).name(), "scalar");
}
