use buddhabrot::orbit::{calculate_bailout_iteration, calculate_iteration_values};
use buddhabrot::pipeline::{Drain, IterationRange, Worker};

type C = (f64, f64);

fn step(c: C) -> impl Fn(C) -> Option<C> {
    move |z: C| {
        let n = (z.0 * z.0 - z.1 * z.1 + c.0, 2.0 * z.0 * z.1 + c.1);
        if n == z {
            None
        } else {
            Some(n)
        }
    }
}

fn in_box(z: C) -> bool {
    -2.0 < z.0 && z.0 < 2.0 && -2.0 < z.1 && z.1 < 2.0
}

#[test]
fn escape_after_one_step() {
    let next = step((2.0, 0.0));
    assert_eq!(calculate_bailout_iteration(&next, &in_box, (0.0, 0.0), 100), Some(1));
    let mut out = Vec::new();
    calculate_iteration_values(&next, &in_box, (0.0, 0.0), 0, 100, &mut out);
    // 0 * 0 + 2 = 2 lies on the edge of the open box, so the orbit has left it.
    assert_eq!(out, vec![(2.0, 0.0)]);
}

#[test]
fn start_outside_escapes_at_zero() {
    let next = step((0.0, 0.0));
    assert_eq!(calculate_bailout_iteration(&next, &in_box, (3.0, 0.0), 10), Some(0));
    let mut out = Vec::new();
    calculate_iteration_values(&next, &in_box, (3.0, 0.0), 0, 10, &mut out);
    assert!(out.is_empty());
}

#[test]
fn fixed_point_replays_max_copies() {
    let next = step((0.0, 0.0));
    assert_eq!(calculate_bailout_iteration(&next, &in_box, (0.0, 0.0), 50), None);
    let mut out = Vec::new();
    calculate_iteration_values(&next, &in_box, (0.0, 0.0), 0, 7, &mut out);
    assert_eq!(out, vec![(0.0, 0.0); 7]);
}

#[test]
fn periodic_orbit_replay() {
    let next = step((-1.0, 0.0));
    assert_eq!(calculate_bailout_iteration(&next, &in_box, (0.0, 0.0), 1000), None);
    let mut out = Vec::new();
    calculate_iteration_values(&next, &in_box, (0.0, 0.0), 0, 5, &mut out);
    assert_eq!(out, vec![(-1.0, 0.0), (0.0, 0.0), (-1.0, 0.0), (0.0, 0.0), (-1.0, 0.0)]);
    assert_eq!(out.iter().filter(|z| **z == (-1.0, 0.0)).count(), 3);
    assert_eq!(out.iter().filter(|z| **z == (0.0, 0.0)).count(), 2);
}

#[test]
fn replay_skips_steps_below_min() {
    let next = step((-1.0, 0.0));
    let mut out = vec![(9.0, 9.0)];
    calculate_iteration_values(&next, &in_box, (0.0, 0.0), 3, 5, &mut out);
    assert_eq!(out, vec![(9.0, 9.0), (0.0, 0.0), (-1.0, 0.0)]);
}

#[test]
fn points_in_the_bulbs_do_not_escape() {
    for c in [(-1.0, 0.0), (-1.1, 0.1), (-0.1, 0.0), (0.2, 0.3), (-0.5, -0.4)] {
        let next = step(c);
        assert_eq!(calculate_bailout_iteration(&next, &in_box, (0.0, 0.0), 2000), None, "{:?}", c);
    }
}

/// A walk on the integers that leaves the box `[0, limit)` after `limit` steps.
fn counter_walk(z: u32) -> Option<u32> {
    Some(z + 1)
}

#[test]
fn bailout_counts_steps() {
    let inside = |z: u32| z < 7;
    assert_eq!(calculate_bailout_iteration(&counter_walk, &inside, 0, 100), Some(7));
    assert_eq!(calculate_bailout_iteration(&counter_walk, &inside, 0, 6), None);
    assert_eq!(calculate_bailout_iteration(&counter_walk, &inside, 0, 7), Some(7));
}

fn two_buckets() -> Worker<u32> {
    Worker::new(
        vec![
            IterationRange { min_iterations: 0, max_iterations: 10 },
            IterationRange { min_iterations: 10, max_iterations: 100 },
        ],
        1000,
    )
}

#[test]
fn orbits_go_to_their_bucket_only() {
    let mut worker = two_buckets();
    let inside = |z: u32| z < 7;
    assert_eq!(worker.process(&counter_walk, &inside, 0, 1000), Some(7));
    let batches = worker.finish();
    assert_eq!(batches.len(), 1);
    assert_eq!(batches[0].0, 0);
    assert_eq!(batches[0].1, vec![1, 2, 3, 4, 5, 6, 7]);

    let inside = |z: u32| z < 50;
    assert_eq!(worker.process(&counter_walk, &inside, 0, 1000), Some(50));
    let batches = worker.finish();
    assert_eq!(batches.len(), 1);
    assert_eq!(batches[0].0, 1);
    assert_eq!(batches[0].1, (11..=50).collect::<Vec<u32>>());
}

#[test]
fn bounded_orbits_record_nothing() {
    let mut worker = two_buckets();
    let inside = |_z: u32| true;
    assert_eq!(worker.process(&counter_walk, &inside, 0, 500), None);
    assert!(worker.finish().is_empty());
}

#[test]
fn full_caches_are_handed_off() {
    let mut worker = Worker::new(vec![IterationRange { min_iterations: 0, max_iterations: 100 }], 5);
    let inside = |z: u32| z < 3;
    worker.process(&counter_walk, &inside, 0, 100);
    assert!(worker.take_full().is_empty());
    worker.process(&counter_walk, &inside, 0, 100);
    let full = worker.take_full();
    assert_eq!(full, vec![(0, vec![1, 2, 3, 1, 2, 3])]);
    assert!(worker.take_full().is_empty());
    assert!(worker.finish().is_empty());
}

#[test]
fn same_samples_give_same_batches() {
    let run = || {
        let mut worker = two_buckets();
        let mut out = Vec::new();
        for limit in [3u32, 12, 40, 9, 99, 150] {
            let inside = move |z: u32| z < limit;
            worker.process(&counter_walk, &inside, 0, 120);
            out.extend(worker.take_full());
        }
        out.extend(worker.finish());
        out
    };
    let a = run();
    assert_eq!(a, run());
    let total: usize = a.iter().map(|(_, b)| b.len()).sum();
    assert_eq!(total, 3 + 2 + 30 + 9 + 89);
}

#[test]
fn drain_waits_for_every_worker() {
    let mut drain = Drain::new(2);
    assert!(!drain.is_done());
    assert!(!drain.on_sentinel());
    assert!(drain.on_sentinel());
    assert!(drain.is_done());
    assert_eq!(drain.sentinels(), 2);
    assert!(Drain::new(0).is_done());
}
