//! The orbit engine: escape-time counting and orbit replay over any point
//! type. `next` gives the successor of a point, or `None` when the point is
//! its own successor (a fixed point); `inside` tells whether a point lies in
//! the bailout box.
use vstd::prelude::*;

verus! {

/// `zs` is a walk that the iteration may take from `initial`: each point is
/// the successor of the one before, every point but the last lies inside the
/// box, and at most `max` steps were made.
pub open spec fn walked<Z, N: Fn(Z) -> Option<Z>, B: Fn(Z) -> bool>(
    next: N,
    inside: B,
    initial: Z,
    zs: Seq<Z>,
    max: int,
) -> bool {
    &&& zs.len() >= 1
    &&& zs[0] == initial
    &&& zs.len() - 1 <= max
    &&& forall|i: int|
        0 <= i < zs.len() - 1 ==> #[trigger] next.ensures((zs[i],), Some(zs[i + 1]))
    &&& forall|i: int| 0 <= i < zs.len() - 1 ==> #[trigger] inside.ensures((zs[i],), true)
}

/// `r` is the escape count of the orbit from `initial` with at most `max`
/// iterations: `Some(k)` when the `k`-th point is the first outside the box,
/// `None` when the orbit is still inside after `max` steps or has reached a
/// fixed point inside the box.
pub open spec fn bails_out_with<Z, N: Fn(Z) -> Option<Z>, B: Fn(Z) -> bool>(
    next: N,
    inside: B,
    initial: Z,
    max: int,
    r: Option<usize>,
) -> bool {
    exists|zs: Seq<Z>|
        {
            &&& #[trigger] walked(next, inside, initial, zs, max)
            &&& match r {
                Some(k) => k == zs.len() - 1 && inside.ensures((zs.last(),), false),
                None => inside.ensures((zs.last(),), true) && (zs.len() - 1 == max
                    || next.ensures((zs.last(),), None)),
            }
        }
}

/// The points that replaying the walk `zs` records for the iteration range
/// `[min, max)`: every successor whose step index is at least `min`, then, if
/// the walk ended on a fixed point, that point once for each remaining
/// iteration up to `max`.
pub open spec fn replay_points<Z>(zs: Seq<Z>, fixed: bool, min: int, max: int) -> Seq<Z> {
    let n = zs.len() - 1;
    (if min < n {
        zs.subrange(min + 1, n + 1)
    } else {
        Seq::empty()
    }) + (if fixed {
        Seq::new((max - n) as nat, |i: int| zs[n])
    } else {
        Seq::empty()
    })
}

/// `after` is `before` with the replay of the orbit from `initial` over
/// `[min, max)` appended.
pub open spec fn replays_to<Z, N: Fn(Z) -> Option<Z>, B: Fn(Z) -> bool>(
    next: N,
    inside: B,
    initial: Z,
    min: int,
    max: int,
    before: Seq<Z>,
    after: Seq<Z>,
) -> bool {
    exists|zs: Seq<Z>, fixed: bool|
        #![trigger replay_points(zs, fixed, min, max)]
        {
            &&& walked(next, inside, initial, zs, max)
            &&& fixed ==> inside.ensures((zs.last(),), true) && next.ensures((zs.last(),), None)
                && zs.len() - 1 < max
            &&& !fixed ==> inside.ensures((zs.last(),), false) || zs.len() - 1 == max
            &&& after == before + replay_points(zs, fixed, min, max)
        }
}

/// Iterates from `initial` until the orbit leaves the box, reaches a fixed
/// point, or has made `max_iterations` steps; returns the number of steps
/// after which it left the box, or `None` if it did not.
pub fn calculate_bailout_iteration<Z: Copy, N: Fn(Z) -> Option<Z>, B: Fn(Z) -> bool>(
    next: &N,
    inside: &B,
    initial: Z,
    max_iterations: usize,
) -> (r: Option<usize>)
    requires
        forall|z: Z| next.requires((z,)),
        forall|z: Z| inside.requires((z,)),
    ensures
        bails_out_with(*next, *inside, initial, max_iterations as int, r),
{
    let mut z = initial;
    let mut iterations: usize = 0;
    let mut ins = inside(z);
    let mut fixed = false;
    let ghost mut zs = seq![initial];
    while ins && iterations < max_iterations && !fixed
        invariant
            forall|z: Z| next.requires((z,)),
            forall|z: Z| inside.requires((z,)),
            zs.len() == iterations + 1,
            zs.last() == z,
            iterations <= max_iterations,
            zs[0] == initial,
            forall|i: int|
                0 <= i < zs.len() - 1 ==> #[trigger] next.ensures((zs[i],), Some(zs[i + 1])),
            forall|i: int| 0 <= i < zs.len() - 1 ==> #[trigger] inside.ensures((zs[i],), true),
            inside.ensures((z,), ins),
            fixed ==> ins && next.ensures((z,), None),
        decreases max_iterations - iterations + if fixed { 0int } else { 1int },
    {
        match next(z) {
            None => {
                fixed = true;
            },
            Some(new_z) => {
                proof {
                    let zs0 = zs;
                    zs = zs.push(new_z);
                    assert forall|i: int| 0 <= i < zs.len() - 1 implies #[trigger] next.ensures(
                        (zs[i],),
                        Some(zs[i + 1]),
                    ) by {
                        if i < zs0.len() - 1 {
                            assert(zs[i] == zs0[i] && zs[i + 1] == zs0[i + 1]);
                        }
                    }
                    assert forall|i: int| 0 <= i < zs.len() - 1 implies #[trigger] inside.ensures(
                        (zs[i],),
                        true,
                    ) by {
                        if i < zs0.len() - 1 {
                            assert(zs[i] == zs0[i]);
                        }
                    }
                }
                z = new_z;
                iterations += 1;
                ins = inside(z);
            },
        }
    }
    proof {
        assert(walked(*next, *inside, initial, zs, max_iterations as int));
    }
    if ins {
        None
    } else {
        Some(iterations)
    }
}

/// Appends `count` copies of `z` to `results`.
fn push_copies<Z: Copy>(results: &mut Vec<Z>, z: Z, count: usize)
    ensures
        final(results)@ == old(results)@ + Seq::new(count as nat, |i: int| z),
{
    let ghost start = results@;
    let mut k: usize = 0;
    while k < count
        invariant
            k <= count,
            results@ == start + Seq::new(k as nat, |i: int| z),
        decreases count - k,
    {
        results.push(z);
        k += 1;
        assert(results@ =~= start + Seq::new(k as nat, |i: int| z));
    }
}

/// Replays the orbit from `initial` and appends to `results` each point
/// reached at a step index of at least `min_iterations`, stopping when the
/// orbit leaves the box or after `max_iterations` steps. At a fixed point the
/// point is appended once for each remaining step up to `max_iterations`.
pub fn calculate_iteration_values<Z: Copy, N: Fn(Z) -> Option<Z>, B: Fn(Z) -> bool>(
    next: &N,
    inside: &B,
    initial: Z,
    min_iterations: usize,
    max_iterations: usize,
    results: &mut Vec<Z>,
)
    requires
        forall|z: Z| next.requires((z,)),
        forall|z: Z| inside.requires((z,)),
    ensures
        replays_to(
            *next,
            *inside,
            initial,
            min_iterations as int,
            max_iterations as int,
            old(results)@,
            final(results)@,
        ),
{
    let ghost start = results@;
    let mut z = initial;
    let mut iterations: usize = 0;
    let mut ins = inside(z);
    let mut fixed = false;
    let ghost mut zs = seq![initial];
    while ins && iterations < max_iterations && !fixed
        invariant
            forall|z: Z| next.requires((z,)),
            forall|z: Z| inside.requires((z,)),
            zs.len() == iterations + 1,
            zs.last() == z,
            iterations <= max_iterations,
            zs[0] == initial,
            forall|i: int|
                0 <= i < zs.len() - 1 ==> #[trigger] next.ensures((zs[i],), Some(zs[i + 1])),
            forall|i: int| 0 <= i < zs.len() - 1 ==> #[trigger] inside.ensures((zs[i],), true),
            inside.ensures((z,), ins),
            fixed ==> ins && next.ensures((z,), None) && iterations < max_iterations,
            results@ == start + replay_points(
                zs,
                fixed,
                min_iterations as int,
                max_iterations as int,
            ),
        decreases max_iterations - iterations + if fixed { 0int } else { 1int },
    {
        match next(z) {
            None => {
                push_copies(results, z, max_iterations - iterations);
                fixed = true;
                proof {
                    assert(results@ =~= start + replay_points(
                        zs,
                        fixed,
                        min_iterations as int,
                        max_iterations as int,
                    ));
                }
            },
            Some(new_z) => {
                let ghost zs0 = zs;
                proof {
                    zs = zs.push(new_z);
                    assert forall|i: int| 0 <= i < zs.len() - 1 implies #[trigger] next.ensures(
                        (zs[i],),
                        Some(zs[i + 1]),
                    ) by {
                        if i < zs0.len() - 1 {
                            assert(zs[i] == zs0[i] && zs[i + 1] == zs0[i + 1]);
                        }
                    }
                    assert forall|i: int| 0 <= i < zs.len() - 1 implies #[trigger] inside.ensures(
                        (zs[i],),
                        true,
                    ) by {
                        if i < zs0.len() - 1 {
                            assert(zs[i] == zs0[i]);
                        }
                    }
                }
                z = new_z;
                if iterations >= min_iterations {
                    results.push(z);
                }
                iterations += 1;
                proof {
                    assert(results@ =~= start + replay_points(
                        zs,
                        false,
                        min_iterations as int,
                        max_iterations as int,
                    ));
                }
                ins = inside(z);
            },
        }
    }
    proof {
        assert(walked(*next, *inside, initial, zs, max_iterations as int));
    }
}

/// Replaying from a fixed point with no lower bound records that point once
/// for every iteration: `max` copies of it.
pub proof fn lemma_fixed_point_replay<Z>(z0: Z, max: int)
    requires
        max >= 1,
    ensures
        replay_points(seq![z0], true, 0, max) == Seq::new(max as nat, |i: int| z0),
{
    assert(replay_points(seq![z0], true, 0, max) =~= Seq::new(max as nat, |i: int| z0));
}

} // verus!
