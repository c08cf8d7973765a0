//! The Newton iteration of one pixel, or of a batch of eight.
//!
//! The iterate is a value of the caller's, which also makes each update
//! and tests the iterate against the roots. What the tests find arrives
//! here as flags, one per root, set where the iterate lies within the
//! convergence radius of that root. This module runs the iteration: it
//! decides when a scan of the roots is due, when the iteration stops, and
//! which root index a pixel is given in the end.

use vstd::prelude::*;
use crate::complex8::Complex8;
use crate::flags::{first_match, first_set, last_match, last_set, none_set};
use crate::flags::{lemma_first_set, lemma_last_set, lemma_none_set};
use crate::polynomial::{is_value, Polynomial};
use crate::scalar::{is_difference, is_quotient, is_scaled, tells_within, Scalar};

verus! {

/// Where the iteration of a pixel stands.
#[derive(Clone, Copy, Debug, PartialEq, Eq, Structural)]
pub enum Phase {
    /// The given number of updates were made and the next one is due.
    Iterating(usize),
    /// A scan found the iterate at the root with the given index.
    Converged(usize),
    /// The cap was reached and no scan found a root.
    Exhausted,
}

/// The roots are scanned after every update whose number, counted from 0,
/// is a multiple of the stride.
pub open spec fn scan_due(n: nat, stride: nat) -> bool {
    n % stride == 0
}

/// The phase in which an iteration of at most `iterations` updates starts.
pub open spec fn first_phase(iterations: nat) -> Phase {
    if iterations > 0 {
        Phase::Iterating(0)
    } else {
        Phase::Exhausted
    }
}

/// The phase after update number `n`. `hit` is what a scan of the roots
/// found after that update; it counts only where a scan was due.
pub open spec fn phase_after(n: nat, iterations: nat, stride: nat, hit: Option<usize>) -> Phase {
    if scan_due(n, stride) && hit is Some {
        Phase::Converged(hit->0)
    } else if n + 1 < iterations {
        Phase::Iterating((n + 1) as usize)
    } else {
        Phase::Exhausted
    }
}

/// The phase in which the iteration starts.
pub fn start(iterations: usize) -> (phase: Phase)
    ensures
        phase == first_phase(iterations as nat),
{
    if iterations > 0 {
        Phase::Iterating(0)
    } else {
        Phase::Exhausted
    }
}

/// Tells whether the roots are to be scanned after update number `n`.
pub fn check_due(n: usize, stride: usize) -> (due: bool)
    requires
        stride > 0,
    ensures
        due == scan_due(n as nat, stride as nat),
{
    n % stride == 0
}

/// Decides how the iteration goes on after update number `n`: it stops at
/// a root that a due scan found, stops exhausted after the last update, and
/// goes on otherwise.
pub fn next_phase(n: usize, iterations: usize, stride: usize, hit: Option<usize>) -> (phase: Phase)
    requires
        stride > 0,
        n < iterations,
    ensures
        phase == phase_after(n as nat, iterations as nat, stride as nat, hit),
{
    if n % stride == 0 {
        if let Some(root) = hit {
            return Phase::Converged(root);
        }
    }
    if n + 1 < iterations {
        Phase::Iterating(n + 1)
    } else {
        Phase::Exhausted
    }
}

/// All eight lanes of a mask are set.
pub open spec fn all_set(mask: [bool; 8]) -> bool {
    forall|lane: int| 0 <= lane < 8 ==> mask[lane]
}

/// For each root, whether all eight lanes lie within its radius.
pub open spec fn shared_flags(masks: Seq<[bool; 8]>) -> Seq<bool> {
    Seq::new(masks.len(), |i: int| all_set(masks[i]))
}

/// For each root, whether the given lane lies within its radius.
pub open spec fn lane_flags(masks: Seq<[bool; 8]>, lane: int) -> Seq<bool> {
    Seq::new(masks.len(), |i: int| masks[i][lane])
}

/// Tells whether all eight lanes of a mask are set.
pub fn all_lanes(mask: &[bool; 8]) -> (all: bool)
    ensures
        all == all_set(*mask),
{
    let mut lane: usize = 0;
    while lane < 8
        invariant
            lane <= 8,
            forall|k: int| 0 <= k < lane ==> mask[k],
        decreases 8 - lane,
    {
        if !mask[lane] {
            return false;
        }
        lane += 1;
    }
    true
}

/// Scan of a batch: the first root within whose radius all eight lanes lie.
/// `masks[i]` holds, lane by lane, whether the lane lies within the radius
/// of root `i`.
pub fn first_shared_match(masks: &[[bool; 8]]) -> (hit: Option<usize>)
    ensures
        match hit {
            Some(i) => first_set(shared_flags(masks@)) == Some(i as int),
            None => first_set(shared_flags(masks@)) is None,
        },
{
    let ghost shared = shared_flags(masks@);
    let mut i: usize = 0;
    while i < masks.len()
        invariant
            i <= masks.len(),
            shared == shared_flags(masks@),
            forall|j: int| 0 <= j < i ==> !shared[j],
        decreases masks.len() - i,
    {
        if all_lanes(&masks[i]) {
            proof {
                crate::flags::lemma_first_set_unique(shared, i as int);
            }
            return Some(i);
        }
        i += 1;
    }
    proof {
        lemma_none_set(shared);
    }
    None
}

/// `zs` records an iteration from `first` to `last` that ended in `phase`.
/// It holds the start and the iterate after each update. `steps` tells
/// which iterate an update can give for which, and `finds` what a scan of
/// the roots can find at an iterate. There are at most `iterations`
/// updates. Every due scan before the last update found nothing. The
/// iteration ended converged at the root that the due scan after the last
/// update found, or exhausted after `iterations` updates when that scan was
/// not due or found nothing.
pub open spec fn is_trace_of<Z>(
    zs: Seq<Z>,
    first: Z,
    last: Z,
    phase: Phase,
    iterations: nat,
    stride: nat,
    steps: spec_fn(Z, Z) -> bool,
    finds: spec_fn(Z, Option<usize>) -> bool,
) -> bool {
    let updates = zs.len() - 1;
    &&& zs.len() >= 1
    &&& zs[0] == first
    &&& zs[updates] == last
    &&& updates <= iterations
    &&& forall|n: int| 0 <= n < updates ==> steps(zs[n], #[trigger] zs[n + 1])
    &&& forall|n: int|
        0 <= n < updates - 1 && scan_due(n as nat, stride) ==> finds(#[trigger] zs[n + 1], None)
    &&& match phase {
        Phase::Iterating(_) => false,
        Phase::Converged(root) => updates >= 1 && scan_due((updates - 1) as nat, stride) && finds(
            last,
            Some(root),
        ),
        Phase::Exhausted => updates == iterations && (updates >= 1 && scan_due(
            (updates - 1) as nat,
            stride,
        ) ==> finds(last, None)),
    }
}

/// `zs` records an iteration in which every update was one call of `step`
/// and every scan one call of `scan`.
pub open spec fn is_trace<Z, U: Fn(Z) -> Z, S: Fn(Z) -> Option<usize>>(
    zs: Seq<Z>,
    first: Z,
    last: Z,
    phase: Phase,
    iterations: nat,
    stride: nat,
    step: U,
    scan: S,
) -> bool {
    is_trace_of(
        zs,
        first,
        last,
        phase,
        iterations,
        stride,
        |z: Z, next: Z| call_ensures(step, (z,), next),
        |z: Z, hit: Option<usize>| call_ensures(scan, (z,), hit),
    )
}

/// Runs the Newton iteration from `c`, for one pixel or for a batch of
/// pixels held in one value. `step` makes one update of the iterate; `scan`
/// looks for a root at which the iterate has arrived. After every update
/// whose number is a multiple of `stride` the roots are scanned, and the
/// iteration stops at the root that a scan finds, or after `iterations`
/// updates. Gives the last iterate and the phase in which the iteration
/// ended.
pub fn iterate<Z: Copy, U: Fn(Z) -> Z, S: Fn(Z) -> Option<usize>>(
    c: Z,
    iterations: usize,
    stride: usize,
    step: U,
    scan: S,
) -> (end: (Z, Phase))
    requires
        stride > 0,
        forall|z: Z| call_requires(step, (z,)),
        forall|z: Z| call_requires(scan, (z,)),
    ensures
        exists|zs: Seq<Z>| #[trigger]
            is_trace(zs, c, end.0, end.1, iterations as nat, stride as nat, step, scan),
{
    let ghost mut zs: Seq<Z> = seq![c];
    let mut z = c;
    let mut phase = start(iterations);
    let mut n: usize = 0;
    while n < iterations
        invariant_except_break
            n < iterations ==> phase == Phase::Iterating(n),
            n == iterations ==> n == 0 && phase == Phase::Exhausted,
            zs.len() == n + 1,
            forall|m: int|
                0 <= m < n && scan_due(m as nat, stride as nat) ==> call_ensures(
                    scan,
                    (#[trigger] zs[m + 1],),
                    None,
                ),
        invariant
            stride > 0,
            n <= iterations,
            forall|z: Z| call_requires(step, (z,)),
            forall|z: Z| call_requires(scan, (z,)),
            zs.len() >= 1,
            zs[0] == c,
            zs[zs.len() - 1] == z,
            forall|m: int|
                0 <= m < zs.len() - 1 ==> call_ensures(step, (zs[m],), #[trigger] zs[m + 1]),
        ensures
            is_trace(zs, c, z, phase, iterations as nat, stride as nat, step, scan),
        decreases iterations - n,
    {
        let ghost before = zs;
        let next = step(z);
        z = next;
        proof {
            zs = before.push(next);
            assert forall|m: int| 0 <= m < zs.len() - 1 implies call_ensures(
                step,
                (zs[m],),
                #[trigger] zs[m + 1],
            ) by {
                if m < before.len() - 1 {
                    assert(zs[m] == before[m]);
                    assert(zs[m + 1] == before[m + 1]);
                }
            }
        }
        let hit = if check_due(n, stride) {
            scan(z)
        } else {
            None
        };
        phase = next_phase(n, iterations, stride, hit);
        assert forall|m: int|
            0 <= m < zs.len() - 2 && scan_due(m as nat, stride as nat) implies call_ensures(
            scan,
            (#[trigger] zs[m + 1],),
            None,
        ) by {
            assert(zs[m + 1] == before[m + 1]);
        }
        match phase {
            Phase::Iterating(_) => {
                n += 1;
            },
            _ => {
                assert(is_trace(zs, c, z, phase, iterations as nat, stride as nat, step, scan));
                break ;
            },
        }
    }
    let end = (z, phase);
    assert(is_trace(zs, c, end.0, end.1, iterations as nat, stride as nat, step, scan));
    end
}

/// Two records of iterations from the same start agree on the iterates
/// that both hold, as long as an update gives one iterate for one.
proof fn lemma_traces_share_prefix<Z>(
    zs: Seq<Z>,
    other: Seq<Z>,
    first: Z,
    ends: (Z, Z),
    phases: (Phase, Phase),
    iterations: nat,
    stride: nat,
    steps: spec_fn(Z, Z) -> bool,
    finds: spec_fn(Z, Option<usize>) -> bool,
    k: int,
)
    requires
        forall|z: Z, a: Z, b: Z| #[trigger] steps(z, a) && #[trigger] steps(z, b) ==> a == b,
        is_trace_of(zs, first, ends.0, phases.0, iterations, stride, steps, finds),
        is_trace_of(other, first, ends.1, phases.1, iterations, stride, steps, finds),
        0 <= k < zs.len(),
        k < other.len(),
    ensures
        zs[k] == other[k],
    decreases k,
{
    if k > 0 {
        lemma_traces_share_prefix(
            zs,
            other,
            first,
            ends,
            phases,
            iterations,
            stride,
            steps,
            finds,
            k - 1,
        );
        assert(steps(zs[k - 1], zs[k - 1 + 1]));
        assert(steps(other[k - 1], other[k - 1 + 1]));
    }
}

/// The iteration is determined by its start: where an update gives one
/// iterate for one, and a scan one result for one iterate, any two
/// iterations from the same start make the same updates and end with the
/// same iterate in the same phase.
pub proof fn lemma_trace_is_unique<Z>(
    zs: Seq<Z>,
    other: Seq<Z>,
    first: Z,
    ends: (Z, Z),
    phases: (Phase, Phase),
    iterations: nat,
    stride: nat,
    steps: spec_fn(Z, Z) -> bool,
    finds: spec_fn(Z, Option<usize>) -> bool,
)
    requires
        forall|z: Z, a: Z, b: Z| #[trigger] steps(z, a) && #[trigger] steps(z, b) ==> a == b,
        forall|z: Z, a: Option<usize>, b: Option<usize>|
            #[trigger] finds(z, a) && #[trigger] finds(z, b) ==> a == b,
        is_trace_of(zs, first, ends.0, phases.0, iterations, stride, steps, finds),
        is_trace_of(other, first, ends.1, phases.1, iterations, stride, steps, finds),
    ensures
        zs == other,
        ends.0 == ends.1,
        phases.0 == phases.1,
{
    let u = zs.len() - 1;
    let v = other.len() - 1;
    if u < v {
        lemma_traces_share_prefix(
            zs,
            other,
            first,
            ends,
            phases,
            iterations,
            stride,
            steps,
            finds,
            u,
        );
        assert(finds(other[u - 1 + 1], None)) by {
            if !(phases.0 is Converged) {
                assert(u == iterations);
            }
        }
        assert(false);
    }
    if v < u {
        lemma_traces_share_prefix(
            zs,
            other,
            first,
            ends,
            phases,
            iterations,
            stride,
            steps,
            finds,
            v,
        );
        assert(finds(zs[v - 1 + 1], None)) by {
            if !(phases.1 is Converged) {
                assert(v == iterations);
            }
        }
        assert(false);
    }
    assert forall|k: int| 0 <= k < zs.len() implies zs[k] == other[k] by {
        lemma_traces_share_prefix(
            zs,
            other,
            first,
            ends,
            phases,
            iterations,
            stride,
            steps,
            finds,
            k,
        );
    }
    assert(zs =~= other);
}

/// An iteration makes at most as many updates as the cap allows, and never
/// ends while still going on.
pub proof fn lemma_trace_ends<Z>(
    zs: Seq<Z>,
    first: Z,
    last: Z,
    phase: Phase,
    iterations: nat,
    stride: nat,
    steps: spec_fn(Z, Z) -> bool,
    finds: spec_fn(Z, Option<usize>) -> bool,
)
    requires
        is_trace_of(zs, first, last, phase, iterations, stride, steps, finds),
    ensures
        zs.len() - 1 <= iterations,
        !(phase is Iterating),
        iterations == 0 ==> last == first && phase == Phase::Exhausted,
{
}

/// What the iteration needs to know of the picture: the polynomial, its
/// derivative and the roots in the order of their indices.
pub struct PolyInfo<T> {
    pub f: Polynomial<T>,
    pub df: Polynomial<T>,
    pub roots: Vec<(T, T)>,
}

/// The parameters of the iteration.
#[derive(Clone, Copy, Debug)]
pub struct Solver<T> {
    /// Cap on the updates of one pixel.
    pub iterations: usize,
    /// The roots are scanned after every update whose number is a multiple
    /// of the stride.
    pub stride: usize,
    /// Factor by which each Newton step is multiplied.
    pub damping: T,
    /// The iterate has arrived at a root when the squared magnitude of
    /// their difference is less than this.
    pub epsilon: T,
}

/// `next` is the iterate after one update of `z`: `z` less the damped
/// quotient of the values of the polynomial and of its derivative at `z`.
pub open spec fn is_newton_step<T: Scalar>(
    f: Seq<(T, T)>,
    df: Seq<(T, T)>,
    damping: T,
    z: (T, T),
    next: (T, T),
) -> bool {
    exists|fz: (T, T), dfz: (T, T), step: (T, T), damped: (T, T)| #[trigger]
        is_quotient(fz, dfz, step) && #[trigger] is_scaled(step, damping, damped) && is_value(
            f,
            z,
            fz,
        ) && is_value(df, z, dfz) && is_difference(z, damped, next)
}

/// `flag` tells whether `z` has arrived at `root`: whether the squared
/// magnitude of their difference is less than `epsilon`.
pub open spec fn tells_close<T: Scalar>(z: (T, T), root: (T, T), epsilon: T, flag: bool) -> bool {
    exists|away: (T, T)| #[trigger]
        is_difference(z, root, away) && tells_within(away, epsilon, flag)
}

/// `flags` tells of each root whether `z` has arrived at it.
pub open spec fn marks_close<T: Scalar>(
    z: (T, T),
    roots: Seq<(T, T)>,
    epsilon: T,
    flags: Seq<bool>,
) -> bool {
    flags.len() == roots.len() && forall|i: int|
        0 <= i < roots.len() ==> tells_close(z, roots[i], epsilon, #[trigger] flags[i])
}

/// `masks` tells of each root and each lane whether the lane of `z` has
/// arrived at the root.
pub open spec fn marks_close8<T: Scalar>(
    z: Complex8<T>,
    roots: Seq<(T, T)>,
    epsilon: T,
    masks: Seq<[bool; 8]>,
) -> bool {
    masks.len() == roots.len() && forall|i: int, lane: int|
        0 <= i < roots.len() && 0 <= lane < 8 ==> tells_close(
            z@[lane],
            roots[i],
            epsilon,
            #[trigger] masks[i][lane],
        )
}

/// Makes one update of the iterate.
pub fn newton_step<T: Scalar>(z: (T, T), info: &PolyInfo<T>, damping: T) -> (next: (T, T))
    ensures
        is_newton_step(info.f@, info.df@, damping, z, next),
{
    let fz = info.f.eval(z);
    let dfz = info.df.eval(z);
    let step = T::over(fz, dfz);
    let damped = T::scale(step, damping);
    let next = T::minus(z, damped);
    assert(is_quotient(fz, dfz, step) && is_scaled(step, damping, damped));
    next
}

/// Makes one update of a batch of iterates: of every lane as `newton_step`
/// makes it.
pub fn newton_step8<T: Scalar>(z: Complex8<T>, info: &PolyInfo<T>, damping: T) -> (next: Complex8<
    T,
>)
    ensures
        forall|lane: int|
            0 <= lane < 8 ==> is_newton_step(
                info.f@,
                info.df@,
                damping,
                z@[lane],
                #[trigger] next@[lane],
            ),
{
    let fz = info.f.eval8(z);
    let dfz = info.df.eval8(z);
    let step = fz.over(dfz);
    let damped = step.scale(damping);
    let next = z.minus(damped);
    assert forall|lane: int| 0 <= lane < 8 implies is_newton_step(
        info.f@,
        info.df@,
        damping,
        z@[lane],
        #[trigger] next@[lane],
    ) by {
        assert(is_quotient(fz@[lane], dfz@[lane], step@[lane]));
        assert(is_scaled(step@[lane], damping, damped@[lane]));
        assert(is_value(info.f@, z@[lane], fz@[lane]));
        assert(is_value(info.df@, z@[lane], dfz@[lane]));
        assert(is_difference(z@[lane], damped@[lane], next@[lane]));
    }
    next
}

/// Tells of each root whether `z` has arrived at it.
pub fn close<T: Scalar>(z: (T, T), roots: &[(T, T)], epsilon: T) -> (flags: Vec<bool>)
    ensures
        marks_close(z, roots@, epsilon, flags@),
{
    let mut flags: Vec<bool> = Vec::with_capacity(roots.len());
    let mut i: usize = 0;
    while i < roots.len()
        invariant
            i <= roots.len(),
            flags@.len() == i,
            forall|k: int| 0 <= k < i ==> tells_close(z, roots@[k], epsilon, #[trigger] flags@[k]),
        decreases roots.len() - i,
    {
        let away = T::minus(z, roots[i]);
        let norm = T::norm_sqr(away);
        let flag = norm.less(epsilon);
        assert(crate::scalar::is_norm_sqr(away, norm));
        assert(tells_within(away, epsilon, flag));
        assert(is_difference(z, roots@[i as int], away));
        flags.push(flag);
        i += 1;
    }
    flags
}

/// Tells of each root and each lane of `z` whether the lane has arrived at
/// the root.
pub fn close8<T: Scalar>(z: Complex8<T>, roots: &[(T, T)], epsilon: T) -> (masks: Vec<[bool; 8]>)
    ensures
        marks_close8(z, roots@, epsilon, masks@),
{
    let mut masks: Vec<[bool; 8]> = Vec::with_capacity(roots.len());
    let mut i: usize = 0;
    while i < roots.len()
        invariant
            i <= roots.len(),
            masks@.len() == i,
            forall|k: int, lane: int|
                0 <= k < i && 0 <= lane < 8 ==> tells_close(
                    z@[lane],
                    roots@[k],
                    epsilon,
                    #[trigger] masks@[k][lane],
                ),
        decreases roots.len() - i,
    {
        let root = Complex8::from_complex(roots[i]);
        let away = z.minus(root);
        let mask = away.norm_lt(epsilon);
        assert forall|lane: int| 0 <= lane < 8 implies tells_close(
            z@[lane],
            roots@[i as int],
            epsilon,
            #[trigger] mask[lane],
        ) by {
            assert(root@[lane] == roots@[i as int]);
            assert(is_difference(z@[lane], root@[lane], away@[lane]));
            assert(tells_within(away@[lane], epsilon, mask[lane]));
        }
        masks.push(mask);
        i += 1;
    }
    masks
}

/// `hit` is what a scan of the roots finds at `z`: the first root at which
/// `z` has arrived, if there is one.
pub open spec fn scan_finds<T: Scalar>(
    z: (T, T),
    roots: Seq<(T, T)>,
    epsilon: T,
    hit: Option<usize>,
) -> bool {
    exists|flags: Seq<bool>| #[trigger]
        marks_close(z, roots, epsilon, flags) && match hit {
            Some(i) => first_set(flags) == Some(i as int),
            None => first_set(flags) is None,
        }
}

/// `hit` is what a scan of the roots finds at the batch `z`: the first
/// root at which all eight lanes have arrived, if there is one.
pub open spec fn scan_finds8<T: Scalar>(
    z: Complex8<T>,
    roots: Seq<(T, T)>,
    epsilon: T,
    hit: Option<usize>,
) -> bool {
    exists|masks: Seq<[bool; 8]>| #[trigger]
        marks_close8(z, roots, epsilon, masks) && match hit {
            Some(i) => first_set(shared_flags(masks)) == Some(i as int),
            None => first_set(shared_flags(masks)) is None,
        }
}

/// `zs` records the Newton iteration of one pixel: every update is a
/// Newton step and every scan looks for a root at which the iterate has
/// arrived.
pub open spec fn is_newton_trace<T: Scalar>(
    zs: Seq<(T, T)>,
    first: (T, T),
    last: (T, T),
    phase: Phase,
    info: PolyInfo<T>,
    solver: Solver<T>,
) -> bool {
    is_trace_of(
        zs,
        first,
        last,
        phase,
        solver.iterations as nat,
        solver.stride as nat,
        |z: (T, T), next: (T, T)| is_newton_step(info.f@, info.df@, solver.damping, z, next),
        |z: (T, T), hit: Option<usize>| scan_finds(z, info.roots@, solver.epsilon, hit),
    )
}

/// Every lane of `next` is a Newton step of that lane of `z`.
pub open spec fn is_newton_step8<T: Scalar>(
    f: Seq<(T, T)>,
    df: Seq<(T, T)>,
    damping: T,
    z: Complex8<T>,
    next: Complex8<T>,
) -> bool {
    forall|lane: int|
        0 <= lane < 8 ==> is_newton_step(f, df, damping, z@[lane], #[trigger] next@[lane])
}

/// `zs` records the Newton iteration of a batch of eight pixels: every
/// update is a Newton step of every lane, and every scan looks for a root
/// at which all lanes have arrived.
pub open spec fn is_newton_trace8<T: Scalar>(
    zs: Seq<Complex8<T>>,
    first: Complex8<T>,
    last: Complex8<T>,
    phase: Phase,
    info: PolyInfo<T>,
    solver: Solver<T>,
) -> bool {
    is_trace_of(
        zs,
        first,
        last,
        phase,
        solver.iterations as nat,
        solver.stride as nat,
        |z: Complex8<T>, next: Complex8<T>|
            is_newton_step8(info.f@, info.df@, solver.damping, z, next),
        |z: Complex8<T>, hit: Option<usize>| scan_finds8(z, info.roots@, solver.epsilon, hit),
    )
}

/// Runs the Newton iteration of one pixel from `c` and gives the last
/// iterate. After every update whose number is a multiple of the stride
/// the roots are scanned, and the iteration stops as soon as a scan finds
/// the iterate at a root, or after the cap on the updates.
pub fn newton_raphson<T: Scalar>(c: (T, T), info: &PolyInfo<T>, solver: &Solver<T>) -> (end: (T, T))
    requires
        solver.stride > 0,
    ensures
        exists|zs: Seq<(T, T)>, phase: Phase| #[trigger]
            is_newton_trace(zs, c, end, phase, *info, *solver),
{
    let damping = solver.damping;
    let epsilon = solver.epsilon;
    let step = |z: (T, T)| -> (next: (T, T))
        ensures
            is_newton_step(info.f@, info.df@, damping, z, next),
        { newton_step(z, info, damping) };
    let scan = |z: (T, T)| -> (hit: Option<usize>)
        ensures
            scan_finds(z, info.roots@, epsilon, hit),
        {
            let flags = close(z, info.roots.as_slice(), epsilon);
            first_match(flags.as_slice())
        };
    let (end, phase) = iterate(c, solver.iterations, solver.stride, step, scan);
    proof {
        let zs = choose|zs: Seq<(T, T)>| #[trigger]
            is_trace(zs, c, end, phase, solver.iterations as nat, solver.stride as nat, step, scan);
        assert(is_newton_trace(zs, c, end, phase, *info, *solver));
    }
    end
}

/// Runs the Newton iteration of a batch of eight pixels from `c` and gives
/// the last iterates. Every lane is updated as `newton_raphson` updates a
/// single pixel. The iteration stops early only when a scan finds all
/// eight lanes at the same root.
pub fn newton_raphson8<T: Scalar>(c: Complex8<T>, info: &PolyInfo<T>, solver: &Solver<T>) -> (end:
    Complex8<T>)
    requires
        solver.stride > 0,
    ensures
        exists|zs: Seq<Complex8<T>>, phase: Phase| #[trigger]
            is_newton_trace8(zs, c, end, phase, *info, *solver),
{
    let damping = solver.damping;
    let epsilon = solver.epsilon;
    let step = |z: Complex8<T>| -> (next: Complex8<T>)
        ensures
            is_newton_step8(info.f@, info.df@, damping, z, next),
        { newton_step8(z, info, damping) };
    let scan = |z: Complex8<T>| -> (hit: Option<usize>)
        ensures
            scan_finds8(z, info.roots@, epsilon, hit),
        {
            let masks = close8(z, info.roots.as_slice(), epsilon);
            first_shared_match(masks.as_slice())
        };
    let (end, phase) = iterate(c, solver.iterations, solver.stride, step, scan);
    proof {
        let zs = choose|zs: Seq<Complex8<T>>| #[trigger]
            is_trace(zs, c, end, phase, solver.iterations as nat, solver.stride as nat, step, scan);
        assert(is_newton_trace8(zs, c, end, phase, *info, *solver));
    }
    end
}

/// The root index that the final scan gives a pixel: the index of the last
/// root at which the iterate has arrived, or the number of roots where it
/// has arrived at none. `close` tells of each root whether the iterate has
/// arrived at it.
pub open spec fn color_of(close: Seq<bool>) -> nat {
    match last_set(close) {
        Some(i) => i as nat,
        None => close.len(),
    }
}

/// `color` is the root index that the final scan gives the iterate `c`.
pub open spec fn is_color<T: Scalar>(
    c: (T, T),
    roots: Seq<(T, T)>,
    epsilon: T,
    color: usize,
) -> bool {
    exists|flags: Seq<bool>| #[trigger]
        marks_close(c, roots, epsilon, flags) && color == color_of(flags)
}

/// Final scan of a pixel: the root index of the last iterate `c`.
pub fn color<T: Scalar>(c: (T, T), roots: &[(T, T)], epsilon: T) -> (color: usize)
    ensures
        is_color(c, roots@, epsilon, color),
{
    let flags = close(c, roots, epsilon);
    proof {
        lemma_last_set(flags@);
    }
    match last_match(flags.as_slice()) {
        Some(i) => i,
        None => flags.len(),
    }
}

/// Final scan of the pixel in column `x`: writes the root index of its last
/// iterate `c` to cell `x` of the row.
pub fn find_color<T: Scalar>(
    c: (T, T),
    x: usize,
    info: &PolyInfo<T>,
    epsilon: T,
    table: &mut [usize],
)
    requires
        x < old(table).len(),
    ensures
        final(table)@.len() == old(table)@.len(),
        is_color(c, info.roots@, epsilon, final(table)@[x as int]),
        forall|i: int| 0 <= i < old(table)@.len() && i != x ==> final(table)@[i] == old(table)@[i],
{
    let color = color(c, info.roots.as_slice(), epsilon);
    table[x] = color;
}

/// The final scan gives the number of roots exactly where the iterate lies
/// within no root's radius, and a smaller number otherwise.
pub proof fn lemma_color_of(close: Seq<bool>)
    ensures
        color_of(close) <= close.len(),
        color_of(close) == close.len() <==> none_set(close),
        color_of(close) < close.len() ==> close[color_of(close) as int],
{
    lemma_last_set(close);
    if none_set(close) {
        lemma_none_set(close);
    }
}

/// The root index of a pixel is the index of a root or the number of roots.
pub proof fn lemma_color_is_an_index<T: Scalar>(
    c: (T, T),
    roots: Seq<(T, T)>,
    epsilon: T,
    color: usize,
)
    requires
        is_color(c, roots, epsilon, color),
    ensures
        color <= roots.len(),
{
    let flags = choose|flags: Seq<bool>| #[trigger]
        marks_close(c, roots, epsilon, flags) && color == color_of(flags);
    lemma_color_of(flags);
}

/// Where a scan stops the iteration at a root, the final scan of the same
/// flags gives a root too, with an index no smaller; where the scan finds
/// nothing, the final scan gives the number of roots.
pub proof fn lemma_scan_agrees_with_color(close: Seq<bool>)
    ensures
        match first_set(close) {
            Some(i) => i <= color_of(close) < close.len(),
            None => color_of(close) == close.len(),
        },
{
    lemma_first_set(close);
    lemma_last_set(close);
    lemma_color_of(close);
}

/// Where a scan stops a batch at a root shared by all lanes, the final scan
/// of every single lane gives a root, with an index no smaller.
pub proof fn lemma_shared_match_colors_lanes(masks: Seq<[bool; 8]>, lane: int)
    requires
        0 <= lane < 8,
    ensures
        match first_set(shared_flags(masks)) {
            Some(i) => i <= color_of(lane_flags(masks, lane)) < masks.len(),
            None => true,
        },
{
    let shared = shared_flags(masks);
    let single = lane_flags(masks, lane);
    lemma_first_set(shared);
    lemma_last_set(single);
    lemma_color_of(single);
    match first_set(shared) {
        Some(i) => {
            assert(shared[i]);
            assert(all_set(masks[i]));
            assert(single[i]);
        },
        None => {},
    }
}

} // verus!
