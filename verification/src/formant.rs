//! Tracking of formants across frames. There is one slot for each current
//! estimate, and a frame's resonances, its peaks, pass through four stages:
//!
//! 1. assignment: each slot takes the peak nearest to its estimate;
//! 2. the sweep: going left to right, a slot that holds the same peak as the
//!    last slot kept competes with it, and the one whose estimate lies
//!    farther from the peak is cleared;
//! 3. filling: if a slot was cleared, peaks that no slot holds are placed in
//!    free slots at or next to their own index;
//! 4. collection: the strictly positive peaks left in the slots become the
//!    next estimates, and are handed out in ascending order.
use vstd::prelude::*;
use vstd::seq_lib::*;
use crate::scalar::{canonical, is_nan, key, less, magnitude, real_difference, same, Real};

verus! {

/// `|peak - estimate|`, as a value.
pub open spec fn distance(peak: Real, estimate: Real) -> u64 {
    canonical(magnitude(real_difference(peak@, estimate@)))
}

/// Index of the peak nearest to `estimate` among the first `n` of `frame`:
/// a later peak takes over only where it is strictly nearer, so a tie goes
/// to the lower index.
pub open spec fn nearest(frame: Seq<Real>, estimate: Real, n: nat) -> int
    decreases n,
{
    if n <= 1 {
        0
    } else {
        let best = nearest(frame, estimate, (n - 1) as nat);
        if less(distance(frame[n - 1], estimate), distance(frame[best], estimate)) {
            n - 1
        } else {
            best
        }
    }
}

/// Nearest-match assignment: slot `i` takes the peak nearest to estimate `i`.
/// An empty frame leaves every slot empty.
pub open spec fn assigned(estimates: Seq<Real>, frame: Seq<Real>) -> Seq<Option<Real>> {
    Seq::new(
        estimates.len(),
        |i: int|
            if frame.len() == 0 {
                None
            } else {
                Some(frame[nearest(frame, estimates[i], frame.len())])
            },
    )
}

/// Whether none of the first `n` peaks lies at a NaN distance from
/// `estimate`.
pub open spec fn measurable(frame: Seq<Real>, estimate: Real, n: nat) -> bool {
    forall|i: int| 0 <= i < n ==> !is_nan(#[trigger] distance(frame[i], estimate))
}

/// The nearest peak lies in the frame. Where no distance is a NaN, no peak is
/// nearer than it and every peak before it is strictly farther.
pub proof fn lemma_nearest(frame: Seq<Real>, estimate: Real, n: nat)
    requires
        1 <= n <= frame.len(),
    ensures
        0 <= nearest(frame, estimate, n) < n,
        measurable(frame, estimate, n) ==> forall|i: int|
            0 <= i < n ==> key(distance(frame[nearest(frame, estimate, n)], estimate)) <= key(
                #[trigger] distance(frame[i], estimate),
            ),
        measurable(frame, estimate, n) ==> forall|i: int|
            0 <= i < nearest(frame, estimate, n) ==> key(
                distance(frame[nearest(frame, estimate, n)], estimate),
            ) < key(#[trigger] distance(frame[i], estimate)),
    decreases n,
{
    if n > 1 {
        lemma_nearest(frame, estimate, (n - 1) as nat);
        if measurable(frame, estimate, n) {
            assert(measurable(frame, estimate, (n - 1) as nat));
            let best = nearest(frame, estimate, (n - 1) as nat);
            let now = nearest(frame, estimate, n);
            assert(!is_nan(distance(frame[n - 1], estimate)));
            assert(!is_nan(distance(frame[best], estimate)));
            assert forall|i: int| 0 <= i < n implies key(distance(frame[now], estimate)) <= key(
                #[trigger] distance(frame[i], estimate),
            ) by {
                if i < n - 1 {
                    assert(key(distance(frame[best], estimate)) <= key(
                        distance(frame[i], estimate),
                    ));
                }
            }
            assert forall|i: int| 0 <= i < now implies key(distance(frame[now], estimate)) < key(
                #[trigger] distance(frame[i], estimate),
            ) by {
                if now == n - 1 {
                    assert(key(distance(frame[best], estimate)) <= key(
                        distance(frame[i], estimate),
                    ));
                }
            }
        }
    }
}

/// The assignment for one estimate.
fn nearest_index(frame: &Vec<Real>, estimate: Real) -> (best: usize)
    requires
        frame@.len() >= 1,
    ensures
        best == nearest(frame@, estimate, frame@.len()),
        best < frame@.len(),
{
    let mut best: usize = 0;
    let mut best_distance = frame[0].minus(estimate).abs();
    let mut i: usize = 1;
    while i < frame.len()
        invariant
            1 <= i <= frame@.len(),
            best == nearest(frame@, estimate, i as nat),
            best < i,
            best_distance@ == distance(frame@[best as int], estimate),
        decreases frame@.len() - i,
    {
        let d = frame[i].minus(estimate).abs();
        if d.lt(best_distance) {
            best = i;
            best_distance = d;
        }
        i += 1;
    }
    best
}

/// Assignment: each slot takes the peak nearest to its estimate.
fn assign_slots(estimates: &Vec<Real>, frame: &Vec<Real>) -> (slots: Vec<Option<Real>>)
    ensures
        slots@ == assigned(estimates@, frame@),
{
    let mut slots: Vec<Option<Real>> = Vec::new();
    let mut i: usize = 0;
    while i < estimates.len()
        invariant
            i <= estimates@.len(),
            slots@.len() == i,
            forall|k: int| 0 <= k < i ==> slots@[k] == assigned(estimates@, frame@)[k],
        decreases estimates@.len() - i,
    {
        if frame.len() == 0 {
            slots.push(None);
        } else {
            let win = nearest_index(frame, estimates[i]);
            slots.push(Some(frame[win]));
        }
        i += 1;
    }
    slots
}

/// Where the sweep over the slots stands.
pub struct Sweep {
    /// The slots so far.
    pub slots: Seq<Option<Real>>,
    /// The slot that holds the peak every later slot is compared with.
    pub winner: int,
    /// Whether a slot has been cleared.
    pub cleared: bool,
}

/// The sweep's move at slot `r`: where `r` and the winner hold equal peaks,
/// the one whose estimate lies farther from the peak is cleared; `r` becomes
/// the winner unless it was the one cleared.
pub open spec fn sweep_step(s: Sweep, estimates: Seq<Real>, r: int) -> Sweep {
    match s.slots[r] {
        None => s,
        Some(v) => {
            if s.slots[s.winner] matches Some(u) && same(v@, u@) {
                if less(distance(v, estimates[r]), distance(v, estimates[s.winner])) {
                    Sweep { slots: s.slots.update(s.winner, None), winner: r, cleared: true }
                } else {
                    Sweep { slots: s.slots.update(r, None), winner: s.winner, cleared: true }
                }
            } else {
                Sweep { slots: s.slots, winner: r, cleared: s.cleared }
            }
        },
    }
}

/// The sweep over the slots `1..n`, left to right, starting with slot 0 as the
/// winner.
pub open spec fn swept(slots: Seq<Option<Real>>, estimates: Seq<Real>, n: nat) -> Sweep
    decreases n,
{
    if n <= 1 {
        Sweep { slots, winner: 0, cleared: false }
    } else {
        sweep_step(swept(slots, estimates, (n - 1) as nat), estimates, n - 1)
    }
}

/// The sweep keeps the number of slots and its winner inside them.
pub proof fn lemma_swept_shape(slots: Seq<Option<Real>>, estimates: Seq<Real>, n: nat)
    requires
        n <= slots.len(),
    ensures
        swept(slots, estimates, n).slots.len() == slots.len(),
        0 <= swept(slots, estimates, n).winner,
        swept(slots, estimates, n).winner < n || n == 0,
    decreases n,
{
    if n > 1 {
        lemma_swept_shape(slots, estimates, (n - 1) as nat);
    }
}

/// The sweep: removes duplicates. Returns whether a slot was cleared.
fn remove_duplicates(slots: &mut Vec<Option<Real>>, estimates: &Vec<Real>) -> (cleared: bool)
    requires
        old(slots)@.len() == estimates@.len(),
    ensures
        final(slots)@ == swept(old(slots)@, estimates@, old(slots)@.len()).slots,
        cleared == swept(old(slots)@, estimates@, old(slots)@.len()).cleared,
{
    let ghost start = slots@;
    let n = slots.len();
    if n == 0 {
        return false;
    }
    let mut w: usize = 0;
    let mut cleared = false;
    let mut r: usize = 1;
    while r < n
        invariant
            n == estimates@.len(),
            n == start.len(),
            1 <= r <= n,
            w < r,
            slots@ == swept(start, estimates@, r as nat).slots,
            w == swept(start, estimates@, r as nat).winner,
            cleared == swept(start, estimates@, r as nat).cleared,
            slots@.len() == n,
        decreases n - r,
    {
        proof {
            lemma_swept_shape(start, estimates@, r as nat);
        }
        match slots[r] {
            Some(v) => {
                let equal = match slots[w] {
                    Some(u) => v.same_as(u),
                    None => false,
                };
                if equal {
                    let near = v.minus(estimates[r]).abs();
                    let far = v.minus(estimates[w]).abs();
                    if near.lt(far) {
                        slots[w] = None;
                        w = r;
                    } else {
                        slots[r] = None;
                    }
                    cleared = true;
                } else {
                    w = r;
                }
            },
            None => {},
        }
        r += 1;
    }
    cleared
}

/// Whether some slot holds a peak equal to `peak`.
pub open spec fn holds(slots: Seq<Option<Real>>, peak: Real) -> bool {
    exists|i: int| 0 <= i < slots.len() && slot_holds(slots[i], peak)
}

/// Whether a slot is filled with a peak equal to `peak`.
pub open spec fn slot_holds(slot: Option<Real>, peak: Real) -> bool {
    slot matches Some(v) && same(v@, peak@)
}

/// Filling for the peak at index `j` of the frame: a peak that no slot holds
/// goes to slot `j` if that is empty; else, if slot `j - 1` is empty, slot
/// `j`'s peak moves there and the peak takes slot `j`; else the same with slot
/// `j + 1`.
pub open spec fn placed(slots: Seq<Option<Real>>, j: int, peak: Real) -> Seq<Option<Real>> {
    if holds(slots, peak) {
        slots
    } else if j < slots.len() && slots[j] is None {
        slots.update(j, Some(peak))
    } else if 0 < j < slots.len() && slots[j - 1] is None {
        slots.update(j - 1, slots[j]).update(j, Some(peak))
    } else if j + 1 < slots.len() && slots[j + 1] is None {
        slots.update(j + 1, slots[j]).update(j, Some(peak))
    } else {
        slots
    }
}

/// Filling for the first `n` peaks of the frame, in frame order.
pub open spec fn filled(slots: Seq<Option<Real>>, frame: Seq<Real>, n: nat) -> Seq<Option<Real>>
    decreases n,
{
    if n == 0 {
        slots
    } else {
        placed(filled(slots, frame, (n - 1) as nat), n - 1, frame[n - 1])
    }
}

/// Whether some slot holds a peak equal to `peak`.
fn contains_peak(slots: &Vec<Option<Real>>, peak: Real) -> (found: bool)
    ensures
        found == holds(slots@, peak),
{
    let mut i: usize = 0;
    while i < slots.len()
        invariant
            i <= slots@.len(),
            forall|k: int| 0 <= k < i ==> !slot_holds(slots@[k], peak),
        decreases slots@.len() - i,
    {
        match slots[i] {
            Some(v) => {
                if v.same_as(peak) {
                    assert(slot_holds(slots@[i as int], peak));
                    return true;
                }
            },
            None => {},
        }
        i += 1;
    }
    false
}

/// Filling: places the peaks that no slot holds in free slots.
fn fill_unassigned(slots: &mut Vec<Option<Real>>, frame: &Vec<Real>)
    ensures
        final(slots)@ == filled(old(slots)@, frame@, frame@.len()),
{
    let ghost start = slots@;
    let n = slots.len();
    let mut j: usize = 0;
    while j < frame.len()
        invariant
            j <= frame@.len(),
            slots@.len() == n,
            slots@ == filled(start, frame@, j as nat),
        decreases frame@.len() - j,
    {
        let peak = frame[j];
        if !contains_peak(slots, peak) {
            if j < n && slots[j].is_none() {
                slots[j] = Some(peak);
            } else if 0 < j && j < n && slots[j - 1].is_none() {
                let moved = slots[j];
                slots[j - 1] = moved;
                slots[j] = Some(peak);
            } else if n >= 1 && j < n - 1 && slots[j + 1].is_none() {
                let moved = slots[j];
                slots[j + 1] = moved;
                slots[j] = Some(peak);
            }
        }
        j += 1;
    }
}

/// Collection: the peaks of the filled slots that are strictly positive, in slot
/// order.
pub open spec fn kept(slots: Seq<Option<Real>>) -> Seq<Real>
    decreases slots.len(),
{
    if slots.len() == 0 {
        Seq::empty()
    } else {
        let rest = kept(slots.drop_last());
        match slots.last() {
            Some(v) => if less(0, v@) {
                rest.push(v)
            } else {
                rest
            },
            None => rest,
        }
    }
}

/// What the slots of `estimates` hold after a frame: assignment, sweep and
/// filling.
pub open spec fn settled(estimates: Seq<Real>, frame: Seq<Real>) -> Seq<Option<Real>> {
    let first = assigned(estimates, frame);
    let sweep = swept(first, estimates, first.len());
    if sweep.cleared {
        filled(sweep.slots, frame, frame.len())
    } else {
        sweep.slots
    }
}

/// The estimates that a frame leaves behind: the peaks collected from the
/// slots, in slot order.
pub open spec fn carried(estimates: Seq<Real>, frame: Seq<Real>) -> Seq<Real> {
    kept(settled(estimates, frame))
}

/// Filling with the first `n` peaks keeps the number of slots and touches no
/// slot with an index above `n`.
pub proof fn lemma_filled(slots: Seq<Option<Real>>, frame: Seq<Real>, n: nat)
    ensures
        filled(slots, frame, n).len() == slots.len(),
        forall|i: int| n < i < slots.len() ==> #[trigger] filled(slots, frame, n)[i] == slots[i],
    decreases n,
{
    if n > 0 {
        lemma_filled(slots, frame, (n - 1) as nat);
    }
}

/// A frame leaves as many slots as there are estimates.
pub proof fn lemma_settled_len(estimates: Seq<Real>, frame: Seq<Real>)
    ensures
        settled(estimates, frame).len() == estimates.len(),
{
    let first = assigned(estimates, frame);
    lemma_swept_shape(first, estimates, first.len());
    let sweep = swept(first, estimates, first.len());
    lemma_filled(sweep.slots, frame, frame.len());
}

/// No number of the sequence is smaller than one before it.
pub open spec fn ascending(s: Seq<Real>) -> bool {
    forall|i: int, j: int| 0 <= i < j < s.len() ==> !less(#[trigger] s[j]@, #[trigger] s[i]@)
}

/// No two numbers of the sequence are equal.
pub open spec fn distinct(s: Seq<Real>) -> bool {
    forall|i: int, j: int| 0 <= i < j < s.len() ==> !same(#[trigger] s[i]@, #[trigger] s[j]@)
}

/// Every number of the sequence is strictly positive.
pub open spec fn positive(s: Seq<Real>) -> bool {
    forall|i: int| 0 <= i < s.len() ==> less(0, #[trigger] s[i]@)
}

/// Every kept peak is strictly positive, and there are no more of them than
/// slots.
pub proof fn lemma_kept(slots: Seq<Option<Real>>)
    ensures
        positive(kept(slots)),
        kept(slots).len() <= slots.len(),
        forall|k: int|
            0 <= k < kept(slots).len() ==> exists|i: int|
                0 <= i < slots.len() && slots[i] == Some(#[trigger] kept(slots)[k]),
    decreases slots.len(),
{
    if slots.len() > 0 {
        lemma_kept(slots.drop_last());
        let rest = kept(slots.drop_last());
        assert forall|k: int| 0 <= k < kept(slots).len() implies exists|i: int|
            0 <= i < slots.len() && slots[i] == Some(#[trigger] kept(slots)[k]) by {
            if k < rest.len() {
                let i = choose|i: int|
                    0 <= i < slots.drop_last().len() && slots.drop_last()[i] == Some(rest[k]);
                assert(slots[i] == Some(kept(slots)[k]));
            } else {
                assert(slots[slots.len() - 1] == Some(kept(slots)[k]));
            }
        }
    }
}

/// Collection: gathers the strictly positive peaks of the filled slots.
fn collect_winners(slots: &Vec<Option<Real>>) -> (winners: Vec<Real>)
    ensures
        winners@ == kept(slots@),
{
    let mut winners: Vec<Real> = Vec::new();
    let mut i: usize = 0;
    while i < slots.len()
        invariant
            i <= slots@.len(),
            winners@ == kept(slots@.take(i as int)),
        decreases slots@.len() - i,
    {
        assert(slots@.take(i + 1).drop_last() == slots@.take(i as int));
        match slots[i] {
            Some(v) => {
                if v.gt(Real::zero()) {
                    winners.push(v);
                }
            },
            None => {},
        }
        i += 1;
    }
    assert(slots@.take(slots@.len() as int) == slots@);
    winners
}

/// Where `x` goes into `s`, looking from index `from`: before the first
/// number that is strictly greater, at the end where there is none.
pub open spec fn insertion_index(s: Seq<Real>, x: Real, from: int) -> int
    decreases s.len() - from,
{
    if from < 0 || from >= s.len() {
        s.len() as int
    } else if less(x@, s[from]@) {
        from
    } else {
        insertion_index(s, x, from + 1)
    }
}

/// The numbers of `s` with each in turn put into those before it at its
/// insertion index: ascending where no number is a NaN, with numbers that
/// compare equal in the order they came in; a NaN goes to the end of what is
/// placed when its turn comes.
pub open spec fn in_order(s: Seq<Real>) -> Seq<Real>
    decreases s.len(),
{
    if s.len() == 0 {
        Seq::empty()
    } else {
        let before = in_order(s.drop_last());
        before.insert(insertion_index(before, s.last(), 0), s.last())
    }
}

/// The numbers of `v` in ascending order: each in turn goes before the first
/// number already placed that is strictly greater, so that numbers that
/// compare equal keep the order they came in.
pub fn sort_ascending(v: &Vec<Real>) -> (sorted: Vec<Real>)
    ensures
        sorted@ == in_order(v@),
        sorted@.to_multiset() == v@.to_multiset(),
        sorted@.len() == v@.len(),
        (forall|i: int| 0 <= i < v@.len() ==> !is_nan(#[trigger] v@[i]@)) ==> ascending(sorted@),
{
    broadcast use {to_multiset_build, to_multiset_insert, to_multiset_len};

    let mut sorted: Vec<Real> = Vec::new();
    let mut i: usize = 0;
    assert(v@.take(0) =~= sorted@);
    assert(sorted@ =~= in_order(v@.take(0)));
    while i < v.len()
        invariant
            i <= v@.len(),
            sorted@.len() == i,
            sorted@ == in_order(v@.take(i as int)),
            sorted@.to_multiset() == v@.take(i as int).to_multiset(),
            (forall|k: int| 0 <= k < i ==> !is_nan(#[trigger] v@[k]@)) ==> ascending(sorted@) && (
            forall|k: int| 0 <= k < sorted@.len() ==> !is_nan(#[trigger] sorted@[k]@)),
        decreases v@.len() - i,
    {
        let x = v[i];
        let mut p: usize = 0;
        while p < sorted.len() && !x.lt(sorted[p])
            invariant
                p <= sorted@.len(),
                forall|k: int| 0 <= k < p ==> !less(x@, #[trigger] sorted@[k]@),
                insertion_index(sorted@, x, 0) == insertion_index(sorted@, x, p as int),
            decreases sorted@.len() - p,
        {
            p += 1;
        }
        let ghost before = sorted@;
        sorted.insert(p, x);
        proof {
            assert(insertion_index(before, x, 0) == p);
            assert(v@.take(i + 1).drop_last() =~= v@.take(i as int));
            assert(v@.take(i + 1).last() == x);
            assert(v@.take(i + 1) == v@.take(i as int).push(x));
            to_multiset_build(v@.take(i as int), x);
            to_multiset_insert(before, p as int, x);
            assert(sorted@ == before.insert(p as int, x));
            if forall|k: int| 0 <= k < i + 1 ==> !is_nan(#[trigger] v@[k]@) {
                let after = sorted@;
                assert forall|a: int, b: int| 0 <= a < b < after.len() implies !less(
                    #[trigger] after[b]@,
                    #[trigger] after[a]@,
                ) by {
                    if b == p {
                        assert(after[a] == before[a]);
                    } else if a == p {
                        assert(after[b] == before[b - 1]);
                        assert(less(x@, before[p as int]@));
                        assert(!less(before[b - 1]@, before[p as int]@));
                    } else {
                        let a0 = if a < p { a } else { a - 1 };
                        let b0 = if b < p { b } else { b - 1 };
                        assert(after[a] == before[a0]);
                        assert(after[b] == before[b0]);
                    }
                }
                assert forall|k: int| 0 <= k < after.len() implies !is_nan(
                    #[trigger] after[k]@,
                ) by {
                    if k < p {
                        assert(after[k] == before[k]);
                    } else if k > p {
                        assert(after[k] == before[k - 1]);
                    }
                }
            }
        }
        i += 1;
    }
    assert(v@.take(v@.len() as int) == v@);
    sorted
}

/// Whether every filled slot holds a peak of the frame.
pub open spec fn drawn_from(slots: Seq<Option<Real>>, frame: Seq<Real>) -> bool {
    forall|i: int|
        0 <= i < slots.len() && slots[i] is Some ==> frame.contains((#[trigger] slots[i])->0)
}

/// The sweep only clears slots.
pub proof fn lemma_sweep_only_clears(slots: Seq<Option<Real>>, estimates: Seq<Real>, n: nat)
    requires
        n <= slots.len(),
    ensures
        forall|i: int|
            0 <= i < slots.len() ==> (#[trigger] swept(slots, estimates, n).slots[i]) is None
                || swept(slots, estimates, n).slots[i] == slots[i],
    decreases n,
{
    lemma_swept_shape(slots, estimates, n);
    if n > 1 {
        lemma_sweep_only_clears(slots, estimates, (n - 1) as nat);
        lemma_swept_shape(slots, estimates, (n - 1) as nat);
    }
}

/// Filling puts nothing but peaks of the frame into the slots.
pub proof fn lemma_filling_draws_from_frame(slots: Seq<Option<Real>>, frame: Seq<Real>, n: nat)
    requires
        drawn_from(slots, frame),
        n <= frame.len(),
    ensures
        drawn_from(filled(slots, frame, n), frame),
    decreases n,
{
    if n > 0 {
        lemma_filling_draws_from_frame(slots, frame, (n - 1) as nat);
        lemma_filled(slots, frame, (n - 1) as nat);
        let before = filled(slots, frame, (n - 1) as nat);
        let after = placed(before, n - 1, frame[n - 1]);
        assert(frame.contains(frame[n - 1]));
        assert forall|i: int| 0 <= i < after.len() && after[i] is Some implies frame.contains(
            (#[trigger] after[i])->0,
        ) by {
            if after[i] != Some(frame[n - 1]) {
                if after[i] == before[i] {
                } else {
                    assert(after[i] == before[n - 1]);
                }
            }
        }
    }
}

/// Every estimate that a frame leaves behind is one of its peaks.
pub proof fn lemma_carried_from_frame(estimates: Seq<Real>, frame: Seq<Real>)
    ensures
        forall|k: int|
            0 <= k < carried(estimates, frame).len() ==> frame.contains(
                #[trigger] carried(estimates, frame)[k],
            ),
{
    let first = assigned(estimates, frame);
    assert(drawn_from(first, frame)) by {
        assert forall|i: int| 0 <= i < first.len() && first[i] is Some implies frame.contains(
            (#[trigger] first[i])->0,
        ) by {
            lemma_nearest(frame, estimates[i], frame.len());
        }
    }
    let sweep = swept(first, estimates, first.len());
    lemma_sweep_only_clears(first, estimates, first.len());
    lemma_swept_shape(first, estimates, first.len());
    assert(drawn_from(sweep.slots, frame)) by {
        assert forall|i: int|
            0 <= i < sweep.slots.len() && sweep.slots[i] is Some implies frame.contains(
            (#[trigger] sweep.slots[i])->0,
        ) by {
            assert(sweep.slots[i] == first[i]);
        }
    }
    lemma_filling_draws_from_frame(sweep.slots, frame, frame.len());
    let last = settled(estimates, frame);
    lemma_kept(last);
    assert forall|k: int| 0 <= k < carried(estimates, frame).len() implies frame.contains(
        #[trigger] carried(estimates, frame)[k],
    ) by {
        let i = choose|i: int| 0 <= i < last.len() && last[i] == Some(kept(last)[k]);
        assert(frame.contains(last[i]->0));
    }
}

/// Runs one frame through the slots of `estimates`. The result is the next
/// estimate, in slot order: strictly positive peaks of the frame, no more of
/// them than there are slots.
pub fn track(estimates: &Vec<Real>, frame: &Vec<Real>) -> (winners: Vec<Real>)
    ensures
        winners@ == carried(estimates@, frame@),
        winners@.len() <= estimates@.len(),
        positive(winners@),
        forall|k: int| 0 <= k < winners@.len() ==> frame@.contains(#[trigger] winners@[k]),
{
    let mut slots = assign_slots(estimates, frame);
    let cleared = remove_duplicates(&mut slots, estimates);
    if cleared {
        fill_unassigned(&mut slots, frame);
    }
    let winners = collect_winners(&slots);
    proof {
        lemma_settled_len(estimates@, frame@);
        lemma_kept(slots@);
        lemma_carried_from_frame(estimates@, frame@);
        assert forall|k: int| 0 <= k < winners@.len() implies frame@.contains(
            #[trigger] winners@[k],
        ) by {
            assert(winners@[k] == carried(estimates@, frame@)[k]);
        }
    }
    winners
}

/// One formant of a frame.
pub struct FormantFrame {
    pub frequency: Real,
}

/// Follows formants through a sequence of frames, each a list of resonance
/// frequencies. `estimates` is the state carried from frame to frame; a
/// caller may overwrite it to seed the tracker anew.
pub struct FormantExtractor<'a> {
    /// The number of formants asked for.
    pub num_formants: usize,
    /// How many frames have been consumed.
    pub frame_index: usize,
    /// The frames the tracker reads.
    pub resonances: &'a Vec<Vec<Real>>,
    /// The current estimate of each formant.
    pub estimates: Vec<Real>,
}

impl<'a> FormantExtractor<'a> {
    /// A tracker at the first of `resonances`, seeded with
    /// `starting_estimates`.
    pub fn new(
        num_formants: usize,
        resonances: &'a Vec<Vec<Real>>,
        starting_estimates: Vec<Real>,
    ) -> (extractor: Self)
        ensures
            extractor.num_formants == num_formants,
            extractor.frame_index == 0,
            extractor.resonances == resonances,
            extractor.estimates == starting_estimates,
    {
        FormantExtractor {
            num_formants,
            resonances,
            frame_index: 0,
            estimates: starting_estimates,
        }
    }

    /// Consumes the next frame: the estimates become what the frame leaves
    /// in the slots, and the same peaks are returned in ascending order.
    /// `None`, with nothing changed, once the frames are exhausted.
    pub fn next(&mut self) -> (out: Option<Vec<Real>>)
        ensures
            final(self).resonances == old(self).resonances,
            final(self).num_formants == old(self).num_formants,
            old(self).frame_index >= old(self).resonances@.len() ==> out is None && *final(self)
                == *old(self),
            old(self).frame_index < old(self).resonances@.len() ==> {
                let frame = old(self).resonances@[old(self).frame_index as int];
                &&& final(self).frame_index == old(self).frame_index + 1
                &&& final(self).estimates@ == carried(old(self).estimates@, frame@)
                &&& final(self).estimates@.len() <= old(self).estimates@.len()
                &&& out matches Some(v) && v@ == in_order(final(self).estimates@)
                    && v@.to_multiset() == final(self).estimates@.to_multiset() && ascending(v@)
            },
    {
        let frames: &Vec<Vec<Real>> = self.resonances;
        if self.frame_index >= frames.len() {
            return None;
        }
        let frame = &frames[self.frame_index];
        let winners = track(&self.estimates, frame);
        let sorted = sort_ascending(&winners);
        self.estimates = winners;
        self.frame_index += 1;
        Some(sorted)
    }
}

/// Whether two slots are filled with equal peaks.
pub open spec fn equal_slots(a: Option<Real>, b: Option<Real>) -> bool {
    a matches Some(x) && b matches Some(y) && same(x@, y@)
}

/// Whether equal peaks lie side by side: between two slots with equal peaks
/// every slot holds that peak too.
pub open spec fn grouped(slots: Seq<Option<Real>>) -> bool {
    forall|i: int, j: int, k: int|
        0 <= i < j < k < slots.len() && #[trigger] equal_slots(slots[i], slots[k])
            ==> #[trigger] equal_slots(slots[i], slots[j])
}

/// No two slots are filled with equal peaks.
pub open spec fn distinct_slots(slots: Seq<Option<Real>>) -> bool {
    forall|i: int, j: int| 0 <= i < j < slots.len() ==> !equal_slots(slots[i], slots[j])
}

/// What the sweep has established once the slots before `n` are done: a
/// filled slot still holds its first peak, no two of the slots done hold
/// equal peaks, and only the winner's peak can come again.
spec fn sweep_settled(first: Seq<Option<Real>>, s: Sweep, n: int) -> bool {
    &&& s.slots.len() == first.len()
    &&& 0 <= s.winner
    &&& s.winner < n || n <= 1
    &&& forall|i: int| n <= i < first.len() ==> #[trigger] s.slots[i] == first[i]
    &&& forall|i: int| 0 <= i < n && i < first.len() && s.slots[i] is Some ==> #[trigger] s.slots[i] == first[i]
    &&& forall|i: int, j: int|
        0 <= i < j < n && j < first.len() ==> !equal_slots(
            #[trigger] s.slots[i],
            #[trigger] s.slots[j],
        )
    &&& forall|i: int, j: int|
        0 <= i < n <= j < first.len() && i != s.winner && s.slots[i] is Some ==> !equal_slots(
            #[trigger] first[i],
            #[trigger] first[j],
        )
}

proof fn lemma_sweep_settles(first: Seq<Option<Real>>, estimates: Seq<Real>, n: nat)
    requires
        grouped(first),
        n <= first.len(),
    ensures
        sweep_settled(first, swept(first, estimates, n), n as int),
    decreases n,
{
    if n > 1 {
        lemma_sweep_settles(first, estimates, (n - 1) as nat);
        let s = swept(first, estimates, (n - 1) as nat);
        let t = swept(first, estimates, n);
        let r = n - 1;
        let w = s.winner;
        assert(t == sweep_step(s, estimates, r));
        assert(s.slots[r] == first[r]);
        match s.slots[r] {
            None => {},
            Some(v) => {
                if s.slots[w] matches Some(u) && same(v@, u@) {
                    assert(s.slots[w] == first[w]);
                    assert forall|i: int, j: int| 0 <= i < j < n implies !equal_slots(
                        #[trigger] t.slots[i],
                        #[trigger] t.slots[j],
                    ) by {
                        if j == r && i != w && t.slots[i] is Some && t.slots[j] is Some {
                            assert(s.slots[i] == first[i]);
                            assert(!equal_slots(first[i], first[r]));
                        } else if j < r {
                            assert(!equal_slots(s.slots[i], s.slots[j]));
                        }
                    }
                } else {
                    assert forall|i: int, j: int| 0 <= i < j < n implies !equal_slots(
                        #[trigger] t.slots[i],
                        #[trigger] t.slots[j],
                    ) by {
                        if j == r && t.slots[i] is Some {
                            assert(s.slots[i] == first[i]);
                            if i != w {
                                assert(!equal_slots(first[i], first[r]));
                            }
                        } else if j < r {
                            assert(!equal_slots(s.slots[i], s.slots[j]));
                        }
                    }
                    assert forall|i: int, j: int|
                        0 <= i < n <= j < first.len() && i != t.winner
                            && t.slots[i] is Some implies !equal_slots(
                        #[trigger] first[i],
                        #[trigger] first[j],
                    ) by {
                        if i == w {
                            assert(s.slots[w] == first[w]);
                            if equal_slots(first[w], first[j]) {
                                assert(equal_slots(first[w], first[r]));
                            }
                        } else {
                            assert(!equal_slots(first[i], first[j]));
                        }
                    }
                }
            },
        }
    }
}

/// Where equal peaks lie side by side after the assignment, the sweep leaves
/// no two slots with equal peaks.
pub proof fn lemma_sweep_removes_duplicates(first: Seq<Option<Real>>, estimates: Seq<Real>)
    requires
        grouped(first),
    ensures
        distinct_slots(swept(first, estimates, first.len()).slots),
{
    lemma_sweep_settles(first, estimates, first.len());
    let s = swept(first, estimates, first.len());
    assert forall|i: int, j: int| 0 <= i < j < s.slots.len() implies !equal_slots(
        s.slots[i],
        s.slots[j],
    ) by {
        assert(!equal_slots(s.slots[i], s.slots[j]));
    }
}

/// Filling brings in no peak that a slot holds already.
pub proof fn lemma_filling_keeps_distinct(slots: Seq<Option<Real>>, frame: Seq<Real>, n: nat)
    requires
        distinct_slots(slots),
    ensures
        distinct_slots(filled(slots, frame, n)),
    decreases n,
{
    if n > 0 {
        lemma_filling_keeps_distinct(slots, frame, (n - 1) as nat);
        let before = filled(slots, frame, (n - 1) as nat);
        let peak = frame[n - 1];
        let after = placed(before, n - 1, peak);
        if !holds(before, peak) {
            assert forall|i: int| 0 <= i < before.len() implies !slot_holds(
                #[trigger] before[i],
                peak,
            ) by {}
            assert forall|i: int, j: int| 0 <= i < j < after.len() implies !equal_slots(
                after[i],
                after[j],
            ) by {
                let j0 = n - 1;
                let source = |x: int|
                    if after[x] == before[x] {
                        x
                    } else {
                        j0
                    };
                if after[i] is Some && after[j] is Some {
                    if after[i] == Some(peak) && i == j0 {
                        assert(!slot_holds(before[source(j)], peak));
                    } else if after[j] == Some(peak) && j == j0 {
                        assert(!slot_holds(before[source(i)], peak));
                    } else {
                        assert(!equal_slots(before[source(i)], before[source(j)]) || source(i)
                            == source(j));
                    }
                }
            }
        }
    }
}

/// Distinct slots keep distinct peaks.
pub proof fn lemma_kept_distinct(slots: Seq<Option<Real>>)
    requires
        distinct_slots(slots),
    ensures
        distinct(kept(slots)),
    decreases slots.len(),
{
    if slots.len() > 0 {
        let rest = slots.drop_last();
        assert(distinct_slots(rest)) by {
            assert forall|i: int, j: int| 0 <= i < j < rest.len() implies !equal_slots(
                rest[i],
                rest[j],
            ) by {
                assert(!equal_slots(slots[i], slots[j]));
            }
        }
        lemma_kept_distinct(rest);
        lemma_kept(rest);
        let k = kept(slots);
        assert forall|a: int, b: int| 0 <= a < b < k.len() implies !same(
            #[trigger] k[a]@,
            #[trigger] k[b]@,
        ) by {
            if b == kept(rest).len() {
                let i = choose|i: int| 0 <= i < rest.len() && rest[i] == Some(kept(rest)[a]);
                assert(!equal_slots(slots[i], slots[slots.len() - 1]));
            }
        }
    }
}

/// Where the frame ascends and the estimates take their nearest peaks in
/// frame order, the assignment puts equal peaks side by side.
pub proof fn lemma_ordered_assignment_is_grouped(estimates: Seq<Real>, frame: Seq<Real>)
    requires
        ascending(frame),
        forall|i: int| 0 <= i < frame.len() ==> !is_nan(#[trigger] frame[i]@),
        forall|i: int, j: int|
            0 <= i < j < estimates.len() ==> nearest(frame, estimates[i], frame.len()) <= nearest(
                frame,
                estimates[j],
                frame.len(),
            ),
    ensures
        grouped(assigned(estimates, frame)),
{
    let slots = assigned(estimates, frame);
    if frame.len() > 0 {
        assert forall|i: int, j: int, k: int|
            0 <= i < j < k < slots.len() && #[trigger] equal_slots(
                slots[i],
                slots[k],
            ) implies #[trigger] equal_slots(slots[i], slots[j]) by {
            lemma_nearest(frame, estimates[i], frame.len());
            lemma_nearest(frame, estimates[j], frame.len());
            lemma_nearest(frame, estimates[k], frame.len());
            let a = nearest(frame, estimates[i], frame.len());
            let b = nearest(frame, estimates[j], frame.len());
            let c = nearest(frame, estimates[k], frame.len());
            assert(a <= b <= c);
            if a < b {
                assert(!less(frame[b]@, frame[a]@));
            }
            if b < c {
                assert(!less(frame[c]@, frame[b]@));
            }
        }
    }
}

/// Where the assignment puts equal peaks side by side, as it does when
/// ascending estimates take their nearest peaks from an ascending frame in
/// order, the estimates that the frame leaves hold no peak twice.
pub proof fn lemma_carried_distinct(estimates: Seq<Real>, frame: Seq<Real>)
    requires
        grouped(assigned(estimates, frame)),
    ensures
        distinct(carried(estimates, frame)),
{
    let first = assigned(estimates, frame);
    let sweep = swept(first, estimates, first.len());
    lemma_sweep_removes_duplicates(first, estimates);
    if sweep.cleared {
        lemma_filling_keeps_distinct(sweep.slots, frame, frame.len());
    }
    lemma_kept_distinct(settled(estimates, frame));
}

/// A rearrangement of strictly positive numbers is strictly positive.
pub proof fn lemma_sorted_positive(winners: Seq<Real>, sorted: Seq<Real>)
    requires
        positive(winners),
        sorted.to_multiset() == winners.to_multiset(),
    ensures
        positive(sorted),
{
    assert forall|i: int| 0 <= i < sorted.len() implies less(0, #[trigger] sorted[i]@) by {
        sorted.to_multiset_ensures();
        winners.to_multiset_ensures();
        assert(sorted.to_multiset().count(sorted[i]) > 0);
        assert(winners.contains(sorted[i]));
        let t = choose|t: int| 0 <= t < winners.len() && winners[t] == sorted[i];
        assert(less(0, winners[t]@));
    }
}

/// Where the assignment puts equal peaks side by side, the formants handed
/// out for a frame ascend strictly: they are sorted and none comes twice.
pub proof fn lemma_emitted_formants_ascend_strictly(
    estimates: Seq<Real>,
    frame: Seq<Real>,
    emitted: Seq<Real>,
)
    requires
        grouped(assigned(estimates, frame)),
        emitted.to_multiset() == carried(estimates, frame).to_multiset(),
        ascending(emitted),
    ensures
        forall|i: int, j: int|
            0 <= i < j < emitted.len() ==> less(#[trigger] emitted[i]@, #[trigger] emitted[j]@),
        distinct(emitted),
{
    lemma_carried_distinct(estimates, frame);
    lemma_kept(settled(estimates, frame));
    lemma_sorted_distinct_ascend_strictly(carried(estimates, frame), emitted);
}

/// A frame with fewer peaks than there are slots leaves the slots beyond its
/// reach as the sweep left them: filling touches no slot more than one past
/// the last peak.
pub proof fn lemma_short_frame_keeps_tail(estimates: Seq<Real>, frame: Seq<Real>)
    ensures
        forall|i: int|
            frame.len() < i < estimates.len() ==> #[trigger] settled(estimates, frame)[i]
                == swept(
                assigned(estimates, frame),
                estimates,
                assigned(estimates, frame).len(),
            ).slots[i],
{
    let first = assigned(estimates, frame);
    lemma_swept_shape(first, estimates, first.len());
    lemma_filled(swept(first, estimates, first.len()).slots, frame, frame.len());
}

/// Strictly positive numbers without duplicates, put in ascending order,
/// ascend strictly.
pub proof fn lemma_sorted_distinct_ascend_strictly(winners: Seq<Real>, sorted: Seq<Real>)
    requires
        positive(winners),
        distinct(winners),
        sorted.to_multiset() == winners.to_multiset(),
        ascending(sorted),
    ensures
        forall|i: int, j: int|
            0 <= i < j < sorted.len() ==> less(#[trigger] sorted[i]@, #[trigger] sorted[j]@),
        distinct(sorted),
        positive(sorted),
{
    assert(winners.no_duplicates()) by {
        assert forall|i: int, j: int| 0 <= i < winners.len() && 0 <= j < winners.len() && i
            != j implies winners[i] != winners[j] by {
            if i < j {
                assert(!same(winners[i]@, winners[j]@));
                assert(less(0, winners[i]@));
            } else {
                assert(!same(winners[j]@, winners[i]@));
                assert(less(0, winners[i]@));
            }
        }
    }
    winners.lemma_multiset_has_no_duplicates();
    sorted.lemma_multiset_has_no_duplicates_conv();
    lemma_sorted_positive(winners, sorted);
    assert forall|i: int, j: int| 0 <= i < j < sorted.len() implies less(
        #[trigger] sorted[i]@,
        #[trigger] sorted[j]@,
    ) by {
        assert(sorted[i] != sorted[j]);
        assert(!less(sorted[j]@, sorted[i]@));
        assert(less(0, sorted[i]@));
        assert(less(0, sorted[j]@));
        assert(sorted[i].bits != sorted[j].bits);
    }
}

} // verus!
