//! Folding the shape variants' stop lists into one list.

use vstd::prelude::*;
use crate::records::{SequenceError, StopId};

verus! {

/// Index of the first occurrence of `x` in `s`, or `s.len()` when there is none.
pub open spec fn first_index(s: Seq<StopId>, x: StopId) -> int
    decreases s.len(),
{
    if s.len() == 0 {
        0
    } else if s[0] == x {
        0
    } else {
        1 + first_index(s.skip(1), x)
    }
}

/// The first index of a stop lies within the list exactly when the list
/// holds the stop; the stop stands there, and nowhere before.
pub proof fn lemma_first_index(s: Seq<StopId>, x: StopId)
    ensures
        0 <= first_index(s, x) <= s.len(),
        s.contains(x) <==> first_index(s, x) < s.len(),
        first_index(s, x) < s.len() ==> s[first_index(s, x)] == x,
        forall|i: int| 0 <= i < first_index(s, x) ==> s[i] != x,
    decreases s.len(),
{
    if s.len() == 0 {
    } else if s[0] == x {
    } else {
        let t = s.skip(1);
        lemma_first_index(t, x);
        if s.contains(x) {
            let i = choose|i: int| 0 <= i < s.len() && s[i] == x;
            assert(t[i - 1] == x);
        }
        if t.contains(x) {
            let i = choose|i: int| 0 <= i < t.len() && t[i] == x;
            assert(s[i + 1] == x);
        }
        assert forall|i: int| 0 <= i < first_index(s, x) implies s[i] != x by {
            if i > 0 {
                assert(t[i - 1] == s[i]);
            }
        }
    }
}

/// Scans `v` for `x`.
pub fn find_stop(v: &Vec<StopId>, x: StopId) -> (found: Option<usize>)
    ensures
        match found {
            Some(i) => v@.contains(x) && i == first_index(v@, x),
            None => !v@.contains(x),
        },
{
    let mut i: usize = 0;
    while i < v.len()
        invariant
            i <= v.len(),
            forall|j: int| 0 <= j < i ==> v@[j] != x,
        decreases v.len() - i,
    {
        if v[i] == x {
            proof {
                lemma_first_index(v@, x);
            }
            return Some(i);
        }
        i += 1;
    }
    None
}

/// Appends every element of `tail` to `v`.
pub fn append_stops(v: &mut Vec<StopId>, tail: &Vec<StopId>)
    ensures
        final(v)@ == old(v)@ + tail@,
{
    let mut i: usize = 0;
    while i < tail.len()
        invariant
            i <= tail.len(),
            v@ == old(v)@ + tail@.take(i as int),
        decreases tail.len() - i,
    {
        v.push(tail[i]);
        i += 1;
        assert(v@ =~= old(v)@ + tail@.take(i as int));
    }
    assert(tail@.take(tail.len() as int) =~= tail@);
}

/// Puts `middle` into `v` so that it ends just before index `at`.
pub fn splice_stops(v: &mut Vec<StopId>, at: usize, middle: &Vec<StopId>)
    requires
        at <= old(v).len(),
    ensures
        final(v)@ == old(v)@.take(at as int) + middle@ + old(v)@.skip(at as int),
{
    let mut spliced: Vec<StopId> = Vec::new();
    let mut i: usize = 0;
    while i < at
        invariant
            i <= at <= v.len(),
            v@ == old(v)@,
            spliced@ == v@.take(i as int),
        decreases at - i,
    {
        spliced.push(v[i]);
        i += 1;
        assert(spliced@ =~= v@.take(i as int));
    }
    append_stops(&mut spliced, middle);
    while i < v.len()
        invariant
            at <= i <= v.len(),
            v@ == old(v)@,
            spliced@ == v@.take(at as int) + middle@ + v@.subrange(at as int, i as int),
        decreases v.len() - i,
    {
        spliced.push(v[i]);
        i += 1;
        assert(spliced@ =~= v@.take(at as int) + middle@ + v@.subrange(at as int, i as int));
    }
    assert(v@.subrange(at as int, v.len() as int) =~= v@.skip(at as int));
    *v = spliced;
}

/// What the merge holds between two steps: the sequences not yet started,
/// the stops placed so far, and the stops of the current sequence that are
/// still waiting for their place.
pub struct MergeState {
    /// The sequences still to be taken, each without what it has given up.
    pub pending: Seq<Seq<StopId>>,
    /// The stops placed so far, in their order.
    pub output: Seq<StopId>,
    /// The stops of the current sequence that wait for their place.
    pub temp: Seq<StopId>,
}

/// `s` without its front element, when that element is `x`.
pub open spec fn coalesce(s: Seq<StopId>, x: StopId) -> Seq<StopId> {
    if s.len() > 0 && s[0] == x {
        s.skip(1)
    } else {
        s
    }
}

/// Every pending sequence that starts with `x` loses that start.
pub open spec fn coalesce_all(pending: Seq<Seq<StopId>>, x: StopId) -> Seq<Seq<StopId>> {
    Seq::new(pending.len(), |j: int| coalesce(pending[j], x))
}

/// The state after the stop `x` has been taken from the front of the current
/// sequence.
///
/// A stop that is already waiting in `temp` closes a loop: the waiting stops
/// are placed at the end of the output and `x` is dropped. Otherwise `x` is
/// taken from the front of every pending sequence that starts with it; then,
/// if the output already holds `x`, the waiting stops are placed just before
/// its first occurrence, and if not, `x` joins the waiting stops.
pub open spec fn absorb(x: StopId, st: MergeState) -> MergeState {
    if st.temp.contains(x) {
        MergeState { pending: st.pending, output: st.output + st.temp, temp: Seq::empty() }
    } else if st.output.contains(x) {
        let at = first_index(st.output, x);
        MergeState {
            pending: coalesce_all(st.pending, x),
            output: st.output.take(at) + st.temp + st.output.skip(at),
            temp: Seq::empty(),
        }
    } else {
        MergeState { pending: coalesce_all(st.pending, x), output: st.output, temp: st.temp.push(x) }
    }
}

/// The state after the whole of `current` has been taken, front to back, and
/// the stops still waiting at its end have been placed at the end of the
/// output.
pub open spec fn drain(current: Seq<StopId>, st: MergeState) -> MergeState
    decreases current.len(),
{
    if current.len() == 0 {
        MergeState { pending: st.pending, output: st.output + st.temp, temp: Seq::empty() }
    } else {
        drain(current.skip(1), absorb(current[0], st))
    }
}

/// Draining a sequence leaves as many sequences pending as there were, and
/// no stop waiting.
pub proof fn lemma_drain_shape(current: Seq<StopId>, st: MergeState)
    ensures
        drain(current, st).pending.len() == st.pending.len(),
        drain(current, st).temp.len() == 0,
    decreases current.len(),
{
    if current.len() > 0 {
        lemma_drain_shape(current.skip(1), absorb(current[0], st));
    }
}

/// The output once every sequence of `pending` has been drained in turn,
/// starting from `output`.
pub open spec fn merge_from(pending: Seq<Seq<StopId>>, output: Seq<StopId>) -> Seq<StopId>
    decreases pending.len(),
{
    if pending.len() == 0 {
        output
    } else {
        let st = drain(
            pending[0],
            MergeState { pending: pending.skip(1), output, temp: Seq::empty() },
        );
        proof {
            lemma_drain_shape(
                pending[0],
                MergeState { pending: pending.skip(1), output, temp: Seq::empty() },
            );
        }
        merge_from(st.pending, st.output)
    }
}

/// The merged stop order of `sequences`, taken in the order given.
pub open spec fn merged(sequences: Seq<Seq<StopId>>) -> Seq<StopId> {
    merge_from(sequences, Seq::empty())
}

/// The stop lists of `input` as sequences.
pub open spec fn stop_lists(input: Seq<Vec<StopId>>) -> Seq<Seq<StopId>> {
    Seq::new(input.len(), |j: int| input[j]@)
}

/// The stops that a state has taken in: those placed and those waiting.
pub open spec fn taken(st: MergeState) -> Seq<StopId> {
    st.output + st.temp
}

/// Whether `x` is a stop of one of `sequences`.
pub open spec fn occurs(sequences: Seq<Seq<StopId>>, x: StopId) -> bool {
    exists|j: int| 0 <= j < sequences.len() && #[trigger] sequences[j].contains(x)
}

proof fn lemma_coalesce_all_occurs(pending: Seq<Seq<StopId>>, x: StopId)
    ensures
        forall|y: StopId| occurs(coalesce_all(pending, x), y) ==> occurs(pending, y),
        forall|y: StopId| occurs(pending, y) ==> y == x || occurs(coalesce_all(pending, x), y),
{
    let after = coalesce_all(pending, x);
    assert forall|y: StopId| occurs(after, y) implies occurs(pending, y) by {
        let j = choose|j: int| 0 <= j < after.len() && #[trigger] after[j].contains(y);
        let i = choose|i: int| 0 <= i < after[j].len() && after[j][i] == y;
        if pending[j].len() > 0 && pending[j][0] == x {
            assert(pending[j][i + 1] == y);
        }
        assert(pending[j].contains(y));
    }
    assert forall|y: StopId| occurs(pending, y) implies y == x || occurs(after, y) by {
        let j = choose|j: int| 0 <= j < pending.len() && #[trigger] pending[j].contains(y);
        let i = choose|i: int| 0 <= i < pending[j].len() && pending[j][i] == y;
        if y != x {
            if pending[j].len() > 0 && pending[j][0] == x {
                assert(after[j][i - 1] == y);
            }
            assert(after[j].contains(y));
        }
    }
}

proof fn lemma_absorb(x: StopId, st: MergeState)
    requires
        taken(st).no_duplicates(),
    ensures
        taken(absorb(x, st)).no_duplicates(),
        forall|y: StopId|
            #![trigger taken(absorb(x, st)).contains(y)]
            #![trigger taken(st).contains(y)]
            taken(absorb(x, st)).contains(y) <==> y == x || taken(st).contains(y),
        forall|y: StopId|
            #![trigger occurs(absorb(x, st).pending, y)]
            #![trigger occurs(st.pending, y)]
            {
                &&& occurs(absorb(x, st).pending, y) ==> occurs(st.pending, y)
                &&& occurs(st.pending, y) ==> y == x || occurs(absorb(x, st).pending, y)
            },
{
    let before = taken(st);
    let after = taken(absorb(x, st));
    lemma_coalesce_all_occurs(st.pending, x);
    if st.temp.contains(x) {
        assert(after =~= before);
        let i = choose|i: int| 0 <= i < st.temp.len() && st.temp[i] == x;
        assert(before[st.output.len() + i] == x);
    } else if st.output.contains(x) {
        lemma_first_index(st.output, x);
        let at = first_index(st.output, x);
        let a = st.output.len();
        let t = st.temp.len();
        // Where index `i` of the new list stood in the old one.
        let origin = |i: int|
            if i < at {
                i
            } else if i < at + t {
                a + (i - at)
            } else {
                i - t
            };
        assert(after.len() == before.len());
        assert forall|i: int| 0 <= i < after.len() implies after[i] == before[origin(i)] by {}
        assert forall|i: int, j: int| 0 <= i < after.len() && 0 <= j < after.len() && i != j implies after[i] != after[j] by {
            assert(origin(i) != origin(j));
            assert(after[i] == before[origin(i)]);
            assert(after[j] == before[origin(j)]);
        }
        assert forall|y: StopId| after.contains(y) implies y == x || before.contains(y) by {
            let i = choose|i: int| 0 <= i < after.len() && after[i] == y;
            assert(before[origin(i)] == y);
        }
        assert forall|y: StopId| y == x || before.contains(y) implies after.contains(y) by {
            if before.contains(y) {
                let i = choose|i: int| 0 <= i < before.len() && before[i] == y;
                let k = if i < at {
                    i
                } else if i < a {
                    i + t
                } else {
                    at + (i - a)
                };
                assert(after[k] == y);
            } else {
                assert(after[at + t] == x);
            }
        }
    } else {
        assert(after =~= before.push(x));
        assert forall|y: StopId| after.contains(y) implies y == x || before.contains(y) by {
            let i = choose|i: int| 0 <= i < after.len() && after[i] == y;
            if i < before.len() {
                assert(before[i] == y);
            }
        }
        assert forall|y: StopId| y == x || before.contains(y) implies after.contains(y) by {
            if before.contains(y) {
                let i = choose|i: int| 0 <= i < before.len() && before[i] == y;
                assert(after[i] == y);
            } else {
                assert(after[before.len() as int] == x);
            }
        }
        assert forall|k: int| 0 <= k < before.len() implies before[k] != x by {
            if before[k] == x {
                if k < st.output.len() {
                    assert(st.output[k] == x);
                } else {
                    assert(st.temp[k - st.output.len()] == x);
                }
            }
        }
    }
}

proof fn lemma_drain(current: Seq<StopId>, st: MergeState)
    requires
        taken(st).no_duplicates(),
    ensures
        drain(current, st).output.no_duplicates(),
        forall|y: StopId|
            #![trigger drain(current, st).output.contains(y)]
            #![trigger current.contains(y)]
            #![trigger taken(st).contains(y)]
            drain(current, st).output.contains(y) <==> current.contains(y) || taken(st).contains(
                y,
            ),
        forall|y: StopId|
            #![trigger occurs(drain(current, st).pending, y)]
            #![trigger occurs(st.pending, y)]
            {
                &&& occurs(drain(current, st).pending, y) ==> occurs(st.pending, y)
                &&& occurs(st.pending, y) ==> current.contains(y) || occurs(
                    drain(current, st).pending,
                    y,
                )
            },
    decreases current.len(),
{
    if current.len() > 0 {
        let x = current[0];
        let rest = current.skip(1);
        let next = absorb(x, st);
        lemma_absorb(x, st);
        lemma_drain(rest, next);
        assert forall|y: StopId| #[trigger] current.contains(y) <==> y == x || rest.contains(y) by {
            if current.contains(y) {
                let i = choose|i: int| 0 <= i < current.len() && current[i] == y;
                if i > 0 {
                    assert(rest[i - 1] == y);
                }
            }
            if rest.contains(y) {
                let i = choose|i: int| 0 <= i < rest.len() && rest[i] == y;
                assert(current[i + 1] == y);
            }
            if y == x {
                assert(current[0] == y);
            }
        }
        assert forall|y: StopId|
            drain(current, st).output.contains(y) <==> current.contains(y) || taken(st).contains(
                y,
            ) by {
            assert(drain(rest, next).output.contains(y) <==> rest.contains(y) || taken(
                next,
            ).contains(y));
            assert(taken(next).contains(y) <==> y == x || taken(st).contains(y));
        }
        assert forall|y: StopId| occurs(st.pending, y) implies current.contains(y) || occurs(
            drain(current, st).pending,
            y,
        ) by {
            assert(y == x || occurs(next.pending, y));
        }
    }
}

proof fn lemma_merge_from(pending: Seq<Seq<StopId>>, output: Seq<StopId>)
    requires
        output.no_duplicates(),
    ensures
        merge_from(pending, output).no_duplicates(),
        forall|y: StopId|
            #![trigger merge_from(pending, output).contains(y)]
            #![trigger output.contains(y)]
            #![trigger occurs(pending, y)]
            merge_from(pending, output).contains(y) <==> output.contains(y) || occurs(pending, y),
    decreases pending.len(),
{
    if pending.len() > 0 {
        let start = MergeState { pending: pending.skip(1), output, temp: Seq::empty() };
        let st = drain(pending[0], start);
        assert(taken(start) =~= output);
        lemma_drain(pending[0], start);
        lemma_drain_shape(pending[0], start);
        lemma_merge_from(st.pending, st.output);
        assert forall|y: StopId| #[trigger] occurs(pending, y) <==> pending[0].contains(y) || occurs(
            pending.skip(1),
            y,
        ) by {
            if occurs(pending, y) {
                let j = choose|j: int| 0 <= j < pending.len() && #[trigger] pending[j].contains(y);
                if j > 0 {
                    assert(pending.skip(1)[j - 1].contains(y));
                }
            }
            if occurs(pending.skip(1), y) {
                let j = choose|j: int|
                    0 <= j < pending.skip(1).len() && #[trigger] pending.skip(1)[j].contains(y);
                assert(pending[j + 1].contains(y));
            }
        }
        assert forall|y: StopId|
            merge_from(pending, output).contains(y) <==> output.contains(y) || occurs(
                pending,
                y,
            ) by {
            assert(merge_from(st.pending, st.output).contains(y) <==> st.output.contains(y)
                || occurs(st.pending, y));
            assert(st.output.contains(y) <==> pending[0].contains(y) || taken(start).contains(y));
            assert(occurs(st.pending, y) ==> occurs(start.pending, y));
            assert(occurs(start.pending, y) ==> pending[0].contains(y) || occurs(st.pending, y));
        }
    }
}

/// No stop is placed twice: the merged order of any sequences holds each
/// stop at most once.
pub proof fn lemma_merged_no_duplicates(sequences: Seq<Seq<StopId>>)
    ensures
        merged(sequences).no_duplicates(),
{
    lemma_merge_from(sequences, Seq::empty());
}

/// The merged order holds exactly the stops of the sequences: every stop of
/// every sequence is in it, and nothing else is.
pub proof fn lemma_merged_complete(sequences: Seq<Seq<StopId>>)
    ensures
        forall|j: int, k: int|
            0 <= j < sequences.len() && 0 <= k < sequences[j].len() ==> merged(sequences).contains(
                #[trigger] sequences[j][k],
            ),
        forall|y: StopId| merged(sequences).contains(y) <==> occurs(sequences, y),
{
    lemma_merge_from(sequences, Seq::empty());
    assert forall|j: int, k: int|
        0 <= j < sequences.len() && 0 <= k < sequences[j].len() implies merged(sequences).contains(
        #[trigger] sequences[j][k],
    ) by {
        let y = sequences[j][k];
        assert(sequences[j].contains(y));
        assert(occurs(sequences, y));
        assert(merged(sequences).contains(y) <==> Seq::<StopId>::empty().contains(y) || occurs(
            sequences,
            y,
        ));
    }
    assert forall|y: StopId| merged(sequences).contains(y) <==> occurs(sequences, y) by {
        assert(merged(sequences).contains(y) <==> Seq::<StopId>::empty().contains(y) || occurs(
            sequences,
            y,
        ));
    }
}

proof fn lemma_drain_distinct(current: Seq<StopId>, pending: Seq<Seq<StopId>>, done: int)
    requires
        current.no_duplicates(),
        0 <= done <= current.len(),
    ensures
        drain(
            current.skip(done),
            (MergeState { pending, output: Seq::empty(), temp: current.take(done) }),
        ).output == current,
    decreases current.len() - done,
{
    let st = MergeState { pending, output: Seq::empty(), temp: current.take(done) };
    if done == current.len() {
        assert(st.output + st.temp =~= current);
    } else {
        let x = current[done];
        assert(current.skip(done)[0] == x);
        assert(current.skip(done).skip(1) =~= current.skip(done + 1));
        assert(!st.temp.contains(x));
        assert(!st.output.contains(x));
        assert(st.temp.push(x) =~= current.take(done + 1));
        lemma_drain_distinct(current, coalesce_all(pending, x), done + 1);
    }
}

/// A single sequence in which no stop repeats is its own merged order.
pub proof fn lemma_merged_single(sequence: Seq<StopId>)
    requires
        sequence.no_duplicates(),
    ensures
        merged(seq![sequence]) == sequence,
{
    let sequences = seq![sequence];
    let start = MergeState { pending: sequences.skip(1), output: Seq::empty(), temp: Seq::empty() };
    assert(sequence.skip(0) =~= sequence);
    assert(sequence.take(0) =~= Seq::empty());
    lemma_drain_distinct(sequence, sequences.skip(1), 0);
    lemma_drain_shape(sequence, start);
    let st = drain(sequence, start);
    assert(st.pending =~= Seq::empty());
    assert(merge_from(st.pending, st.output) == st.output);
}

/// Whether the stops of `a` stand in `b` in the same order: `places` tells,
/// for each stop of `a`, where in `b` it stands.
pub open spec fn stands_in(a: Seq<StopId>, b: Seq<StopId>, places: Seq<int>) -> bool {
    &&& places.len() == a.len()
    &&& forall|i: int| 0 <= i < a.len() ==> 0 <= #[trigger] places[i] < b.len() && b[places[i]] == a[i]
    &&& forall|i: int, j: int| 0 <= i < j < a.len() ==> places[i] < places[j]
}

/// Whether `b` keeps the order of `a`: the stops of `a` stand in `b`, and
/// in the order in which they stand in `a`.
pub open spec fn keeps_order(a: Seq<StopId>, b: Seq<StopId>) -> bool {
    exists|places: Seq<int>| stands_in(a, b, places)
}

proof fn lemma_keeps_order_chain(a: Seq<StopId>, b: Seq<StopId>, c: Seq<StopId>)
    requires
        keeps_order(a, b),
        keeps_order(b, c),
    ensures
        keeps_order(a, c),
{
    let first = choose|places: Seq<int>| stands_in(a, b, places);
    let second = choose|places: Seq<int>| stands_in(b, c, places);
    let both = Seq::new(a.len(), |i: int| second[first[i]]);
    assert(stands_in(a, c, both)) by {
        assert forall|i: int| 0 <= i < a.len() implies 0 <= #[trigger] both[i] < c.len()
            && c[both[i]] == a[i] by {
            assert(0 <= first[i] < b.len());
            assert(0 <= second[first[i]] < c.len());
        }
        assert forall|i: int, j: int| 0 <= i < j < a.len() implies both[i] < both[j] by {
            assert(0 <= first[i] < b.len() && 0 <= first[j] < b.len());
            assert(first[i] < first[j]);
        }
    }
}

proof fn lemma_absorb_keeps_order(x: StopId, st: MergeState)
    ensures
        keeps_order(st.output, absorb(x, st).output),
{
    let before = st.output;
    let after = absorb(x, st).output;
    if !st.temp.contains(x) && st.output.contains(x) {
        lemma_first_index(st.output, x);
        let at = first_index(st.output, x);
        let width = st.temp.len() as int;
        let places = Seq::new(
            before.len(),
            |i: int|
                if i < at {
                    i
                } else {
                    i + width
                },
        );
        assert(stands_in(before, after, places));
    } else {
        let places = Seq::new(before.len(), |i: int| i);
        assert(stands_in(before, after, places));
    }
}

proof fn lemma_drain_keeps_order(current: Seq<StopId>, st: MergeState)
    ensures
        keeps_order(st.output, drain(current, st).output),
    decreases current.len(),
{
    if current.len() == 0 {
        let places = Seq::new(st.output.len(), |i: int| i);
        assert(stands_in(st.output, drain(current, st).output, places));
    } else {
        let next = absorb(current[0], st);
        lemma_absorb_keeps_order(current[0], st);
        lemma_drain_keeps_order(current.skip(1), next);
        lemma_keeps_order_chain(st.output, next.output, drain(current, st).output);
    }
}

/// Stops once placed keep their order: whatever is merged after them, the
/// stops of `output` stand in the merged order as they stand in `output`.
pub proof fn lemma_merge_keeps_order(pending: Seq<Seq<StopId>>, output: Seq<StopId>)
    ensures
        keeps_order(output, merge_from(pending, output)),
    decreases pending.len(),
{
    if pending.len() == 0 {
        let places = Seq::new(output.len(), |i: int| i);
        assert(stands_in(output, merge_from(pending, output), places));
    } else {
        let start = MergeState { pending: pending.skip(1), output, temp: Seq::empty() };
        let st = drain(pending[0], start);
        lemma_drain_shape(pending[0], start);
        lemma_drain_keeps_order(pending[0], start);
        lemma_merge_keeps_order(st.pending, st.output);
        lemma_keeps_order_chain(output, st.output, merge_from(pending, output));
    }
}

/// The first sequence keeps its order: where no stop repeats in it, its
/// stops stand in the merged order as they stand in the sequence.
pub proof fn lemma_merged_keeps_first(sequences: Seq<Seq<StopId>>)
    requires
        sequences.len() > 0,
        sequences[0].no_duplicates(),
    ensures
        keeps_order(sequences[0], merged(sequences)),
{
    let first = sequences[0];
    let start = MergeState { pending: sequences.skip(1), output: Seq::empty(), temp: Seq::empty() };
    assert(first.skip(0) =~= first);
    assert(first.take(0) =~= Seq::empty());
    lemma_drain_distinct(first, sequences.skip(1), 0);
    lemma_drain_shape(first, start);
    let st = drain(first, start);
    lemma_merge_keeps_order(st.pending, st.output);
}

/// The parts of the sequences from `from` on that have not been taken yet:
/// sequence `j` without its first `heads[j]` stops.
pub open spec fn tails(input: Seq<Vec<StopId>>, heads: Seq<usize>, from: int) -> Seq<Seq<StopId>> {
    Seq::new((input.len() - from) as nat, |k: int| input[from + k]@.skip(heads[from + k] as int))
}

/// Moves the head of every sequence after `current` that stands at `x` one
/// stop further.
fn coalesce_heads(input: &Vec<Vec<StopId>>, heads: &mut Vec<usize>, current: usize, x: StopId)
    requires
        current < input.len(),
        old(heads).len() == input.len(),
        forall|j: int| 0 <= j < input.len() ==> old(heads)[j] <= input[j].len(),
    ensures
        final(heads).len() == input.len(),
        forall|j: int| 0 <= j < input.len() ==> final(heads)[j] <= input[j].len(),
        forall|j: int| 0 <= j <= current ==> final(heads)[j] == old(heads)[j],
        tails(input@, final(heads)@, current + 1) == coalesce_all(
            tails(input@, old(heads)@, current + 1),
            x,
        ),
{
    let mut j: usize = current + 1;
    while j < input.len()
        invariant
            current < j <= input.len(),
            heads.len() == input.len(),
            forall|m: int| 0 <= m < input.len() ==> heads[m] <= input[m].len(),
            forall|m: int| 0 <= m <= current || j <= m < input.len() ==> heads[m] == old(heads)[m],
            forall|m: int|
                current < m < j ==> input[m]@.skip(heads[m] as int) == coalesce(
                    #[trigger] input[m]@.skip(old(heads)[m] as int),
                    x,
                ),
        decreases input.len() - j,
    {
        let h = heads[j];
        if h < input[j].len() && input[j][h] == x {
            heads[j] = h + 1;
            assert(input[j as int]@.skip(h as int).skip(1) =~= input[j as int]@.skip(h + 1));
        }
        j += 1;
    }
    assert(tails(input@, heads@, current + 1) =~= coalesce_all(
        tails(input@, old(heads)@, current + 1),
        x,
    ));
}

/// Merges the stop lists of the shape variants, in the order given, into one
/// list of stops.
///
/// Each list is taken front to back. A stop met again within the list being
/// taken cuts the loop; a stop that an earlier list has already placed pulls
/// the stops before it into place ahead of it; lists still to come that start
/// with the stop being taken give it up, so that no stop is placed twice.
pub fn topo_merge(input: Vec<Vec<StopId>>) -> (result: Result<Vec<StopId>, SequenceError>)
    ensures
        match result {
            Ok(order) => {
                &&& input.len() > 0
                &&& order@ == merged(stop_lists(input@))
                &&& order@.no_duplicates()
                &&& forall|j: int, k: int|
                    0 <= j < input.len() && 0 <= k < input[j].len() ==> order@.contains(
                        #[trigger] input[j][k],
                    )
            },
            Err(e) => input.len() == 0 && e == SequenceError::EmptyInput,
        },
{
    let n = input.len();
    if n == 0 {
        return Err(SequenceError::EmptyInput);
    }
    let mut heads: Vec<usize> = Vec::new();
    while heads.len() < n
        invariant
            heads.len() <= n,
            forall|j: int| 0 <= j < heads.len() ==> heads[j] == 0,
        decreases n - heads.len(),
    {
        heads.push(0);
    }
    let mut output: Vec<StopId> = Vec::new();
    let mut temp: Vec<StopId> = Vec::new();
    let mut i: usize = 0;
    assert(tails(input@, heads@, 0) =~= stop_lists(input@)) by {
        assert forall|j: int| 0 <= j < n implies input[j]@.skip(heads[j] as int) == input[j]@ by {
            assert(input[j]@.skip(0) =~= input[j]@);
        }
    }
    while i < n
        invariant
            n == input.len(),
            i <= n,
            heads.len() == n,
            forall|j: int| 0 <= j < n ==> heads[j] <= input[j].len(),
            temp@.len() == 0,
            merged(stop_lists(input@)) == merge_from(tails(input@, heads@, i as int), output@),
        decreases n - i,
    {
        let mut k: usize = heads[i];
        proof {
            assert(tails(input@, heads@, i as int).skip(1) =~= tails(input@, heads@, i + 1));
            assert(temp@ =~= Seq::empty());
        }
        while k < input[i].len()
            invariant
                n == input.len(),
                i < n,
                heads.len() == n,
                forall|j: int| 0 <= j < n ==> heads[j] <= input[j].len(),
                k <= input[i as int].len(),
                merged(stop_lists(input@)) == ({
                    let st = drain(
                        input[i as int]@.skip(k as int),
                        (MergeState {
                            pending: tails(input@, heads@, i + 1),
                            output: output@,
                            temp: temp@,
                        }),
                    );
                    merge_from(st.pending, st.output)
                }),
            decreases input[i as int].len() - k,
        {
            let x = input[i][k];
            proof {
                assert(input[i as int]@.skip(k as int).skip(1) =~= input[i as int]@.skip(k + 1));
            }
            k += 1;
            if find_stop(&temp, x).is_some() {
                append_stops(&mut output, &temp);
                temp.clear();
                assert(temp@ =~= Seq::empty());
            } else {
                coalesce_heads(&input, &mut heads, i, x);
                match find_stop(&output, x) {
                    Some(at) => {
                        proof {
                            lemma_first_index(output@, x);
                        }
                        splice_stops(&mut output, at, &temp);
                        temp.clear();
                        assert(temp@ =~= Seq::empty());
                    },
                    None => {
                        temp.push(x);
                    },
                }
            }
        }
        append_stops(&mut output, &temp);
        temp.clear();
        i += 1;
    }
    proof {
        assert(tails(input@, heads@, n as int) =~= Seq::empty());
        lemma_merged_no_duplicates(stop_lists(input@));
        lemma_merged_complete(stop_lists(input@));
        assert forall|j: int, k: int|
            0 <= j < input.len() && 0 <= k < input[j].len() implies output@.contains(
            #[trigger] input[j][k],
        ) by {
            assert(stop_lists(input@)[j][k] == input[j][k]);
        }
    }
    Ok(output)
}

} // verus!
