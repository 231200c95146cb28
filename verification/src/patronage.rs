//! Counting passengers by where they board and where they alight.

use std::collections::BTreeMap;
use vstd::prelude::*;
use crate::records::{Quantity, StopId};

verus! {

/// The passengers counted from `from` to `to`, none counted being zero.
pub open spec fn flow(
    patronages: Map<(StopId, StopId), Quantity>,
    from: StopId,
    to: StopId,
) -> nat {
    if patronages.contains_key((from, to)) {
        patronages[(from, to)] as nat
    } else {
        0
    }
}

/// The passengers who board at `from` for a stop below `bound`.
pub open spec fn boarded_below(
    patronages: Map<(StopId, StopId), Quantity>,
    from: StopId,
    bound: nat,
) -> nat
    decreases bound,
{
    if bound == 0 {
        0
    } else {
        boarded_below(patronages, from, (bound - 1) as nat) + flow(
            patronages,
            from,
            (bound - 1) as StopId,
        )
    }
}

/// The passengers who alight at `to` from a stop below `bound`.
pub open spec fn alighted_below(
    patronages: Map<(StopId, StopId), Quantity>,
    to: StopId,
    bound: nat,
) -> nat
    decreases bound,
{
    if bound == 0 {
        0
    } else {
        alighted_below(patronages, to, (bound - 1) as nat) + flow(
            patronages,
            (bound - 1) as StopId,
            to,
        )
    }
}

/// The passengers who board at `from`, whatever their destination.
pub open spec fn boarded(patronages: Map<(StopId, StopId), Quantity>, from: StopId) -> nat {
    boarded_below(patronages, from, 0x1_0000_0000)
}

/// The passengers who alight at `to`, whatever their origin.
pub open spec fn alighted(patronages: Map<(StopId, StopId), Quantity>, to: StopId) -> nat {
    alighted_below(patronages, to, 0x1_0000_0000)
}

/// The count that `totals` holds for `stop`, none held being zero.
pub open spec fn tally(totals: Map<StopId, u64>, stop: StopId) -> nat {
    if totals.contains_key(stop) {
        totals[stop] as nat
    } else {
        0
    }
}

/// The passengers who board at one stop, or alight at one, for stops below
/// `bound` are at most `bound` times the greatest count of one flow.
pub proof fn lemma_totals_bounded(patronages: Map<(StopId, StopId), Quantity>, stop: StopId, bound: nat)
    ensures
        boarded_below(patronages, stop, bound) <= bound * 0xFFFF_FFFF,
        alighted_below(patronages, stop, bound) <= bound * 0xFFFF_FFFF,
    decreases bound,
{
    if bound > 0 {
        lemma_totals_bounded(patronages, stop, (bound - 1) as nat);
    }
}

proof fn lemma_totals_zero(patronages: Map<(StopId, StopId), Quantity>, stop: StopId, bound: nat)
    requires
        patronages.dom() =~= Set::empty(),
    ensures
        boarded_below(patronages, stop, bound) == 0,
        alighted_below(patronages, stop, bound) == 0,
    decreases bound,
{
    if bound > 0 {
        lemma_totals_zero(patronages, stop, (bound - 1) as nat);
    }
}

proof fn lemma_totals_insert(
    patronages: Map<(StopId, StopId), Quantity>,
    key: (StopId, StopId),
    quantity: Quantity,
    stop: StopId,
    bound: nat,
)
    requires
        !patronages.contains_key(key),
        bound <= 0x1_0000_0000,
    ensures
        boarded_below(patronages.insert(key, quantity), stop, bound) == boarded_below(
            patronages,
            stop,
            bound,
        ) + if key.0 == stop && key.1 < bound {
            quantity as nat
        } else {
            0
        },
        alighted_below(patronages.insert(key, quantity), stop, bound) == alighted_below(
            patronages,
            stop,
            bound,
        ) + if key.1 == stop && key.0 < bound {
            quantity as nat
        } else {
            0
        },
    decreases bound,
{
    if bound > 0 {
        lemma_totals_insert(patronages, key, quantity, stop, (bound - 1) as nat);
    }
}

/// Sums the passengers by the stop at which they board and by the stop at
/// which they alight.
pub fn sum_up(patronages: &BTreeMap<(StopId, StopId), Quantity>) -> (totals: (
    BTreeMap<StopId, u64>,
    BTreeMap<StopId, u64>,
))
    ensures
        forall|stop: StopId|
            totals.0@.contains_key(stop) <==> exists|to: StopId|
                patronages@.contains_key((stop, to)),
        forall|stop: StopId|
            totals.1@.contains_key(stop) <==> exists|from: StopId|
                patronages@.contains_key((from, stop)),
        forall|stop: StopId| #[trigger] tally(totals.0@, stop) == boarded(patronages@, stop),
        forall|stop: StopId| #[trigger] tally(totals.1@, stop) == alighted(patronages@, stop),
{
    let mut boardings: BTreeMap<StopId, u64> = BTreeMap::new();
    let mut alightings: BTreeMap<StopId, u64> = BTreeMap::new();
    let ghost mut seen: Map<(StopId, StopId), Quantity> = Map::empty();
    proof {
        assert forall|stop: StopId| boarded(seen, stop) == 0 && alighted(seen, stop) == 0 by {
            lemma_totals_zero(seen, stop, 0x1_0000_0000);
        }
    }
    for entry in it: patronages.iter()
        invariant
            it.seq().no_duplicates(),
            forall|j: int|
                0 <= j < it.seq().len() ==> patronages@.contains_key(*(#[trigger] it.seq()[j]).0)
                    && patronages@[*it.seq()[j].0] == *it.seq()[j].1,
            forall|key: (StopId, StopId)|
                patronages@.contains_key(key) ==> exists|j: int|
                    0 <= j < it.seq().len() && *(#[trigger] it.seq()[j]).0 == key,
            forall|key: (StopId, StopId)|
                seen.contains_key(key) <==> exists|j: int|
                    0 <= j < it.index() && *(#[trigger] it.seq()[j]).0 == key,
            forall|key: (StopId, StopId)|
                seen.contains_key(key) ==> patronages@.contains_key(key) && seen[key]
                    == patronages@[key],
            forall|stop: StopId|
                boardings@.contains_key(stop) <==> exists|to: StopId|
                    seen.contains_key((stop, to)),
            forall|stop: StopId|
                alightings@.contains_key(stop) <==> exists|from: StopId|
                    seen.contains_key((from, stop)),
            forall|stop: StopId| #[trigger] tally(boardings@, stop) == boarded(seen, stop),
            forall|stop: StopId| #[trigger] tally(alightings@, stop) == alighted(seen, stop),
    {
        let from = (entry.0).0;
        let to = (entry.0).1;
        let quantity = *entry.1;
        let boarded_before: u64 = match boardings.get(&from) {
            Some(q) => *q,
            None => 0,
        };
        let alighted_before: u64 = match alightings.get(&to) {
            Some(q) => *q,
            None => 0,
        };
        let ghost key = (from, to);
        let ghost next = seen.insert(key, quantity);
        let ghost boardings_before = boardings@;
        let ghost alightings_before = alightings@;
        proof {
            assert(entry == it.seq()[it.index()]);
            assert(!seen.contains_key(key)) by {
                if seen.contains_key(key) {
                    let j = choose|j: int| 0 <= j < it.index() && *(#[trigger] it.seq()[j]).0 == key;
                    assert(it.seq()[j] == it.seq()[it.index()]);
                }
            }
            assert(boarded_before == tally(boardings@, from));
            assert(alighted_before == tally(alightings@, to));
            lemma_totals_insert(seen, key, quantity, from, 0x1_0000_0000);
            lemma_totals_insert(seen, key, quantity, to, 0x1_0000_0000);
            lemma_totals_bounded(next, from, 0x1_0000_0000);
            lemma_totals_bounded(next, to, 0x1_0000_0000);
        }
        boardings.insert(from, quantity as u64 + boarded_before);
        alightings.insert(to, quantity as u64 + alighted_before);
        proof {
            assert forall|stop: StopId| #[trigger]
                tally(boardings@, stop) == boarded(next, stop) by {
                lemma_totals_insert(seen, key, quantity, stop, 0x1_0000_0000);
                assert(tally(boardings_before, stop) == boarded(seen, stop));
            }
            assert forall|stop: StopId| #[trigger]
                tally(alightings@, stop) == alighted(next, stop) by {
                lemma_totals_insert(seen, key, quantity, stop, 0x1_0000_0000);
                assert(tally(alightings_before, stop) == alighted(seen, stop));
            }
            assert forall|stop: StopId|
                boardings@.contains_key(stop) <==> exists|to: StopId|
                    next.contains_key((stop, to)) by {
                if stop == from {
                    assert(next.contains_key((stop, to)));
                } else {
                    if boardings_before.contains_key(stop) {
                        let t = choose|t: StopId| seen.contains_key((stop, t));
                        assert(next.contains_key((stop, t)));
                    }
                    if exists|t: StopId| next.contains_key((stop, t)) {
                        let t = choose|t: StopId| next.contains_key((stop, t));
                        assert(seen.contains_key((stop, t)));
                    }
                }
            }
            assert forall|stop: StopId|
                alightings@.contains_key(stop) <==> exists|from: StopId|
                    next.contains_key((from, stop)) by {
                if stop == to {
                    assert(next.contains_key((from, stop)));
                } else {
                    if alightings_before.contains_key(stop) {
                        let f = choose|f: StopId| seen.contains_key((f, stop));
                        assert(next.contains_key((f, stop)));
                    }
                    if exists|f: StopId| next.contains_key((f, stop)) {
                        let f = choose|f: StopId| next.contains_key((f, stop));
                        assert(seen.contains_key((f, stop)));
                    }
                }
            }
            assert forall|other: (StopId, StopId)|
                next.contains_key(other) <==> exists|j: int|
                    0 <= j < it.index() + 1 && *(#[trigger] it.seq()[j]).0 == other by {
                if next.contains_key(other) {
                    if other == key {
                        assert(*it.seq()[it.index()].0 == other);
                    } else {
                        let j = choose|j: int|
                            0 <= j < it.index() && *(#[trigger] it.seq()[j]).0 == other;
                        assert(0 <= j < it.index() + 1 && *it.seq()[j].0 == other);
                    }
                }
                if exists|j: int| 0 <= j < it.index() + 1 && *(#[trigger] it.seq()[j]).0 == other {
                    let j = choose|j: int|
                        0 <= j < it.index() + 1 && *(#[trigger] it.seq()[j]).0 == other;
                    if j < it.index() {
                        assert(seen.contains_key(other));
                    }
                }
            }
            seen = next;
        }
    }
    proof {
        assert(seen =~= patronages@);
    }
    (boardings, alightings)
}

/// The sum of the counts that `totals` holds for the stops below `bound`.
pub open spec fn tally_below(totals: Map<StopId, u64>, bound: nat) -> nat
    decreases bound,
{
    if bound == 0 {
        0
    } else {
        tally_below(totals, (bound - 1) as nat) + tally(totals, (bound - 1) as StopId)
    }
}

/// All passengers counted: the sum, over the stops, of those who board.
pub open spec fn carried(patronages: Map<(StopId, StopId), Quantity>) -> nat {
    carried_below(patronages, 0x1_0000_0000)
}

/// The passengers who board at a stop below `bound`.
pub open spec fn carried_below(patronages: Map<(StopId, StopId), Quantity>, bound: nat) -> nat
    decreases bound,
{
    if bound == 0 {
        0
    } else {
        carried_below(patronages, (bound - 1) as nat) + boarded(patronages, (bound - 1) as StopId)
    }
}

proof fn lemma_tally_below_insert(
    totals: Map<StopId, u64>,
    stop: StopId,
    count: u64,
    bound: nat,
)
    requires
        !totals.contains_key(stop),
        bound <= 0x1_0000_0000,
    ensures
        tally_below(totals.insert(stop, count), bound) == tally_below(totals, bound) + if stop
            < bound {
            count as nat
        } else {
            0
        },
    decreases bound,
{
    if bound > 0 {
        lemma_tally_below_insert(totals, stop, count, (bound - 1) as nat);
    }
}

proof fn lemma_tally_below_bounded(totals: Map<StopId, u64>, bound: nat)
    ensures
        tally_below(totals, bound) <= bound * 0xFFFF_FFFF_FFFF_FFFF,
    decreases bound,
{
    if bound > 0 {
        lemma_tally_below_bounded(totals, (bound - 1) as nat);
    }
}

proof fn lemma_tally_below_empty(totals: Map<StopId, u64>, bound: nat)
    requires
        totals.dom() =~= Set::empty(),
    ensures
        tally_below(totals, bound) == 0,
    decreases bound,
{
    if bound > 0 {
        lemma_tally_below_empty(totals, (bound - 1) as nat);
    }
}

/// Totals that hold the boardings of every stop sum to the passengers
/// carried.
pub proof fn lemma_carried_below(
    patronages: Map<(StopId, StopId), Quantity>,
    totals: Map<StopId, u64>,
    bound: nat,
)
    requires
        forall|stop: StopId| #[trigger] tally(totals, stop) == boarded(patronages, stop),
    ensures
        tally_below(totals, bound) == carried_below(patronages, bound),
    decreases bound,
{
    if bound > 0 {
        lemma_carried_below(patronages, totals, (bound - 1) as nat);
    }
}

/// Whether `largest` is the greatest count that `totals` holds, or zero
/// where it holds none.
pub open spec fn is_largest(totals: Map<StopId, u64>, largest: u64) -> bool {
    &&& forall|stop: StopId| #[trigger] tally(totals, stop) <= largest
    &&& largest == 0 || exists|stop: StopId| #[trigger] tally(totals, stop) == largest
}

/// Finds the greatest count of `totals` and the sum of its counts.
pub fn summarise(totals: &BTreeMap<StopId, u64>) -> (summary: (u64, u128))
    ensures
        is_largest(totals@, summary.0),
        summary.1 == tally_below(totals@, 0x1_0000_0000),
{
    let mut largest: u64 = 0;
    let mut sum: u128 = 0;
    let ghost mut seen: Map<StopId, u64> = Map::empty();
    proof {
        lemma_tally_below_empty(seen, 0x1_0000_0000);
    }
    for entry in it: totals.iter()
        invariant
            it.seq().no_duplicates(),
            forall|j: int|
                0 <= j < it.seq().len() ==> totals@.contains_key(*(#[trigger] it.seq()[j]).0)
                    && totals@[*it.seq()[j].0] == *it.seq()[j].1,
            forall|stop: StopId|
                totals@.contains_key(stop) ==> exists|j: int|
                    0 <= j < it.seq().len() && *(#[trigger] it.seq()[j]).0 == stop,
            forall|stop: StopId|
                seen.contains_key(stop) <==> exists|j: int|
                    0 <= j < it.index() && *(#[trigger] it.seq()[j]).0 == stop,
            forall|stop: StopId|
                seen.contains_key(stop) ==> totals@.contains_key(stop) && seen[stop]
                    == totals@[stop],
            is_largest(seen, largest),
            sum == tally_below(seen, 0x1_0000_0000),
    {
        let stop = *entry.0;
        let count = *entry.1;
        let ghost next = seen.insert(stop, count);
        proof {
            assert(entry == it.seq()[it.index()]);
            assert(!seen.contains_key(stop)) by {
                if seen.contains_key(stop) {
                    let j = choose|j: int|
                        0 <= j < it.index() && *(#[trigger] it.seq()[j]).0 == stop;
                    assert(it.seq()[j] == it.seq()[it.index()]);
                }
            }
            lemma_tally_below_insert(seen, stop, count, 0x1_0000_0000);
            lemma_tally_below_bounded(next, 0x1_0000_0000);
        }
        sum += count as u128;
        if count > largest {
            largest = count;
        }
        proof {
            assert forall|other: StopId| #[trigger] tally(next, other) <= largest by {
                assert(tally(seen, other) <= largest);
            }
            assert(largest == 0 || exists|other: StopId| #[trigger] tally(next, other) == largest)
                by {
                if largest != 0 {
                    if largest == count {
                        assert(tally(next, stop) == largest);
                    } else {
                        let other = choose|other: StopId| #[trigger]
                            tally(seen, other) == largest;
                        assert(tally(next, other) == largest);
                    }
                }
            }
            assert forall|other: StopId|
                next.contains_key(other) <==> exists|j: int|
                    0 <= j < it.index() + 1 && *(#[trigger] it.seq()[j]).0 == other by {
                if next.contains_key(other) {
                    if other == stop {
                        assert(*it.seq()[it.index()].0 == other);
                    } else {
                        let j = choose|j: int|
                            0 <= j < it.index() && *(#[trigger] it.seq()[j]).0 == other;
                        assert(0 <= j < it.index() + 1 && *it.seq()[j].0 == other);
                    }
                }
                if exists|j: int| 0 <= j < it.index() + 1 && *(#[trigger] it.seq()[j]).0 == other {
                    let j = choose|j: int|
                        0 <= j < it.index() + 1 && *(#[trigger] it.seq()[j]).0 == other;
                    if j < it.index() {
                        assert(seen.contains_key(other));
                    }
                }
            }
            seen = next;
        }
    }
    proof {
        assert(seen =~= totals@);
    }
    (largest, sum)
}

/// Looks up the passengers counted from `from` to `to`.
pub fn flow_between(
    patronages: &BTreeMap<(StopId, StopId), Quantity>,
    from: StopId,
    to: StopId,
) -> (quantity: Quantity)
    ensures
        quantity == flow(patronages@, from, to),
{
    let pair = (from, to);
    match patronages.get(&pair) {
        Some(q) => *q,
        None => 0,
    }
}

/// Looks up the count that `totals` holds for `stop`.
pub fn tally_of(totals: &BTreeMap<StopId, u64>, stop: StopId) -> (count: u64)
    ensures
        count == tally(totals@, stop),
{
    match totals.get(&stop) {
        Some(q) => *q,
        None => 0,
    }
}

} // verus!
