//! Choosing the stop at which the ordering starts.

use std::collections::BTreeMap;
use vstd::prelude::*;
use crate::records::{Quantity, SequenceError, StopId, StopSeq};
use crate::stops::{ascending, insert_ascending, lemma_with_stop, with_stop};

verus! {

/// The boardings recorded for `stop`, none recorded counting as zero.
pub open spec fn boardings_of(boardings: Map<StopId, Quantity>, stop: StopId) -> nat {
    if boardings.contains_key(stop) {
        boardings[stop] as nat
    } else {
        0
    }
}

/// Looks up the boardings of `stop`.
pub fn boardings_at(boardings: &BTreeMap<StopId, Quantity>, stop: StopId) -> (count: Quantity)
    ensures
        count == boardings_of(boardings@, stop),
{
    match boardings.get(&stop) {
        Some(q) => *q,
        None => 0,
    }
}

/// Whether some shape variant starts at `stop`: an observation places it at
/// an ordinal below 2.
pub open spec fn is_first(rows: Seq<StopSeq>, stop: StopId) -> bool {
    exists|i: int|
        0 <= i < rows.len() && (#[trigger] rows[i]).stop_id == stop && rows[i].stop_sequence < 2
}

/// Whether some shape variant visits `stop` after its start: an observation
/// places it at ordinal 2 or later.
pub open spec fn is_impure(rows: Seq<StopSeq>, stop: StopId) -> bool {
    exists|i: int|
        0 <= i < rows.len() && (#[trigger] rows[i]).stop_id == stop && rows[i].stop_sequence >= 2
}

/// What one observation adds to the weight of `stop` as a start.
pub open spec fn start_weight(row: StopSeq, stop: StopId) -> nat {
    if row.stop_id == stop && row.stop_sequence < 2 {
        row.qty as nat
    } else {
        0
    }
}

/// The number of trips counted as starting at `stop`.
pub open spec fn firsts_weight(rows: Seq<StopSeq>, stop: StopId) -> nat
    decreases rows.len(),
{
    if rows.len() == 0 {
        0
    } else {
        firsts_weight(rows.drop_last(), stop) + start_weight(rows.last(), stop)
    }
}

/// Whether `a` ranks at least as high as `b`: by weight as a start, then by
/// boardings, then by stop id, the greater ranking higher.
pub open spec fn outranks(
    rows: Seq<StopSeq>,
    boardings: Map<StopId, Quantity>,
    a: StopId,
    b: StopId,
) -> bool {
    let wa = firsts_weight(rows, a);
    let wb = firsts_weight(rows, b);
    let ba = boardings_of(boardings, a);
    let bb = boardings_of(boardings, b);
    wa > wb || (wa == wb && (ba > bb || (ba == bb && a >= b)))
}

/// Whether some start is pure: no shape variant visits it later on.
pub open spec fn has_pure_first(rows: Seq<StopSeq>) -> bool {
    exists|s: StopId| is_first(rows, s) && !is_impure(rows, s)
}

/// Whether `stop` may be chosen: it is a start, and a pure one if any start
/// is pure.
pub open spec fn is_candidate(rows: Seq<StopSeq>, stop: StopId) -> bool {
    is_first(rows, stop) && (has_pure_first(rows) ==> !is_impure(rows, stop))
}

/// Whether `stop` is the candidate that ranks highest.
pub open spec fn is_oracle(
    rows: Seq<StopSeq>,
    boardings: Map<StopId, Quantity>,
    stop: StopId,
) -> bool {
    is_candidate(rows, stop) && forall|t: StopId|
        is_candidate(rows, t) ==> outranks(rows, boardings, stop, t)
}

/// At most one stop is the highest-ranking candidate.
pub proof fn lemma_oracle_unique(
    rows: Seq<StopSeq>,
    boardings: Map<StopId, Quantity>,
    a: StopId,
    b: StopId,
)
    requires
        is_oracle(rows, boardings, a),
        is_oracle(rows, boardings, b),
    ensures
        a == b,
{
    assert(outranks(rows, boardings, a, b));
    assert(outranks(rows, boardings, b, a));
}

/// A pure start is chosen over every impure one, whatever their weights.
pub proof fn lemma_oracle_prefers_pure(
    rows: Seq<StopSeq>,
    boardings: Map<StopId, Quantity>,
    pure: StopId,
    oracle: StopId,
)
    requires
        is_first(rows, pure),
        !is_impure(rows, pure),
        is_oracle(rows, boardings, oracle),
    ensures
        !is_impure(rows, oracle),
{
}

proof fn lemma_is_first_step(rows: Seq<StopSeq>, n: int, stop: StopId)
    requires
        0 <= n < rows.len(),
    ensures
        is_first(rows.take(n + 1), stop) <==> is_first(rows.take(n), stop) || (rows[n].stop_id
            == stop && rows[n].stop_sequence < 2),
        is_impure(rows.take(n + 1), stop) <==> is_impure(rows.take(n), stop) || (rows[n].stop_id
            == stop && rows[n].stop_sequence >= 2),
        firsts_weight(rows.take(n + 1), stop) == firsts_weight(rows.take(n), stop) + start_weight(
            rows[n],
            stop,
        ),
{
    let shorter = rows.take(n);
    let longer = rows.take(n + 1);
    assert(longer.drop_last() =~= shorter);
    assert(longer.last() == rows[n]);
    if is_first(shorter, stop) {
        let i = choose|i: int|
            0 <= i < shorter.len() && (#[trigger] shorter[i]).stop_id == stop
                && shorter[i].stop_sequence < 2;
        assert(longer[i] == shorter[i]);
    }
    if is_first(longer, stop) {
        let i = choose|i: int|
            0 <= i < longer.len() && (#[trigger] longer[i]).stop_id == stop
                && longer[i].stop_sequence < 2;
        if i < n {
            assert(shorter[i] == longer[i]);
        }
    }
    if rows[n].stop_id == stop {
        assert(longer[n] == rows[n]);
    }
    if is_impure(shorter, stop) {
        let i = choose|i: int|
            0 <= i < shorter.len() && (#[trigger] shorter[i]).stop_id == stop
                && shorter[i].stop_sequence >= 2;
        assert(longer[i] == shorter[i]);
    }
    if is_impure(longer, stop) {
        let i = choose|i: int|
            0 <= i < longer.len() && (#[trigger] longer[i]).stop_id == stop
                && longer[i].stop_sequence >= 2;
        if i < n {
            assert(shorter[i] == longer[i]);
        }
    }
}

/// The stops at which some shape variant starts, each once, in ascending
/// order.
pub open spec fn first_list(rows: Seq<StopSeq>) -> Seq<StopId>
    decreases rows.len(),
{
    if rows.len() == 0 {
        Seq::empty()
    } else if rows.last().stop_sequence < 2 {
        with_stop(first_list(rows.drop_last()), rows.last().stop_id)
    } else {
        first_list(rows.drop_last())
    }
}

/// The list of starts is ascending and holds the stops at which some shape
/// variant starts, and no others.
pub proof fn lemma_first_list(rows: Seq<StopSeq>)
    ensures
        ascending(first_list(rows)),
        forall|s: StopId|
            #![trigger first_list(rows).contains(s)]
            #![trigger is_first(rows, s)]
            first_list(rows).contains(s) <==> is_first(rows, s),
    decreases rows.len(),
{
    if rows.len() > 0 {
        let shorter = rows.drop_last();
        lemma_first_list(shorter);
        assert(rows.take(rows.len() - 1) =~= shorter);
        assert(rows.take(rows.len() as int) =~= rows);
        if rows.last().stop_sequence < 2 {
            lemma_with_stop(first_list(shorter), rows.last().stop_id);
        }
        assert forall|s: StopId| first_list(rows).contains(s) <==> is_first(rows, s) by {
            lemma_is_first_step(rows, rows.len() - 1, s);
        }
    } else {
        assert forall|s: StopId| first_list(rows).contains(s) <==> is_first(rows, s) by {}
    }
}

/// Lists the stops at which some shape variant starts, each once, in
/// ascending order.
pub fn first_stops(rows: &Vec<StopSeq>) -> (firsts: Vec<StopId>)
    ensures
        firsts@ == first_list(rows@),
        ascending(firsts@),
        forall|s: StopId|
            #![trigger firsts@.contains(s)]
            #![trigger is_first(rows@, s)]
            firsts@.contains(s) <==> is_first(rows@, s),
{
    let mut firsts: Vec<StopId> = Vec::new();
    let mut n: usize = 0;
    while n < rows.len()
        invariant
            n <= rows.len(),
            firsts@ == first_list(rows@.take(n as int)),
            ascending(firsts@),
            forall|s: StopId|
                #![trigger firsts@.contains(s)]
                #![trigger is_first(rows@.take(n as int), s)]
                firsts@.contains(s) <==> is_first(rows@.take(n as int), s),
        decreases rows.len() - n,
    {
        proof {
            assert(rows@.take(n + 1).drop_last() =~= rows@.take(n as int));
            assert(rows@.take(n + 1).last() == rows@[n as int]);
            assert forall|s: StopId|
                #![trigger is_first(rows@.take(n + 1), s)]
                #![trigger is_first(rows@.take(n as int), s)]
                is_first(rows@.take(n + 1), s) <==> is_first(rows@.take(n as int), s) || (
                rows@[n as int].stop_id == s && rows@[n as int].stop_sequence < 2) by {
                lemma_is_first_step(rows@, n as int, s);
            }
        }
        if rows[n].stop_sequence < 2 {
            insert_ascending(&mut firsts, rows[n].stop_id);
        }
        n += 1;
    }
    assert(rows@.take(rows.len() as int) =~= rows@);
    firsts
}

/// Counts the trips that start at `stop`.
pub fn firsts_weight_of(rows: &Vec<StopSeq>, stop: StopId) -> (weight: u128)
    ensures
        weight == firsts_weight(rows@, stop),
{
    let mut weight: u128 = 0;
    let mut n: usize = 0;
    while n < rows.len()
        invariant
            n <= rows.len(),
            weight == firsts_weight(rows@.take(n as int), stop),
            weight <= n * 0x1_0000_0000,
        decreases rows.len() - n,
    {
        proof {
            lemma_is_first_step(rows@, n as int, stop);
        }
        if rows[n].stop_id == stop && rows[n].stop_sequence < 2 {
            weight += rows[n].qty as u128;
        }
        n += 1;
    }
    assert(rows@.take(rows.len() as int) =~= rows@);
    weight
}

/// Tells whether some shape variant visits `stop` after its start.
pub fn is_impure_stop(rows: &Vec<StopSeq>, stop: StopId) -> (impure: bool)
    ensures
        impure == is_impure(rows@, stop),
{
    let mut n: usize = 0;
    while n < rows.len()
        invariant
            n <= rows.len(),
            !is_impure(rows@.take(n as int), stop),
        decreases rows.len() - n,
    {
        if rows[n].stop_id == stop && rows[n].stop_sequence >= 2 {
            return true;
        }
        proof {
            lemma_is_first_step(rows@, n as int, stop);
        }
        n += 1;
    }
    assert(rows@.take(rows.len() as int) =~= rows@);
    false
}

/// Whether `stop` is one of `firsts` and, where only pure starts count, pure.
pub open spec fn eligible(
    rows: Seq<StopSeq>,
    firsts: Seq<StopId>,
    pure_only: bool,
    stop: StopId,
) -> bool {
    firsts.contains(stop) && (pure_only ==> !is_impure(rows, stop))
}

proof fn lemma_best_exists(
    rows: Seq<StopSeq>,
    boardings: Map<StopId, Quantity>,
    firsts: Seq<StopId>,
    pure_only: bool,
    witness: StopId,
)
    requires
        eligible(rows, firsts, pure_only, witness),
    ensures
        exists|s: StopId|
            eligible(rows, firsts, pure_only, s) && forall|t: StopId|
                eligible(rows, firsts, pure_only, t) ==> outranks(rows, boardings, s, t),
    decreases firsts.len(),
{
    let shorter = firsts.drop_last();
    let last = firsts.last();
    let i = choose|i: int| 0 <= i < firsts.len() && firsts[i] == witness;
    assert(firsts[firsts.len() - 1] == last);
    assert forall|t: StopId|
        #![trigger shorter.contains(t)]
        firsts.contains(t) <==> t == last || shorter.contains(t) by {
        if firsts.contains(t) {
            let j = choose|j: int| 0 <= j < firsts.len() && firsts[j] == t;
            if j < shorter.len() {
                assert(shorter[j] == t);
            }
        }
        if shorter.contains(t) {
            let j = choose|j: int| 0 <= j < shorter.len() && shorter[j] == t;
            assert(firsts[j] == t);
        }
    }
    if exists|t: StopId| eligible(rows, shorter, pure_only, t) {
        let t = choose|t: StopId| eligible(rows, shorter, pure_only, t);
        lemma_best_exists(rows, boardings, shorter, pure_only, t);
        let best = choose|s: StopId|
            eligible(rows, shorter, pure_only, s) && forall|t: StopId|
                eligible(rows, shorter, pure_only, t) ==> outranks(rows, boardings, s, t);
        if eligible(rows, firsts, pure_only, last) && !outranks(rows, boardings, best, last) {
            assert(eligible(rows, firsts, pure_only, last) && forall|t: StopId|
                eligible(rows, firsts, pure_only, t) ==> outranks(rows, boardings, last, t)) by {
                assert forall|t: StopId| eligible(rows, firsts, pure_only, t) implies outranks(
                    rows,
                    boardings,
                    last,
                    t,
                ) by {
                    if t != last {
                        assert(eligible(rows, shorter, pure_only, t));
                        assert(outranks(rows, boardings, best, t));
                    }
                }
            }
        } else {
            assert(eligible(rows, firsts, pure_only, best) && forall|t: StopId|
                eligible(rows, firsts, pure_only, t) ==> outranks(rows, boardings, best, t)) by {
                assert forall|t: StopId| eligible(rows, firsts, pure_only, t) implies outranks(
                    rows,
                    boardings,
                    best,
                    t,
                ) by {
                    if t != last {
                        assert(eligible(rows, shorter, pure_only, t));
                    }
                }
            }
        }
    } else {
        assert(witness == last) by {
            if witness != last {
                assert(eligible(rows, shorter, pure_only, witness));
            }
        }
        assert(eligible(rows, firsts, pure_only, last) && forall|t: StopId|
            eligible(rows, firsts, pure_only, t) ==> outranks(rows, boardings, last, t)) by {
            assert forall|t: StopId| eligible(rows, firsts, pure_only, t) implies outranks(
                rows,
                boardings,
                last,
                t,
            ) by {
                if t != last {
                    assert(eligible(rows, shorter, pure_only, t));
                }
            }
        }
    }
}

/// Where a shape variant starts at some stop, one stop is the
/// highest-ranking candidate.
pub proof fn lemma_oracle_exists(
    rows: Seq<StopSeq>,
    boardings: Map<StopId, Quantity>,
    witness: StopId,
)
    requires
        is_first(rows, witness),
    ensures
        exists|s: StopId| is_oracle(rows, boardings, s),
{
    let firsts = first_list(rows);
    lemma_first_list(rows);
    if has_pure_first(rows) {
        let pure = choose|s: StopId| is_first(rows, s) && !is_impure(rows, s);
        assert(eligible(rows, firsts, true, pure));
        lemma_best_exists(rows, boardings, firsts, true, pure);
        let best = choose|s: StopId|
            eligible(rows, firsts, true, s) && forall|t: StopId|
                eligible(rows, firsts, true, t) ==> outranks(rows, boardings, s, t);
        assert(is_oracle(rows, boardings, best)) by {
            assert forall|t: StopId| is_candidate(rows, t) implies outranks(
                rows,
                boardings,
                best,
                t,
            ) by {
                assert(eligible(rows, firsts, true, t));
            }
        }
    } else {
        assert(eligible(rows, firsts, false, witness));
        lemma_best_exists(rows, boardings, firsts, false, witness);
        let best = choose|s: StopId|
            eligible(rows, firsts, false, s) && forall|t: StopId|
                eligible(rows, firsts, false, t) ==> outranks(rows, boardings, s, t);
        assert(is_oracle(rows, boardings, best)) by {
            assert forall|t: StopId| is_candidate(rows, t) implies outranks(
                rows,
                boardings,
                best,
                t,
            ) by {
                assert(eligible(rows, firsts, false, t));
            }
        }
    }
}

/// The highest-ranking of `firsts`, or of the pure ones among them.
fn best_ranked(
    rows: &Vec<StopSeq>,
    boardings: &BTreeMap<StopId, Quantity>,
    firsts: &Vec<StopId>,
    pure_only: bool,
) -> (best: Option<StopId>)
    ensures
        match best {
            Some(s) => eligible(rows@, firsts@, pure_only, s) && forall|t: StopId|
                eligible(rows@, firsts@, pure_only, t) ==> outranks(rows@, boardings@, s, t),
            None => forall|t: StopId| !eligible(rows@, firsts@, pure_only, t),
        },
{
    let mut best: Option<StopId> = None;
    let mut best_weight: u128 = 0;
    let mut best_boardings: Quantity = 0;
    let mut n: usize = 0;
    while n < firsts.len()
        invariant
            n <= firsts.len(),
            match best {
                Some(s) => {
                    &&& eligible(rows@, firsts@, pure_only, s)
                    &&& best_weight == firsts_weight(rows@, s)
                    &&& best_boardings == boardings_of(boardings@, s)
                    &&& forall|t: StopId|
                        #![trigger firsts@.take(n as int).contains(t)]
                        eligible(rows@, firsts@.take(n as int), pure_only, t) ==> outranks(
                            rows@,
                            boardings@,
                            s,
                            t,
                        )
                },
                None => forall|t: StopId|
                    #![trigger firsts@.take(n as int).contains(t)]
                    !eligible(rows@, firsts@.take(n as int), pure_only, t),
            },
        decreases firsts.len() - n,
    {
        let stop = firsts[n];
        proof {
            assert forall|t: StopId|
                #![trigger firsts@.take(n + 1).contains(t)]
                #![trigger firsts@.take(n as int).contains(t)]
                firsts@.take(n + 1).contains(t) <==> t == stop || firsts@.take(
                    n as int,
                ).contains(t) by {
                let shorter = firsts@.take(n as int);
                let longer = firsts@.take(n + 1);
                if longer.contains(t) {
                    let i = choose|i: int| 0 <= i < longer.len() && longer[i] == t;
                    if i < n {
                        assert(shorter[i] == t);
                    }
                }
                if shorter.contains(t) {
                    let i = choose|i: int| 0 <= i < shorter.len() && shorter[i] == t;
                    assert(longer[i] == t);
                }
                assert(longer[n as int] == stop);
            }
            assert(firsts@.contains(stop)) by {
                assert(firsts@[n as int] == stop);
            }
        }
        if !(pure_only && is_impure_stop(rows, stop)) {
            let weight = firsts_weight_of(rows, stop);
            let count = boardings_at(boardings, stop);
            let higher = match best {
                Some(s) => weight > best_weight || (weight == best_weight && (count
                    > best_boardings || (count == best_boardings && stop >= s))),
                None => true,
            };
            if higher {
                best = Some(stop);
                best_weight = weight;
                best_boardings = count;
            }
        }
        n += 1;
    }
    assert(firsts@.take(firsts.len() as int) =~= firsts@);
    best
}

/// Chooses the stop at which the ordering starts.
///
/// The starts are ranked by the trips that start there, then by boardings,
/// then by stop id, the greater first. The highest-ranking pure start is
/// chosen; where no start is pure, the highest-ranking start. Without any
/// start there is nothing to choose from.
pub fn select_oracle(rows: &Vec<StopSeq>, boardings: &BTreeMap<StopId, Quantity>) -> (result:
    Result<StopId, SequenceError>)
    ensures
        match result {
            Ok(stop) => is_oracle(rows@, boardings@, stop),
            Err(e) => e == SequenceError::NoData && forall|s: StopId| !is_first(rows@, s),
        },
        rows.len() == 0 ==> result is Err,
{
    let firsts = first_stops(rows);
    proof {
        if rows.len() == 0 {
            assert forall|s: StopId| !is_first(rows@, s) by {}
        }
    }
    match best_ranked(rows, boardings, &firsts, true) {
        Some(stop) => {
            assert(has_pure_first(rows@));
            Ok(stop)
        },
        None => {
            assert(!has_pure_first(rows@)) by {
                if has_pure_first(rows@) {
                    let s = choose|s: StopId| is_first(rows@, s) && !is_impure(rows@, s);
                    assert(eligible(rows@, firsts@, true, s));
                }
            }
            match best_ranked(rows, boardings, &firsts, false) {
                Some(stop) => Ok(stop),
                None => {
                    assert forall|s: StopId| !is_first(rows@, s) by {
                        assert(!eligible(rows@, firsts@, false, s));
                    }
                    Err(SequenceError::NoData)
                },
            }
        },
    }
}

} // verus!
