//! Ordering the starts of the shape variants by nearness.

use std::collections::BTreeMap;
use vstd::prelude::*;
use crate::records::{FirstLastSeq, SequenceError, StopId};
use crate::stops::{ascending, insert_ascending};

verus! {

/// Distances between stops: the pair `(from, to)` maps to the distance from
/// `from` to `to`, in a unit in which the nearer pair has the smaller number.
/// The position of a stop is known when the table holds the pair of the stop
/// with itself.
pub type Distances = BTreeMap<(StopId, StopId), u64>;

/// The stop at which a shape variant that starts at `stop` ends: the end of
/// the first span, in the order given, that starts there.
pub open spec fn terminus_of(spans: Seq<FirstLastSeq>, stop: StopId) -> Option<StopId>
    decreases spans.len(),
{
    if spans.len() == 0 {
        None
    } else if spans[0].first == stop {
        Some(spans[0].last)
    } else {
        terminus_of(spans.skip(1), stop)
    }
}

/// Whether the position of `stop` is known.
pub open spec fn located(distances: Map<(StopId, StopId), u64>, stop: StopId) -> bool {
    distances.contains_key((stop, stop))
}

/// Whether the distance from `from` to every stop of `unplaced` is known.
pub open spec fn measured(
    distances: Map<(StopId, StopId), u64>,
    from: StopId,
    unplaced: Seq<StopId>,
) -> bool {
    forall|j: int| 0 <= j < unplaced.len() ==> distances.contains_key((from, #[trigger] unplaced[j]))
}

/// Whether `a` is to be placed before `b`: it is nearer to `from`, or as
/// near and of the smaller stop id.
pub open spec fn nearer(
    distances: Map<(StopId, StopId), u64>,
    from: StopId,
    a: StopId,
    b: StopId,
) -> bool {
    distances[(from, a)] < distances[(from, b)] || (distances[(from, a)] == distances[(from, b)]
        && a < b)
}

/// The index in `unplaced` of the stop to be placed next after a shape
/// variant that ends at `from`.
pub open spec fn nearest(
    distances: Map<(StopId, StopId), u64>,
    from: StopId,
    unplaced: Seq<StopId>,
) -> int
    decreases unplaced.len(),
{
    if unplaced.len() <= 1 {
        0
    } else {
        let best = nearest(distances, from, unplaced.drop_last());
        if nearer(distances, from, unplaced.last(), unplaced[best]) {
            unplaced.len() - 1
        } else {
            best
        }
    }
}

/// The stop at `nearest` is a stop of `unplaced`, none of which is to be
/// placed before it.
pub proof fn lemma_nearest(
    distances: Map<(StopId, StopId), u64>,
    from: StopId,
    unplaced: Seq<StopId>,
)
    requires
        unplaced.len() > 0,
    ensures
        0 <= nearest(distances, from, unplaced) < unplaced.len(),
        forall|j: int|
            0 <= j < unplaced.len() ==> !nearer(
                distances,
                from,
                #[trigger] unplaced[j],
                unplaced[nearest(distances, from, unplaced)],
            ),
    decreases unplaced.len(),
{
    if unplaced.len() > 1 {
        let shorter = unplaced.drop_last();
        lemma_nearest(distances, from, shorter);
        let best = nearest(distances, from, shorter);
        assert forall|j: int| 0 <= j < unplaced.len() implies !nearer(
            distances,
            from,
            #[trigger] unplaced[j],
            unplaced[nearest(distances, from, unplaced)],
        ) by {
            if j < shorter.len() {
                assert(shorter[j] == unplaced[j]);
            }
            assert(shorter[best] == unplaced[best]);
        }
    }
}

/// A failure as it is, and an order with `placed` put before it.
pub open spec fn after(placed: Seq<StopId>, rest: Result<Seq<StopId>, SequenceError>) -> Result<
    Seq<StopId>,
    SequenceError,
> {
    match rest {
        Ok(order) => Ok(placed + order),
        Err(e) => Err(e),
    }
}

/// The order in which `current` and then the stops of `unplaced` are placed.
///
/// Each stop placed needs a span that starts at it and a known position for
/// the stop at which that span ends. The stop placed next is the one nearest
/// to that end, the smaller stop id deciding between equally near ones.
pub open spec fn order_from(
    current: StopId,
    unplaced: Seq<StopId>,
    spans: Seq<FirstLastSeq>,
    distances: Map<(StopId, StopId), u64>,
) -> Result<Seq<StopId>, SequenceError>
    decreases unplaced.len(),
{
    match terminus_of(spans, current) {
        None => Err(SequenceError::MissingSpan),
        Some(end) => {
            if !located(distances, end) || !measured(distances, end, unplaced) {
                Err(SequenceError::MissingCoordinates)
            } else if unplaced.len() == 0 {
                Ok(seq![current])
            } else {
                let next = nearest(distances, end, unplaced);
                proof {
                    lemma_nearest(distances, end, unplaced);
                }
                after(
                    seq![current],
                    order_from(unplaced[next], unplaced.remove(next), spans, distances),
                )
            }
        },
    }
}

/// An order that was found starts with `current` and holds, besides it,
/// the stops of `unplaced` and no others, each as often as `unplaced` does.
pub proof fn lemma_order_arranges(
    current: StopId,
    unplaced: Seq<StopId>,
    spans: Seq<FirstLastSeq>,
    distances: Map<(StopId, StopId), u64>,
)
    requires
        order_from(current, unplaced, spans, distances) is Ok,
    ensures
        ({
            let order = order_from(current, unplaced, spans, distances)->Ok_0;
            &&& order.len() == unplaced.len() + 1
            &&& order[0] == current
            &&& order.to_multiset() == unplaced.to_multiset().insert(current)
        }),
    decreases unplaced.len(),
{
    broadcast use vstd::seq_lib::group_to_multiset_ensures;

    let order = order_from(current, unplaced, spans, distances)->Ok_0;
    let end = terminus_of(spans, current)->Some_0;
    if unplaced.len() == 0 {
        assert(order =~= Seq::<StopId>::empty().push(current));
        assert(unplaced =~= Seq::<StopId>::empty());
    } else {
        let next = nearest(distances, end, unplaced);
        lemma_nearest(distances, end, unplaced);
        let remaining = unplaced.remove(next);
        lemma_order_arranges(unplaced[next], remaining, spans, distances);
        let rest = order_from(unplaced[next], remaining, spans, distances)->Ok_0;
        assert(order =~= seq![current] + rest);
        assert(seq![current] =~= Seq::<StopId>::empty().push(current));
        vstd::seq_lib::lemma_multiset_commutative(seq![current], rest);
        assert(unplaced.to_multiset() =~= remaining.to_multiset().insert(unplaced[next]));
        assert(order.to_multiset() =~= unplaced.to_multiset().insert(current));
    }
}

/// Ordering the starts fails only for want of a span or of a position.
pub proof fn lemma_order_errors(
    current: StopId,
    unplaced: Seq<StopId>,
    spans: Seq<FirstLastSeq>,
    distances: Map<(StopId, StopId), u64>,
)
    ensures
        order_from(current, unplaced, spans, distances) matches Err(e) ==> e
            == SequenceError::MissingSpan || e == SequenceError::MissingCoordinates,
    decreases unplaced.len(),
{
    if let Some(end) = terminus_of(spans, current) {
        if located(distances, end) && measured(distances, end, unplaced) && unplaced.len() > 0 {
            let next = nearest(distances, end, unplaced);
            lemma_nearest(distances, end, unplaced);
            lemma_order_errors(unplaced[next], unplaced.remove(next), spans, distances);
        }
    }
}

/// Where no stop of `unplaced` occurs twice or is `current`, an order that
/// was found places `current` and each stop of `unplaced` once, and no
/// other stop.
pub proof fn lemma_order_places_each_once(
    current: StopId,
    unplaced: Seq<StopId>,
    spans: Seq<FirstLastSeq>,
    distances: Map<(StopId, StopId), u64>,
)
    requires
        order_from(current, unplaced, spans, distances) is Ok,
        unplaced.no_duplicates(),
        !unplaced.contains(current),
    ensures
        order_from(current, unplaced, spans, distances)->Ok_0.no_duplicates(),
        forall|y: StopId|
            #![trigger order_from(current, unplaced, spans, distances)->Ok_0.contains(y)]
            #![trigger unplaced.contains(y)]
            order_from(current, unplaced, spans, distances)->Ok_0.contains(y) <==> y == current
                || unplaced.contains(y),
    decreases unplaced.len(),
{
    let order = order_from(current, unplaced, spans, distances)->Ok_0;
    let end = terminus_of(spans, current)->Some_0;
    if unplaced.len() == 0 {
        assert(order =~= seq![current]);
        assert forall|y: StopId| order.contains(y) <==> y == current || unplaced.contains(y) by {
            assert(order[0] == current);
        }
    } else {
        let next = nearest(distances, end, unplaced);
        lemma_nearest(distances, end, unplaced);
        let chosen = unplaced[next];
        let remaining = unplaced.remove(next);
        assert forall|y: StopId|
            #![trigger remaining.contains(y)]
            #![trigger unplaced.contains(y)]
            unplaced.contains(y) <==> y == chosen || remaining.contains(y) by {
            if unplaced.contains(y) && y != chosen {
                let i = choose|i: int| 0 <= i < unplaced.len() && unplaced[i] == y;
                if i < next {
                    assert(remaining[i] == y);
                } else {
                    assert(remaining[i - 1] == y);
                }
            }
            if remaining.contains(y) {
                let i = choose|i: int| 0 <= i < remaining.len() && remaining[i] == y;
                if i < next {
                    assert(unplaced[i] == y);
                } else {
                    assert(unplaced[i + 1] == y);
                }
            }
        }
        assert(!remaining.contains(chosen)) by {
            if remaining.contains(chosen) {
                let i = choose|i: int| 0 <= i < remaining.len() && remaining[i] == chosen;
                if i < next {
                    assert(unplaced[i] == chosen);
                } else {
                    assert(unplaced[i + 1] == chosen);
                }
            }
        }
        assert(remaining.no_duplicates()) by {
            assert forall|i: int, j: int|
                0 <= i < remaining.len() && 0 <= j < remaining.len() && i != j implies remaining[i]
                != remaining[j] by {
                let p = if i < next {
                    i
                } else {
                    i + 1
                };
                let q = if j < next {
                    j
                } else {
                    j + 1
                };
                assert(remaining[i] == unplaced[p] && remaining[j] == unplaced[q]);
            }
        }
        lemma_order_places_each_once(chosen, remaining, spans, distances);
        let rest = order_from(chosen, remaining, spans, distances)->Ok_0;
        assert(order =~= seq![current] + rest);
        assert forall|y: StopId| order.contains(y) <==> y == current || unplaced.contains(y) by {
            if order.contains(y) {
                let i = choose|i: int| 0 <= i < order.len() && order[i] == y;
                if i > 0 {
                    assert(rest[i - 1] == y);
                }
            }
            if rest.contains(y) {
                let i = choose|i: int| 0 <= i < rest.len() && rest[i] == y;
                assert(order[i + 1] == y);
            }
            assert(order[0] == current);
        }
        assert forall|i: int, j: int|
            0 <= i < order.len() && 0 <= j < order.len() && i != j implies order[i] != order[j] by {
            if i > 0 && j > 0 {
                assert(rest[i - 1] == order[i] && rest[j - 1] == order[j]);
            } else if i == 0 {
                assert(rest[j - 1] == order[j]);
                assert(rest.contains(order[j]));
            } else {
                assert(rest[i - 1] == order[i]);
                assert(rest.contains(order[i]));
            }
        }
    }
}

/// Finds the end of the first span that starts at `stop`.
pub fn find_terminus(spans: &Vec<FirstLastSeq>, stop: StopId) -> (end: Option<StopId>)
    ensures
        end == terminus_of(spans@, stop),
{
    let mut i: usize = 0;
    assert(spans@.skip(0) =~= spans@);
    while i < spans.len()
        invariant
            i <= spans.len(),
            terminus_of(spans@, stop) == terminus_of(spans@.skip(i as int), stop),
        decreases spans.len() - i,
    {
        proof {
            assert(spans@.skip(i as int)[0] == spans@[i as int]);
            assert(spans@.skip(i as int).skip(1) =~= spans@.skip(i + 1));
        }
        if spans[i].first == stop {
            return Some(spans[i].last);
        }
        i += 1;
    }
    None
}

/// Looks up the distance from `from` to `to`.
pub fn distance_between(distances: &Distances, from: StopId, to: StopId) -> (found: Option<u64>)
    ensures
        match found {
            Some(d) => distances@.contains_key((from, to)) && distances@[(from, to)] == d,
            None => !distances@.contains_key((from, to)),
        },
{
    let pair = (from, to);
    match distances.get(&pair) {
        Some(d) => Some(*d),
        None => None,
    }
}

/// Finds, among `unplaced`, the stop to place next after a shape variant
/// that ends at `end`; nothing is found where a distance is unknown.
fn find_nearest(distances: &Distances, end: StopId, unplaced: &Vec<StopId>) -> (found: Option<
    usize,
>)
    requires
        unplaced.len() > 0,
    ensures
        match found {
            Some(next) => measured(distances@, end, unplaced@) && next == nearest(
                distances@,
                end,
                unplaced@,
            ),
            None => !measured(distances@, end, unplaced@),
        },
{
    let mut best: usize = 0;
    let mut best_distance: u64 = match distance_between(distances, end, unplaced[0]) {
        Some(d) => d,
        None => {
            return None;
        },
    };
    let mut j: usize = 1;
    assert(unplaced@.take(1).len() == 1);
    while j < unplaced.len()
        invariant
            1 <= j <= unplaced.len(),
            measured(distances@, end, unplaced@.take(j as int)),
            best == nearest(distances@, end, unplaced@.take(j as int)),
            best < j,
            best_distance == distances@[(end, unplaced@[best as int])],
        decreases unplaced.len() - j,
    {
        let stop = unplaced[j];
        proof {
            assert(unplaced@.take(j + 1).drop_last() =~= unplaced@.take(j as int));
            assert(unplaced@.take(j + 1).last() == stop);
            assert(unplaced@.take(j + 1)[best as int] == unplaced@[best as int]);
        }
        match distance_between(distances, end, stop) {
            Some(d) => {
                if d < best_distance || (d == best_distance && stop < unplaced[best]) {
                    best = j;
                    best_distance = d;
                }
            },
            None => {
                return None;
            },
        }
        proof {
            assert forall|m: int| 0 <= m < j + 1 implies distances@.contains_key(
                (end, #[trigger] unplaced@.take(j + 1)[m]),
            ) by {
                if m < j {
                    assert(unplaced@.take(j as int)[m] == unplaced@[m]);
                }
            }
        }
        j += 1;
    }
    assert(unplaced@.take(unplaced.len() as int) =~= unplaced@);
    Some(best)
}

/// Orders the starts of the shape variants: `oracle` first, then each time
/// the stop of `others` that lies nearest to the end of a shape variant that
/// starts at the stop placed last.
///
/// The end is that of the first span in `spans` that starts at the stop.
/// Of equally near stops the one with the smaller stop id is placed first.
pub fn order_starts(
    oracle: StopId,
    others: Vec<StopId>,
    spans: &Vec<FirstLastSeq>,
    distances: &Distances,
) -> (result: Result<Vec<StopId>, SequenceError>)
    ensures
        match result {
            Ok(order) => order_from(oracle, others@, spans@, distances@) == Ok::<
                Seq<StopId>,
                SequenceError,
            >(order@),
            Err(e) => order_from(oracle, others@, spans@, distances@) == Err::<
                Seq<StopId>,
                SequenceError,
            >(e),
        },
{
    let ghost whole = order_from(oracle, others@, spans@, distances@);
    let mut order: Vec<StopId> = Vec::new();
    let mut current = oracle;
    let mut unplaced = others;
    proof {
        let rest = order_from(current, unplaced@, spans@, distances@);
        if rest is Ok {
            assert(order@ + rest->Ok_0 =~= rest->Ok_0);
        }
    }
    loop
        invariant
            whole == order_from(oracle, others@, spans@, distances@),
            whole == after(order@, order_from(current, unplaced@, spans@, distances@)),
        decreases unplaced.len(),
    {
        let end = match find_terminus(spans, current) {
            Some(end) => end,
            None => {
                return Err(SequenceError::MissingSpan);
            },
        };
        if distance_between(distances, end, end).is_none() {
            return Err(SequenceError::MissingCoordinates);
        }
        let ghost placed = order@;
        order.push(current);
        if unplaced.len() == 0 {
            proof {
                assert(order@ =~= placed + seq![current]);
            }
            return Ok(order);
        }
        let next = match find_nearest(distances, end, &unplaced) {
            Some(next) => next,
            None => {
                return Err(SequenceError::MissingCoordinates);
            },
        };
        proof {
            lemma_nearest(distances@, end, unplaced@);
            let rest = order_from(unplaced@[next as int], unplaced@.remove(next as int), spans@, distances@);
            if rest is Ok {
                assert(placed + (seq![current] + rest->Ok_0) =~= order@ + rest->Ok_0);
            }
        }
        current = unplaced.remove(next);
    }
}

proof fn lemma_contains_step(s: Seq<StopId>, n: int, x: StopId)
    requires
        0 <= n < s.len(),
    ensures
        s.take(n + 1).contains(x) <==> x == s[n] || s.take(n).contains(x),
{
    let shorter = s.take(n);
    let longer = s.take(n + 1);
    if longer.contains(x) {
        let i = choose|i: int| 0 <= i < longer.len() && longer[i] == x;
        if i < n {
            assert(shorter[i] == x);
        }
    }
    if shorter.contains(x) {
        let i = choose|i: int| 0 <= i < shorter.len() && shorter[i] == x;
        assert(longer[i] == x);
    }
    assert(longer[n] == s[n]);
}

proof fn lemma_contains_push(s: Seq<(StopId, StopId)>, pushed: (StopId, StopId), x: (StopId, StopId))
    ensures
        s.push(pushed).contains(x) <==> x == pushed || s.contains(x),
{
    let longer = s.push(pushed);
    if longer.contains(x) {
        let i = choose|i: int| 0 <= i < longer.len() && longer[i] == x;
        if i < s.len() {
            assert(s[i] == x);
        }
    }
    if s.contains(x) {
        let i = choose|i: int| 0 <= i < s.len() && s[i] == x;
        assert(longer[i] == x);
    }
    assert(longer[s.len() as int] == pushed);
}

/// Whether a span ends at `stop`.
pub open spec fn is_end(spans: Seq<FirstLastSeq>, stop: StopId) -> bool {
    exists|i: int| 0 <= i < spans.len() && (#[trigger] spans[i]).last == stop
}

/// Whether ordering the starts `firsts` may ask for the distance from `from`
/// to `to`: a span ends at `from`, and `to` is one of the starts or `from`
/// itself, whose pair tells that its position is known.
pub open spec fn is_wanted(
    spans: Seq<FirstLastSeq>,
    firsts: Seq<StopId>,
    from: StopId,
    to: StopId,
) -> bool {
    is_end(spans, from) && (to == from || firsts.contains(to))
}

proof fn lemma_terminus_is_end(spans: Seq<FirstLastSeq>, stop: StopId)
    requires
        terminus_of(spans, stop) is Some,
    ensures
        is_end(spans, terminus_of(spans, stop)->Some_0),
    decreases spans.len(),
{
    if spans[0].first == stop {
        assert(spans[0].last == terminus_of(spans, stop)->Some_0);
    } else {
        let rest = spans.skip(1);
        lemma_terminus_is_end(rest, stop);
        let end = terminus_of(rest, stop)->Some_0;
        let i = choose|i: int| 0 <= i < rest.len() && (#[trigger] rest[i]).last == end;
        assert(spans[i + 1] == rest[i]);
    }
}

/// Where every distance that may be asked for is known, ordering starts
/// never fails for want of a position.
pub proof fn lemma_measured_is_enough(
    current: StopId,
    unplaced: Seq<StopId>,
    firsts: Seq<StopId>,
    spans: Seq<FirstLastSeq>,
    distances: Map<(StopId, StopId), u64>,
)
    requires
        forall|from: StopId, to: StopId|
            is_wanted(spans, firsts, from, to) ==> #[trigger] distances.contains_key((from, to)),
        forall|j: int| 0 <= j < unplaced.len() ==> firsts.contains(#[trigger] unplaced[j]),
    ensures
        order_from(current, unplaced, spans, distances) != Err::<Seq<StopId>, SequenceError>(
            SequenceError::MissingCoordinates,
        ),
    decreases unplaced.len(),
{
    if let Some(end) = terminus_of(spans, current) {
        lemma_terminus_is_end(spans, current);
        assert(is_wanted(spans, firsts, end, end));
        assert forall|j: int| 0 <= j < unplaced.len() implies distances.contains_key(
            (end, #[trigger] unplaced[j]),
        ) by {
            assert(is_wanted(spans, firsts, end, unplaced[j]));
        }
        if unplaced.len() > 0 {
            let next = nearest(distances, end, unplaced);
            lemma_nearest(distances, end, unplaced);
            let remaining = unplaced.remove(next);
            assert forall|j: int| 0 <= j < remaining.len() implies firsts.contains(
                #[trigger] remaining[j],
            ) by {
                if j < next {
                    assert(remaining[j] == unplaced[j]);
                } else {
                    assert(remaining[j] == unplaced[j + 1]);
                }
            }
            lemma_measured_is_enough(unplaced[next], remaining, firsts, spans, distances);
        }
    }
}

/// Lists the stops at which spans end, each once, in ascending order.
pub fn span_ends(spans: &Vec<FirstLastSeq>) -> (ends: Vec<StopId>)
    ensures
        ascending(ends@),
        forall|stop: StopId| #[trigger] ends@.contains(stop) <==> is_end(spans@, stop),
{
    let mut ends: Vec<StopId> = Vec::new();
    let mut i: usize = 0;
    while i < spans.len()
        invariant
            i <= spans.len(),
            ascending(ends@),
            forall|stop: StopId| #[trigger]
                ends@.contains(stop) <==> is_end(spans@.take(i as int), stop),
        decreases spans.len() - i,
    {
        let ghost before = ends@;
        insert_ascending(&mut ends, spans[i].last);
        proof {
            let shorter = spans@.take(i as int);
            let longer = spans@.take(i + 1);
            assert forall|stop: StopId| #[trigger]
                ends@.contains(stop) <==> is_end(longer, stop) by {
                assert(before.contains(stop) <==> is_end(shorter, stop));
                if is_end(shorter, stop) {
                    let k = choose|k: int|
                        0 <= k < shorter.len() && (#[trigger] shorter[k]).last == stop;
                    assert(longer[k] == shorter[k]);
                }
                if is_end(longer, stop) {
                    let k = choose|k: int|
                        0 <= k < longer.len() && (#[trigger] longer[k]).last == stop;
                    if k < i {
                        assert(shorter[k] == longer[k]);
                    }
                }
                if stop == spans@[i as int].last {
                    assert(longer[i as int] == spans@[i as int]);
                }
            }
        }
        i += 1;
    }
    assert(spans@.take(spans.len() as int) =~= spans@);
    ends
}

/// Lists the pairs of stops whose distance ordering the starts `firsts` may
/// ask for.
pub fn pairs_to_measure(spans: &Vec<FirstLastSeq>, firsts: &Vec<StopId>) -> (pairs: Vec<
    (StopId, StopId),
>)
    ensures
        forall|from: StopId, to: StopId| #[trigger]
            pairs@.contains((from, to)) <==> is_wanted(spans@, firsts@, from, to),
{
    let ends = span_ends(spans);
    let mut pairs: Vec<(StopId, StopId)> = Vec::new();
    let mut i: usize = 0;
    while i < ends.len()
        invariant
            i <= ends.len(),
            forall|stop: StopId| #[trigger] ends@.contains(stop) <==> is_end(spans@, stop),
            forall|from: StopId, to: StopId| #[trigger]
                pairs@.contains((from, to)) <==> ends@.take(i as int).contains(from) && (to
                    == from || firsts@.contains(to)),
        decreases ends.len() - i,
    {
        let end = ends[i];
        let ghost before = pairs@;
        pairs.push((end, end));
        let mut j: usize = 0;
        proof {
            assert forall|from: StopId, to: StopId| #[trigger]
                pairs@.contains((from, to)) <==> before.contains((from, to)) || (from, to) == (
                    end,
                    end,
                ) by {
                lemma_contains_push(before, (end, end), (from, to));
            }
        }
        while j < firsts.len()
            invariant
                j <= firsts.len(),
                i < ends.len(),
                end == ends@[i as int],
                forall|from: StopId, to: StopId| #[trigger]
                    pairs@.contains((from, to)) <==> before.contains((from, to)) || (from == end
                        && (to == end || firsts@.take(j as int).contains(to))),
            decreases firsts.len() - j,
        {
            let ghost listed = pairs@;
            pairs.push((end, firsts[j]));
            proof {
                let first = firsts@[j as int];
                let shorter = firsts@.take(j as int);
                let longer = firsts@.take(j + 1);
                assert forall|to: StopId|
                    #![trigger longer.contains(to)]
                    longer.contains(to) <==> to == first || shorter.contains(to) by {
                    lemma_contains_step(firsts@, j as int, to);
                }
                assert forall|from: StopId, to: StopId| #[trigger]
                    pairs@.contains((from, to)) <==> listed.contains((from, to)) || (from, to) == (
                        end,
                        first,
                    ) by {
                    lemma_contains_push(listed, (end, first), (from, to));
                }
            }
            j += 1;
        }
        proof {
            assert(firsts@.take(firsts.len() as int) =~= firsts@);
            assert forall|from: StopId|
                #![trigger ends@.take(i + 1).contains(from)]
                ends@.take(i + 1).contains(from) <==> from == end || ends@.take(
                    i as int,
                ).contains(from) by {
                lemma_contains_step(ends@, i as int, from);
            }
        }
        i += 1;
    }
    proof {
        assert(ends@.take(ends.len() as int) =~= ends@);
    }
    pairs
}

} // verus!
