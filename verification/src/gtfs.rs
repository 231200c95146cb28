//! From the observations of a route and direction to its one order of stops.

use std::collections::BTreeMap;
use vstd::prelude::*;
use crate::merge::{lemma_merged_complete, lemma_merged_no_duplicates, merged};
use crate::oracle::{
    first_list, first_stops, is_first, is_oracle, lemma_first_list, lemma_oracle_exists,
    lemma_oracle_unique, select_oracle,
};
use crate::order::{
    lemma_order_errors, lemma_order_places_each_once, order_from, order_starts, Distances,
};
use crate::shapes::{
    group_sequences, grouped, has_start, lemma_grouped_holds, lemma_start_is_first,
    lemma_start_of, start_of, stops_of,
};
use crate::stops::{lemma_ascending_no_duplicates, lemma_without_stop, remove_stop, without_stop};

pub use crate::merge::topo_merge;
pub use crate::records::{FirstLastSeq, Quantity, SequenceError, ShapeId, StopId, StopSeq, StopSequence};
pub use crate::service::{get_service_count, ServiceCounts};

verus! {

/// The stop at which the ordering starts.
pub open spec fn oracle_of(rows: Seq<StopSeq>, boardings: Map<StopId, Quantity>) -> StopId {
    choose|s: StopId| is_oracle(rows, boardings, s)
}

/// The order of stops synthesised from the observations `rows`, or why there
/// is none.
///
/// Without a stop at which a shape variant starts there is no data. The
/// starts are ordered from the oracle on by nearness; a failure there is the
/// failure of the whole. The shape variants' stop lists, laid out by that
/// order, are merged.
pub open spec fn stop_sequence_of(
    rows: Seq<StopSeq>,
    spans: Seq<FirstLastSeq>,
    boardings: Map<StopId, Quantity>,
    distances: Map<(StopId, StopId), u64>,
) -> Result<Seq<StopId>, SequenceError> {
    if first_list(rows).len() == 0 {
        Err(SequenceError::NoData)
    } else {
        let oracle = oracle_of(rows, boardings);
        match order_from(oracle, without_stop(first_list(rows), oracle), spans, distances) {
            Err(e) => Err(e),
            Ok(order) => Ok(merged(grouped(rows, order))),
        }
    }
}

/// Whether `order` places each stop at which a shape variant starts once,
/// and no other stop.
pub open spec fn places_firsts(rows: Seq<StopSeq>, order: Seq<StopId>) -> bool {
    &&& order.no_duplicates()
    &&& forall|s: StopId| #[trigger] order.contains(s) <==> is_first(rows, s)
}

/// The starts are ordered to the last: where an order of the starts is
/// found, it begins with the oracle and places each stop at which a shape
/// variant starts once, and no other stop.
pub proof fn lemma_starts_are_ordered(
    rows: Seq<StopSeq>,
    spans: Seq<FirstLastSeq>,
    boardings: Map<StopId, Quantity>,
    distances: Map<(StopId, StopId), u64>,
)
    requires
        first_list(rows).len() > 0,
        order_from(
            oracle_of(rows, boardings),
            without_stop(first_list(rows), oracle_of(rows, boardings)),
            spans,
            distances,
        ) is Ok,
    ensures
        ({
            let oracle = oracle_of(rows, boardings);
            let order = order_from(
                oracle,
                without_stop(first_list(rows), oracle),
                spans,
                distances,
            )->Ok_0;
            order[0] == oracle && places_firsts(rows, order)
        }),
{
    let oracle = oracle_of(rows, boardings);
    let firsts = first_list(rows);
    let others = without_stop(firsts, oracle);
    lemma_first_list(rows);
    assert(firsts.contains(firsts[0]));
    lemma_oracle_exists(rows, boardings, firsts[0]);
    lemma_ascending_no_duplicates(firsts);
    lemma_without_stop(firsts, oracle);
    lemma_order_places_each_once(oracle, others, spans, distances);
    crate::order::lemma_order_arranges(oracle, others, spans, distances);
    let order = order_from(oracle, others, spans, distances)->Ok_0;
    assert forall|s: StopId| #[trigger] order.contains(s) <==> is_first(rows, s) by {
        assert(firsts.contains(s) <==> is_first(rows, s));
        assert(others.contains(s) <==> s != oracle && firsts.contains(s));
    }
}

/// Where some shape variant has a start and `order` holds every stop at
/// which one starts, there are stop lists to merge.
pub proof fn lemma_lists_exist(rows: Seq<StopSeq>, order: Seq<StopId>, first: StopId)
    requires
        is_first(rows, first),
        forall|s: StopId| is_first(rows, s) ==> #[trigger] order.contains(s),
    ensures
        grouped(rows, order).len() > 0,
{
    let i = choose|i: int|
        0 <= i < rows.len() && (#[trigger] rows[i]).stop_id == first && rows[i].stop_sequence
            < 2;
    let shape = rows[i].shape_id@;
    assert(has_start(rows, shape));
    lemma_start_of(rows, shape);
    lemma_start_is_first(rows, shape);
    lemma_grouped_holds(rows, order, shape);
}

/// The order of a route fails only for want of data, of a span or of a
/// position, and where it is found it leaves out no stop of a shape variant
/// that has a start.
pub proof fn lemma_stop_sequence_complete(
    rows: Seq<StopSeq>,
    spans: Seq<FirstLastSeq>,
    boardings: Map<StopId, Quantity>,
    distances: Map<(StopId, StopId), u64>,
)
    ensures
        stop_sequence_of(rows, spans, boardings, distances) matches Err(e) ==> e
            == SequenceError::NoData || e == SequenceError::MissingSpan || e
            == SequenceError::MissingCoordinates,
        stop_sequence_of(rows, spans, boardings, distances) matches Ok(stops) ==> forall|
            shape: Seq<char>,
            k: int,
        |
            has_start(rows, shape) && 0 <= k < stops_of(rows, shape).len() ==> stops.contains(
                #[trigger] stops_of(rows, shape)[k],
            ),
{
    let firsts = first_list(rows);
    if firsts.len() > 0 {
        let oracle = oracle_of(rows, boardings);
        let others = without_stop(firsts, oracle);
        lemma_order_errors(oracle, others, spans, distances);
        if order_from(oracle, others, spans, distances) is Ok {
            let order = order_from(oracle, others, spans, distances)->Ok_0;
            lemma_starts_are_ordered(rows, spans, boardings, distances);
            let lists = grouped(rows, order);
            lemma_merged_complete(lists);
            assert forall|shape: Seq<char>, k: int|
                has_start(rows, shape) && 0 <= k < stops_of(rows, shape).len() implies merged(
                lists,
            ).contains(#[trigger] stops_of(rows, shape)[k]) by {
                lemma_start_of(rows, shape);
                lemma_start_is_first(rows, shape);
                lemma_grouped_holds(rows, order, shape);
                let j = choose|j: int| 0 <= j < lists.len() && lists[j] == stops_of(rows, shape);
                assert(merged(lists).contains(lists[j][k]));
            }
        }
    }
}

/// Makes the one left-to-right order of the stops of a route and direction.
///
/// `rows` are the observed stop visits, `first_lasts` the two ends of each
/// shape variant, `boardings` the boardings by stop, and `distances` the
/// distances between the stops at which shape variants end and those at
/// which they start.
pub fn make_stop_sequence(
    rows: &Vec<StopSeq>,
    first_lasts: &Vec<FirstLastSeq>,
    boardings: &BTreeMap<StopId, Quantity>,
    distances: &Distances,
) -> (result: Result<Vec<StopId>, SequenceError>)
    ensures
        match result {
            Ok(stops) => stop_sequence_of(rows@, first_lasts@, boardings@, distances@) == Ok::<
                Seq<StopId>,
                SequenceError,
            >(stops@) && stops@.no_duplicates(),
            Err(e) => stop_sequence_of(rows@, first_lasts@, boardings@, distances@) == Err::<
                Seq<StopId>,
                SequenceError,
            >(e),
        },
        rows.len() == 0 ==> result == Err::<Vec<StopId>, SequenceError>(SequenceError::NoData),
{
    let firsts = first_stops(rows);
    if firsts.len() == 0 {
        return Err(SequenceError::NoData);
    }
    let oracle = match select_oracle(rows, boardings) {
        Ok(stop) => stop,
        Err(e) => {
            proof {
                assert(firsts@.contains(firsts@[0]));
                assert(is_first(rows@, firsts@[0]));
            }
            return Err(e);
        },
    };
    proof {
        lemma_oracle_unique(rows@, boardings@, oracle, oracle_of(rows@, boardings@));
    }
    let others = remove_stop(&firsts, oracle);
    let order = match order_starts(oracle, others, first_lasts, distances) {
        Ok(order) => order,
        Err(e) => {
            return Err(e);
        },
    };
    let groups = group_sequences(rows, &order);
    proof {
        lemma_first_list(rows@);
        assert(firsts@.contains(firsts@[0]));
        lemma_starts_are_ordered(rows@, first_lasts@, boardings@, distances@);
        lemma_lists_exist(rows@, order@, firsts@[0]);
        lemma_merged_no_duplicates(grouped(rows@, order@));
    }
    topo_merge(groups)
}

} // verus!
