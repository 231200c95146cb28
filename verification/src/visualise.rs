//! Laying out the flows of passengers over the stops of a route.

use std::collections::BTreeMap;
use vstd::prelude::*;
use crate::patronage::{
    alighted, boarded, carried, flow, flow_between, lemma_carried_below, lemma_totals_bounded,
    summarise, tally, tally_of,
};

use crate::records::{Quantity, StopId};

pub use crate::patronage::sum_up;

verus! {

/// The stride of the star pattern over `len` places.
pub open spec fn star_step(len: int) -> int {
    if len % 3 == 1 {
        len / 3
    } else if len % 9 == 6 {
        len / 3 - 1
    } else {
        len / 3 + 1
    }
}

/// The place from which place `i` of the jumbled list is taken.
///
/// Lists of four and of six take the odd places first and then the even
/// ones; every other list steps through its places by the stride.
pub open spec fn star_source(len: int, i: int) -> int {
    if len == 4 || len == 6 {
        if i < len / 2 {
            2 * i + 1
        } else {
            2 * (i - len / 2)
        }
    } else {
        (star_step(len) * (i + star_step(len))) % len
    }
}

/// Every place of the jumbled list is taken from a place of the list.
pub proof fn lemma_star_source_in_range(len: int, i: int)
    requires
        2 <= len,
        0 <= i < len,
    ensures
        0 <= star_source(len, i) < len,
{
    if !(len == 4 || len == 6) {
        let g = star_step(len);
        vstd::arithmetic::div_mod::lemma_mod_bound(g * (i + g), len);
    }
}

proof fn lemma_stride_is_coprime(len: int) -> (coefficients: (int, int))
    requires
        2 <= len,
    ensures
        coefficients.0 * star_step(len) + coefficients.1 * len == 1,
{
    let g = star_step(len);
    let m = len / 9;
    if len % 3 == 1 {
        (-3, 1)
    } else if len % 3 == 2 {
        (3, -1)
    } else if len % 9 == 6 {
        assert(len == 9 * m + 6 && g == 3 * m + 1);
        assert((1 + 3 * m) * (3 * m + 1) + (-m) * (9 * m + 6) == 1) by (nonlinear_arith);
        (1 + 3 * m, -m)
    } else if len % 9 == 0 {
        assert(len == 9 * m && g == 3 * m + 1);
        assert((1 - 3 * m) * (3 * m + 1) + m * (9 * m) == 1) by (nonlinear_arith);
        (1 - 3 * m, m)
    } else {
        assert(len == 9 * m + 3 && g == 3 * m + 2);
        assert((2 + 3 * m) * (3 * m + 2) + (-(1 + m)) * (9 * m + 3) == 1) by (nonlinear_arith);
        (2 + 3 * m, -(1 + m))
    }
}

/// Jumbling permutes: no two places of the jumbled list are taken from the
/// same place of the list.
pub proof fn lemma_star_sources_differ(len: int, i: int, j: int)
    requires
        2 <= len,
        0 <= i < len,
        0 <= j < len,
        i != j,
    ensures
        star_source(len, i) != star_source(len, j),
{
    if !(len == 4 || len == 6) {
        let g = star_step(len);
        let x = g * (i + g);
        let y = g * (j + g);
        if x % len == y % len {
            let (a, b) = lemma_stride_is_coprime(len);
            vstd::arithmetic::div_mod::lemma_fundamental_div_mod(x, len);
            vstd::arithmetic::div_mod::lemma_fundamental_div_mod(y, len);
            let q = x / len - y / len;
            let d = i - j;
            assert(x - y == len * q) by (nonlinear_arith)
                requires
                    x == len * (x / len) + x % len,
                    y == len * (y / len) + y % len,
                    x % len == y % len,
                    q == x / len - y / len,
            ;
            assert(g * d == len * q) by (nonlinear_arith)
                requires
                    x == g * (i + g),
                    y == g * (j + g),
                    x - y == len * q,
                    d == i - j,
            ;
            assert(d == (a * q + b * d) * len) by (nonlinear_arith)
                requires
                    a * g + b * len == 1,
                    g * d == len * q,
            ;
            let m = a * q + b * d;
            assert(false) by (nonlinear_arith)
                requires
                    d == m * len,
                    -len < d < len,
                    d != 0,
                    len >= 2,
            ;
        }
    }
}

/// Jumbles a list so that neighbours are parted: a list of fewer than two
/// elements is handed back as it is, any other is copied with its elements
/// in a star pattern.
pub fn jumbled<T: Clone>(input: Vec<T>) -> (output: Vec<T>)
    ensures
        output.len() == input.len(),
        input.len() < 2 ==> output == input,
        input.len() >= 2 ==> forall|i: int|
            0 <= i < input.len() ==> cloned(
                input[star_source(input.len() as int, i)],
                #[trigger] output[i],
            ),
{
    let len = input.len();
    if len < 2 {
        return input;
    }
    let step: usize = if len % 3 == 1 {
        len / 3
    } else if len % 9 == 6 {
        len / 3 - 1
    } else {
        len / 3 + 1
    };
    let mut output: Vec<T> = Vec::with_capacity(len);
    let mut i: usize = 0;
    while i < len
        invariant
            2 <= len == input.len(),
            i <= len,
            step == star_step(len as int),
            step <= len / 3 + 1,
            output.len() == i,
            forall|j: int|
                0 <= j < i ==> cloned(input[star_source(len as int, j)], #[trigger] output[j]),
        decreases len - i,
    {
        let source: usize = if len == 4 || len == 6 {
            if i < len / 2 {
                2 * i + 1
            } else {
                2 * (i - len / 2)
            }
        } else {
            let wide_step = step as u128;
            let reach = i as u128 + wide_step;
            assert(wide_step * reach <= 0x7FFF_FFFF_FFFF_FFFF * 0x1_FFFF_FFFF_FFFF_FFFF) by (nonlinear_arith)
                requires
                    0 <= wide_step <= 0x7FFF_FFFF_FFFF_FFFF,
                    0 <= reach <= 0x1_FFFF_FFFF_FFFF_FFFF,
            ;
            ((wide_step * reach) % (len as u128)) as usize
        };
        proof {
            lemma_star_source_in_range(len as int, i as int);
        }
        output.push(input[source].clone());
        i += 1;
    }
    output
}

/// A flow of passengers to draw, from the stop at one place of the stop
/// sequence to the stop at another.
#[derive(Debug, Clone, Copy, PartialEq, Eq, Structural)]
pub struct FlowArc {
    /// The place of the stop at which the passengers board.
    pub from_idx: usize,
    /// The place of the stop at which they alight.
    pub to_idx: usize,
    /// How many they are.
    pub quantity: Quantity,
}

/// What is shown at one stop of the stop sequence.
#[derive(Debug, Clone, Copy, PartialEq, Eq, Structural)]
pub struct StopTally {
    /// The stop.
    pub stop: StopId,
    /// The passengers who alight there.
    pub alightings: u64,
    /// The passengers who board there.
    pub boardings: u64,
    /// The passengers on board between this stop and the next.
    pub load: i128,
}

/// Everything of a diagram that is counted rather than measured.
#[derive(Debug, Clone, PartialEq, Eq)]
pub struct Diagram {
    /// The flows that run against the stop sequence, in the order in which
    /// they are drawn.
    pub wraparound: Vec<FlowArc>,
    /// The flows that run with the stop sequence, in the order in which they
    /// are drawn.
    pub forward: Vec<FlowArc>,
    /// The stops, in their sequence.
    pub stops: Vec<StopTally>,
    /// The greatest number of passengers who board at one stop.
    pub boarding_max: u64,
    /// The greatest number of passengers who alight at one stop.
    pub alighting_max: u64,
    /// All passengers counted.
    pub boards_count: u128,
}

/// The flow from place `from_idx` to place `to_idx`, if anyone takes it.
pub open spec fn arc_between(
    patronages: Map<(StopId, StopId), Quantity>,
    stops: Seq<StopId>,
    from_idx: int,
    to_idx: int,
) -> Seq<FlowArc> {
    let quantity = flow(patronages, stops[from_idx], stops[to_idx]);
    if quantity > 0 {
        seq![FlowArc { from_idx: from_idx as usize, to_idx: to_idx as usize, quantity: quantity as Quantity }]
    } else {
        Seq::empty()
    }
}

/// The flows that run `span` places against the stop sequence and end at a
/// place below `bound`, by the place at which they end.
pub open spec fn wrap_span(
    patronages: Map<(StopId, StopId), Quantity>,
    stops: Seq<StopId>,
    span: int,
    bound: int,
) -> Seq<FlowArc>
    decreases bound,
{
    if bound <= 0 {
        Seq::empty()
    } else {
        wrap_span(patronages, stops, span, bound - 1) + arc_between(
            patronages,
            stops,
            bound - 1 + span,
            bound - 1,
        )
    }
}

/// The flows that run fewer than `spans` places against the stop sequence:
/// the shortest first, those of one length by the place at which they end.
pub open spec fn wrap_arcs(
    patronages: Map<(StopId, StopId), Quantity>,
    stops: Seq<StopId>,
    spans: int,
) -> Seq<FlowArc>
    decreases spans,
{
    if spans <= 1 {
        Seq::empty()
    } else {
        wrap_arcs(patronages, stops, spans - 1) + wrap_span(
            patronages,
            stops,
            spans - 1,
            stops.len() - (spans - 1),
        )
    }
}

/// The flows from place `from_idx` to the places after it and below
/// `bound`, the nearest first.
pub open spec fn forward_span(
    patronages: Map<(StopId, StopId), Quantity>,
    stops: Seq<StopId>,
    from_idx: int,
    bound: int,
) -> Seq<FlowArc>
    decreases bound - from_idx,
{
    if bound <= from_idx + 1 {
        Seq::empty()
    } else {
        forward_span(patronages, stops, from_idx, bound - 1) + arc_between(
            patronages,
            stops,
            from_idx,
            bound - 1,
        )
    }
}

/// The flows that run with the stop sequence from a place below `origins`,
/// by the place at which they start.
pub open spec fn forward_arcs(
    patronages: Map<(StopId, StopId), Quantity>,
    stops: Seq<StopId>,
    origins: int,
) -> Seq<FlowArc>
    decreases origins,
{
    if origins <= 0 {
        Seq::empty()
    } else {
        forward_arcs(patronages, stops, origins - 1) + forward_span(
            patronages,
            stops,
            origins - 1,
            stops.len() as int,
        )
    }
}

/// The passengers of the flows of `wrap_span`.
pub open spec fn wrapped_span(
    patronages: Map<(StopId, StopId), Quantity>,
    stops: Seq<StopId>,
    span: int,
    bound: int,
) -> nat
    decreases bound,
{
    if bound <= 0 {
        0
    } else {
        wrapped_span(patronages, stops, span, bound - 1) + flow(
            patronages,
            stops[bound - 1 + span],
            stops[bound - 1],
        )
    }
}

/// The passengers of the flows of `wrap_arcs`: those on board where the
/// stop sequence begins.
pub open spec fn wrapped(
    patronages: Map<(StopId, StopId), Quantity>,
    stops: Seq<StopId>,
    spans: int,
) -> nat
    decreases spans,
{
    if spans <= 1 {
        0
    } else {
        wrapped(patronages, stops, spans - 1) + wrapped_span(
            patronages,
            stops,
            spans - 1,
            stops.len() - (spans - 1),
        )
    }
}

/// The passengers on board after the first `passed` stops of the sequence:
/// those on board where it begins, less those who alighted, and those who
/// boarded.
pub open spec fn load_after(
    patronages: Map<(StopId, StopId), Quantity>,
    stops: Seq<StopId>,
    passed: int,
) -> int
    decreases passed,
{
    if passed <= 0 {
        wrapped(patronages, stops, stops.len() as int) as int
    } else {
        load_after(patronages, stops, passed - 1) - alighted(patronages, stops[passed - 1])
            + boarded(patronages, stops[passed - 1])
    }
}

/// What is shown at place `at` of the stop sequence.
pub open spec fn tally_at(
    patronages: Map<(StopId, StopId), Quantity>,
    stops: Seq<StopId>,
    at: int,
) -> StopTally {
    StopTally {
        stop: stops[at],
        alightings: alighted(patronages, stops[at]) as u64,
        boardings: boarded(patronages, stops[at]) as u64,
        load: load_after(patronages, stops, at + 1) as i128,
    }
}

proof fn lemma_wrapped_span_bounded(
    patronages: Map<(StopId, StopId), Quantity>,
    stops: Seq<StopId>,
    span: int,
    bound: int,
)
    requires
        0 <= bound,
    ensures
        wrapped_span(patronages, stops, span, bound) <= bound * 0xFFFF_FFFF,
    decreases bound,
{
    if bound > 0 {
        lemma_wrapped_span_bounded(patronages, stops, span, bound - 1);
    }
}

proof fn lemma_wrapped_bounded(
    patronages: Map<(StopId, StopId), Quantity>,
    stops: Seq<StopId>,
    spans: int,
)
    requires
        0 <= spans <= stops.len() + 1,
        stops.len() <= 0xFFFF_FFFF,
    ensures
        wrapped(patronages, stops, spans) <= spans * 0xFFFF_FFFF * 0xFFFF_FFFF,
    decreases spans,
{
    if spans > 1 {
        lemma_wrapped_bounded(patronages, stops, spans - 1);
        let bound = stops.len() - (spans - 1);
        lemma_wrapped_span_bounded(patronages, stops, spans - 1, bound);
        assert(bound * 0xFFFF_FFFF <= 0xFFFF_FFFF * 0xFFFF_FFFF) by (nonlinear_arith)
            requires
                0 <= bound <= 0xFFFF_FFFF,
        ;
        assert((spans - 1) * 0xFFFF_FFFF * 0xFFFF_FFFF + 0xFFFF_FFFF * 0xFFFF_FFFF == spans
            * 0xFFFF_FFFF * 0xFFFF_FFFF) by (nonlinear_arith);
    } else {
        assert(0 <= spans * 0xFFFF_FFFF * 0xFFFF_FFFF) by (nonlinear_arith)
            requires
                0 <= spans,
        ;
    }
}

proof fn lemma_load_bounded(
    patronages: Map<(StopId, StopId), Quantity>,
    stops: Seq<StopId>,
    passed: int,
)
    requires
        0 <= passed <= stops.len() <= 0xFFFF_FFFF,
    ensures
        -passed * 0x1_0000_0000_0000_0000 <= load_after(patronages, stops, passed)
            <= 0x1_0000_0000_0000_0000_0000_0000 + passed * 0x1_0000_0000_0000_0000,
    decreases passed,
{
    if passed > 0 {
        lemma_load_bounded(patronages, stops, passed - 1);
        lemma_totals_bounded(patronages, stops[passed - 1], 0x1_0000_0000);
    } else {
        lemma_wrapped_bounded(patronages, stops, stops.len() as int);
        let n = stops.len() as int;
        assert(n * 0xFFFF_FFFF * 0xFFFF_FFFF <= 0x1_0000_0000_0000_0000_0000_0000)
            by (nonlinear_arith)
            requires
                0 <= n <= 0xFFFF_FFFF,
        ;
    }
}

/// Works out what a diagram of the flows over `stop_sequence` shows: which
/// flows are drawn and in what order, what is written at each stop, and the
/// counts by which the drawing is scaled.
///
/// Flows to or from a stop that is not in the sequence are not drawn, but
/// they count among the boardings and alightings of the stops that are.
pub fn visualise_one(
    patronages: &BTreeMap<(StopId, StopId), Quantity>,
    stop_sequence: &Vec<StopId>,
) -> (diagram: Diagram)
    requires
        stop_sequence.len() <= 0xFFFF_FFFF,
    ensures
        diagram.wraparound@ == wrap_arcs(
            patronages@,
            stop_sequence@,
            stop_sequence.len() as int,
        ),
        diagram.forward@ == forward_arcs(patronages@, stop_sequence@, stop_sequence.len() as int),
        diagram.stops@ == Seq::new(
            stop_sequence.len() as nat,
            |at: int| tally_at(patronages@, stop_sequence@, at),
        ),
        forall|stop: StopId| boarded(patronages@, stop) <= diagram.boarding_max,
        diagram.boarding_max == 0 || exists|stop: StopId|
            boarded(patronages@, stop) == diagram.boarding_max,
        forall|stop: StopId| alighted(patronages@, stop) <= diagram.alighting_max,
        diagram.alighting_max == 0 || exists|stop: StopId|
            alighted(patronages@, stop) == diagram.alighting_max,
        diagram.boards_count == carried(patronages@),
{
    let (boardings, alightings) = sum_up(patronages);
    let (boarding_max, boards_count) = summarise(&boardings);
    let (alighting_max, _) = summarise(&alightings);
    let stop_count = stop_sequence.len();
    let ghost routes = patronages@;
    let ghost stops = stop_sequence@;

    let mut wraparound: Vec<FlowArc> = Vec::new();
    let mut on_board: u128 = 0;
    let mut span: usize = 1;
    while span < stop_count
        invariant
            1 <= span,
            stop_count == stop_sequence.len() <= 0xFFFF_FFFF,
            span <= stop_count || span == 1,
            routes == patronages@,
            stops == stop_sequence@,
            wraparound@ == wrap_arcs(routes, stops, span as int),
            on_board == wrapped(routes, stops, span as int),
        decreases stop_count - span,
    {
        let ghost before = wraparound@;
        let ghost board_before = on_board;
        let mut to_idx: usize = 0;
        proof {
            lemma_wrapped_bounded(routes, stops, span as int);
            assert(before + wrap_span(routes, stops, span as int, 0) =~= before);
        }
        while to_idx < stop_count - span
            invariant
                1 <= span < stop_count,
                stop_count == stop_sequence.len() <= 0xFFFF_FFFF,
                to_idx <= stop_count - span,
                routes == patronages@,
                stops == stop_sequence@,
                wraparound@ == before + wrap_span(routes, stops, span as int, to_idx as int),
                on_board == board_before + wrapped_span(
                    routes,
                    stops,
                    span as int,
                    to_idx as int,
                ),
                board_before <= span * 0xFFFF_FFFF * 0xFFFF_FFFF,
            decreases stop_count - span - to_idx,
        {
            let from_idx = to_idx + span;
            let quantity = flow_between(patronages, stop_sequence[from_idx], stop_sequence[to_idx]);
            proof {
                lemma_wrapped_span_bounded(routes, stops, span as int, to_idx + 1);
                assert(span * 0xFFFF_FFFF * 0xFFFF_FFFF <= 0xFFFF_FFFF * 0xFFFF_FFFF * 0xFFFF_FFFF)
                    by (nonlinear_arith)
                    requires
                        0 <= span <= 0xFFFF_FFFF,
                ;
                assert((to_idx + 1) * 0xFFFF_FFFF <= 0xFFFF_FFFF * 0xFFFF_FFFF)
                    by (nonlinear_arith)
                    requires
                        0 <= to_idx + 1 <= 0xFFFF_FFFF,
                ;
            }
            if quantity >= 1 {
                wraparound.push(FlowArc { from_idx, to_idx, quantity });
                proof {
                    let arc = arc_between(routes, stops, from_idx as int, to_idx as int);
                    assert(wraparound@ =~= before + (wrap_span(
                        routes,
                        stops,
                        span as int,
                        to_idx as int,
                    ) + arc));
                }
            } else {
                proof {
                    let arc = arc_between(routes, stops, from_idx as int, to_idx as int);
                    assert(wraparound@ =~= before + (wrap_span(
                        routes,
                        stops,
                        span as int,
                        to_idx as int,
                    ) + arc));
                }
            }
            on_board += quantity as u128;
            to_idx += 1;
        }
        span += 1;
    }
    proof {
        if stop_count == 0 {
            assert(wrap_arcs(routes, stops, 0) == wrap_arcs(routes, stops, 1));
            assert(wrapped(routes, stops, 0) == wrapped(routes, stops, 1));
        }
        assert(wraparound@ == wrap_arcs(routes, stops, stop_count as int));
        assert(on_board == wrapped(routes, stops, stop_count as int));
    }

    proof {
        lemma_wrapped_bounded(routes, stops, stop_count as int);
        assert(stop_count * 0xFFFF_FFFF * 0xFFFF_FFFF <= 0x1_0000_0000_0000_0000_0000_0000)
            by (nonlinear_arith)
            requires
                0 <= stop_count <= 0xFFFF_FFFF,
        ;
    }
    let mut forward: Vec<FlowArc> = Vec::new();
    let mut tallies: Vec<StopTally> = Vec::new();
    let mut load: i128 = on_board as i128;
    let mut from_idx: usize = 0;
    while from_idx < stop_count
        invariant
            from_idx <= stop_count,
            stop_count == stop_sequence.len() <= 0xFFFF_FFFF,
            routes == patronages@,
            stops == stop_sequence@,
            forall|stop: StopId| #[trigger] tally(boardings@, stop) == boarded(routes, stop),
            forall|stop: StopId| #[trigger] tally(alightings@, stop) == alighted(routes, stop),
            forward@ == forward_arcs(routes, stops, from_idx as int),
            tallies@ == Seq::new(from_idx as nat, |at: int| tally_at(routes, stops, at)),
            load == load_after(routes, stops, from_idx as int),
        decreases stop_count - from_idx,
    {
        let from = stop_sequence[from_idx];
        let ghost before = forward@;
        let mut to_idx: usize = from_idx + 1;
        proof {
            assert(before + forward_span(routes, stops, from_idx as int, from_idx + 1) =~= before);
        }
        while to_idx < stop_count
            invariant
                from_idx < to_idx <= stop_count,
                stop_count == stop_sequence.len(),
                routes == patronages@,
                stops == stop_sequence@,
                from == stops[from_idx as int],
                forward@ == before + forward_span(routes, stops, from_idx as int, to_idx as int),
            decreases stop_count - to_idx,
        {
            let quantity = flow_between(patronages, from, stop_sequence[to_idx]);
            if quantity != 0 {
                forward.push(FlowArc { from_idx, to_idx, quantity });
            }
            proof {
                let arc = arc_between(routes, stops, from_idx as int, to_idx as int);
                assert(forward@ =~= before + (forward_span(
                    routes,
                    stops,
                    from_idx as int,
                    to_idx as int,
                ) + arc));
            }
            to_idx += 1;
        }
        let alights = tally_of(&alightings, from);
        let boards = tally_of(&boardings, from);
        proof {
            lemma_load_bounded(routes, stops, from_idx as int);
            lemma_load_bounded(routes, stops, from_idx + 1);
            assert(from_idx * 0x1_0000_0000_0000_0000 <= 0x1_0000_0000_0000_0000_0000_0000)
                by (nonlinear_arith)
                requires
                    0 <= from_idx <= 0xFFFF_FFFF,
            ;
        }
        load = load - alights as i128 + boards as i128;
        let ghost listed = tallies@;
        tallies.push(StopTally { stop: from, alightings: alights, boardings: boards, load });
        proof {
            lemma_totals_bounded(routes, from, 0x1_0000_0000);
            assert(tallies@[from_idx as int] == tally_at(routes, stops, from_idx as int));
            assert(tallies@ =~= Seq::new(
                (from_idx + 1) as nat,
                |at: int| tally_at(routes, stops, at),
            ));
        }
        from_idx += 1;
    }
    proof {
        lemma_carried_below(routes, boardings@, 0x1_0000_0000);
        assert forall|stop: StopId| boarded(routes, stop) <= boarding_max by {
            assert(tally(boardings@, stop) <= boarding_max);
        }
        assert forall|stop: StopId| alighted(routes, stop) <= alighting_max by {
            assert(tally(alightings@, stop) <= alighting_max);
        }
        if boarding_max != 0 {
            let stop = choose|stop: StopId| #[trigger] tally(boardings@, stop) == boarding_max;
            assert(boarded(routes, stop) == boarding_max);
        }
        if alighting_max != 0 {
            let stop = choose|stop: StopId| #[trigger] tally(alightings@, stop) == alighting_max;
            assert(alighted(routes, stop) == alighting_max);
        }
    }
    Diagram { wraparound, forward, stops: tallies, boarding_max, alighting_max, boards_count }
}

} // verus!
