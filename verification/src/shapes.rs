//! Grouping the observations by shape variant, in the order in which the
//! variants are merged.

use vstd::prelude::*;
use vstd::string::StringSliceAdditionalSpecFns;
use vstd::utf8::encode_utf8;
use crate::merge::stop_lists;
use crate::oracle::is_first;
use crate::records::{ShapeId, StopId, StopSeq};

verus! {

/// Whether `a` comes before `b` when the two are compared byte by byte, a
/// proper prefix coming before what it is a prefix of.
pub open spec fn bytes_precede(a: Seq<u8>, b: Seq<u8>) -> bool
    decreases a.len(),
{
    if b.len() == 0 {
        false
    } else if a.len() == 0 {
        true
    } else if a[0] != b[0] {
        a[0] < b[0]
    } else {
        bytes_precede(a.skip(1), b.skip(1))
    }
}

/// Whether the shape id `a` comes before the shape id `b`: the order of
/// their UTF-8 bytes, which is the order of strings.
pub open spec fn shape_precedes(a: Seq<char>, b: Seq<char>) -> bool {
    bytes_precede(encode_utf8(a), encode_utf8(b))
}

proof fn lemma_bytes_irreflexive(a: Seq<u8>)
    ensures
        !bytes_precede(a, a),
    decreases a.len(),
{
    if a.len() > 0 {
        lemma_bytes_irreflexive(a.skip(1));
    }
}

proof fn lemma_bytes_transitive(a: Seq<u8>, b: Seq<u8>, c: Seq<u8>)
    requires
        bytes_precede(a, b),
        bytes_precede(b, c),
    ensures
        bytes_precede(a, c),
    decreases a.len(),
{
    if a.len() > 0 && a[0] == b[0] && b[0] == c[0] {
        lemma_bytes_transitive(a.skip(1), b.skip(1), c.skip(1));
    }
}

proof fn lemma_bytes_total(a: Seq<u8>, b: Seq<u8>)
    ensures
        a == b || bytes_precede(a, b) || bytes_precede(b, a),
    decreases a.len(),
{
    if a.len() == 0 || b.len() == 0 {
        if a.len() == 0 && b.len() == 0 {
            assert(a =~= b);
        }
    } else if a[0] == b[0] {
        lemma_bytes_total(a.skip(1), b.skip(1));
        if a.skip(1) == b.skip(1) {
            assert forall|i: int| 0 <= i < a.len() implies a[i] == b[i] by {
                if i > 0 {
                    assert(a.skip(1)[i - 1] == b.skip(1)[i - 1]);
                }
            }
            assert(a.len() == b.len()) by {
                assert(a.skip(1).len() == b.skip(1).len());
            }
            assert(a =~= b);
        }
    }
}

/// The order of shape ids is a strict total order: no shape id comes before
/// itself, of two different ones exactly one comes first, and what comes
/// before one that comes before a third comes before the third.
pub proof fn lemma_shape_order(a: Seq<char>, b: Seq<char>, c: Seq<char>)
    ensures
        !shape_precedes(a, a),
        a == b || shape_precedes(a, b) || shape_precedes(b, a),
        !(shape_precedes(a, b) && shape_precedes(b, a)),
        shape_precedes(a, b) && shape_precedes(b, c) ==> shape_precedes(a, c),
{
    lemma_bytes_irreflexive(encode_utf8(a));
    lemma_bytes_total(encode_utf8(a), encode_utf8(b));
    if encode_utf8(a) == encode_utf8(b) {
        vstd::utf8::encode_utf8_decode_utf8(a);
        vstd::utf8::encode_utf8_decode_utf8(b);
    }
    if shape_precedes(a, b) && shape_precedes(b, a) {
        lemma_bytes_transitive(encode_utf8(a), encode_utf8(b), encode_utf8(a));
    }
    if shape_precedes(a, b) && shape_precedes(b, c) {
        lemma_bytes_transitive(encode_utf8(a), encode_utf8(b), encode_utf8(c));
    }
}

/// Compares two byte strings.
pub fn bytes_before(a: &[u8], b: &[u8]) -> (before: bool)
    ensures
        before == bytes_precede(a@, b@),
{
    let mut i: usize = 0;
    assert(a@.skip(0) =~= a@ && b@.skip(0) =~= b@);
    while i < a.len() && i < b.len() && a[i] == b[i]
        invariant
            i <= a.len(),
            i <= b.len(),
            bytes_precede(a@, b@) == bytes_precede(a@.skip(i as int), b@.skip(i as int)),
        decreases a.len() - i,
    {
        proof {
            assert(a@.skip(i as int).skip(1) =~= a@.skip(i + 1));
            assert(b@.skip(i as int).skip(1) =~= b@.skip(i + 1));
        }
        i += 1;
    }
    if i >= b.len() {
        false
    } else if i >= a.len() {
        true
    } else {
        a[i] < b[i]
    }
}

/// Tells whether the shape id `a` comes before the shape id `b`.
pub fn shape_before(a: &String, b: &String) -> (before: bool)
    ensures
        before == shape_precedes(a@, b@),
{
    bytes_before(a.as_str().as_bytes(), b.as_str().as_bytes())
}

/// Whether an observation places a stop at the start of the shape variant
/// `shape`.
pub open spec fn has_start(rows: Seq<StopSeq>, shape: Seq<char>) -> bool {
    exists|i: int|
        0 <= i < rows.len() && (#[trigger] rows[i]).shape_id@ == shape && rows[i].stop_sequence
            < 2
}

/// The stop at which the shape variant `shape` starts: that of the last
/// observation, in the order given, that places a stop at its start.
pub open spec fn start_of(rows: Seq<StopSeq>, shape: Seq<char>) -> Option<StopId>
    decreases rows.len(),
{
    if rows.len() == 0 {
        None
    } else if rows.last().shape_id@ == shape && rows.last().stop_sequence < 2 {
        Some(rows.last().stop_id)
    } else {
        start_of(rows.drop_last(), shape)
    }
}

/// The stops of the shape variant `shape`, in the order in which they were
/// observed.
pub open spec fn stops_of(rows: Seq<StopSeq>, shape: Seq<char>) -> Seq<StopId>
    decreases rows.len(),
{
    if rows.len() == 0 {
        Seq::empty()
    } else if rows.last().shape_id@ == shape {
        stops_of(rows.drop_last(), shape).push(rows.last().stop_id)
    } else {
        stops_of(rows.drop_last(), shape)
    }
}

/// How many shape ids at the front of `shapes` come before `shape`.
pub open spec fn rank_in(shapes: Seq<Seq<char>>, shape: Seq<char>) -> int
    decreases shapes.len(),
{
    if shapes.len() == 0 {
        0
    } else if shape_precedes(shapes[0], shape) {
        1 + rank_in(shapes.skip(1), shape)
    } else {
        0
    }
}

/// `shapes` with `shape` put in after the shape ids that come before it,
/// unless it stands there already.
pub open spec fn with_shape(shapes: Seq<Seq<char>>, shape: Seq<char>) -> Seq<Seq<char>> {
    let at = rank_in(shapes, shape);
    if at < shapes.len() && shapes[at] == shape {
        shapes
    } else {
        shapes.insert(at, shape)
    }
}

/// The shape variants that have a start, each once, in the order of their
/// shape ids.
pub open spec fn shape_list(rows: Seq<StopSeq>) -> Seq<Seq<char>>
    decreases rows.len(),
{
    if rows.len() == 0 {
        Seq::empty()
    } else if rows.last().stop_sequence < 2 {
        with_shape(shape_list(rows.drop_last()), rows.last().shape_id@)
    } else {
        shape_list(rows.drop_last())
    }
}

/// The stop lists of those of `shapes` that start at `stop`, in the order of
/// `shapes`.
pub open spec fn group_for(rows: Seq<StopSeq>, shapes: Seq<Seq<char>>, stop: StopId) -> Seq<
    Seq<StopId>,
>
    decreases shapes.len(),
{
    if shapes.len() == 0 {
        Seq::empty()
    } else if start_of(rows, shapes.last()) == Some(stop) {
        group_for(rows, shapes.drop_last(), stop).push(stops_of(rows, shapes.last()))
    } else {
        group_for(rows, shapes.drop_last(), stop)
    }
}

/// The stop lists in the order in which they are merged: the shape variants
/// that start at the first stop of `order`, then those that start at the
/// second, and so on; those that start at one stop in the order of their
/// shape ids.
pub open spec fn grouped(rows: Seq<StopSeq>, order: Seq<StopId>) -> Seq<Seq<StopId>>
    decreases order.len(),
{
    if order.len() == 0 {
        Seq::empty()
    } else {
        grouped(rows, order.drop_last()) + group_for(rows, shape_list(rows), order.last())
    }
}

/// Whether the shape ids of `shapes` stand in strictly ascending order.
pub open spec fn ascending_shapes(shapes: Seq<Seq<char>>) -> bool {
    forall|i: int, j: int| 0 <= i < j < shapes.len() ==> shape_precedes(shapes[i], shapes[j])
}

proof fn lemma_rank_in(shapes: Seq<Seq<char>>, shape: Seq<char>)
    ensures
        0 <= rank_in(shapes, shape) <= shapes.len(),
        forall|j: int| 0 <= j < rank_in(shapes, shape) ==> shape_precedes(shapes[j], shape),
        rank_in(shapes, shape) < shapes.len() ==> !shape_precedes(
            shapes[rank_in(shapes, shape)],
            shape,
        ),
    decreases shapes.len(),
{
    if shapes.len() > 0 && shape_precedes(shapes[0], shape) {
        let rest = shapes.skip(1);
        lemma_rank_in(rest, shape);
        assert forall|j: int| 0 <= j < rank_in(shapes, shape) implies shape_precedes(
            shapes[j],
            shape,
        ) by {
            if j > 0 {
                assert(rest[j - 1] == shapes[j]);
            }
        }
        if rank_in(shapes, shape) < shapes.len() {
            assert(rest[rank_in(rest, shape)] == shapes[rank_in(shapes, shape)]);
        }
    }
}

proof fn lemma_with_shape(shapes: Seq<Seq<char>>, shape: Seq<char>)
    requires
        ascending_shapes(shapes),
    ensures
        ascending_shapes(with_shape(shapes, shape)),
        0 <= rank_in(shapes, shape) < with_shape(shapes, shape).len(),
        with_shape(shapes, shape)[rank_in(shapes, shape)] == shape,
        forall|other: Seq<char>|
            #![trigger with_shape(shapes, shape).contains(other)]
            #![trigger shapes.contains(other)]
            with_shape(shapes, shape).contains(other) <==> other == shape || shapes.contains(
                other,
            ),
{
    let at = rank_in(shapes, shape);
    let after = with_shape(shapes, shape);
    lemma_rank_in(shapes, shape);
    if at < shapes.len() && shapes[at] == shape {
        assert forall|other: Seq<char>|
            after.contains(other) <==> other == shape || shapes.contains(other) by {
            assert(shapes[at] == shape);
        }
    } else {
        assert forall|i: int, j: int| 0 <= i < j < after.len() implies shape_precedes(
            after[i],
            after[j],
        ) by {
            if i == at {
                lemma_shape_order(shape, shapes[at], shapes[j - 1]);
                assert(after[j] == shapes[j - 1]);
            } else if j == at {
                assert(after[i] == shapes[i]);
            } else {
                let p = if i < at {
                    i
                } else {
                    i - 1
                };
                let q = if j < at {
                    j
                } else {
                    j - 1
                };
                assert(after[i] == shapes[p] && after[j] == shapes[q]);
            }
        }
        assert forall|other: Seq<char>|
            after.contains(other) <==> other == shape || shapes.contains(other) by {
            if after.contains(other) {
                let j = choose|j: int| 0 <= j < after.len() && after[j] == other;
                if j < at {
                    assert(shapes[j] == other);
                } else if j > at {
                    assert(shapes[j - 1] == other);
                }
            }
            if shapes.contains(other) {
                let j = choose|j: int| 0 <= j < shapes.len() && shapes[j] == other;
                if j < at {
                    assert(after[j] == other);
                } else {
                    assert(after[j + 1] == other);
                }
            }
            assert(after[at] == shape);
        }
    }
}

/// A shape variant has a start exactly when a stop is found for it.
pub proof fn lemma_start_of(rows: Seq<StopSeq>, shape: Seq<char>)
    ensures
        start_of(rows, shape) is Some <==> has_start(rows, shape),
    decreases rows.len(),
{
    if rows.len() > 0 {
        let shorter = rows.drop_last();
        lemma_start_of(shorter, shape);
        if has_start(shorter, shape) {
            let i = choose|i: int|
                0 <= i < shorter.len() && (#[trigger] shorter[i]).shape_id@ == shape
                    && shorter[i].stop_sequence < 2;
            assert(rows[i] == shorter[i]);
        }
        if has_start(rows, shape) {
            let i = choose|i: int|
                0 <= i < rows.len() && (#[trigger] rows[i]).shape_id@ == shape
                    && rows[i].stop_sequence < 2;
            if i < shorter.len() {
                assert(shorter[i] == rows[i]);
            }
        }
        if rows.last().shape_id@ == shape && rows.last().stop_sequence < 2 {
            assert(rows[rows.len() - 1] == rows.last());
        }
    }
}

/// The list of shape variants holds the shape variants that have a start
/// and no others, in strictly ascending order of their shape ids, so each
/// once.
pub proof fn lemma_shape_list(rows: Seq<StopSeq>)
    ensures
        ascending_shapes(shape_list(rows)),
        shape_list(rows).no_duplicates(),
        forall|shape: Seq<char>|
            #![trigger shape_list(rows).contains(shape)]
            #![trigger has_start(rows, shape)]
            shape_list(rows).contains(shape) <==> has_start(rows, shape),
    decreases rows.len(),
{
    let list = shape_list(rows);
    if rows.len() > 0 {
        let shorter = rows.drop_last();
        let before = shape_list(shorter);
        lemma_shape_list(shorter);
        if rows.last().stop_sequence < 2 {
            lemma_with_shape(before, rows.last().shape_id@);
        }
        assert forall|shape: Seq<char>| list.contains(shape) <==> has_start(rows, shape) by {
            lemma_start_of(rows, shape);
            lemma_start_of(shorter, shape);
        }
    } else {
        assert forall|shape: Seq<char>| list.contains(shape) <==> has_start(rows, shape) by {}
    }
    assert forall|i: int, j: int| 0 <= i < list.len() && 0 <= j < list.len() && i != j implies list[i]
        != list[j] by {
        lemma_shape_order(list[i], list[j], list[i]);
    }
}

/// The stop at which a shape variant starts is a stop at which some shape
/// variant starts.
pub proof fn lemma_start_is_first(rows: Seq<StopSeq>, shape: Seq<char>)
    requires
        start_of(rows, shape) is Some,
    ensures
        is_first(rows, start_of(rows, shape)->Some_0),
    decreases rows.len(),
{
    if rows.last().shape_id@ == shape && rows.last().stop_sequence < 2 {
        assert(rows[rows.len() - 1] == rows.last());
    } else {
        let shorter = rows.drop_last();
        lemma_start_is_first(shorter, shape);
        let stop = start_of(shorter, shape)->Some_0;
        let i = choose|i: int|
            0 <= i < shorter.len() && (#[trigger] shorter[i]).stop_id == stop
                && shorter[i].stop_sequence < 2;
        assert(rows[i] == shorter[i]);
    }
}

proof fn lemma_group_for_holds(
    rows: Seq<StopSeq>,
    shapes: Seq<Seq<char>>,
    shape: Seq<char>,
    stop: StopId,
)
    requires
        shapes.contains(shape),
        start_of(rows, shape) == Some(stop),
    ensures
        group_for(rows, shapes, stop).contains(stops_of(rows, shape)),
    decreases shapes.len(),
{
    let group = group_for(rows, shapes, stop);
    if shapes.last() == shape {
        assert(group[group.len() - 1] == stops_of(rows, shape));
    } else {
        let shorter = shapes.drop_last();
        let i = choose|i: int| 0 <= i < shapes.len() && shapes[i] == shape;
        assert(shorter[i] == shape);
        lemma_group_for_holds(rows, shorter, shape, stop);
        let before = group_for(rows, shorter, stop);
        let j = choose|j: int| 0 <= j < before.len() && before[j] == stops_of(rows, shape);
        assert(group[j] == stops_of(rows, shape));
    }
}

/// No shape variant is left out: the stop list of every shape variant whose
/// start is in `order` is among the stop lists laid out for merging.
pub proof fn lemma_grouped_holds(rows: Seq<StopSeq>, order: Seq<StopId>, shape: Seq<char>)
    requires
        start_of(rows, shape) is Some,
        order.contains(start_of(rows, shape)->Some_0),
    ensures
        grouped(rows, order).contains(stops_of(rows, shape)),
    decreases order.len(),
{
    let stop = start_of(rows, shape)->Some_0;
    let lists = grouped(rows, order);
    let before = grouped(rows, order.drop_last());
    let group = group_for(rows, shape_list(rows), order.last());
    if order.last() == stop {
        lemma_shape_list(rows);
        lemma_start_of(rows, shape);
        lemma_group_for_holds(rows, shape_list(rows), shape, stop);
        let j = choose|j: int| 0 <= j < group.len() && group[j] == stops_of(rows, shape);
        assert(lists[before.len() + j] == stops_of(rows, shape));
    } else {
        let shorter = order.drop_last();
        let i = choose|i: int| 0 <= i < order.len() && order[i] == stop;
        assert(shorter[i] == stop);
        lemma_grouped_holds(rows, shorter, shape);
        let j = choose|j: int| 0 <= j < before.len() && before[j] == stops_of(rows, shape);
        assert(lists[j] == stops_of(rows, shape));
    }
}

/// A shape variant with its start.
#[derive(Debug, Clone, PartialEq, Eq)]
pub struct ShapeStart {
    /// The shape variant.
    pub shape: ShapeId,
    /// The stop at which it starts.
    pub start: StopId,
}

/// The shape ids of `starts`.
pub open spec fn shapes_named(starts: Seq<ShapeStart>) -> Seq<Seq<char>> {
    Seq::new(starts.len(), |p: int| starts[p].shape@)
}

/// Whether `starts` lists the shape variants of `rows` that have a start,
/// in the order of their shape ids, each with the stop at which it starts.
pub open spec fn lists_starts(rows: Seq<StopSeq>, starts: Seq<ShapeStart>) -> bool {
    &&& shapes_named(starts) == shape_list(rows)
    &&& forall|p: int|
        0 <= p < starts.len() ==> start_of(rows, (#[trigger] starts[p]).shape@) == Some(
            starts[p].start,
        )
}

/// Lists the shape variants that have a start, in the order of their shape
/// ids, each with the stop at which it starts.
pub fn shape_starts(rows: &Vec<StopSeq>) -> (starts: Vec<ShapeStart>)
    ensures
        lists_starts(rows@, starts@),
{
    let mut starts: Vec<ShapeStart> = Vec::new();
    let mut n: usize = 0;
    assert(shapes_named(starts@) =~= shape_list(rows@.take(0)));
    while n < rows.len()
        invariant
            n <= rows.len(),
            lists_starts(rows@.take(n as int), starts@),
        decreases rows.len() - n,
    {
        let ghost shorter = rows@.take(n as int);
        let ghost longer = rows@.take(n + 1);
        let ghost named = shapes_named(starts@);
        let ghost shape = rows@[n as int].shape_id@;
        let ghost before = starts@;
        proof {
            assert(longer.drop_last() =~= shorter);
            assert(longer.last() == rows@[n as int]);
        }
        if rows[n].stop_sequence < 2 {
            let mut at: usize = 0;
            assert(named.skip(0) =~= named);
            while at < starts.len() && shape_before(&starts[at].shape, &rows[n].shape_id)
                invariant
                    at <= starts.len(),
                    n < rows.len(),
                    starts@ == before,
                    named == shapes_named(starts@),
                    shape == rows@[n as int].shape_id@,
                    rank_in(named, shape) == at + rank_in(named.skip(at as int), shape),
                decreases starts.len() - at,
            {
                proof {
                    assert(named.skip(at as int)[0] == named[at as int]);
                    assert(named.skip(at as int).skip(1) =~= named.skip(at + 1));
                }
                at += 1;
            }
            proof {
                if at < starts.len() {
                    assert(named.skip(at as int)[0] == named[at as int]);
                }
                assert(rank_in(named, shape) == at);
            }
            let found = ShapeStart { shape: rows[n].shape_id.clone(), start: rows[n].stop_id };
            if at < starts.len() && starts[at].shape == rows[n].shape_id {
                starts[at] = found;
                proof {
                    assert(named[at as int] == shape);
                    assert(shapes_named(starts@) =~= named);
                }
            } else {
                starts.insert(at, found);
                proof {
                    assert(shapes_named(starts@) =~= named.insert(at as int, shape));
                }
            }
            proof {
                let after = shapes_named(starts@);
                lemma_shape_list(longer);
                assert(after == shape_list(longer));
                assert(after[at as int] == shape);
                assert forall|p: int| 0 <= p < starts.len() implies start_of(
                    longer,
                    (#[trigger] starts@[p]).shape@,
                ) == Some(starts@[p].start) by {
                    if p != at {
                        assert(after[p] != after[at as int]);
                        let q = if after.len() == named.len() || p < at {
                            p
                        } else {
                            p - 1
                        };
                        assert(before[q] == starts@[p]);
                    }
                }
            }
        } else {
            proof {
                assert forall|p: int| 0 <= p < starts.len() implies start_of(
                    longer,
                    (#[trigger] starts@[p]).shape@,
                ) == Some(starts@[p].start) by {}
            }
        }
        n += 1;
    }
    assert(rows@.take(rows.len() as int) =~= rows@);
    starts
}

/// Collects the stops of the shape variant `shape`, in the order in which
/// they were observed.
pub fn stops_of_shape(rows: &Vec<StopSeq>, shape: &ShapeId) -> (stops: Vec<StopId>)
    ensures
        stops@ == stops_of(rows@, shape@),
{
    let mut stops: Vec<StopId> = Vec::new();
    let mut n: usize = 0;
    while n < rows.len()
        invariant
            n <= rows.len(),
            stops@ == stops_of(rows@.take(n as int), shape@),
        decreases rows.len() - n,
    {
        proof {
            assert(rows@.take(n + 1).drop_last() =~= rows@.take(n as int));
            assert(rows@.take(n + 1).last() == rows@[n as int]);
        }
        if rows[n].shape_id == *shape {
            stops.push(rows[n].stop_id);
        }
        n += 1;
    }
    assert(rows@.take(rows.len() as int) =~= rows@);
    stops
}

/// Lays out the stop lists of the shape variants in the order in which they
/// are merged: by the place of their start in `order`, and among those that
/// start at one stop by shape id.
pub fn group_sequences(rows: &Vec<StopSeq>, order: &Vec<StopId>) -> (groups: Vec<Vec<StopId>>)
    ensures
        stop_lists(groups@) == grouped(rows@, order@),
{
    let starts = shape_starts(rows);
    let ghost named = shapes_named(starts@);
    let mut groups: Vec<Vec<StopId>> = Vec::new();
    let mut i: usize = 0;
    assert(stop_lists(groups@) =~= grouped(rows@, order@.take(0)));
    while i < order.len()
        invariant
            i <= order.len(),
            lists_starts(rows@, starts@),
            named == shapes_named(starts@),
            stop_lists(groups@) == grouped(rows@, order@.take(i as int)),
        decreases order.len() - i,
    {
        let ghost done = stop_lists(groups@);
        let mut p: usize = 0;
        proof {
            assert(order@.take(i + 1).drop_last() =~= order@.take(i as int));
            assert(order@.take(i + 1).last() == order@[i as int]);
            assert(done + group_for(rows@, named.take(0), order@[i as int]) =~= done);
        }
        while p < starts.len()
            invariant
                p <= starts.len(),
                i < order.len(),
                lists_starts(rows@, starts@),
                named == shapes_named(starts@),
                named == shape_list(rows@),
                stop_lists(groups@) == done + group_for(
                    rows@,
                    named.take(p as int),
                    order@[i as int],
                ),
            decreases starts.len() - p,
        {
            proof {
                assert(named.take(p + 1).drop_last() =~= named.take(p as int));
                assert(named.take(p + 1).last() == named[p as int]);
            }
            if starts[p].start == order[i] {
                let stops = stops_of_shape(rows, &starts[p].shape);
                let ghost before = stop_lists(groups@);
                groups.push(stops);
                proof {
                    assert(stop_lists(groups@) =~= before.push(stops@));
                    assert(before.push(stops@) =~= done + group_for(
                        rows@,
                        named.take(p as int),
                        order@[i as int],
                    ).push(stops@));
                }
            }
            p += 1;
        }
        proof {
            assert(named.take(starts.len() as int) =~= named);
        }
        i += 1;
    }
    assert(order@.take(order.len() as int) =~= order@);
    groups
}

} // verus!
