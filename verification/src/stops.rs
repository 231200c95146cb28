//! Lists of stops kept in ascending order.

use vstd::prelude::*;
use crate::records::StopId;

verus! {

/// Whether the stops of `s` stand in strictly ascending order.
pub open spec fn ascending(s: Seq<StopId>) -> bool {
    forall|i: int, j: int| 0 <= i < j < s.len() ==> s[i] < s[j]
}

/// How many stops at the front of `s` are smaller than `x`.
pub open spec fn rank_of(s: Seq<StopId>, x: StopId) -> int
    decreases s.len(),
{
    if s.len() == 0 {
        0
    } else if s[0] < x {
        1 + rank_of(s.skip(1), x)
    } else {
        0
    }
}

/// `s` with `x` put in after the stops that are smaller, unless it stands
/// there already.
pub open spec fn with_stop(s: Seq<StopId>, x: StopId) -> Seq<StopId> {
    let at = rank_of(s, x);
    if at < s.len() && s[at] == x {
        s
    } else {
        s.insert(at, x)
    }
}

/// `s` without the stops that are `x`.
pub open spec fn without_stop(s: Seq<StopId>, x: StopId) -> Seq<StopId>
    decreases s.len(),
{
    if s.len() == 0 {
        Seq::empty()
    } else if s.last() == x {
        without_stop(s.drop_last(), x)
    } else {
        without_stop(s.drop_last(), x).push(s.last())
    }
}

proof fn lemma_rank_of(s: Seq<StopId>, x: StopId)
    ensures
        0 <= rank_of(s, x) <= s.len(),
        forall|j: int| 0 <= j < rank_of(s, x) ==> s[j] < x,
        rank_of(s, x) < s.len() ==> s[rank_of(s, x)] >= x,
    decreases s.len(),
{
    if s.len() > 0 && s[0] < x {
        let rest = s.skip(1);
        lemma_rank_of(rest, x);
        assert forall|j: int| 0 <= j < rank_of(s, x) implies s[j] < x by {
            if j > 0 {
                assert(rest[j - 1] == s[j]);
            }
        }
        if rank_of(s, x) < s.len() {
            assert(rest[rank_of(rest, x)] == s[rank_of(s, x)]);
        }
    }
}

/// An ascending list with a stop put in is ascending, and holds that stop
/// and what it held before.
pub proof fn lemma_with_stop(s: Seq<StopId>, x: StopId)
    requires
        ascending(s),
    ensures
        ascending(with_stop(s, x)),
        forall|y: StopId|
            #![trigger with_stop(s, x).contains(y)]
            #![trigger s.contains(y)]
            with_stop(s, x).contains(y) <==> y == x || s.contains(y),
{
    let at = rank_of(s, x);
    let after = with_stop(s, x);
    lemma_rank_of(s, x);
    if at < s.len() && s[at] == x {
        assert forall|y: StopId| after.contains(y) <==> y == x || s.contains(y) by {
            assert(s[at] == x);
        }
    } else {
        assert(after.len() == s.len() + 1);
        assert(after[at] == x);
        assert forall|i: int, j: int| 0 <= i < j < after.len() implies after[i] < after[j] by {
            if j < at {
            } else if j == at {
            } else if i < at {
                assert(s[j - 1] >= s[at]);
            } else if i == at {
                assert(s[j - 1] >= s[at]);
            } else {
            }
        }
        assert forall|y: StopId| after.contains(y) <==> y == x || s.contains(y) by {
            if after.contains(y) {
                let j = choose|j: int| 0 <= j < after.len() && after[j] == y;
                if j < at {
                    assert(s[j] == y);
                } else if j > at {
                    assert(s[j - 1] == y);
                }
            }
            if s.contains(y) {
                let j = choose|j: int| 0 <= j < s.len() && s[j] == y;
                if j < at {
                    assert(after[j] == y);
                } else {
                    assert(after[j + 1] == y);
                }
            }
        }
    }
}

/// A list without a stop holds what it held before but that stop, and
/// holds nothing twice that it did not hold twice before.
pub proof fn lemma_without_stop(s: Seq<StopId>, x: StopId)
    ensures
        forall|y: StopId|
            #![trigger without_stop(s, x).contains(y)]
            #![trigger s.contains(y)]
            without_stop(s, x).contains(y) <==> y != x && s.contains(y),
        s.no_duplicates() ==> without_stop(s, x).no_duplicates(),
    decreases s.len(),
{
    let kept = without_stop(s, x);
    if s.len() > 0 {
        let shorter = s.drop_last();
        let before = without_stop(shorter, x);
        lemma_without_stop(shorter, x);
        assert forall|y: StopId|
            #![trigger shorter.contains(y)]
            s.contains(y) <==> y == s.last() || shorter.contains(y) by {
            if s.contains(y) {
                let i = choose|i: int| 0 <= i < s.len() && s[i] == y;
                if i < shorter.len() {
                    assert(shorter[i] == y);
                }
            }
            if shorter.contains(y) {
                let i = choose|i: int| 0 <= i < shorter.len() && shorter[i] == y;
                assert(s[i] == y);
            }
            assert(s[s.len() - 1] == s.last());
        }
        assert forall|y: StopId| kept.contains(y) <==> y != x && s.contains(y) by {
            if s.last() != x {
                if kept.contains(y) {
                    let i = choose|i: int| 0 <= i < kept.len() && kept[i] == y;
                    if i < before.len() {
                        assert(before[i] == y);
                    }
                }
                if before.contains(y) {
                    let i = choose|i: int| 0 <= i < before.len() && before[i] == y;
                    assert(kept[i] == y);
                }
                assert(kept[kept.len() - 1] == s.last());
            }
        }
        if s.no_duplicates() {
            assert(shorter.no_duplicates());
            if s.last() != x {
                assert(!before.contains(s.last())) by {
                    if shorter.contains(s.last()) {
                        let i = choose|i: int| 0 <= i < shorter.len() && shorter[i] == s.last();
                        assert(s[i] == s[s.len() - 1]);
                    }
                }
                assert forall|i: int, j: int|
                    0 <= i < kept.len() && 0 <= j < kept.len() && i != j implies kept[i]
                    != kept[j] by {
                    if i < before.len() && j < before.len() {
                        assert(before[i] == kept[i] && before[j] == kept[j]);
                    } else if i < before.len() {
                        assert(before[i] == kept[i]);
                        assert(before.contains(kept[i]));
                    } else {
                        assert(before[j] == kept[j]);
                        assert(before.contains(kept[j]));
                    }
                }
            }
        }
    }
}

/// Ascending lists hold no stop twice.
pub proof fn lemma_ascending_no_duplicates(s: Seq<StopId>)
    requires
        ascending(s),
    ensures
        s.no_duplicates(),
{
    assert forall|i: int, j: int| 0 <= i < s.len() && 0 <= j < s.len() && i != j implies s[i]
        != s[j] by {
        if i < j {
            assert(s[i] < s[j]);
        } else {
            assert(s[j] < s[i]);
        }
    }
}

/// Adds `x` to the ascending list `v`, unless it is there already.
pub fn insert_ascending(v: &mut Vec<StopId>, x: StopId)
    requires
        ascending(old(v)@),
    ensures
        final(v)@ == with_stop(old(v)@, x),
        ascending(final(v)@),
        forall|y: StopId|
            #![trigger final(v)@.contains(y)]
            #![trigger old(v)@.contains(y)]
            final(v)@.contains(y) <==> y == x || old(v)@.contains(y),
{
    let mut at: usize = 0;
    assert(v@.skip(0) =~= v@);
    while at < v.len() && v[at] < x
        invariant
            at <= v.len(),
            v@ == old(v)@,
            forall|j: int| 0 <= j < at ==> v@[j] < x,
            rank_of(v@, x) == at + rank_of(v@.skip(at as int), x),
        decreases v.len() - at,
    {
        proof {
            assert(v@.skip(at as int)[0] == v@[at as int]);
            assert(v@.skip(at as int).skip(1) =~= v@.skip(at + 1));
        }
        at += 1;
    }
    proof {
        if at < v.len() {
            assert(v@.skip(at as int)[0] == v@[at as int]);
        }
        assert(rank_of(v@, x) == at);
    }
    proof {
        lemma_with_stop(old(v)@, x);
    }
    if at < v.len() && v[at] == x {
    } else {
        v.insert(at, x);
    }
}

/// Copies `v` without the stops that are `x`.
pub fn remove_stop(v: &Vec<StopId>, x: StopId) -> (kept: Vec<StopId>)
    ensures
        kept@ == without_stop(v@, x),
{
    let mut kept: Vec<StopId> = Vec::new();
    let mut i: usize = 0;
    while i < v.len()
        invariant
            i <= v.len(),
            kept@ == without_stop(v@.take(i as int), x),
        decreases v.len() - i,
    {
        proof {
            assert(v@.take(i + 1).drop_last() =~= v@.take(i as int));
            assert(v@.take(i + 1).last() == v@[i as int]);
        }
        if v[i] != x {
            kept.push(v[i]);
        }
        i += 1;
    }
    assert(v@.take(v.len() as int) =~= v@);
    kept
}

} // verus!
