//! Where the files of a month go, and which month that is.

use vstd::prelude::*;
use vstd::string::{StrSliceExecFns, StringExecFns};

verus! {

/// What the character `c` of a time filter becomes in the name of a
/// directory: a space becomes an underscore, brackets and colons go, and
/// every other character stays.
pub open spec fn segment_char(c: char) -> Seq<char> {
    if c == ' ' {
        seq!['_']
    } else if c == '(' || c == ')' || c == ':' {
        Seq::empty()
    } else {
        seq![c]
    }
}

/// The name of the directory for the time filter `ftime`.
pub open spec fn segment_of(ftime: Seq<char>) -> Seq<char>
    decreases ftime.len(),
{
    if ftime.len() == 0 {
        Seq::empty()
    } else {
        segment_of(ftime.drop_last()) + segment_char(ftime.last())
    }
}

/// Names the directory that holds the files of one time filter.
pub fn time_segment(ftime: &str) -> (segment: String)
    ensures
        segment@ == segment_of(ftime@),
{
    let n = ftime.unicode_len();
    let mut segment = String::new();
    let mut i: usize = 0;
    assert(ftime@.take(0) =~= Seq::empty());
    while i < n
        invariant
            i <= n == ftime@.len(),
            segment@ == segment_of(ftime@.take(i as int)),
        decreases n - i,
    {
        let c = ftime.get_char(i);
        proof {
            assert(ftime@.take(i + 1).drop_last() =~= ftime@.take(i as int));
            assert(ftime@.take(i + 1).last() == c);
        }
        if c == ' ' {
            proof {
                reveal_strlit("_");
                assert("_"@ =~= seq!['_']);
            }
            segment.append("_");
        } else if c == '(' || c == ')' || c == ':' {
            assert(segment@ + Seq::<char>::empty() =~= segment@);
        } else {
            let kept = ftime.substring_char(i, i + 1);
            assert(kept@ =~= seq![c]);
            segment.append(kept);
        }
        i += 1;
    }
    assert(ftime@.take(n as int) =~= ftime@);
    segment
}

/// The place of the first hyphen of `s`, or the length of `s` where it has
/// none.
pub open spec fn first_hyphen(s: Seq<char>) -> int
    decreases s.len(),
{
    if s.len() == 0 {
        0
    } else if s[0] == '-' {
        0
    } else {
        1 + first_hyphen(s.skip(1))
    }
}

/// Parts a date written as year, hyphen, month into the month and the year,
/// in that order; there are none where the date has no hyphen.
pub fn split_month_year(raw: &str) -> (parts: Option<(String, String)>)
    ensures
        match parts {
            Some((month, year)) => {
                let at = first_hyphen(raw@);
                &&& 0 <= at < raw@.len()
                &&& year@ == raw@.take(at)
                &&& month@ == raw@.skip(at + 1)
            },
            None => first_hyphen(raw@) == raw@.len(),
        },
{
    let n = raw.unicode_len();
    let mut at: usize = 0;
    assert(raw@.skip(0) =~= raw@);
    while at < n && raw.get_char(at) != '-'
        invariant
            at <= n == raw@.len(),
            first_hyphen(raw@) == at + first_hyphen(raw@.skip(at as int)),
        decreases n - at,
    {
        proof {
            assert(raw@.skip(at as int)[0] == raw@[at as int]);
            assert(raw@.skip(at as int).skip(1) =~= raw@.skip(at + 1));
        }
        at += 1;
    }
    if at == n {
        None
    } else {
        proof {
            assert(raw@.skip(at as int)[0] == raw@[at as int]);
            assert(raw@.subrange(0, at as int) =~= raw@.take(at as int));
            assert(raw@.subrange(at + 1, n as int) =~= raw@.skip(at + 1));
        }
        let year = raw.substring_char(0, at).to_owned();
        let month = raw.substring_char(at + 1, n).to_owned();
        Some((month, year))
    }
}

} // verus!
