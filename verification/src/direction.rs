//! The direction of travel as the schedule data writes it.

use vstd::prelude::*;

verus! {

/// The lower-case form of `s` that `str::to_lowercase` gives.
pub uninterp spec fn lowercase_of(s: Seq<char>) -> Seq<char>;

/// Calls `str::to_lowercase` of the standard library, which gives the
/// lower-case form of a string by the rules of Unicode. The result is taken
/// to depend on the characters of `s` alone; nothing more is claimed of it.
#[verifier::external_body]
fn lowercased(s: &str) -> (lowered: String)
    ensures
        lowered@ == lowercase_of(s@),
{
    s.to_lowercase()
}

/// Whether the direction written `lowered`, in lower case, runs against
/// the first direction of its route.
pub open spec fn is_return(lowered: Seq<char>) -> bool {
    lowered == "counterclockwise"@ || lowered == "outbound"@ || lowered == "south"@ || lowered
        == "west"@
}

/// The direction id: `1` for a direction that runs against the first, `0`
/// for any other.
pub open spec fn direction_code(lowered: Seq<char>) -> Seq<char> {
    if is_return(lowered) {
        "1"@
    } else {
        "0"@
    }
}

/// Gives the direction id of a direction written in lower case.
pub fn direction_id(lowered: &str) -> (code: &'static str)
    ensures
        code@ == direction_code(lowered@),
{
    let name = lowered.to_owned();
    if name == "counterclockwise".to_owned() || name == "outbound".to_owned() || name
        == "south".to_owned() || name == "west".to_owned() {
        "1"
    } else {
        "0"
    }
}

/// Gives the direction id of a direction name such as `Inbound`, whatever
/// its case.
pub fn convert_direction(from: &str) -> (code: &'static str)
    ensures
        code@ == direction_code(lowercase_of(from@)),
{
    let lowered = lowercased(from);
    direction_id(lowered.as_str())
}

} // verus!
