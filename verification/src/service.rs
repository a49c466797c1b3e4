//! Small decisions of the server.
use vstd::prelude::*;

use crate::text::{contains, eq_ignore_ascii_case};

verus! {

/// Whether a setting switches the collection of metrics on: the word "true" in
/// any case.
pub fn metrics_enabled(setting: &str) -> (on: bool)
    ensures
        on <==> setting@.map_values(|c: char| crate::text::ascii_lower(c)) == "true"@.map_values(
            |c: char| crate::text::ascii_lower(c),
        ),
        on <==> {
            &&& setting@.len() == 4
            &&& setting@[0] == 't' || setting@[0] == 'T'
            &&& setting@[1] == 'r' || setting@[1] == 'R'
            &&& setting@[2] == 'u' || setting@[2] == 'U'
            &&& setting@[3] == 'e' || setting@[3] == 'E'
        },
{
    proof {
        reveal_strlit("true");
    }
    eq_ignore_ascii_case(setting, "true")
}

/// A text stands somewhere in another.
pub open spec fn has_part(text: Seq<char>, part: Seq<char>) -> bool {
    exists|at: int| 0 <= at <= text.len() && #[trigger] crate::text::stands_at(text, part, at)
}

/// Whether a connection error only says that the client went away.
pub fn is_benign_error(message: &str) -> (benign: bool)
    ensures
        benign <==> has_part(message@, "connection closed"@) || has_part(
            message@,
            "broken pipe"@,
        ),
        benign <==> {
            ||| exists|before: Seq<char>, after: Seq<char>|
                message@ == #[trigger] (before + "connection closed"@ + after)
            ||| exists|before: Seq<char>, after: Seq<char>|
                message@ == #[trigger] (before + "broken pipe"@ + after)
        },
{
    contains(message, "connection closed") || contains(message, "broken pipe")
}

} // verus!
