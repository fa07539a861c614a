//! The claim phase: assignment decided when a shard asks for work, not when the
//! plan is written. It is not offered yet; planning and running a shard provide
//! the static path.

use vstd::prelude::*;
use vstd::string::*;

verus! {

/// What a claim is made with.
#[derive(Debug)]
pub struct ClaimArgs {}

/// There is no claim-time assignment.
#[derive(Debug)]
pub struct NotOffered {}

/// Refuses every claim.
pub fn main(_args: ClaimArgs) -> (out: Result<(), NotOffered>)
    ensures
        out is Err,
{
    Err(NotOffered {  })
}

impl NotOffered {
    /// The text of the message.
    pub open spec fn text(self) -> Seq<char> {
        "claim-time assignment is not implemented yet (https://github.com/sotashimozono/shard-tests/issues/1). Use `shard-tests plan` followed by `shard-tests run --index` for the static path."@
    }

    /// What to tell the user.
    pub fn message(&self) -> (out: String)
        ensures
            out@ == self.text(),
    {
        "claim-time assignment is not implemented yet (https://github.com/sotashimozono/shard-tests/issues/1). Use `shard-tests plan` followed by `shard-tests run --index` for the static path.".to_owned()
    }
}

} // verus!
