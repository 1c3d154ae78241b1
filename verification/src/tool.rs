//! What an answer of the secrets manager means.

use vstd::prelude::*;
use crate::error::VaultError;

verus! {

/// The outcome of asking the secrets manager for an item: what it printed
/// where it succeeded, and an error with what it complained of where it did
/// not.
pub fn fetched_item(succeeded: bool, output: String, complaint: String) -> (out: Result<
    String,
    VaultError,
>)
    ensures
        succeeded ==> (out matches Ok(text) && text@ == output@),
        !succeeded ==> (out matches Err(VaultError::ExternalTool(why)) && why@ == complaint@),
{
    if succeeded {
        Ok(output)
    } else {
        Err(VaultError::ExternalTool(complaint))
    }
}

} // verus!
