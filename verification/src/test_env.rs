//! Well-known account identifiers for exercising the library.

use vstd::prelude::*;

use crate::types::AccountId;

verus! {

/// The first of the canonical test accounts.
pub fn alice() -> (r: AccountId)
    ensures
        r@ == "alice.near"@,
{
    "alice.near".to_owned()
}

/// The second of the canonical test accounts.
pub fn bob() -> (r: AccountId)
    ensures
        r@ == "bob.near"@,
{
    "bob.near".to_owned()
}

/// The third of the canonical test accounts.
pub fn carol() -> (r: AccountId)
    ensures
        r@ == "carol.near"@,
{
    "carol.near".to_owned()
}

} // verus!
