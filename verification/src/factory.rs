//! Creation of AMM identities.

use vstd::prelude::*;
use crate::errors::CustomError;
use crate::state::Amm;
use crate::state::Pubkey;

verus! {

/// Creates an AMM identity record. Succeeds for every fee below 10000 basis
/// points and fails with `InvalidFee` otherwise; rejection of a duplicate
/// `id` is the storage collaborator's business, not this core's.
pub fn initialize_amm(id: Pubkey, admin: Pubkey, fee: u16) -> (r: Result<Amm, CustomError>)
    ensures
        r is Ok <==> fee < 10000,
        r matches Ok(amm) ==> {
            &&& amm.id.bytes@ == id.bytes@
            &&& amm.admin.bytes@ == admin.bytes@
            &&& amm.fee == fee
            &&& amm.wf()
        },
        r matches Err(e) ==> e == CustomError::InvalidFee,
{
    if fee >= 10000 {
        return Err(CustomError::InvalidFee);
    }
    Ok(Amm { id, admin, fee })
}

} // verus!
