//! The authoritative records: AMM identities and pool ledgers.

use vstd::prelude::*;

verus! {

/// Liquidity shares permanently withheld from a pool's first depositor and
/// never assigned to any owner, deterring draining of a freshly bootstrapped
/// pool. The total share supply of a bootstrapped pool always exceeds the
/// circulating shares by exactly this amount.
pub const MIN_LIQUIDITY: u64 = 10;

/// An opaque 32-byte identifier: an account, an asset or an AMM registry key.
#[derive(Clone, Copy, Debug)]
pub struct Pubkey {
    pub bytes: [u8; 32],
}

/// Byte-for-byte equality of two identifiers.
pub fn pubkey_eq(a: &Pubkey, b: &Pubkey) -> (r: bool)
    ensures
        r <==> a.bytes@ == b.bytes@,
{
    let mut i: usize = 0;
    while i < 32
        invariant
            i <= 32,
            forall|j: int| 0 <= j < i ==> a.bytes@[j] == b.bytes@[j],
        decreases 32 - i,
    {
        if a.bytes[i] != b.bytes[i] {
            assert(a.bytes@[i as int] != b.bytes@[i as int]);
            return false;
        }
        i = i + 1;
    }
    proof {
        assert(a.bytes@ =~= b.bytes@);
    }
    true
}

/// An AMM identity: who administers it and what trading fee its pools charge.
/// Created once; immutable thereafter.
#[derive(Clone, Copy, Debug)]
pub struct Amm {
    pub id: Pubkey,
    pub admin: Pubkey,
    /// Trading fee in basis points, always below 10000.
    pub fee: u16,
}

impl Amm {
    /// The identity's invariant: the fee is a valid basis-point fraction.
    pub open spec fn wf(self) -> bool {
        self.fee < 10000
    }
}

/// The ledger of one asset pair: the single source of truth for its reserves
/// and its outstanding liquidity-share supply. The identifiers are fixed at
/// creation; the quantities mutate only through the deposit, withdrawal and
/// swap transitions.
#[derive(Clone, Copy, Debug)]
pub struct Pool {
    pub amm: Pubkey,
    pub mint_a: Pubkey,
    pub mint_b: Pubkey,
    /// Quantity of asset A custodied on behalf of the pool.
    pub reserve_a: u64,
    /// Quantity of asset B custodied on behalf of the pool.
    pub reserve_b: u64,
    /// Total outstanding liquidity shares, withheld ones included.
    pub liquidity_supply: u64,
}

impl Pool {
    /// The ledger's invariant: the two assets are distinct, and once the pool
    /// is bootstrapped the share supply never falls below the withheld
    /// minimum.
    pub open spec fn wf(self) -> bool {
        &&& self.mint_a.bytes@ != self.mint_b.bytes@
        &&& self.liquidity_supply == 0 || self.liquidity_supply >= MIN_LIQUIDITY
    }

    /// The identifiers of `self` and `other` coincide: a transition changes
    /// quantities, never identity.
    pub open spec fn same_identity(self, other: Pool) -> bool {
        &&& self.amm.bytes@ == other.amm.bytes@
        &&& self.mint_a.bytes@ == other.mint_a.bytes@
        &&& self.mint_b.bytes@ == other.mint_b.bytes@
    }

    /// An immutable copy of the current reserves and supply, read atomically
    /// with respect to the single in-flight transition.
    pub fn snapshot(&self) -> (r: (u64, u64, u64))
        ensures
            r == (self.reserve_a, self.reserve_b, self.liquidity_supply),
    {
        (self.reserve_a, self.reserve_b, self.liquidity_supply)
    }
}

} // verus!
