use vstd::prelude::*;

verus! {

/// The verified identity of a participant: a 32-byte public key.
#[derive(Clone, Copy, Debug, PartialEq, Eq)]
pub struct Identity {
    pub bytes: [u8; 32],
}

/// Compares two identities byte by byte.
pub fn same_identity(a: &Identity, b: &Identity) -> (r: bool)
    ensures
        r == (*a == *b),
{
    let mut i: usize = 0;
    while i < 32
        invariant
            0 <= i <= 32,
            forall|j: int| 0 <= j < i ==> a.bytes@[j] == b.bytes@[j],
        decreases 32 - i,
    {
        if a.bytes[i] != b.bytes[i] {
            return false;
        }
        i = i + 1;
    }
    proof {
        assert(a.bytes =~= b.bytes);
    }
    true
}

/// The side of the proposition a bet is placed on.
#[derive(Clone, Copy, Debug, PartialEq, Eq, Structural)]
pub enum BetSide {
    A,
    B,
}

/// The outcome of a pool: still open, or won by one side.
#[derive(Clone, Copy, Debug, PartialEq, Eq, Structural)]
pub enum Resolution {
    Pending,
    A,
    B,
}

/// The resolution under which bets on `side` win.
pub open spec fn winning_resolution(side: BetSide) -> Resolution {
    match side {
        BetSide::A => Resolution::A,
        BetSide::B => Resolution::B,
    }
}

/// The pool record: who administers it, where the fee goes, and the
/// deposits per side.
#[derive(Clone, Copy, Debug, PartialEq, Eq)]
pub struct Pool {
    pub pool_id: u64,
    pub owner: Identity,
    pub fee_recipient: Identity,
    pub total_amount_a: u64,
    pub total_amount_b: u64,
    pub total_bets_a: u64,
    pub total_bets_b: u64,
    pub resolution: Resolution,
    pub resolved: bool,
    pub fee_percentage: u8,
}

/// One bettor's stake in one pool.
#[derive(Clone, Copy, Debug, PartialEq, Eq)]
pub struct Bet {
    pub pool_id: u64,
    pub bettor: Identity,
    pub amount: u64,
    pub side: BetSide,
    pub claimed: bool,
}

/// Why an operation was rejected. A rejected operation changes nothing.
#[derive(Clone, Copy, Debug, PartialEq, Eq, Structural)]
pub enum BettingError {
    InvalidAmount,
    DuplicatePool,
    PoolNotFound,
    DuplicateBet,
    BetNotFound,
    PoolAlreadyResolved,
    InvalidResolution,
    PoolNotResolved,
    AlreadyClaimed,
    NotWinner,
    NoWinningStake,
    Unauthorized,
    InsufficientEscrow,
}

/// Notification: a bet was accepted.
#[derive(Clone, Copy, Debug, PartialEq, Eq)]
pub struct BetPlaced {
    pub pool_id: u64,
    pub bettor: Identity,
    pub side: BetSide,
    pub amount: u64,
}

/// Notification: a pool was resolved.
#[derive(Clone, Copy, Debug, PartialEq, Eq)]
pub struct PoolResolved {
    pub pool_id: u64,
    pub resolution: Resolution,
}

/// Notification: a winner was paid.
#[derive(Clone, Copy, Debug, PartialEq, Eq)]
pub struct WinningsClaimed {
    pub pool_id: u64,
    pub bettor: Identity,
    pub amount: u64,
}

/// Notification: the fee of a pool was paid to its fee recipient.
#[derive(Clone, Copy, Debug, PartialEq, Eq)]
pub struct FeeCollected {
    pub pool_id: u64,
    pub amount: u64,
}

/// Snapshot of a pool's totals and state.
#[derive(Clone, Copy, Debug, PartialEq, Eq)]
pub struct PoolInfo {
    pub total_amount_a: u64,
    pub total_amount_b: u64,
    pub total_bets_a: u64,
    pub total_bets_b: u64,
    pub resolution: Resolution,
    pub resolved: bool,
}

/// Snapshot of one bet.
#[derive(Clone, Copy, Debug, PartialEq, Eq)]
pub struct BetInfo {
    pub amount: u64,
    pub side: BetSide,
    pub claimed: bool,
}

/// Number of bettors on each side of a pool.
#[derive(Clone, Copy, Debug, PartialEq, Eq, Structural)]
pub struct BettorsCount {
    pub count_a: u64,
    pub count_b: u64,
}

} // verus!
