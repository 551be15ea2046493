use vstd::prelude::*;
use std::collections::HashMap;
use crate::payout::{compute_entitlement, compute_fee, distributable_of, entitlement_of, fee_of};
use crate::types::{
    same_identity, Bet, BetInfo, BetPlaced, BetSide, BettingError, BettorsCount, FeeCollected,
    Identity, Pool, PoolInfo, PoolResolved, Resolution, WinningsClaimed, winning_resolution,
};

verus! {

broadcast use vstd::std_specs::hash::group_hash_axioms;

/// The fee percentage every new pool starts with.
pub const DEFAULT_FEE_PERCENT: u8 = 5;

/// A pool record with the escrow balance it holds and the bets placed on it.
pub struct PoolAccount {
    pub pool: Pool,
    pub balance: u64,
    pub bets: Vec<Bet>,
}

/// The record store: one account per pool identifier.
pub struct Ledger {
    accounts: HashMap<u64, PoolAccount>,
}

impl View for Ledger {
    type V = Map<u64, PoolAccount>;

    closed spec fn view(&self) -> Map<u64, PoolAccount> {
        self.accounts@
    }
}

/// Sum of the stakes placed on `side`.
pub open spec fn side_sum(bets: Seq<Bet>, side: BetSide) -> nat
    decreases bets.len(),
{
    if bets.len() == 0 {
        0
    } else {
        side_sum(bets.drop_last(), side) + if bets.last().side == side {
            bets.last().amount as nat
        } else {
            0
        }
    }
}

/// Number of bets placed on `side`.
pub open spec fn side_count(bets: Seq<Bet>, side: BetSide) -> nat
    decreases bets.len(),
{
    if bets.len() == 0 {
        0
    } else {
        side_count(bets.drop_last(), side) + if bets.last().side == side {
            1nat
        } else {
            0nat
        }
    }
}

/// No bettor holds two bets.
pub open spec fn bettors_unique(bets: Seq<Bet>) -> bool {
    forall|i: int, j: int|
        0 <= i < bets.len() && 0 <= j < bets.len() && i != j ==> bets[i].bettor != bets[j].bettor
}

/// Whether `who` holds a bet among `bets`.
pub open spec fn has_bet(bets: Seq<Bet>, who: Identity) -> bool {
    exists|i: int| 0 <= i < bets.len() && bets[i].bettor == who
}

/// The position of `who`'s bet, where there is one.
pub open spec fn bet_index(bets: Seq<Bet>, who: Identity) -> int {
    choose|i: int| 0 <= i < bets.len() && bets[i].bettor == who
}

/// `who`'s bet, where there is one.
pub open spec fn bet_of(bets: Seq<Bet>, who: Identity) -> Bet {
    bets[bet_index(bets, who)]
}

/// Everything deposited on a pool, both sides together.
pub open spec fn pool_total(p: Pool) -> nat {
    p.total_amount_a as nat + p.total_amount_b as nat
}

/// The deposits on the side that won (zero while pending).
pub open spec fn winning_total(p: Pool) -> nat {
    match p.resolution {
        Resolution::A => p.total_amount_a as nat,
        Resolution::B => p.total_amount_b as nat,
        Resolution::Pending => 0,
    }
}

/// The fee a pool pays on resolution.
pub open spec fn pool_fee(p: Pool) -> nat {
    fee_of(pool_total(p), p.fee_percentage as nat)
}

/// What a winning `bet` is owed from the resolved pool `p`.
pub open spec fn payout_of(p: Pool, bet: Bet) -> nat {
    entitlement_of(
        bet.amount as nat,
        distributable_of(pool_total(p), p.fee_percentage as nat),
        winning_total(p),
    )
}

/// The internal consistency of one pool account.
pub open spec fn account_wf(id: u64, a: PoolAccount) -> bool {
    &&& a.pool.pool_id == id
    &&& a.pool.resolved == (a.pool.resolution != Resolution::Pending)
    &&& a.pool.fee_percentage <= 100
    &&& bettors_unique(a.bets@)
    &&& forall|i: int|
        0 <= i < a.bets@.len() ==> (#[trigger] a.bets@[i]).pool_id == id && a.bets@[i].amount > 0
    &&& a.pool.total_amount_a == side_sum(a.bets@, BetSide::A)
    &&& a.pool.total_amount_b == side_sum(a.bets@, BetSide::B)
    &&& a.pool.total_bets_a == side_count(a.bets@, BetSide::A)
    &&& a.pool.total_bets_b == side_count(a.bets@, BetSide::B)
    &&& pool_total(a.pool) <= u64::MAX
    &&& a.balance <= pool_total(a.pool)
}

/// `new_m` differs from `old_m` at most in the account of `id`, which both hold.
pub open spec fn only_changes(old_m: Map<u64, PoolAccount>, new_m: Map<u64, PoolAccount>, id: u64) -> bool {
    &&& old_m.contains_key(id)
    &&& new_m.contains_key(id)
    &&& new_m.remove(id) == old_m.remove(id)
}

/// A freshly created pool.
pub open spec fn fresh_pool(pool_id: u64, owner: Identity, fee_recipient: Identity) -> Pool {
    Pool {
        pool_id,
        owner,
        fee_recipient,
        total_amount_a: 0,
        total_amount_b: 0,
        total_bets_a: 0,
        total_bets_b: 0,
        resolution: Resolution::Pending,
        resolved: false,
        fee_percentage: DEFAULT_FEE_PERCENT,
    }
}

/// The pool after a stake of `amount` on `side` was added.
pub open spec fn pool_with_stake(p: Pool, side: BetSide, amount: u64) -> Pool {
    match side {
        BetSide::A => Pool {
            total_amount_a: (p.total_amount_a + amount) as u64,
            total_bets_a: (p.total_bets_a + 1) as u64,
            ..p
        },
        BetSide::B => Pool {
            total_amount_b: (p.total_amount_b + amount) as u64,
            total_bets_b: (p.total_bets_b + 1) as u64,
            ..p
        },
    }
}

/// Why `place_bet` rejects a bet, if it does.
pub open spec fn place_bet_error(m: Map<u64, PoolAccount>, pool_id: u64, bettor: Identity, amount: u64) -> Option<BettingError> {
    if !m.contains_key(pool_id) {
        Some(BettingError::PoolNotFound)
    } else if has_bet(m[pool_id].bets@, bettor) {
        Some(BettingError::DuplicateBet)
    } else if amount == 0 {
        Some(BettingError::InvalidAmount)
    } else if m[pool_id].pool.resolved {
        Some(BettingError::PoolAlreadyResolved)
    } else {
        None
    }
}

/// Why `resolve_pool` rejects a resolution, if it does.
pub open spec fn resolve_error(m: Map<u64, PoolAccount>, pool_id: u64, caller: Identity, resolution: Resolution) -> Option<BettingError> {
    if !m.contains_key(pool_id) {
        Some(BettingError::PoolNotFound)
    } else if caller != m[pool_id].pool.owner {
        Some(BettingError::Unauthorized)
    } else if resolution == Resolution::Pending {
        Some(BettingError::InvalidResolution)
    } else if m[pool_id].pool.resolved {
        Some(BettingError::PoolAlreadyResolved)
    } else if m[pool_id].balance < pool_fee(m[pool_id].pool) {
        Some(BettingError::InsufficientEscrow)
    } else {
        None
    }
}

/// Why `claim_winnings` rejects a claim, if it does.
pub open spec fn claim_error(m: Map<u64, PoolAccount>, pool_id: u64, bettor: Identity) -> Option<BettingError> {
    if !m.contains_key(pool_id) {
        Some(BettingError::PoolNotFound)
    } else if !has_bet(m[pool_id].bets@, bettor) {
        Some(BettingError::BetNotFound)
    } else if !m[pool_id].pool.resolved {
        Some(BettingError::PoolNotResolved)
    } else if bet_of(m[pool_id].bets@, bettor).claimed {
        Some(BettingError::AlreadyClaimed)
    } else if winning_resolution(bet_of(m[pool_id].bets@, bettor).side) != m[pool_id].pool.resolution {
        Some(BettingError::NotWinner)
    } else if winning_total(m[pool_id].pool) == 0 {
        Some(BettingError::NoWinningStake)
    } else if m[pool_id].balance < payout_of(m[pool_id].pool, bet_of(m[pool_id].bets@, bettor)) {
        Some(BettingError::InsufficientEscrow)
    } else {
        None
    }
}

impl Ledger {
    /// Every account is consistent with its own bets and escrow.
    pub open spec fn wf(&self) -> bool {
        forall|id: u64| #[trigger] self@.contains_key(id) ==> account_wf(id, self@[id])
    }

    /// An empty store.
    pub fn new() -> (l: Ledger)
        ensures
            l.wf(),
            l@ == Map::<u64, PoolAccount>::empty(),
    {
        let l = Ledger { accounts: HashMap::new() };
        proof {
            assert(l@ =~= Map::<u64, PoolAccount>::empty());
        }
        l
    }
}

proof fn lemma_side_sum_push(bets: Seq<Bet>, b: Bet)
    ensures
        side_sum(bets.push(b), BetSide::A) == side_sum(bets, BetSide::A) + if b.side == BetSide::A { b.amount as nat } else { 0 },
        side_sum(bets.push(b), BetSide::B) == side_sum(bets, BetSide::B) + if b.side == BetSide::B { b.amount as nat } else { 0 },
        side_count(bets.push(b), BetSide::A) == side_count(bets, BetSide::A) + if b.side == BetSide::A { 1nat } else { 0nat },
        side_count(bets.push(b), BetSide::B) == side_count(bets, BetSide::B) + if b.side == BetSide::B { 1nat } else { 0nat },
{
    assert(bets.push(b).drop_last() =~= bets);
}

proof fn lemma_count_le_sum(bets: Seq<Bet>, side: BetSide)
    requires
        forall|i: int| 0 <= i < bets.len() ==> (#[trigger] bets[i]).amount > 0,
    ensures
        side_count(bets, side) <= side_sum(bets, side),
    decreases bets.len(),
{
    if bets.len() > 0 {
        let rest = bets.drop_last();
        assert forall|i: int| 0 <= i < rest.len() implies (#[trigger] rest[i]).amount > 0 by {
            assert(rest[i] == bets[i]);
        }
        lemma_count_le_sum(rest, side);
        assert(bets[bets.len() - 1].amount > 0);
    }
}

/// Removing a key and putting back what it held gives the map unchanged.
proof fn lemma_put_back(m: Map<u64, PoolAccount>, id: u64)
    requires
        m.contains_key(id),
    ensures
        m.remove(id).insert(id, m[id]) == m,
{
    assert(m.remove(id).insert(id, m[id]) =~= m);
}

/// Finds the position of `who`'s bet.
fn find_bet(bets: &Vec<Bet>, who: &Identity) -> (r: Option<usize>)
    ensures
        match r {
            Some(i) => i < bets@.len() && bets@[i as int].bettor == *who,
            None => !has_bet(bets@, *who),
        },
{
    let mut i: usize = 0;
    while i < bets.len()
        invariant
            0 <= i <= bets@.len(),
            forall|j: int| 0 <= j < i ==> #[trigger] bets@[j].bettor != *who,
        decreases bets@.len() - i,
    {
        if same_identity(&bets[i].bettor, who) {
            return Some(i);
        }
        i = i + 1;
    }
    None
}

/// Creates the pool `pool_id`, administered by `owner`, with every total at
/// zero and the default fee.
pub fn initialize_pool(l: &mut Ledger, pool_id: u64, owner: Identity, fee_recipient: Identity) -> (r: Result<(), BettingError>)
    requires
        old(l).wf(),
    ensures
        final(l).wf(),
        r is Err <==> old(l)@.contains_key(pool_id),
        r is Err ==> r == Err::<(), BettingError>(BettingError::DuplicatePool) && final(l)@ == old(l)@,
        r is Ok ==> {
            &&& final(l)@.remove(pool_id) == old(l)@
            &&& final(l)@.contains_key(pool_id)
            &&& final(l)@[pool_id].pool == fresh_pool(pool_id, owner, fee_recipient)
            &&& final(l)@[pool_id].balance == 0
            &&& final(l)@[pool_id].bets@ == Seq::<Bet>::empty()
        },
{
    if l.accounts.contains_key(&pool_id) {
        return Err(BettingError::DuplicatePool);
    }
    let pool = Pool {
        pool_id,
        owner,
        fee_recipient,
        total_amount_a: 0,
        total_amount_b: 0,
        total_bets_a: 0,
        total_bets_b: 0,
        resolution: Resolution::Pending,
        resolved: false,
        fee_percentage: DEFAULT_FEE_PERCENT,
    };
    let acct = PoolAccount { pool, balance: 0, bets: Vec::new() };
    l.accounts.insert(pool_id, acct);
    proof {
        assert(l@.remove(pool_id) =~= old(l)@);
        assert forall|id: u64| #[trigger] l@.contains_key(id) implies account_wf(id, l@[id]) by {
            if id != pool_id {
                assert(old(l)@.contains_key(id));
            }
        }
    }
    Ok(())
}

/// Records a stake of `amount` by `bettor` on `side` of the pool `pool_id`,
/// and takes the amount into the pool's escrow.
pub fn place_bet(l: &mut Ledger, pool_id: u64, bettor: Identity, side: BetSide, amount: u64) -> (r: Result<BetPlaced, BettingError>)
    requires
        old(l).wf(),
        place_bet_error(old(l)@, pool_id, bettor, amount) is None
            ==> pool_total(old(l)@[pool_id].pool) + amount <= u64::MAX,
    ensures
        final(l).wf(),
        match r {
            Err(e) => place_bet_error(old(l)@, pool_id, bettor, amount) == Some(e)
                && final(l)@ == old(l)@,
            Ok(ev) => {
                let a = old(l)@[pool_id];
                let b = final(l)@[pool_id];
                &&& place_bet_error(old(l)@, pool_id, bettor, amount) is None
                &&& only_changes(old(l)@, final(l)@, pool_id)
                &&& b.pool == pool_with_stake(a.pool, side, amount)
                &&& b.balance == a.balance + amount
                &&& b.bets@ == a.bets@.push(
                    Bet { pool_id, bettor, amount, side, claimed: false },
                )
                &&& ev == (BetPlaced { pool_id, bettor, side, amount })
            },
        },
{
    let ghost m0 = l@;
    let mut acct = match l.accounts.remove(&pool_id) {
        Some(a) => a,
        None => {
            proof {
                assert(l@ =~= m0);
            }
            return Err(BettingError::PoolNotFound);
        },
    };
    let err: Option<BettingError> = if find_bet(&acct.bets, &bettor).is_some() {
        Some(BettingError::DuplicateBet)
    } else if amount == 0 {
        Some(BettingError::InvalidAmount)
    } else if acct.pool.resolved {
        Some(BettingError::PoolAlreadyResolved)
    } else {
        None
    };
    if let Some(e) = err {
        l.accounts.insert(pool_id, acct);
        proof {
            lemma_put_back(m0, pool_id);
        }
        return Err(e);
    }
    let ghost a0 = acct;
    proof {
        assert(account_wf(pool_id, a0));
        lemma_count_le_sum(a0.bets@, BetSide::A);
        lemma_count_le_sum(a0.bets@, BetSide::B);
    }
    let bet = Bet { pool_id, bettor, amount, side, claimed: false };
    match side {
        BetSide::A => {
            acct.pool.total_amount_a = acct.pool.total_amount_a + amount;
            acct.pool.total_bets_a = acct.pool.total_bets_a + 1;
        },
        BetSide::B => {
            acct.pool.total_amount_b = acct.pool.total_amount_b + amount;
            acct.pool.total_bets_b = acct.pool.total_bets_b + 1;
        },
    }
    acct.balance = acct.balance + amount;
    acct.bets.push(bet);
    proof {
        lemma_side_sum_push(a0.bets@, bet);
        assert forall|i: int, j: int|
            0 <= i < acct.bets@.len() && 0 <= j < acct.bets@.len() && i != j
            implies acct.bets@[i].bettor != acct.bets@[j].bettor by {
            if i < a0.bets@.len() && j < a0.bets@.len() {
                assert(acct.bets@[i] == a0.bets@[i]);
                assert(acct.bets@[j] == a0.bets@[j]);
            } else if i < a0.bets@.len() {
                assert(acct.bets@[i] == a0.bets@[i]);
            } else {
                assert(acct.bets@[j] == a0.bets@[j]);
            }
        }
        assert forall|i: int| 0 <= i < acct.bets@.len()
            implies (#[trigger] acct.bets@[i]).pool_id == pool_id && acct.bets@[i].amount > 0 by {
            if i < a0.bets@.len() {
                assert(acct.bets@[i] == a0.bets@[i]);
            }
        }
        assert(account_wf(pool_id, acct));
    }
    l.accounts.insert(pool_id, acct);
    proof {
        assert(l@.remove(pool_id) =~= m0.remove(pool_id));
        assert forall|id: u64| #[trigger] l@.contains_key(id) implies account_wf(id, l@[id]) by {
            if id != pool_id {
                assert(m0.contains_key(id));
            }
        }
    }
    Ok(BetPlaced { pool_id, bettor, side, amount })
}

/// A single stake never exceeds the total of its side.
pub proof fn lemma_stake_within_side(bets: Seq<Bet>, i: int)
    requires
        0 <= i < bets.len(),
    ensures
        bets[i].amount <= side_sum(bets, bets[i].side),
    decreases bets.len(),
{
    if i < bets.len() - 1 {
        let rest = bets.drop_last();
        assert(rest[i] == bets[i]);
        lemma_stake_within_side(rest, i);
    }
}

proof fn lemma_side_sum_update(bets: Seq<Bet>, i: int, b: Bet)
    requires
        0 <= i < bets.len(),
        b.side == bets[i].side,
        b.amount == bets[i].amount,
    ensures
        side_sum(bets.update(i, b), BetSide::A) == side_sum(bets, BetSide::A),
        side_sum(bets.update(i, b), BetSide::B) == side_sum(bets, BetSide::B),
        side_count(bets.update(i, b), BetSide::A) == side_count(bets, BetSide::A),
        side_count(bets.update(i, b), BetSide::B) == side_count(bets, BetSide::B),
    decreases bets.len(),
{
    let u = bets.update(i, b);
    if i == bets.len() - 1 {
        assert(u.drop_last() =~= bets.drop_last());
    } else {
        assert(u.drop_last() =~= bets.drop_last().update(i, b));
        lemma_side_sum_update(bets.drop_last(), i, b);
    }
}

/// Where bettors are unique, any position holding `who`'s bet is its position.
proof fn lemma_bet_index(bets: Seq<Bet>, who: Identity, i: int)
    requires
        bettors_unique(bets),
        0 <= i < bets.len(),
        bets[i].bettor == who,
    ensures
        has_bet(bets, who),
        bet_index(bets, who) == i,
{
    assert(has_bet(bets, who));
}

/// Pays the fee of the pool held in `acct` out of its escrow.
fn distribute_winnings(acct: &mut PoolAccount) -> (r: Option<FeeCollected>)
    requires
        old(acct).pool.fee_percentage <= 100,
        pool_total(old(acct).pool) <= u64::MAX,
        pool_fee(old(acct).pool) <= old(acct).balance,
    ensures
        final(acct).pool == old(acct).pool,
        final(acct).bets@ == old(acct).bets@,
        final(acct).balance == old(acct).balance - pool_fee(old(acct).pool),
        r == if pool_fee(old(acct).pool) > 0 {
            Some(FeeCollected { pool_id: old(acct).pool.pool_id, amount: pool_fee(old(acct).pool) as u64 })
        } else {
            None
        },
{
    let total: u64 = acct.pool.total_amount_a + acct.pool.total_amount_b;
    let fee = compute_fee(total, acct.pool.fee_percentage);
    if fee > 0 {
        acct.balance = acct.balance - fee;
        Some(FeeCollected { pool_id: acct.pool.pool_id, amount: fee })
    } else {
        None
    }
}

/// Declares the winning side of the pool `pool_id` and pays its fee to the
/// fee recipient. Only the pool's owner may do so, once.
pub fn resolve_pool(l: &mut Ledger, pool_id: u64, caller: Identity, resolution: Resolution) -> (r: Result<(PoolResolved, Option<FeeCollected>), BettingError>)
    requires
        old(l).wf(),
    ensures
        final(l).wf(),
        match r {
            Err(e) => resolve_error(old(l)@, pool_id, caller, resolution) == Some(e)
                && final(l)@ == old(l)@,
            Ok((ev, fee)) => {
                let a = old(l)@[pool_id];
                let b = final(l)@[pool_id];
                &&& resolve_error(old(l)@, pool_id, caller, resolution) is None
                &&& only_changes(old(l)@, final(l)@, pool_id)
                &&& b.pool == (Pool { resolution, resolved: true, ..a.pool })
                &&& b.balance == a.balance - pool_fee(a.pool)
                &&& b.bets@ == a.bets@
                &&& ev == (PoolResolved { pool_id, resolution })
                &&& fee == if pool_fee(a.pool) > 0 {
                    Some(FeeCollected { pool_id, amount: pool_fee(a.pool) as u64 })
                } else {
                    None
                }
            },
        },
{
    let ghost m0 = l@;
    let mut acct = match l.accounts.remove(&pool_id) {
        Some(a) => a,
        None => {
            proof {
                assert(l@ =~= m0);
            }
            return Err(BettingError::PoolNotFound);
        },
    };
    let ghost a0 = acct;
    proof {
        assert(account_wf(pool_id, a0));
    }
    let total: u64 = acct.pool.total_amount_a + acct.pool.total_amount_b;
    let fee = compute_fee(total, acct.pool.fee_percentage);
    let err: Option<BettingError> = if !same_identity(&caller, &acct.pool.owner) {
        Some(BettingError::Unauthorized)
    } else if resolution == Resolution::Pending {
        Some(BettingError::InvalidResolution)
    } else if acct.pool.resolved {
        Some(BettingError::PoolAlreadyResolved)
    } else if acct.balance < fee {
        Some(BettingError::InsufficientEscrow)
    } else {
        None
    };
    if let Some(e) = err {
        l.accounts.insert(pool_id, acct);
        proof {
            lemma_put_back(m0, pool_id);
        }
        return Err(e);
    }
    acct.pool.resolution = resolution;
    acct.pool.resolved = true;
    let collected = distribute_winnings(&mut acct);
    proof {
        assert(account_wf(pool_id, acct));
    }
    l.accounts.insert(pool_id, acct);
    proof {
        assert(l@.remove(pool_id) =~= m0.remove(pool_id));
        assert forall|id: u64| #[trigger] l@.contains_key(id) implies account_wf(id, l@[id]) by {
            if id != pool_id {
                assert(m0.contains_key(id));
            }
        }
    }
    Ok((PoolResolved { pool_id, resolution }, collected))
}

/// Pays `bettor` their share of the resolved pool `pool_id` and marks the bet
/// claimed. Each winning bet is paid once.
pub fn claim_winnings(l: &mut Ledger, pool_id: u64, bettor: Identity) -> (r: Result<WinningsClaimed, BettingError>)
    requires
        old(l).wf(),
    ensures
        final(l).wf(),
        match r {
            Err(e) => claim_error(old(l)@, pool_id, bettor) == Some(e) && final(l)@ == old(l)@,
            Ok(ev) => {
                let a = old(l)@[pool_id];
                let b = final(l)@[pool_id];
                let bet = bet_of(a.bets@, bettor);
                &&& claim_error(old(l)@, pool_id, bettor) is None
                &&& only_changes(old(l)@, final(l)@, pool_id)
                &&& b.pool == a.pool
                &&& b.balance == a.balance - payout_of(a.pool, bet)
                &&& b.bets@ == a.bets@.update(bet_index(a.bets@, bettor), Bet { claimed: true, ..bet })
                &&& ev == (WinningsClaimed { pool_id, bettor, amount: payout_of(a.pool, bet) as u64 })
            },
        },
{
    let ghost m0 = l@;
    let mut acct = match l.accounts.remove(&pool_id) {
        Some(a) => a,
        None => {
            proof {
                assert(l@ =~= m0);
            }
            return Err(BettingError::PoolNotFound);
        },
    };
    let ghost a0 = acct;
    proof {
        assert(account_wf(pool_id, a0));
    }
    let i = match find_bet(&acct.bets, &bettor) {
        Some(i) => i,
        None => {
            l.accounts.insert(pool_id, acct);
            proof {
                lemma_put_back(m0, pool_id);
            }
            return Err(BettingError::BetNotFound);
        },
    };
    proof {
        lemma_bet_index(a0.bets@, bettor, i as int);
    }
    let bet = acct.bets[i];
    let winning: u64 = match acct.pool.resolution {
        Resolution::A => acct.pool.total_amount_a,
        Resolution::B => acct.pool.total_amount_b,
        Resolution::Pending => 0,
    };
    let bet_wins = match (bet.side, acct.pool.resolution) {
        (BetSide::A, Resolution::A) => true,
        (BetSide::B, Resolution::B) => true,
        _ => false,
    };
    let err: Option<BettingError> = if !acct.pool.resolved {
        Some(BettingError::PoolNotResolved)
    } else if bet.claimed {
        Some(BettingError::AlreadyClaimed)
    } else if !bet_wins {
        Some(BettingError::NotWinner)
    } else if winning == 0 {
        Some(BettingError::NoWinningStake)
    } else {
        None
    };
    if let Some(e) = err {
        l.accounts.insert(pool_id, acct);
        proof {
            lemma_put_back(m0, pool_id);
        }
        return Err(e);
    }
    proof {
        lemma_stake_within_side(a0.bets@, i as int);
    }
    let total: u64 = acct.pool.total_amount_a + acct.pool.total_amount_b;
    let fee = compute_fee(total, acct.pool.fee_percentage);
    let amount = compute_entitlement(bet.amount, total - fee, winning);
    if acct.balance < amount {
        l.accounts.insert(pool_id, acct);
        proof {
            lemma_put_back(m0, pool_id);
        }
        return Err(BettingError::InsufficientEscrow);
    }
    let claimed_bet = Bet { claimed: true, ..bet };
    acct.bets.set(i, claimed_bet);
    acct.balance = acct.balance - amount;
    proof {
        lemma_side_sum_update(a0.bets@, i as int, claimed_bet);
        assert forall|x: int, y: int|
            0 <= x < acct.bets@.len() && 0 <= y < acct.bets@.len() && x != y
            implies acct.bets@[x].bettor != acct.bets@[y].bettor by {
            assert(a0.bets@[x].bettor != a0.bets@[y].bettor);
        }
        assert forall|x: int| 0 <= x < acct.bets@.len()
            implies (#[trigger] acct.bets@[x]).pool_id == pool_id && acct.bets@[x].amount > 0 by {
            assert(a0.bets@[x].pool_id == pool_id);
        }
        assert(account_wf(pool_id, acct));
    }
    l.accounts.insert(pool_id, acct);
    proof {
        assert(l@.remove(pool_id) =~= m0.remove(pool_id));
        assert forall|id: u64| #[trigger] l@.contains_key(id) implies account_wf(id, l@[id]) by {
            if id != pool_id {
                assert(m0.contains_key(id));
            }
        }
    }
    Ok(WinningsClaimed { pool_id, bettor, amount })
}

/// Why an owner-only operation on `pool_id` is rejected, if it is.
pub open spec fn owner_error(m: Map<u64, PoolAccount>, pool_id: u64, caller: Identity) -> Option<BettingError> {
    if !m.contains_key(pool_id) {
        Some(BettingError::PoolNotFound)
    } else if caller != m[pool_id].pool.owner {
        Some(BettingError::Unauthorized)
    } else {
        None
    }
}

/// Moves the whole escrow balance of `pool_id` to its owner and returns the
/// amount moved. Bets stay unclaimed; what they were owed is forfeited.
pub fn emergency_withdraw(l: &mut Ledger, pool_id: u64, caller: Identity) -> (r: Result<u64, BettingError>)
    requires
        old(l).wf(),
    ensures
        final(l).wf(),
        match r {
            Err(e) => owner_error(old(l)@, pool_id, caller) == Some(e) && final(l)@ == old(l)@,
            Ok(amount) => {
                &&& owner_error(old(l)@, pool_id, caller) is None
                &&& only_changes(old(l)@, final(l)@, pool_id)
                &&& amount == old(l)@[pool_id].balance
                &&& final(l)@[pool_id].balance == 0
                &&& final(l)@[pool_id].pool == old(l)@[pool_id].pool
                &&& final(l)@[pool_id].bets@ == old(l)@[pool_id].bets@
            },
        },
{
    let ghost m0 = l@;
    let mut acct = match l.accounts.remove(&pool_id) {
        Some(a) => a,
        None => {
            proof {
                assert(l@ =~= m0);
            }
            return Err(BettingError::PoolNotFound);
        },
    };
    if !same_identity(&caller, &acct.pool.owner) {
        l.accounts.insert(pool_id, acct);
        proof {
            lemma_put_back(m0, pool_id);
        }
        return Err(BettingError::Unauthorized);
    }
    let amount = acct.balance;
    acct.balance = 0;
    proof {
        assert(account_wf(pool_id, m0[pool_id]));
    }
    l.accounts.insert(pool_id, acct);
    proof {
        assert(l@.remove(pool_id) =~= m0.remove(pool_id));
        assert forall|id: u64| #[trigger] l@.contains_key(id) implies account_wf(id, l@[id]) by {
            if id != pool_id {
                assert(m0.contains_key(id));
            }
        }
    }
    Ok(amount)
}

/// Sends future fees of `pool_id` to `new_fee_recipient`.
pub fn update_fee_recipient(l: &mut Ledger, pool_id: u64, caller: Identity, new_fee_recipient: Identity) -> (r: Result<(), BettingError>)
    requires
        old(l).wf(),
    ensures
        final(l).wf(),
        match r {
            Err(e) => owner_error(old(l)@, pool_id, caller) == Some(e) && final(l)@ == old(l)@,
            Ok(_) => {
                &&& owner_error(old(l)@, pool_id, caller) is None
                &&& only_changes(old(l)@, final(l)@, pool_id)
                &&& final(l)@[pool_id].pool == (Pool { fee_recipient: new_fee_recipient, ..old(l)@[pool_id].pool })
                &&& final(l)@[pool_id].balance == old(l)@[pool_id].balance
                &&& final(l)@[pool_id].bets@ == old(l)@[pool_id].bets@
            },
        },
{
    let ghost m0 = l@;
    let mut acct = match l.accounts.remove(&pool_id) {
        Some(a) => a,
        None => {
            proof {
                assert(l@ =~= m0);
            }
            return Err(BettingError::PoolNotFound);
        },
    };
    if !same_identity(&caller, &acct.pool.owner) {
        l.accounts.insert(pool_id, acct);
        proof {
            lemma_put_back(m0, pool_id);
        }
        return Err(BettingError::Unauthorized);
    }
    acct.pool.fee_recipient = new_fee_recipient;
    proof {
        assert(account_wf(pool_id, m0[pool_id]));
    }
    l.accounts.insert(pool_id, acct);
    proof {
        assert(l@.remove(pool_id) =~= m0.remove(pool_id));
        assert forall|id: u64| #[trigger] l@.contains_key(id) implies account_wf(id, l@[id]) by {
            if id != pool_id {
                assert(m0.contains_key(id));
            }
        }
    }
    Ok(())
}

/// The pool record of `pool_id`.
pub fn get_pool(l: &Ledger, pool_id: u64) -> (r: Result<Pool, BettingError>)
    ensures
        match r {
            Ok(p) => l@.contains_key(pool_id) && p == l@[pool_id].pool,
            Err(e) => !l@.contains_key(pool_id) && e == BettingError::PoolNotFound,
        },
{
    match l.accounts.get(&pool_id) {
        Some(a) => Ok(a.pool),
        None => Err(BettingError::PoolNotFound),
    }
}

/// Snapshot of the totals and state of `pool_id`.
pub fn get_pool_info(l: &Ledger, pool_id: u64) -> (r: Result<PoolInfo, BettingError>)
    ensures
        match r {
            Ok(info) => {
                let p = l@[pool_id].pool;
                &&& l@.contains_key(pool_id)
                &&& info == (PoolInfo {
                    total_amount_a: p.total_amount_a,
                    total_amount_b: p.total_amount_b,
                    total_bets_a: p.total_bets_a,
                    total_bets_b: p.total_bets_b,
                    resolution: p.resolution,
                    resolved: p.resolved,
                })
            },
            Err(e) => !l@.contains_key(pool_id) && e == BettingError::PoolNotFound,
        },
{
    match l.accounts.get(&pool_id) {
        Some(a) => Ok(PoolInfo {
            total_amount_a: a.pool.total_amount_a,
            total_amount_b: a.pool.total_amount_b,
            total_bets_a: a.pool.total_bets_a,
            total_bets_b: a.pool.total_bets_b,
            resolution: a.pool.resolution,
            resolved: a.pool.resolved,
        }),
        None => Err(BettingError::PoolNotFound),
    }
}

/// Snapshot of `bettor`'s bet on `pool_id`.
pub fn get_bet_info(l: &Ledger, pool_id: u64, bettor: Identity) -> (r: Result<BetInfo, BettingError>)
    requires
        l.wf(),
    ensures
        match r {
            Ok(info) => {
                let bet = bet_of(l@[pool_id].bets@, bettor);
                &&& l@.contains_key(pool_id)
                &&& has_bet(l@[pool_id].bets@, bettor)
                &&& info == (BetInfo { amount: bet.amount, side: bet.side, claimed: bet.claimed })
            },
            Err(e) => if !l@.contains_key(pool_id) {
                e == BettingError::PoolNotFound
            } else {
                !has_bet(l@[pool_id].bets@, bettor) && e == BettingError::BetNotFound
            },
        },
{
    match l.accounts.get(&pool_id) {
        Some(a) => match find_bet(&a.bets, &bettor) {
            Some(i) => {
                proof {
                    assert(account_wf(pool_id, l@[pool_id]));
                    lemma_bet_index(a.bets@, bettor, i as int);
                }
                Ok(BetInfo { amount: a.bets[i].amount, side: a.bets[i].side, claimed: a.bets[i].claimed })
            },
            None => Err(BettingError::BetNotFound),
        },
        None => Err(BettingError::PoolNotFound),
    }
}

/// Number of bettors on each side of `pool_id`.
pub fn get_bettors_count(l: &Ledger, pool_id: u64) -> (r: Result<BettorsCount, BettingError>)
    ensures
        match r {
            Ok(c) => l@.contains_key(pool_id) && c == (BettorsCount {
                count_a: l@[pool_id].pool.total_bets_a,
                count_b: l@[pool_id].pool.total_bets_b,
            }),
            Err(e) => !l@.contains_key(pool_id) && e == BettingError::PoolNotFound,
        },
{
    match l.accounts.get(&pool_id) {
        Some(a) => Ok(BettorsCount { count_a: a.pool.total_bets_a, count_b: a.pool.total_bets_b }),
        None => Err(BettingError::PoolNotFound),
    }
}

/// The escrow balance `pool_id` currently holds.
pub fn get_contract_balance(l: &Ledger, pool_id: u64) -> (r: Result<u64, BettingError>)
    ensures
        match r {
            Ok(b) => l@.contains_key(pool_id) && b == l@[pool_id].balance,
            Err(e) => !l@.contains_key(pool_id) && e == BettingError::PoolNotFound,
        },
{
    match l.accounts.get(&pool_id) {
        Some(a) => Ok(a.balance),
        None => Err(BettingError::PoolNotFound),
    }
}

} // verus!
