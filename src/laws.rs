use vstd::prelude::*;
use crate::ledger::{
    account_wf, bet_index, bet_of, bettors_unique, claim_error, has_bet, lemma_stake_within_side,
    only_changes, payout_of, place_bet_error, pool_fee, pool_total, pool_with_stake,
    resolve_error, side_count, side_sum, winning_total, Ledger, PoolAccount,
};
use crate::payout::distributable_of;
use crate::types::{Bet, Pool, BetSide, BettingError, Identity, Resolution, winning_resolution};

verus! {

/// Sum of every stake, whatever its side.
pub open spec fn stake_sum(bets: Seq<Bet>) -> nat
    decreases bets.len(),
{
    if bets.len() == 0 {
        0
    } else {
        stake_sum(bets.drop_last()) + bets.last().amount as nat
    }
}

proof fn lemma_sides_partition(bets: Seq<Bet>)
    ensures
        side_sum(bets, BetSide::A) + side_sum(bets, BetSide::B) == stake_sum(bets),
        side_count(bets, BetSide::A) + side_count(bets, BetSide::B) == bets.len(),
    decreases bets.len(),
{
    if bets.len() > 0 {
        lemma_sides_partition(bets.drop_last());
    }
}

/// The deposits of a pool are exactly the stakes that were accepted on it, and
/// its bettor counts are the number of its bettors, each of whom is distinct.
/// Every successful operation keeps the ledger well formed, so this holds
/// after any sequence of accepted bets.
pub proof fn lemma_totals_match_bets(l: Ledger, pool_id: u64)
    requires
        l.wf(),
        l@.contains_key(pool_id),
    ensures
        pool_total(l@[pool_id].pool) == stake_sum(l@[pool_id].bets@),
        l@[pool_id].pool.total_bets_a + l@[pool_id].pool.total_bets_b == l@[pool_id].bets@.len(),
        bettors_unique(l@[pool_id].bets@),
{
    assert(account_wf(pool_id, l@[pool_id]));
    lemma_sides_partition(l@[pool_id].bets@);
}

/// Once a bet of `bettor` was accepted on a pool, every further bet of
/// theirs on it is rejected with `DuplicateBet`, whatever its side or amount.
pub proof fn lemma_second_bet_rejected(
    before: Map<u64, PoolAccount>,
    after: Map<u64, PoolAccount>,
    pool_id: u64,
    bettor: Identity,
    side: BetSide,
    amount: u64,
    next_amount: u64,
)
    requires
        place_bet_error(before, pool_id, bettor, amount) is None,
        only_changes(before, after, pool_id),
        after[pool_id].pool == pool_with_stake(before[pool_id].pool, side, amount),
        after[pool_id].bets@ == before[pool_id].bets@.push(
            Bet { pool_id, bettor, amount, side, claimed: false },
        ),
    ensures
        place_bet_error(after, pool_id, bettor, next_amount) == Some(BettingError::DuplicateBet),
{
    let bets = after[pool_id].bets@;
    assert(bets[bets.len() - 1].bettor == bettor);
}

/// Before its pool is resolved, a claim on an existing bet fails with
/// `PoolNotResolved`.
pub proof fn lemma_claim_before_resolution(m: Map<u64, PoolAccount>, pool_id: u64, bettor: Identity)
    requires
        m.contains_key(pool_id),
        has_bet(m[pool_id].bets@, bettor),
        !m[pool_id].pool.resolved,
    ensures
        claim_error(m, pool_id, bettor) == Some(BettingError::PoolNotResolved),
{
}

/// After resolution, an unclaimed bet on the losing side fails with
/// `NotWinner`.
pub proof fn lemma_losing_claim(m: Map<u64, PoolAccount>, pool_id: u64, bettor: Identity)
    requires
        m.contains_key(pool_id),
        has_bet(m[pool_id].bets@, bettor),
        m[pool_id].pool.resolved,
        !bet_of(m[pool_id].bets@, bettor).claimed,
        winning_resolution(bet_of(m[pool_id].bets@, bettor).side) != m[pool_id].pool.resolution,
    ensures
        claim_error(m, pool_id, bettor) == Some(BettingError::NotWinner),
{
}

/// After a successful claim, claiming the same bet again fails with
/// `AlreadyClaimed`; a rejected claim pays nothing and changes nothing.
pub proof fn lemma_claim_at_most_once(
    before: Map<u64, PoolAccount>,
    after: Map<u64, PoolAccount>,
    pool_id: u64,
    bettor: Identity,
)
    requires
        before.contains_key(pool_id),
        account_wf(pool_id, before[pool_id]),
        claim_error(before, pool_id, bettor) is None,
        only_changes(before, after, pool_id),
        after[pool_id].pool == before[pool_id].pool,
        after[pool_id].bets@ == before[pool_id].bets@.update(
            bet_index(before[pool_id].bets@, bettor),
            Bet { claimed: true, ..bet_of(before[pool_id].bets@, bettor) },
        ),
    ensures
        claim_error(after, pool_id, bettor) == Some(BettingError::AlreadyClaimed),
{
    let old_bets = before[pool_id].bets@;
    let new_bets = after[pool_id].bets@;
    let i = bet_index(old_bets, bettor);
    assert(new_bets[i].bettor == bettor);
    assert(has_bet(new_bets, bettor));
    let j = bet_index(new_bets, bettor);
    if j != i {
        assert(new_bets[j] == old_bets[j]);
        assert(old_bets[j].bettor != old_bets[i].bettor);
    }
}

/// Where the winning side took no deposits, every claim on the pool fails and
/// no share is computed.
pub proof fn lemma_no_winning_stake(l: Ledger, pool_id: u64, bettor: Identity)
    requires
        l.wf(),
        l@.contains_key(pool_id),
        l@[pool_id].pool.resolved,
        winning_total(l@[pool_id].pool) == 0,
    ensures
        claim_error(l@, pool_id, bettor) is Some,
{
    let a = l@[pool_id];
    assert(account_wf(pool_id, a));
    if has_bet(a.bets@, bettor) && !bet_of(a.bets@, bettor).claimed
        && winning_resolution(bet_of(a.bets@, bettor).side) == a.pool.resolution {
        let i = bet_index(a.bets@, bettor);
        lemma_stake_within_side(a.bets@, i);
        assert(a.bets@[i].amount > 0);
    }
}

/// Only the owner may resolve a pool: anyone else is rejected with
/// `Unauthorized`, and a rejected resolution leaves the pool as it was.
pub proof fn lemma_resolve_needs_owner(m: Map<u64, PoolAccount>, pool_id: u64, caller: Identity, resolution: Resolution)
    requires
        m.contains_key(pool_id),
        caller != m[pool_id].pool.owner,
    ensures
        resolve_error(m, pool_id, caller, resolution) == Some(BettingError::Unauthorized),
{
}

/// Sum of the shares owed to the winning bets among `bets` in the pool `p`.
pub open spec fn payout_sum(bets: Seq<Bet>, p: Pool) -> nat
    decreases bets.len(),
{
    if bets.len() == 0 {
        0
    } else {
        payout_sum(bets.drop_last(), p) + if winning_resolution(bets.last().side) == p.resolution {
            payout_of(p, bets.last())
        } else {
            0
        }
    }
}

proof fn lemma_payout_sum_scaled(bets: Seq<Bet>, p: Pool, side: BetSide)
    requires
        winning_resolution(side) == p.resolution,
        winning_total(p) > 0,
    ensures
        payout_sum(bets, p) * winning_total(p)
            <= side_sum(bets, side) * distributable_of(pool_total(p), p.fee_percentage as nat),
    decreases bets.len(),
{
    if bets.len() > 0 {
        let rest = bets.drop_last();
        let b = bets.last();
        lemma_payout_sum_scaled(rest, p, side);
        let w = winning_total(p) as int;
        let d = distributable_of(pool_total(p), p.fee_percentage as nat) as int;
        let prev_pay = payout_sum(rest, p) as int;
        let prev_side = side_sum(rest, side) as int;
        if winning_resolution(b.side) == p.resolution {
            assert(b.side == side);
            let a = b.amount as int;
            let q = payout_of(p, b) as int;
            assert(q == (a * d) / w);
            vstd::arithmetic::div_mod::lemma_fundamental_div_mod(a * d, w);
            assert(0 <= (a * d) % w) by {
                vstd::arithmetic::div_mod::lemma_mod_bound(a * d, w);
            }
            assert(q * w <= a * d) by (nonlinear_arith)
                requires a * d == w * ((a * d) / w) + (a * d) % w, 0 <= (a * d) % w, q == (a * d) / w;
            assert((prev_pay + q) * w <= (prev_side + a) * d) by (nonlinear_arith)
                requires prev_pay * w <= prev_side * d, q * w <= a * d;
            let ps = payout_sum(bets, p) as int;
            let ss = side_sum(bets, side) as int;
            assert(ps == prev_pay + q && ss == prev_side + a);
            assert(ps * w <= ss * d) by (nonlinear_arith)
                requires ps == prev_pay + q, ss == prev_side + a, (prev_pay + q) * w <= (prev_side + a) * d;
        } else {
            assert(b.side != side);
            assert(payout_sum(bets, p) == prev_pay);
            assert(side_sum(bets, side) == prev_side);
        }
    } else {
        assert(payout_sum(bets, p) == 0);
        assert(0 * winning_total(p) == 0) by (nonlinear_arith);
    }
}

/// Paying every winning bet of a resolved pool its share never takes more
/// than the distributable amount; what remains is rounding dust.
pub proof fn lemma_payouts_within_distributable(l: Ledger, pool_id: u64)
    requires
        l.wf(),
        l@.contains_key(pool_id),
        l@[pool_id].pool.resolved,
        winning_total(l@[pool_id].pool) > 0,
    ensures
        payout_sum(l@[pool_id].bets@, l@[pool_id].pool)
            <= distributable_of(pool_total(l@[pool_id].pool), l@[pool_id].pool.fee_percentage as nat),
{
    let a = l@[pool_id];
    let p = a.pool;
    assert(account_wf(pool_id, a));
    let side = if p.resolution == Resolution::A { BetSide::A } else { BetSide::B };
    lemma_payout_sum_scaled(a.bets@, p, side);
    let w = winning_total(p) as int;
    let d = distributable_of(pool_total(p), p.fee_percentage as nat) as int;
    let total = payout_sum(a.bets@, p) as int;
    assert(side_sum(a.bets@, side) == w);
    assert(total <= d) by (nonlinear_arith)
        requires total * w <= w * d, w > 0;
}

/// What the unclaimed winning bets among `bets` are still owed.
pub open spec fn owed_sum(bets: Seq<Bet>, p: Pool) -> nat
    decreases bets.len(),
{
    if bets.len() == 0 {
        0
    } else {
        owed_sum(bets.drop_last(), p) + if winning_resolution(bets.last().side) == p.resolution
            && !bets.last().claimed {
            payout_of(p, bets.last())
        } else {
            0
        }
    }
}

proof fn lemma_owed_within_payouts(bets: Seq<Bet>, p: Pool)
    ensures
        owed_sum(bets, p) <= payout_sum(bets, p),
    decreases bets.len(),
{
    if bets.len() > 0 {
        lemma_owed_within_payouts(bets.drop_last(), p);
    }
}

/// An unclaimed winning bet's share is part of what is owed.
proof fn lemma_share_within_owed(bets: Seq<Bet>, p: Pool, i: int)
    requires
        0 <= i < bets.len(),
        winning_resolution(bets[i].side) == p.resolution,
        !bets[i].claimed,
    ensures
        payout_of(p, bets[i]) <= owed_sum(bets, p),
    decreases bets.len(),
{
    if i < bets.len() - 1 {
        let rest = bets.drop_last();
        assert(rest[i] == bets[i]);
        lemma_share_within_owed(rest, p, i);
    }
}

/// Marking an unclaimed winning bet claimed takes its share off what is owed.
proof fn lemma_owed_after_claim(bets: Seq<Bet>, p: Pool, i: int)
    requires
        0 <= i < bets.len(),
        winning_resolution(bets[i].side) == p.resolution,
        !bets[i].claimed,
    ensures
        owed_sum(bets.update(i, Bet { claimed: true, ..bets[i] }), p) + payout_of(p, bets[i])
            == owed_sum(bets, p),
    decreases bets.len(),
{
    let b = Bet { claimed: true, ..bets[i] };
    let u = bets.update(i, b);
    if i == bets.len() - 1 {
        assert(u.drop_last() =~= bets.drop_last());
    } else {
        assert(u.drop_last() =~= bets.drop_last().update(i, b));
        assert(bets.drop_last()[i] == bets[i]);
        lemma_owed_after_claim(bets.drop_last(), p, i);
    }
}

/// Resolving a pool whose escrow still holds every deposit leaves enough in
/// escrow to pay every winning bet its share.
pub proof fn lemma_resolution_covers_winners(
    before: Map<u64, PoolAccount>,
    after: Map<u64, PoolAccount>,
    pool_id: u64,
    caller: Identity,
    resolution: Resolution,
)
    requires
        before.contains_key(pool_id),
        account_wf(pool_id, before[pool_id]),
        before[pool_id].balance == pool_total(before[pool_id].pool),
        resolve_error(before, pool_id, caller, resolution) is None,
        only_changes(before, after, pool_id),
        after[pool_id].pool == (Pool { resolution, resolved: true, ..before[pool_id].pool }),
        after[pool_id].balance == before[pool_id].balance - pool_fee(before[pool_id].pool),
        after[pool_id].bets@ == before[pool_id].bets@,
        account_wf(pool_id, after[pool_id]),
    ensures
        owed_sum(after[pool_id].bets@, after[pool_id].pool) <= after[pool_id].balance,
{
    let a = after[pool_id];
    if winning_total(a.pool) > 0 {
        let l_bets = a.bets@;
        let p = a.pool;
        let side = if p.resolution == Resolution::A { BetSide::A } else { BetSide::B };
        lemma_payout_sum_scaled(l_bets, p, side);
        let w = winning_total(p) as int;
        let d = distributable_of(pool_total(p), p.fee_percentage as nat) as int;
        let total = payout_sum(l_bets, p) as int;
        assert(side_sum(l_bets, side) == w);
        assert(total <= d) by (nonlinear_arith)
            requires total * w <= w * d, w > 0;
        lemma_owed_within_payouts(l_bets, p);
    } else {
        lemma_no_winner_owed(a.bets@, a.pool);
    }
}

proof fn lemma_no_winner_owed(bets: Seq<Bet>, p: Pool)
    requires
        forall|i: int| 0 <= i < bets.len() ==> (#[trigger] bets[i]).amount > 0,
        winning_total(p) == 0,
        p.resolution != Resolution::Pending,
        p.total_amount_a == side_sum(bets, BetSide::A),
        p.total_amount_b == side_sum(bets, BetSide::B),
    ensures
        owed_sum(bets, p) == 0,
{
    if owed_sum(bets, p) > 0 {
        let i = lemma_owed_witness(bets, p);
        lemma_stake_within_side(bets, i);
    }
}

proof fn lemma_owed_witness(bets: Seq<Bet>, p: Pool) -> (i: int)
    requires
        owed_sum(bets, p) > 0,
    ensures
        0 <= i < bets.len(),
        winning_resolution(bets[i].side) == p.resolution,
    decreases bets.len(),
{
    let rest = bets.drop_last();
    if winning_resolution(bets.last().side) == p.resolution && !bets.last().claimed {
        bets.len() - 1
    } else {
        let j = lemma_owed_witness(rest, p);
        assert(rest[j] == bets[j]);
        j
    }
}

/// While the escrow covers what unclaimed winners are owed, no winning claim
/// is refused for want of escrow, and a successful claim keeps the cover.
pub proof fn lemma_claims_stay_covered(
    before: Map<u64, PoolAccount>,
    after: Map<u64, PoolAccount>,
    pool_id: u64,
    bettor: Identity,
)
    requires
        before.contains_key(pool_id),
        account_wf(pool_id, before[pool_id]),
        owed_sum(before[pool_id].bets@, before[pool_id].pool) <= before[pool_id].balance,
    ensures
        claim_error(before, pool_id, bettor) != Some(BettingError::InsufficientEscrow),
        ({
            let a = before[pool_id];
            let bet = bet_of(a.bets@, bettor);
            claim_error(before, pool_id, bettor) is None
                && only_changes(before, after, pool_id)
                && after[pool_id].pool == a.pool
                && after[pool_id].balance == a.balance - payout_of(a.pool, bet)
                && after[pool_id].bets@ == a.bets@.update(bet_index(a.bets@, bettor), Bet { claimed: true, ..bet })
            ==> owed_sum(after[pool_id].bets@, after[pool_id].pool) <= after[pool_id].balance
        }),
{
    let a = before[pool_id];
    if has_bet(a.bets@, bettor) {
        let i = bet_index(a.bets@, bettor);
        let bet = a.bets@[i];
        if winning_resolution(bet.side) == a.pool.resolution && !bet.claimed {
            lemma_share_within_owed(a.bets@, a.pool, i);
            lemma_owed_after_claim(a.bets@, a.pool, i);
        }
    }
}

} // verus!
