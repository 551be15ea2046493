use betting_pool::ledger::{
    claim_winnings, emergency_withdraw, get_bet_info, get_bettors_count, get_contract_balance,
    get_pool, get_pool_info, initialize_pool, place_bet, resolve_pool, update_fee_recipient,
    Ledger, DEFAULT_FEE_PERCENT,
};
use betting_pool::payout::{compute_entitlement, compute_fee};
use betting_pool::types::{
    same_identity, BetInfo, BetPlaced, BetSide, BettingError, BettorsCount, FeeCollected,
    Identity, PoolResolved, Resolution, WinningsClaimed,
};

fn who(n: u8) -> Identity {
    Identity { bytes: [n; 32] }
}

const OWNER: u8 = 1;
const FEES: u8 = 2;

fn ledger_with_pool(pool_id: u64) -> Ledger {
    let mut l = Ledger::new();
    assert_eq!(initialize_pool(&mut l, pool_id, who(OWNER), who(FEES)), Ok(()));
    l
}

#[test]
fn fresh_pool_has_zero_totals_and_default_fee() {
    let l = ledger_with_pool(7);
    let p = get_pool(&l, 7).unwrap();
    assert_eq!(p.pool_id, 7);
    assert_eq!(p.owner, who(OWNER));
    assert_eq!(p.fee_recipient, who(FEES));
    assert_eq!(p.fee_percentage, 5);
    assert_eq!(DEFAULT_FEE_PERCENT, 5);
    let info = get_pool_info(&l, 7).unwrap();
    assert_eq!(info.total_amount_a, 0);
    assert_eq!(info.total_amount_b, 0);
    assert_eq!(info.resolution, Resolution::Pending);
    assert!(!info.resolved);
    assert_eq!(get_contract_balance(&l, 7), Ok(0));
}

#[test]
fn duplicate_pool_is_rejected() {
    let mut l = ledger_with_pool(7);
    assert_eq!(initialize_pool(&mut l, 7, who(9), who(9)), Err(BettingError::DuplicatePool));
    assert_eq!(get_pool(&l, 7).unwrap().owner, who(OWNER));
}

#[test]
fn missing_pool_is_reported() {
    let mut l = Ledger::new();
    assert_eq!(place_bet(&mut l, 3, who(10), BetSide::A, 5), Err(BettingError::PoolNotFound));
    assert_eq!(get_pool_info(&l, 3), Err(BettingError::PoolNotFound));
    assert_eq!(get_contract_balance(&l, 3), Err(BettingError::PoolNotFound));
    assert_eq!(get_bettors_count(&l, 3), Err(BettingError::PoolNotFound));
    assert_eq!(claim_winnings(&mut l, 3, who(10)), Err(BettingError::PoolNotFound));
    assert_eq!(resolve_pool(&mut l, 3, who(OWNER), Resolution::A), Err(BettingError::PoolNotFound));
}

#[test]
fn zero_amount_is_rejected() {
    let mut l = ledger_with_pool(1);
    assert_eq!(place_bet(&mut l, 1, who(10), BetSide::A, 0), Err(BettingError::InvalidAmount));
    assert_eq!(get_contract_balance(&l, 1), Ok(0));
}

#[test]
fn bets_accumulate_per_side() {
    let mut l = ledger_with_pool(1);
    assert_eq!(
        place_bet(&mut l, 1, who(10), BetSide::A, 100),
        Ok(BetPlaced { pool_id: 1, bettor: who(10), side: BetSide::A, amount: 100 })
    );
    place_bet(&mut l, 1, who(11), BetSide::B, 200).unwrap();
    place_bet(&mut l, 1, who(12), BetSide::B, 100).unwrap();
    let info = get_pool_info(&l, 1).unwrap();
    assert_eq!(info.total_amount_a + info.total_amount_b, 400);
    assert_eq!(info.total_amount_a, 100);
    assert_eq!(info.total_amount_b, 300);
    assert_eq!(get_bettors_count(&l, 1), Ok(BettorsCount { count_a: 1, count_b: 2 }));
    assert_eq!(get_contract_balance(&l, 1), Ok(400));
    assert_eq!(
        get_bet_info(&l, 1, who(11)),
        Ok(BetInfo { amount: 200, side: BetSide::B, claimed: false })
    );
    assert_eq!(get_bet_info(&l, 1, who(99)), Err(BettingError::BetNotFound));
}

#[test]
fn second_bet_by_same_bettor_is_rejected() {
    let mut l = ledger_with_pool(1);
    place_bet(&mut l, 1, who(10), BetSide::A, 100).unwrap();
    assert_eq!(place_bet(&mut l, 1, who(10), BetSide::A, 100), Err(BettingError::DuplicateBet));
    assert_eq!(place_bet(&mut l, 1, who(10), BetSide::B, 50), Err(BettingError::DuplicateBet));
    assert_eq!(place_bet(&mut l, 1, who(10), BetSide::B, 0), Err(BettingError::DuplicateBet));
    let info = get_pool_info(&l, 1).unwrap();
    assert_eq!(info.total_amount_a, 100);
    assert_eq!(info.total_amount_b, 0);
    assert_eq!(get_bettors_count(&l, 1), Ok(BettorsCount { count_a: 1, count_b: 0 }));
}

#[test]
fn same_bettor_may_bet_on_another_pool() {
    let mut l = ledger_with_pool(1);
    initialize_pool(&mut l, 2, who(OWNER), who(FEES)).unwrap();
    place_bet(&mut l, 1, who(10), BetSide::A, 100).unwrap();
    assert!(place_bet(&mut l, 2, who(10), BetSide::A, 100).is_ok());
}

#[test]
fn claim_before_resolution_fails() {
    let mut l = ledger_with_pool(1);
    place_bet(&mut l, 1, who(10), BetSide::A, 100).unwrap();
    assert_eq!(claim_winnings(&mut l, 1, who(10)), Err(BettingError::PoolNotResolved));
    assert_eq!(claim_winnings(&mut l, 1, who(11)), Err(BettingError::BetNotFound));
}

#[test]
fn non_owner_cannot_resolve() {
    let mut l = ledger_with_pool(1);
    place_bet(&mut l, 1, who(10), BetSide::A, 100).unwrap();
    assert_eq!(resolve_pool(&mut l, 1, who(10), Resolution::A), Err(BettingError::Unauthorized));
    let info = get_pool_info(&l, 1).unwrap();
    assert!(!info.resolved);
    assert_eq!(info.resolution, Resolution::Pending);
    assert_eq!(get_contract_balance(&l, 1), Ok(100));
}

#[test]
fn pending_is_not_a_resolution() {
    let mut l = ledger_with_pool(1);
    assert_eq!(
        resolve_pool(&mut l, 1, who(OWNER), Resolution::Pending),
        Err(BettingError::InvalidResolution)
    );
}

#[test]
fn pool_resolves_once_and_takes_no_more_bets() {
    let mut l = ledger_with_pool(1);
    place_bet(&mut l, 1, who(10), BetSide::A, 100).unwrap();
    assert!(resolve_pool(&mut l, 1, who(OWNER), Resolution::A).is_ok());
    assert_eq!(
        resolve_pool(&mut l, 1, who(OWNER), Resolution::B),
        Err(BettingError::PoolAlreadyResolved)
    );
    assert_eq!(
        place_bet(&mut l, 1, who(11), BetSide::B, 10),
        Err(BettingError::PoolAlreadyResolved)
    );
    assert_eq!(get_pool_info(&l, 1).unwrap().resolution, Resolution::A);
}

#[test]
fn side_a_wins_whole_distributable_pool() {
    let mut l = ledger_with_pool(1);
    place_bet(&mut l, 1, who(10), BetSide::A, 100).unwrap();
    place_bet(&mut l, 1, who(11), BetSide::B, 300).unwrap();
    assert_eq!(
        resolve_pool(&mut l, 1, who(OWNER), Resolution::A),
        Ok((
            PoolResolved { pool_id: 1, resolution: Resolution::A },
            Some(FeeCollected { pool_id: 1, amount: 20 })
        ))
    );
    assert_eq!(get_contract_balance(&l, 1), Ok(380));
    assert_eq!(
        claim_winnings(&mut l, 1, who(10)),
        Ok(WinningsClaimed { pool_id: 1, bettor: who(10), amount: 380 })
    );
    assert_eq!(get_contract_balance(&l, 1), Ok(0));
    assert_eq!(claim_winnings(&mut l, 1, who(11)), Err(BettingError::NotWinner));
}

#[test]
fn side_b_split_leaves_rounding_dust() {
    let mut l = ledger_with_pool(1);
    place_bet(&mut l, 1, who(10), BetSide::A, 100).unwrap();
    place_bet(&mut l, 1, who(11), BetSide::B, 200).unwrap();
    place_bet(&mut l, 1, who(12), BetSide::B, 100).unwrap();
    let (_, fee) = resolve_pool(&mut l, 1, who(OWNER), Resolution::B).unwrap();
    assert_eq!(fee, Some(FeeCollected { pool_id: 1, amount: 20 }));
    assert_eq!(claim_winnings(&mut l, 1, who(11)).unwrap().amount, 253);
    assert_eq!(claim_winnings(&mut l, 1, who(12)).unwrap().amount, 126);
    assert_eq!(get_contract_balance(&l, 1), Ok(1));
    assert_eq!(claim_winnings(&mut l, 1, who(10)), Err(BettingError::NotWinner));
}

#[test]
fn double_claim_pays_once() {
    let mut l = ledger_with_pool(1);
    place_bet(&mut l, 1, who(10), BetSide::A, 100).unwrap();
    place_bet(&mut l, 1, who(11), BetSide::A, 100).unwrap();
    resolve_pool(&mut l, 1, who(OWNER), Resolution::A).unwrap();
    assert_eq!(claim_winnings(&mut l, 1, who(10)).unwrap().amount, 95);
    assert_eq!(get_contract_balance(&l, 1), Ok(95));
    assert_eq!(claim_winnings(&mut l, 1, who(10)), Err(BettingError::AlreadyClaimed));
    assert_eq!(get_contract_balance(&l, 1), Ok(95));
    assert_eq!(get_bet_info(&l, 1, who(10)).unwrap().claimed, true);
    assert_eq!(get_bet_info(&l, 1, who(11)).unwrap().claimed, false);
}

#[test]
fn winning_side_without_deposits_pays_nobody() {
    let mut l = ledger_with_pool(1);
    place_bet(&mut l, 1, who(10), BetSide::A, 100).unwrap();
    resolve_pool(&mut l, 1, who(OWNER), Resolution::B).unwrap();
    assert_eq!(get_contract_balance(&l, 1), Ok(95));
    assert!(claim_winnings(&mut l, 1, who(10)).is_err());
    assert!(claim_winnings(&mut l, 1, who(11)).is_err());
    assert_eq!(get_contract_balance(&l, 1), Ok(95));
}

#[test]
fn small_pool_pays_no_fee() {
    let mut l = ledger_with_pool(1);
    place_bet(&mut l, 1, who(10), BetSide::A, 19).unwrap();
    let (_, fee) = resolve_pool(&mut l, 1, who(OWNER), Resolution::A).unwrap();
    assert_eq!(fee, None);
    assert_eq!(claim_winnings(&mut l, 1, who(10)).unwrap().amount, 19);
}

#[test]
fn emergency_withdraw_empties_escrow() {
    let mut l = ledger_with_pool(1);
    place_bet(&mut l, 1, who(10), BetSide::A, 100).unwrap();
    assert_eq!(emergency_withdraw(&mut l, 1, who(10)), Err(BettingError::Unauthorized));
    assert_eq!(emergency_withdraw(&mut l, 1, who(OWNER)), Ok(100));
    assert_eq!(get_contract_balance(&l, 1), Ok(0));
    assert_eq!(get_pool_info(&l, 1).unwrap().total_amount_a, 100);
    assert_eq!(
        resolve_pool(&mut l, 1, who(OWNER), Resolution::A),
        Err(BettingError::InsufficientEscrow)
    );
    assert!(!get_pool_info(&l, 1).unwrap().resolved);
}

#[test]
fn claim_beyond_escrow_is_rejected() {
    let mut l = ledger_with_pool(1);
    place_bet(&mut l, 1, who(10), BetSide::A, 100).unwrap();
    resolve_pool(&mut l, 1, who(OWNER), Resolution::A).unwrap();
    assert_eq!(emergency_withdraw(&mut l, 1, who(OWNER)), Ok(95));
    assert_eq!(claim_winnings(&mut l, 1, who(10)), Err(BettingError::InsufficientEscrow));
    assert_eq!(get_bet_info(&l, 1, who(10)).unwrap().claimed, false);
}

#[test]
fn fee_recipient_changes_only_by_owner() {
    let mut l = ledger_with_pool(1);
    assert_eq!(update_fee_recipient(&mut l, 1, who(10), who(10)), Err(BettingError::Unauthorized));
    assert_eq!(get_pool(&l, 1).unwrap().fee_recipient, who(FEES));
    assert_eq!(update_fee_recipient(&mut l, 1, who(OWNER), who(3)), Ok(()));
    assert_eq!(get_pool(&l, 1).unwrap().fee_recipient, who(3));
}

#[test]
fn fee_and_entitlement_formulas() {
    assert_eq!(compute_fee(400, 5), 20);
    assert_eq!(compute_fee(19, 5), 0);
    assert_eq!(compute_fee(u64::MAX, 100), u64::MAX);
    assert_eq!(compute_entitlement(100, 380, 100), 380);
    assert_eq!(compute_entitlement(200, 380, 300), 253);
    assert_eq!(compute_entitlement(100, 380, 300), 126);
    assert_eq!(compute_entitlement(u64::MAX, u64::MAX, u64::MAX), u64::MAX);
}

#[test]
fn identities_compare_by_every_byte() {
    let a = who(4);
    let mut b = who(4);
    assert!(same_identity(&a, &b));
    b.bytes[31] = 5;
    assert!(!same_identity(&a, &b));
}
