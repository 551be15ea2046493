use vstd::prelude::*;

verus! {

/// The fee taken from a pool of `total`, at `fee_percent` percent, rounded down.
pub open spec fn fee_of(total: nat, fee_percent: nat) -> nat {
    (total * fee_percent) / 100
}

/// Computes `floor(total * fee_percent / 100)`.
pub fn compute_fee(total: u64, fee_percent: u8) -> (fee: u64)
    requires
        fee_percent <= 100,
    ensures
        fee == fee_of(total as nat, fee_percent as nat),
        fee <= total,
{
    proof {
        let t = total as int;
        let f = fee_percent as int;
        assert(t * f <= t * 100 && t * f >= 0) by (nonlinear_arith)
            requires f <= 100, 0 <= f, 0 <= t;
    }
    let wide: u128 = (total as u128) * (fee_percent as u128);
    (wide / 100) as u64
}


/// What remains of a pool of `total` for the winners once the fee is taken.
pub open spec fn distributable_of(total: nat, fee_percent: nat) -> nat {
    (total - fee_of(total, fee_percent)) as nat
}

/// A winning stake's share: `floor(amount * distributable / winning_total)`.
pub open spec fn entitlement_of(amount: nat, distributable: nat, winning_total: nat) -> nat
    recommends
        winning_total > 0,
{
    (amount * distributable) / winning_total
}

/// Computes a winning stake's share of what is distributable. A stake that is
/// part of the winning total never receives more than the distributable amount.
pub fn compute_entitlement(amount: u64, distributable: u64, winning_total: u64) -> (r: u64)
    requires
        0 < winning_total,
        amount <= winning_total,
    ensures
        r == entitlement_of(amount as nat, distributable as nat, winning_total as nat),
        r <= distributable,
{
    proof {
        let a = amount as int;
        let d = distributable as int;
        assert(0 <= a * d <= 0xffff_ffff_ffff_ffff * 0xffff_ffff_ffff_ffff) by (nonlinear_arith)
            requires 0 <= a <= 0xffff_ffff_ffff_ffff, 0 <= d <= 0xffff_ffff_ffff_ffff;
    }
    let wide: u128 = (amount as u128) * (distributable as u128);
    let q: u128 = wide / (winning_total as u128);
    proof {
        let a = amount as int;
        let d = distributable as int;
        let w = winning_total as int;
        assert(a * d <= w * d) by (nonlinear_arith)
            requires a <= w, 0 <= d;
        vstd::arithmetic::div_mod::lemma_div_is_ordered(a * d, w * d, w);
        vstd::arithmetic::div_mod::lemma_div_multiples_vanish(d, w);
    }
    q as u64
}

} // verus!
