//! Fees and drawdown.
use vstd::prelude::*;

use crate::backtest::result::EquityPoint;
use crate::portfolio::in_i128;

verus! {

/// The fee on a notional at `fee_bps` basis points, rounded toward zero.
pub open spec fn fee_of(price: i64, quantity: u64, fee_bps: u32) -> int {
    let gross = price * quantity * fee_bps;
    if gross >= 0 {
        gross / 10_000
    } else {
        -((-gross) / 10_000)
    }
}

/// Whether the fee's intermediate product stays within 128-bit integers.
pub open spec fn fee_in_range(price: i64, quantity: u64, fee_bps: u32) -> bool {
    in_i128(price * quantity * fee_bps)
}

/// The highest of the starting equity and every equity on the curve.
pub open spec fn running_peak(initial_equity: i128, curve: Seq<EquityPoint>) -> int
    decreases curve.len(),
{
    if curve.len() == 0 {
        initial_equity as int
    } else {
        let before = running_peak(initial_equity, curve.drop_last());
        if curve.last().equity > before {
            curve.last().equity as int
        } else {
            before
        }
    }
}

/// The largest fall of equity below its running peak, zero if it never falls.
pub open spec fn max_drawdown_of(initial_equity: i128, curve: Seq<EquityPoint>) -> int
    decreases curve.len(),
{
    if curve.len() == 0 {
        0
    } else {
        let before = max_drawdown_of(initial_equity, curve.drop_last());
        let drawdown = running_peak(initial_equity, curve) - curve.last().equity;
        if drawdown > before {
            drawdown
        } else {
            before
        }
    }
}

/// Whether every fall below the running peak fits a 128-bit integer.
pub open spec fn drawdowns_in_range(initial_equity: i128, curve: Seq<EquityPoint>) -> bool {
    forall|k: int|
        1 <= k <= curve.len() ==> running_peak(initial_equity, #[trigger] curve.take(k)) - curve[k
            - 1].equity <= i128::MAX
}

/// The fee on `price` times `quantity` at `fee_bps` basis points, or nothing
/// when the product leaves 128-bit integers.
pub fn checked_fee(price: i64, quantity: u64, fee_bps: u32) -> (fee: Option<i128>)
    ensures
        match fee {
            Some(f) => fee_in_range(price, quantity, fee_bps) && f == fee_of(price, quantity, fee_bps),
            None => !fee_in_range(price, quantity, fee_bps),
        },
{
    proof {
        assert(i64::MIN * 0xffff_ffff_ffff_ffffu64 <= price * quantity <= i64::MAX
            * 0xffff_ffff_ffff_ffffu64) by (nonlinear_arith)
            requires
                i64::MIN <= price <= i64::MAX,
                0 <= quantity <= 0xffff_ffff_ffff_ffffu64,
        ;
    }
    let notional = price as i128 * quantity as i128;
    match notional.checked_mul(fee_bps as i128) {
        Some(gross) => Some(gross / 10_000),
        None => None,
    }
}

/// The fee on `price` times `quantity` at `fee_bps` basis points (1 bp is
/// one ten-thousandth), rounded toward zero.
pub fn calculate_fee(price: i64, quantity: u64, fee_bps: u32) -> (fee: i128)
    requires
        fee_in_range(price, quantity, fee_bps),
    ensures
        fee == fee_of(price, quantity, fee_bps),
{
    match checked_fee(price, quantity, fee_bps) {
        Some(fee) => fee,
        None => 0,
    }
}

/// The maximum drawdown of a curve, or nothing when a fall leaves 128-bit integers.
pub fn checked_max_drawdown(initial_equity: i128, equity_curve: &[EquityPoint]) -> (drawdown:
    Option<i128>)
    ensures
        match drawdown {
            Some(d) => drawdowns_in_range(initial_equity, equity_curve@) && d == max_drawdown_of(
                initial_equity,
                equity_curve@,
            ),
            None => !drawdowns_in_range(initial_equity, equity_curve@),
        },
{
    let ghost curve = equity_curve@;
    let mut peak = initial_equity;
    let mut max_drawdown: i128 = 0;
    let mut i: usize = 0;
    while i < equity_curve.len()
        invariant
            i <= curve.len(),
            curve == equity_curve@,
            peak == running_peak(initial_equity, curve.take(i as int)),
            max_drawdown == max_drawdown_of(initial_equity, curve.take(i as int)),
            max_drawdown >= 0,
            forall|k: int|
                1 <= k <= i ==> running_peak(initial_equity, #[trigger] curve.take(k)) - curve[k
                    - 1].equity <= i128::MAX,
        decreases curve.len() - i,
    {
        let point = equity_curve[i];
        proof {
            assert(curve.take(i + 1).drop_last() =~= curve.take(i as int));
            assert(curve.take(i + 1).last() == curve[i as int]);
        }
        if point.equity > peak {
            peak = point.equity;
        }
        if peak >= 0 && point.equity < peak - i128::MAX {
            proof {
                assert(running_peak(initial_equity, curve.take(i + 1)) - curve[i as int].equity
                    > i128::MAX);
            }
            return None;
        }
        let drawdown = peak - point.equity;
        if drawdown > max_drawdown {
            max_drawdown = drawdown;
        }
        i = i + 1;
    }
    proof {
        assert(curve.take(i as int) =~= curve);
    }
    Some(max_drawdown)
}

/// The largest fall of equity below its running peak, where the peak starts
/// at `initial_equity`; zero when equity never falls.
pub fn calculate_max_drawdown(initial_equity: i128, equity_curve: &[EquityPoint]) -> (drawdown: i128)
    requires
        drawdowns_in_range(initial_equity, equity_curve@),
    ensures
        drawdown == max_drawdown_of(initial_equity, equity_curve@),
{
    match checked_max_drawdown(initial_equity, equity_curve) {
        Some(drawdown) => drawdown,
        None => 0,
    }
}

/// The fee is `fee_bps` ten-thousandths of the notional `price * quantity`,
/// rounded toward zero: it has the notional's sign (or is zero), and its
/// size is the largest whole amount whose ten-thousandfold does not exceed
/// the size of the notional times `fee_bps`.
pub proof fn lemma_fee_rounds_toward_zero(price: i64, quantity: u64, fee_bps: u32)
    ensures
        ({
            let gross = price as int * quantity as int * fee_bps as int;
            let fee = fee_of(price, quantity, fee_bps);
            &&& gross >= 0 ==> 0 <= fee && fee * 10_000 <= gross < (fee + 1) * 10_000
            &&& gross < 0 ==> fee <= 0 && -gross >= -fee * 10_000 && -gross < (-fee + 1) * 10_000
        }),
{
    let gross = price as int * quantity as int * fee_bps as int;
    if gross >= 0 {
        assert(fee_of(price, quantity, fee_bps) == gross / 10_000);
        assert((gross / 10_000) * 10_000 <= gross < (gross / 10_000 + 1) * 10_000) by (nonlinear_arith)
            requires
                gross >= 0,
        ;
    } else {
        let ng = -gross;
        assert(fee_of(price, quantity, fee_bps) == -(ng / 10_000));
        assert((ng / 10_000) * 10_000 <= ng < (ng / 10_000 + 1) * 10_000 && ng / 10_000 >= 0) by (nonlinear_arith)
            requires
                ng > 0,
        ;
    }
}

} // verus!
