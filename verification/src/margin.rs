//! Pure margin arithmetic: required margin, liquidation price, and
//! the liquidation test.

use vstd::prelude::*;
use crate::decimal::{Dec, dmul, ddiv, tdiv, amt_ok, SCALE, AMT_MAX};
use crate::models::{Side, MarginType};

verus! {

/// Maintenance margin fraction (0.005).
pub const MAINTENANCE_MARGIN: i128 = 5_000;

/// Liquidation buffer for isolated margin (0.001).
pub const ISOLATED_BUFFER: i128 = 1_000;

/// Liquidation buffer for cross margin (0.002).
pub const CROSS_BUFFER: i128 = 2_000;

/// Required-margin multiplier for cross margin (1.1).
pub const CROSS_MULTIPLIER: i128 = 1_100_000;

pub struct MarginCalculator;

/// quantity * price / leverage, times 1.1 under cross margin.
pub open spec fn spec_required_margin(q: int, p: int, lev: int, mt: MarginType) -> int {
    let base = ddiv(dmul(q, p), lev);
    match mt {
        MarginType::Isolated => base,
        MarginType::Cross => dmul(base, CROSS_MULTIPLIER as int),
    }
}

/// The liquidation buffer of a margin type.
pub open spec fn spec_buffer(mt: MarginType) -> int {
    match mt {
        MarginType::Isolated => ISOLATED_BUFFER as int,
        MarginType::Cross => CROSS_BUFFER as int,
    }
}

/// entry * (1 -/+ 1/leverage +/- maintenance +/- buffer), the sign
/// pattern depending on the side.
pub open spec fn spec_liquidation_price(e: int, side: Side, lev: int, mt: MarginType) -> int {
    let inv = ddiv(SCALE as int, lev);
    let factor = match side {
        Side::Buy => SCALE as int - inv + MAINTENANCE_MARGIN as int + spec_buffer(mt),
        Side::Sell => SCALE as int + inv - MAINTENANCE_MARGIN as int - spec_buffer(mt),
    };
    dmul(e, factor)
}

/// A long is liquidated at or below its liquidation price, a short at
/// or above it.
pub open spec fn spec_is_liquidated(
    current: int,
    entry: int,
    side: Side,
    lev: int,
    mt: MarginType,
) -> bool {
    let liq = spec_liquidation_price(entry, side, lev, mt);
    match side {
        Side::Buy => current <= liq,
        Side::Sell => current >= liq,
    }
}

impl MarginCalculator {
    pub fn calculate_required_margin(
        quantity: Dec,
        price: Dec,
        leverage: Dec,
        margin_type: MarginType,
    ) -> (r: Dec)
        requires
            amt_ok(quantity@),
            amt_ok(price@),
            0 < leverage@ <= AMT_MAX,
        ensures
            r@ == spec_required_margin(quantity@, price@, leverage@, margin_type),
            0 <= r@,
    {
        proof {
            assert(quantity@ * price@ <= AMT_MAX as int * AMT_MAX as int) by (nonlinear_arith)
                requires
                    0 <= quantity@ <= AMT_MAX as int,
                    0 <= price@ <= AMT_MAX as int,
            ;
            assert(0 <= quantity@ * price@) by (nonlinear_arith)
                requires
                    0 <= quantity@,
                    0 <= price@,
            ;
            crate::decimal::lemma_tdiv_magnitude(quantity@ * price@, SCALE as int);
        }
        let notional = quantity.mul(price);
        proof {
            crate::decimal::lemma_tdiv_magnitude(notional@ * SCALE as int, leverage@);
            assert(notional@ * SCALE as int <= AMT_MAX as int * AMT_MAX as int) by (nonlinear_arith)
                requires
                    0 <= notional@ <= AMT_MAX as int * AMT_MAX as int / SCALE as int,
            ;
        }
        let base = notional.div(leverage);
        match margin_type {
            MarginType::Isolated => base,
            MarginType::Cross => {
                proof {
                    assert(base@ * CROSS_MULTIPLIER as int
                        <= AMT_MAX as int * AMT_MAX as int * CROSS_MULTIPLIER as int)
                        by (nonlinear_arith)
                        requires
                            0 <= base@ <= AMT_MAX as int * AMT_MAX as int,
                    ;
                    assert(0 <= base@ * CROSS_MULTIPLIER as int) by (nonlinear_arith)
                        requires
                            0 <= base@,
                    ;
                    crate::decimal::lemma_tdiv_magnitude(
                        base@ * CROSS_MULTIPLIER as int,
                        SCALE as int,
                    );
                }
                base.mul(Dec::new(CROSS_MULTIPLIER))
            },
        }
    }

    pub fn calculate_liquidation_price(
        entry_price: Dec,
        side: Side,
        leverage: Dec,
        margin_type: MarginType,
    ) -> (r: Dec)
        requires
            amt_ok(entry_price@),
            0 < leverage@ <= AMT_MAX,
        ensures
            r@ == spec_liquidation_price(entry_price@, side, leverage@, margin_type),
    {
        let buffer = match margin_type {
            MarginType::Isolated => Dec::new(ISOLATED_BUFFER),
            MarginType::Cross => Dec::new(CROSS_BUFFER),
        };
        proof {
            crate::decimal::lemma_tdiv_magnitude(SCALE as int * SCALE as int, leverage@);
        }
        let inv = Dec::new(SCALE).div(leverage);
        let factor = match side {
            Side::Buy => Dec::new(SCALE).sub(inv).add(Dec::new(MAINTENANCE_MARGIN)).add(buffer),
            Side::Sell => Dec::new(SCALE).add(inv).sub(Dec::new(MAINTENANCE_MARGIN)).sub(buffer),
        };
        proof {
            let f = factor@;
            assert(-(AMT_MAX as int * 2 * SCALE as int * SCALE as int) <= entry_price@ * f
                <= AMT_MAX as int * 2 * SCALE as int * SCALE as int) by (nonlinear_arith)
                requires
                    0 <= entry_price@ <= AMT_MAX as int,
                    -(2 * SCALE as int * SCALE as int) <= f <= 2 * SCALE as int * SCALE as int,
            ;
        }
        entry_price.mul(factor)
    }

    pub fn is_position_liquidated(
        current_price: Dec,
        entry_price: Dec,
        side: Side,
        leverage: Dec,
        margin_type: MarginType,
    ) -> (r: bool)
        requires
            amt_ok(entry_price@),
            0 < leverage@ <= AMT_MAX,
        ensures
            r == spec_is_liquidated(current_price@, entry_price@, side, leverage@, margin_type),
    {
        let liquidation_price = Self::calculate_liquidation_price(
            entry_price,
            side,
            leverage,
            margin_type,
        );
        match side {
            Side::Buy => current_price.le(liquidation_price),
            Side::Sell => current_price.ge(liquidation_price),
        }
    }
}

} // verus!
