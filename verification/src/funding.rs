//! Funding: rate computation from mark/index divergence and
//! open-interest imbalance, clamped into [-0.00075, 0.00075], and the
//! periodic application of payments to margin positions.

use vstd::prelude::*;
use crate::decimal::{Dec, dmul, ddiv, capped, AMT_MAX, BAL_MAX, POS_MAX, SCALE};
use crate::models::{FundingRate, OrderError, Position, PositionType, Side};

verus! {

/// Base interest rate (0.0001).
pub const BASE_RATE: i128 = 100;

/// Magnitude bound of every funding rate (0.00075).
pub const RATE_LIMIT: i128 = 750;

/// One settled funding payment.
#[derive(Clone, Debug)]
pub struct FundingPayment {
    pub symbol: String,
    pub rate: Dec,
    pub payment: Dec,
    pub timestamp: i64,
}

/// Computes rates on a fixed interval and applies them to positions.
#[derive(Debug)]
pub struct FundingCalculator {
    pub funding_interval: i64,
    pub funding_rate_history: Vec<FundingRate>,
    pub funding_payments: Vec<FundingPayment>,
    pub last_funding_time: i64,
}

/// The funding rate: premium plus base rate plus open-interest
/// impact, clamped into [-0.00075, 0.00075].
pub open spec fn spec_funding_rate(mark: int, index: int, oi_long: int, oi_short: int) -> int {
    let premium = ddiv(mark - index, index);
    let total = oi_long + oi_short;
    let oi_ratio = if total > 0 {
        ddiv(oi_long - oi_short, total)
    } else {
        0
    };
    let raw = premium + BASE_RATE + dmul(oi_ratio, BASE_RATE as int);
    if raw < -RATE_LIMIT {
        -RATE_LIMIT as int
    } else if raw > RATE_LIMIT {
        RATE_LIMIT as int
    } else {
        raw
    }
}

/// Positions funding touches: open margin positions on the rate's
/// symbol.
pub open spec fn spec_touched(p: Position, sym: Seq<char>) -> bool {
    p.symbol@ == sym && p.quantity@ != 0 && p.position_type == PositionType::Margin
}

/// The funding payment a position owes or receives:
/// quantity * entry * rate.
pub open spec fn spec_payment_amount(p: Position, rate: int) -> int {
    dmul(dmul(p.quantity@, p.entry_price@), rate)
}

/// A position after one funding application: longs are debited, shorts
/// credited, saturating at the representable band; a position without
/// a margin balance is untouched.
pub open spec fn spec_funded(p: Position, rate: int) -> Position {
    match p.margin {
        Some(m) => Position {
            margin: Some(
                Dec {
                    m: capped(
                        m@ + (if p.side == Side::Buy {
                            -spec_payment_amount(p, rate)
                        } else {
                            spec_payment_amount(p, rate)
                        }),
                    ) as i128,
                },
            ),
            ..p
        },
        None => p,
    }
}

/// Whether funding would drive a position's margin below zero.
pub open spec fn spec_margin_negative(p: Position, rate: int) -> bool {
    match p.margin {
        Some(m) => capped(
            m@ + (if p.side == Side::Buy {
                -spec_payment_amount(p, rate)
            } else {
                spec_payment_amount(p, rate)
            }),
        ) < 0,
        None => false,
    }
}

/// Funding over a position list: the funded positions, the payment
/// records of the touched ones in order, and whether any margin would
/// go negative.
pub open spec fn spec_apply_funding(ps: Seq<Position>, sym: Seq<char>, rate: int, now: i64) -> (
    Seq<Position>,
    Seq<FundingPayment>,
    bool,
)
    decreases ps.len(),
{
    if ps.len() == 0 {
        (Seq::<Position>::empty(), Seq::<FundingPayment>::empty(), false)
    } else {
        let tail = spec_apply_funding(ps.skip(1), sym, rate, now);
        if spec_touched(ps[0], sym) {
            let pay = FundingPayment {
                symbol: ps[0].symbol,
                rate: (Dec { m: rate as i128 }),
                payment: (Dec { m: spec_payment_amount(ps[0], rate) as i128 }),
                timestamp: now,
            };
            (
                seq![spec_funded(ps[0], rate)] + tail.0,
                seq![pay] + tail.1,
                spec_margin_negative(ps[0], rate) || tail.2,
            )
        } else {
            (seq![ps[0]] + tail.0, tail.1, tail.2)
        }
    }
}


/// Funding maps positions one for one: everything but the margin
/// balance is kept, and well-formedness is preserved.
pub proof fn lemma_apply_funding_shape(ps: Seq<Position>, sym: Seq<char>, rate: int, now: i64)
    ensures
        ({
            let sf = spec_apply_funding(ps, sym, rate, now);
            &&& sf.0.len() == ps.len()
            &&& forall|j: int|
                0 <= j < ps.len() ==> (#[trigger] sf.0[j]).user_id == ps[j].user_id && (ps[
                    j
                ].wf() ==> sf.0[j].wf())
        }),
    decreases ps.len(),
{
    if ps.len() == 0 {
    } else {
        lemma_apply_funding_shape(ps.skip(1), sym, rate, now);
        let sf = spec_apply_funding(ps, sym, rate, now);
        let tail = spec_apply_funding(ps.skip(1), sym, rate, now);
        assert forall|j: int|
            0 <= j < ps.len() implies (#[trigger] sf.0[j]).user_id == ps[j].user_id && (ps[
            j
        ].wf() ==> sf.0[j].wf()) by {
            if j == 0 {
            } else {
                assert(sf.0[j] == tail.0[j - 1]);
                assert(ps.skip(1)[j - 1] == ps[j]);
            }
        }
    }
}


/// A closed position carries no exposure: funding never touches a
/// position of zero quantity, whatever the rate.
pub proof fn lemma_zero_quantity_no_funding(ps: Seq<Position>, sym: Seq<char>, rate: int, now: i64)
    ensures
        forall|j: int|
            0 <= j < ps.len() && (#[trigger] ps[j]).quantity@ == 0 ==> spec_apply_funding(
                ps,
                sym,
                rate,
                now,
            ).0[j] == ps[j],
    decreases ps.len(),
{
    if ps.len() == 0 {
    } else {
        lemma_zero_quantity_no_funding(ps.skip(1), sym, rate, now);
        lemma_apply_funding_shape(ps, sym, rate, now);
        lemma_apply_funding_shape(ps.skip(1), sym, rate, now);
        let sf = spec_apply_funding(ps, sym, rate, now);
        let tail = spec_apply_funding(ps.skip(1), sym, rate, now);
        assert forall|j: int|
            0 <= j < ps.len() && (#[trigger] ps[j]).quantity@ == 0 implies sf.0[j] == ps[j] by {
            if j == 0 {
            } else {
                assert(sf.0[j] == tail.0[j - 1]);
                assert(ps.skip(1)[j - 1] == ps[j]);
            }
        }
    }
}

/// An exact copy of a position.
fn copy_position(p: &Position) -> (r: Position)
    ensures
        r == *p,
{
    Position {
        user_id: p.user_id,
        symbol: p.symbol.clone(),
        side: p.side,
        position_type: p.position_type,
        quantity: p.quantity,
        entry_price: p.entry_price,
        leverage: p.leverage,
        margin_type: p.margin_type,
        margin: p.margin,
        liquidation_price: p.liquidation_price,
        updated_at: p.updated_at,
    }
}

/// The funded form of one position and whether its margin goes
/// negative.
fn fund_one(p: &Position, rate: Dec) -> (r: (Position, bool))
    requires
        p.wf(),
        -RATE_LIMIT <= rate@ <= RATE_LIMIT,
    ensures
        r.0 == spec_funded(*p, rate@),
        r.1 == spec_margin_negative(*p, rate@),
        r.0.wf(),
{
    proof {
        assert(0 <= p.quantity@ * p.entry_price@ <= POS_MAX as int * AMT_MAX as int)
            by (nonlinear_arith)
            requires
                0 <= p.quantity@ <= POS_MAX as int,
                0 <= p.entry_price@ <= AMT_MAX as int,
        ;
        crate::decimal::lemma_tdiv_magnitude(p.quantity@ * p.entry_price@, SCALE as int);
    }
    let notional = p.quantity.mul(p.entry_price);
    proof {
        assert(-(POS_MAX as int * AMT_MAX as int * RATE_LIMIT as int) <= notional@ * rate@
            <= POS_MAX as int * AMT_MAX as int * RATE_LIMIT as int) by (nonlinear_arith)
            requires
                0 <= notional@ <= POS_MAX as int * AMT_MAX as int,
                -(RATE_LIMIT as int) <= rate@ <= RATE_LIMIT as int,
        ;
        crate::decimal::lemma_tdiv_magnitude(notional@ * rate@, SCALE as int);
    }
    let payment = notional.mul(rate);
    match p.margin {
        Some(m) => {
            let m1 = if p.side == Side::Buy {
                m.cap_add(payment.neg())
            } else {
                m.cap_add(payment)
            };
            let funded = Position { margin: Some(m1), ..copy_position(p) };
            (funded, m1.m < 0)
        },
        None => (copy_position(p), false),
    }
}

impl FundingCalculator {
    /// Timestamps non-negative and the interval non-negative.
    pub open spec fn wf(&self) -> bool {
        &&& 0 <= self.funding_interval
        &&& 0 <= self.last_funding_time
    }

    /// A calculator with the given interval, starting its schedule at
    /// `now`.
    pub fn new(funding_interval: i64, now: i64) -> (r: FundingCalculator)
        requires
            0 <= funding_interval,
            0 <= now,
        ensures
            r.funding_interval == funding_interval,
            r.last_funding_time == now,
            r.funding_rate_history@.len() == 0,
            r.funding_payments@.len() == 0,
            r.wf(),
    {
        FundingCalculator {
            funding_interval,
            funding_rate_history: Vec::new(),
            funding_payments: Vec::new(),
            last_funding_time: now,
        }
    }

    /// Computes the funding rate, records it, and advances the schedule
    /// by one interval.  The result is always inside
    /// [-0.00075, 0.00075].
    pub fn calculate_funding_rate(
        &mut self,
        symbol: String,
        mark_price: Dec,
        index_price: Dec,
        open_interest_long: Dec,
        open_interest_short: Dec,
    ) -> (r: FundingRate)
        requires
            old(self).wf(),
            0 <= mark_price@ <= AMT_MAX,
            0 < index_price@ <= AMT_MAX,
            0 <= open_interest_long@ <= AMT_MAX,
            0 <= open_interest_short@ <= AMT_MAX,
            old(self).last_funding_time + old(self).funding_interval <= i64::MAX,
        ensures
            final(self).wf(),
            r.rate@ == spec_funding_rate(
                mark_price@,
                index_price@,
                open_interest_long@,
                open_interest_short@,
            ),
            -RATE_LIMIT <= r.rate@ <= RATE_LIMIT,
            r.symbol@ == symbol@,
            r.next_funding_time == old(self).last_funding_time + old(self).funding_interval,
            final(self).last_funding_time == r.next_funding_time,
            final(self).funding_interval == old(self).funding_interval,
            final(self).funding_payments@ == old(self).funding_payments@,
            final(self).funding_rate_history@.len() == old(self).funding_rate_history@.len() + 1,
            forall|i: int|
                0 <= i < old(self).funding_rate_history@.len()
                    ==> #[trigger] final(self).funding_rate_history@[i] == old(
                    self,
                ).funding_rate_history@[i],
            ({
                let rec = final(self).funding_rate_history@.last();
                rec.symbol@ == symbol@ && rec.rate == r.rate && rec.next_funding_time
                    == r.next_funding_time
            }),
    {
        proof {
            assert((mark_price@ - index_price@) * SCALE as int <= AMT_MAX as int * SCALE as int
                && -(AMT_MAX as int * SCALE as int) <= (mark_price@ - index_price@)
                * SCALE as int) by (nonlinear_arith)
                requires
                    -(AMT_MAX as int) <= mark_price@ - index_price@ <= AMT_MAX as int,
            ;
            crate::decimal::lemma_tdiv_magnitude(
                (mark_price@ - index_price@) * SCALE as int,
                index_price@,
            );
        }
        let price_diff = mark_price.sub(index_price);
        let premium_rate = price_diff.div(index_price);
        let total_oi = open_interest_long.add(open_interest_short);
        let oi_ratio = if total_oi.gt(Dec::zero()) {
            proof {
                assert((open_interest_long@ - open_interest_short@) * SCALE as int
                    <= AMT_MAX as int * SCALE as int && -(AMT_MAX as int * SCALE as int) <= (
                open_interest_long@ - open_interest_short@) * SCALE as int) by (nonlinear_arith)
                    requires
                        -(AMT_MAX as int) <= open_interest_long@ - open_interest_short@
                            <= AMT_MAX as int,
                ;
                crate::decimal::lemma_tdiv_magnitude(
                    (open_interest_long@ - open_interest_short@) * SCALE as int,
                    total_oi@,
                );
            }
            open_interest_long.sub(open_interest_short).div(total_oi)
        } else {
            Dec::zero()
        };
        proof {
            assert(-(AMT_MAX as int * SCALE as int * BASE_RATE as int) <= oi_ratio@
                * BASE_RATE as int <= AMT_MAX as int * SCALE as int * BASE_RATE as int)
                by (nonlinear_arith)
                requires
                    -(AMT_MAX as int * SCALE as int) <= oi_ratio@ <= AMT_MAX as int
                        * SCALE as int,
            ;
            crate::decimal::lemma_tdiv_magnitude(oi_ratio@ * BASE_RATE as int, SCALE as int);
        }
        let oi_impact = oi_ratio.mul(Dec::new(BASE_RATE));
        let raw = premium_rate.add(Dec::new(BASE_RATE)).add(oi_impact);
        let clamped = if raw.lt(Dec::new(-RATE_LIMIT)) {
            Dec::new(-RATE_LIMIT)
        } else if raw.gt(Dec::new(RATE_LIMIT)) {
            Dec::new(RATE_LIMIT)
        } else {
            raw
        };
        let next_funding_time = self.last_funding_time + self.funding_interval;
        let rec = FundingRate {
            symbol: symbol.clone(),
            rate: clamped,
            next_funding_time,
        };
        self.funding_rate_history.push(rec);
        self.last_funding_time = next_funding_time;
        FundingRate { symbol, rate: clamped, next_funding_time }
    }

    /// Applies a funding rate to a position list, as
    /// `spec_apply_funding` describes: nothing happens before the
    /// rate's due time; if any touched margin would go negative the
    /// whole batch fails with `FundingError` and nothing changes; else
    /// longs pay and shorts receive quantity * entry * rate, and one
    /// payment is recorded per touched position.
    pub fn apply_funding(
        &mut self,
        positions: &mut Vec<Position>,
        funding_rate: &FundingRate,
        now: i64,
    ) -> (r: Result<(), OrderError>)
        requires
            forall|i: int| 0 <= i < old(positions)@.len() ==> (#[trigger] old(positions)@[i]).wf(),
            -RATE_LIMIT <= funding_rate.rate@ <= RATE_LIMIT,
            0 <= now,
        ensures
            final(self).funding_interval == old(self).funding_interval,
            final(self).last_funding_time == old(self).last_funding_time,
            final(self).funding_rate_history@ == old(self).funding_rate_history@,
            forall|i: int| 0 <= i < final(positions)@.len() ==> (#[trigger] final(positions)@[i]).wf(),
            ({
                let sf = spec_apply_funding(
                    old(positions)@,
                    funding_rate.symbol@,
                    funding_rate.rate@,
                    now,
                );
                if now < funding_rate.next_funding_time {
                    &&& r == Ok::<(), OrderError>(())
                    &&& final(positions)@ == old(positions)@
                    &&& final(self).funding_payments@ == old(self).funding_payments@
                } else if sf.2 {
                    &&& r == Err::<(), OrderError>(OrderError::FundingError)
                    &&& final(positions)@ == old(positions)@
                    &&& final(self).funding_payments@ == old(self).funding_payments@
                } else {
                    &&& r == Ok::<(), OrderError>(())
                    &&& final(positions)@ == sf.0
                    &&& final(self).funding_payments@ == old(self).funding_payments@ + sf.1
                }
            }),
    {
        if now < funding_rate.next_funding_time {
            return Ok(());
        }
        let ghost ps0 = positions@;
        let ghost sym = funding_rate.symbol@;
        let ghost gr: int = funding_rate.rate@;
        let ghost sf = spec_apply_funding(ps0, sym, gr, now);
        let n = positions.len();
        // First pass: would any touched margin go negative?
        let mut neg = false;
        let mut i: usize = 0;
        proof {
            assert(ps0.skip(0) =~= ps0);
        }
        loop
            invariant
                0 <= i <= n,
                n == positions@.len(),
                positions@ == ps0,
                -RATE_LIMIT <= gr <= RATE_LIMIT,
                gr == funding_rate.rate@,
                sym == funding_rate.symbol@,
                forall|j: int| 0 <= j < ps0.len() ==> (#[trigger] ps0[j]).wf(),
                sf == spec_apply_funding(ps0, sym, gr, now),
                sf.2 == (neg || spec_apply_funding(ps0.skip(i as int), sym, gr, now).2),
            ensures
                positions@ == ps0,
                sf.2 == neg,
            decreases n - i,
        {
            if i == n {
                proof {
                    assert(ps0.skip(i as int) =~= Seq::<Position>::empty());
                }
                break;
            }
            let ghost suffix = ps0.skip(i as int);
            proof {
                assert(suffix[0] == ps0[i as int]);
                assert(ps0[i as int].wf());
                assert(suffix.skip(1) =~= ps0.skip(i + 1 as int));
            }
            let touched = positions[i].symbol == funding_rate.symbol && positions[i].quantity.m
                != 0 && positions[i].position_type == PositionType::Margin;
            if touched {
                let (_funded, goes_neg) = fund_one(&positions[i], funding_rate.rate);
                if goes_neg {
                    neg = true;
                }
            }
            i = i + 1;
        }
        if neg {
            return Err(OrderError::FundingError);
        }
        // Second pass: build the funded list and the payment records.
        let mut out: Vec<Position> = Vec::new();
        let mut i2: usize = 0;
        proof {
            assert(ps0.skip(0) =~= ps0);
            assert(sf.0 =~= out@ + spec_apply_funding(ps0.skip(0), sym, gr, now).0);
            assert(sf.1 =~= self.funding_payments@.skip(self.funding_payments@.len() as int)
                + spec_apply_funding(ps0.skip(0), sym, gr, now).1);
        }
        let ghost pays0 = self.funding_payments@;
        loop
            invariant
                0 <= i2 <= n,
                n == positions@.len(),
                positions@ == ps0,
                out@.len() == i2,
                -RATE_LIMIT <= gr <= RATE_LIMIT,
                gr == funding_rate.rate@,
                sym == funding_rate.symbol@,
                0 <= now,
                forall|j: int| 0 <= j < ps0.len() ==> (#[trigger] ps0[j]).wf(),
                forall|j: int| 0 <= j < out@.len() ==> (#[trigger] out@[j]).wf(),
                self.funding_interval == old(self).funding_interval,
                self.last_funding_time == old(self).last_funding_time,
                self.funding_rate_history@ == old(self).funding_rate_history@,
                sf == spec_apply_funding(ps0, sym, gr, now),
                sf.0 == out@ + spec_apply_funding(ps0.skip(i2 as int), sym, gr, now).0,
                sf.1 == self.funding_payments@.skip(pays0.len() as int) + spec_apply_funding(
                    ps0.skip(i2 as int),
                    sym,
                    gr,
                    now,
                ).1,
                self.funding_payments@.len() >= pays0.len(),
                self.funding_payments@.take(pays0.len() as int) == pays0,
            ensures
                out@ == sf.0,
                self.funding_payments@ == pays0 + sf.1,
            decreases n - i2,
        {
            if i2 == n {
                proof {
                    assert(ps0.skip(i2 as int) =~= Seq::<Position>::empty());
                    assert(out@ =~= sf.0);
                    assert(self.funding_payments@ =~= pays0 + sf.1);
                }
                break;
            }
            let ghost suffix = ps0.skip(i2 as int);
            proof {
                assert(suffix[0] == ps0[i2 as int]);
                assert(ps0[i2 as int].wf());
                assert(suffix.skip(1) =~= ps0.skip(i2 + 1 as int));
            }
            let touched = positions[i2].symbol == funding_rate.symbol && positions[i2].quantity.m
                != 0 && positions[i2].position_type == PositionType::Margin;
            if touched {
                let (funded, _goes_neg) = fund_one(&positions[i2], funding_rate.rate);
                let pay_amount = funded_payment_amount(&positions[i2], funding_rate.rate);
                let pay = FundingPayment {
                    symbol: positions[i2].symbol.clone(),
                    rate: funding_rate.rate,
                    payment: pay_amount,
                    timestamp: now,
                };
                out.push(funded);
                self.funding_payments.push(pay);
                proof {
                    assert(self.funding_payments@.take(pays0.len() as int) =~= pays0);
                    assert(self.funding_payments@.skip(pays0.len() as int)
                        =~= self.funding_payments@.skip(pays0.len() as int));
                }
            } else {
                let copied = copy_position(&positions[i2]);
                out.push(copied);
            }
            proof {
                let tail = spec_apply_funding(ps0.skip(i2 + 1 as int), sym, gr, now);
                assert(sf.0 =~= out@ + tail.0);
                assert(sf.1 =~= self.funding_payments@.skip(pays0.len() as int) + tail.1);
            }
            i2 = i2 + 1;
        }
        *positions = out;
        Ok(())
    }

    /// The history of computed rates.
    pub fn get_funding_history(&self) -> (r: &Vec<FundingRate>)
        ensures
            r@ == self.funding_rate_history@,
    {
        &self.funding_rate_history
    }

    /// The history of settled payments.
    pub fn get_funding_payments(&self) -> (r: &Vec<FundingPayment>)
        ensures
            r@ == self.funding_payments@,
    {
        &self.funding_payments
    }
}

/// The payment a touched position owes, as a decimal.
fn funded_payment_amount(p: &Position, rate: Dec) -> (r: Dec)
    requires
        p.wf(),
        -RATE_LIMIT <= rate@ <= RATE_LIMIT,
    ensures
        r@ == spec_payment_amount(*p, rate@),
{
    proof {
        assert(0 <= p.quantity@ * p.entry_price@ <= POS_MAX as int * AMT_MAX as int)
            by (nonlinear_arith)
            requires
                0 <= p.quantity@ <= POS_MAX as int,
                0 <= p.entry_price@ <= AMT_MAX as int,
        ;
        crate::decimal::lemma_tdiv_magnitude(p.quantity@ * p.entry_price@, SCALE as int);
    }
    let notional = p.quantity.mul(p.entry_price);
    proof {
        assert(-(POS_MAX as int * AMT_MAX as int * RATE_LIMIT as int) <= notional@ * rate@
            <= POS_MAX as int * AMT_MAX as int * RATE_LIMIT as int) by (nonlinear_arith)
            requires
                0 <= notional@ <= POS_MAX as int * AMT_MAX as int,
                -(RATE_LIMIT as int) <= rate@ <= RATE_LIMIT as int,
        ;
        crate::decimal::lemma_tdiv_magnitude(notional@ * rate@, SCALE as int);
    }
    notional.mul(rate)
}

} // verus!
