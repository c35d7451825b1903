//! Account state: per-asset balances and per-symbol positions, the
//! weighted-average position fold, and the margin pre-check.
//!
//! Balances and positions are association lists looked up by their
//! first matching key; `bal_of` and `pos_idx` are the lookup
//! functions the contracts speak through.

use vstd::prelude::*;
use crate::decimal::{
    Dec, dmul, ddiv, tdiv, capped, AMT_MAX, BAL_MAX, POS_MAX, SCALE,
};
use crate::margin::{spec_required_margin, spec_is_liquidated, spec_liquidation_price, MarginCalculator};
use crate::models::{Account, MarginType, Order, OrderError, Position, PositionType, Side};

verus! {

/// Index of the first balance entry for an asset, or -1.
pub open spec fn bal_idx(s: Seq<(String, Dec)>, asset: Seq<char>) -> int
    decreases s.len(),
{
    if s.len() == 0 {
        -1
    } else if s[0].0@ == asset {
        0
    } else if bal_idx(s.skip(1), asset) == -1 {
        -1
    } else {
        1 + bal_idx(s.skip(1), asset)
    }
}

/// Balance held in an asset; 0 when the asset is unknown.
pub open spec fn bal_of(s: Seq<(String, Dec)>, asset: Seq<char>) -> int
    decreases s.len(),
{
    if s.len() == 0 {
        0
    } else if s[0].0@ == asset {
        s[0].1@
    } else {
        bal_of(s.skip(1), asset)
    }
}

/// Index of the first position on a symbol, or -1.
pub open spec fn pos_idx(s: Seq<Position>, symbol: Seq<char>) -> int
    decreases s.len(),
{
    if s.len() == 0 {
        -1
    } else if s[0].symbol@ == symbol {
        0
    } else if pos_idx(s.skip(1), symbol) == -1 {
        -1
    } else {
        1 + pos_idx(s.skip(1), symbol)
    }
}

/// Characterisation of the balance lookup.
pub proof fn lemma_bal_idx_char(s: Seq<(String, Dec)>, asset: Seq<char>)
    ensures
        -1 <= bal_idx(s, asset) < s.len(),
        bal_idx(s, asset) >= 0 ==> s[bal_idx(s, asset)].0@ == asset && bal_of(s, asset) == s[
            bal_idx(s, asset)
        ].1@,
        bal_idx(s, asset) >= 0 ==> forall|j: int|
            0 <= j < bal_idx(s, asset) ==> (#[trigger] s[j]).0@ != asset,
        bal_idx(s, asset) == -1 ==> bal_of(s, asset) == 0 && forall|j: int|
            0 <= j < s.len() ==> (#[trigger] s[j]).0@ != asset,
    decreases s.len(),
{
    if s.len() == 0 {
    } else if s[0].0@ == asset {
    } else {
        lemma_bal_idx_char(s.skip(1), asset);
        let r = bal_idx(s, asset);
        if bal_idx(s.skip(1), asset) == -1 {
            assert forall|j: int| 0 <= j < s.len() implies (#[trigger] s[j]).0@ != asset by {
                if j > 0 {
                    assert(s.skip(1)[j - 1] == s[j]);
                }
            }
        } else {
            assert(s[r] == s.skip(1)[r - 1]);
            assert forall|j: int| 0 <= j < r implies (#[trigger] s[j]).0@ != asset by {
                if j > 0 {
                    assert(s.skip(1)[j - 1] == s[j]);
                }
            }
        }
    }
}

/// Characterisation of the position lookup.
pub proof fn lemma_pos_idx_char(s: Seq<Position>, symbol: Seq<char>)
    ensures
        -1 <= pos_idx(s, symbol) < s.len(),
        pos_idx(s, symbol) >= 0 ==> s[pos_idx(s, symbol)].symbol@ == symbol,
        pos_idx(s, symbol) >= 0 ==> forall|j: int|
            0 <= j < pos_idx(s, symbol) ==> (#[trigger] s[j]).symbol@ != symbol,
        pos_idx(s, symbol) == -1 ==> forall|j: int|
            0 <= j < s.len() ==> (#[trigger] s[j]).symbol@ != symbol,
    decreases s.len(),
{
    if s.len() == 0 {
    } else if s[0].symbol@ == symbol {
    } else {
        lemma_pos_idx_char(s.skip(1), symbol);
        let r = pos_idx(s, symbol);
        if pos_idx(s.skip(1), symbol) == -1 {
            assert forall|j: int| 0 <= j < s.len() implies (#[trigger] s[j]).symbol@ != symbol by {
                if j > 0 {
                    assert(s.skip(1)[j - 1] == s[j]);
                }
            }
        } else {
            assert(s[r] == s.skip(1)[r - 1]);
            assert forall|j: int| 0 <= j < r implies (#[trigger] s[j]).symbol@ != symbol by {
                if j > 0 {
                    assert(s.skip(1)[j - 1] == s[j]);
                }
            }
        }
    }
}

/// How `bal_of` reads an updated list: the written value for the
/// updated key (when the update hits its first occurrence), the old
/// value for every other key.
pub proof fn lemma_bal_of_update(s: Seq<(String, Dec)>, i: int, x: (String, Dec), b: Seq<char>)
    requires
        0 <= i < s.len(),
        x.0@ == s[i].0@,
    ensures
        bal_of(s.update(i, x), b) == (if b == s[i].0@ && bal_idx(s, b) == i {
            x.1@
        } else {
            bal_of(s, b)
        }),
    decreases s.len(),
{
    lemma_bal_idx_char(s, b);
    if i == 0 {
        assert(s.update(0, x).skip(1) =~= s.skip(1));
    } else {
        assert(s.update(i, x)[0] == s[0]);
        assert(s.update(i, x).skip(1) =~= s.skip(1).update(i - 1, x));
        lemma_bal_of_update(s.skip(1), i - 1, x, b);
    }
}

/// How `bal_of` reads after appending a fresh entry.
pub proof fn lemma_bal_of_push(s: Seq<(String, Dec)>, x: (String, Dec), b: Seq<char>)
    ensures
        bal_of(s.push(x), b) == (if bal_idx(s, b) == -1 && b == x.0@ {
            x.1@
        } else {
            bal_of(s, b)
        }),
    decreases s.len(),
{
    lemma_bal_idx_char(s, b);
    if s.len() == 0 {
        assert(s.push(x)[0] == x);
        assert(s.push(x).skip(1) =~= Seq::<(String, Dec)>::empty());
        assert(bal_of(Seq::<(String, Dec)>::empty(), b) == 0);
        if x.0@ == b {
            assert(bal_of(s.push(x), b) == x.1@);
        } else {
            assert(bal_of(s.push(x), b) == 0);
        }
    } else {
        assert(s.push(x)[0] == s[0]);
        assert(s.push(x).skip(1) =~= s.skip(1).push(x));
        lemma_bal_of_push(s.skip(1), x, b);
        lemma_bal_idx_char(s.skip(1), b);
        if s[0].0@ == b {
            assert(bal_of(s.push(x), b) == s[0].1@);
            assert(bal_of(s, b) == s[0].1@);
            assert(bal_idx(s, b) == 0);
        } else {
            assert(bal_of(s.push(x), b) == bal_of(s.push(x).skip(1), b));
            assert(s.push(x).skip(1) == s.skip(1).push(x));
            assert(bal_of(s, b) == bal_of(s.skip(1), b));
            assert((bal_idx(s, b) == -1) <==> (bal_idx(s.skip(1), b) == -1));
        }
    }
}

/// How `pos_idx` reads after an update in place (same symbol).
pub proof fn lemma_pos_idx_update(s: Seq<Position>, i: int, x: Position, b: Seq<char>)
    requires
        0 <= i < s.len(),
        x.symbol@ == s[i].symbol@,
    ensures
        pos_idx(s.update(i, x), b) == pos_idx(s, b),
    decreases s.len(),
{
    if i == 0 {
        assert(s.update(0, x).skip(1) =~= s.skip(1));
    } else {
        assert(s.update(i, x)[0] == s[0]);
        assert(s.update(i, x).skip(1) =~= s.skip(1).update(i - 1, x));
        lemma_pos_idx_update(s.skip(1), i - 1, x, b);
    }
}

/// The folded entry price: weighted average when adding to
/// the same side (exactly the fill price onto a flat position), the
/// old entry on a partial close, the fill price on a flip.
pub open spec fn spec_fold_entry(qp: int, ep: int, sp: Side, q: int, price: int, side: Side) -> int {
    if side == sp {
        if qp == 0 {
            price
        } else {
            ddiv(dmul(qp, ep) + dmul(q, price), qp + q)
        }
    } else if q <= qp {
        ep
    } else {
        price
    }
}

/// The folded quantity: grown when adding, shrunk on a close, the
/// overshoot on a flip.
pub open spec fn spec_fold_quantity(qp: int, sp: Side, q: int, side: Side) -> int {
    if side == sp {
        qp + q
    } else if q <= qp {
        qp - q
    } else {
        q - qp
    }
}

/// The folded side: unchanged unless the fill flips the position.
pub open spec fn spec_fold_side(qp: int, sp: Side, q: int, side: Side) -> Side {
    if side == sp || q <= qp {
        sp
    } else {
        side
    }
}

/// Quantity closed by a fill: zero when adding, the incoming
/// quantity on a partial close, the prior quantity on a flip.
pub open spec fn spec_closed_quantity(qp: int, sp: Side, q: int, side: Side) -> int {
    if side == sp {
        0
    } else if q <= qp {
        q
    } else {
        qp
    }
}

/// Realized profit on the closed portion: (fill - entry) * closed for
/// a long being reduced, (entry - fill) * closed for a short.
pub open spec fn spec_realized_pnl(qp: int, ep: int, sp: Side, q: int, price: int, side: Side) -> int {
    let closed = spec_closed_quantity(qp, sp, q, side);
    if sp == Side::Buy {
        dmul(price - ep, closed)
    } else {
        dmul(ep - price, closed)
    }
}

/// One fold of a fill into a position: quantity, entry and side
/// per the add/close/flip rule; realized profit credited into the
/// margin balance (saturating at the representable band) when one is
/// carried; leverage, margin type and the liquidation price refreshed
/// for margin positions.
pub open spec fn spec_fold_position(
    p: Position,
    side: Side,
    q: int,
    price: int,
    position_type: PositionType,
    leverage: Option<Dec>,
    margin_type: Option<MarginType>,
    now: i64,
) -> Position {
    let qp = p.quantity@;
    let ep = p.entry_price@;
    let q1 = spec_fold_quantity(qp, p.side, q, side);
    let e1 = spec_fold_entry(qp, ep, p.side, q, price, side);
    let side1 = spec_fold_side(qp, p.side, q, side);
    let pnl = spec_realized_pnl(qp, ep, p.side, q, price, side);
    let margin1 = if side == p.side {
        p.margin
    } else {
        match p.margin {
            Some(m) => Some(Dec { m: capped(m@ + pnl) as i128 }),
            None => None,
        }
    };
    let set_margin_fields = position_type == PositionType::Margin && leverage is Some
        && margin_type is Some;
    let lev1 = if set_margin_fields {
        leverage
    } else {
        p.leverage
    };
    let mt1 = if set_margin_fields {
        margin_type
    } else {
        p.margin_type
    };
    let liq1 = if set_margin_fields && q1 > 0 {
        Some(
            Dec {
                m: spec_liquidation_price(
                    e1,
                    side1,
                    leverage->Some_0@,
                    margin_type->Some_0,
                ) as i128,
            },
        )
    } else {
        p.liquidation_price
    };
    Position {
        side: side1,
        quantity: (Dec { m: q1 as i128 }),
        entry_price: (Dec { m: e1 as i128 }),
        margin: margin1,
        leverage: lev1,
        margin_type: mt1,
        liquidation_price: liq1,
        updated_at: now,
        ..p
    }
}

/// The position a first fill lands in: flat, with the caller's margin
/// parameters and no margin balance.
pub open spec fn spec_fresh_position(
    user_id: u128,
    symbol: String,
    side: Side,
    position_type: PositionType,
    leverage: Option<Dec>,
    margin_type: Option<MarginType>,
    now: i64,
) -> Position {
    Position {
        user_id,
        symbol,
        side,
        position_type,
        quantity: (Dec { m: 0 }),
        entry_price: (Dec { m: 0 }),
        leverage,
        margin_type,
        margin: None,
        liquidation_price: None,
        updated_at: now,
    }
}

/// A weighted average of two in-range prices stays in range.
pub proof fn lemma_weighted_entry_bound(qp: int, ep: int, q: int, price: int)
    requires
        0 <= qp <= POS_MAX,
        0 <= q <= POS_MAX,
        0 < qp + q,
        0 <= ep <= AMT_MAX,
        0 <= price <= AMT_MAX,
    ensures
        0 <= ddiv(dmul(qp, ep) + dmul(q, price), qp + q) <= AMT_MAX,
{
    let a = qp * ep;
    let b = q * price;
    let sc = SCALE as int;
    assert(0 <= a && 0 <= b && a <= qp * AMT_MAX && b <= q * AMT_MAX) by (nonlinear_arith)
        requires
            a == qp * ep,
            b == q * price,
            0 <= qp,
            0 <= q,
            0 <= ep <= AMT_MAX,
            0 <= price <= AMT_MAX,
    ;
    vstd::arithmetic::div_mod::lemma_div_pos_is_pos(a, sc);
    vstd::arithmetic::div_mod::lemma_div_pos_is_pos(b, sc);
    assert(dmul(qp, ep) == a / sc);
    assert(dmul(q, price) == b / sc);
    let v = a / sc + b / sc;
    vstd::arithmetic::div_mod::lemma_fundamental_div_mod(a, sc);
    vstd::arithmetic::div_mod::lemma_fundamental_div_mod(b, sc);
    assert(v * sc == (a / sc) * sc + (b / sc) * sc) by (nonlinear_arith)
        requires
            v == a / sc + b / sc,
            sc == SCALE as int,
    ;
    assert((a / sc) * sc <= a) by (nonlinear_arith)
        requires
            a == sc * (a / sc) + a % sc,
            0 <= a % sc,
    ;
    assert((b / sc) * sc <= b) by (nonlinear_arith)
        requires
            b == sc * (b / sc) + b % sc,
            0 <= b % sc,
    ;
    assert(a + b <= (qp + q) * AMT_MAX) by (nonlinear_arith)
        requires
            a <= qp * AMT_MAX,
            b <= q * AMT_MAX,
    ;
    assert(v * sc >= 0) by (nonlinear_arith)
        requires
            v >= 0,
            sc > 0,
    ;
    vstd::arithmetic::div_mod::lemma_div_pos_is_pos(v * sc, qp + q);
    vstd::arithmetic::div_mod::lemma_div_is_ordered(v * sc, (qp + q) * AMT_MAX, qp + q);
    vstd::arithmetic::div_mod::lemma_div_multiples_vanish(AMT_MAX as int, qp + q);
    assert((qp + q) * AMT_MAX == AMT_MAX * (qp + q)) by (nonlinear_arith);
    assert(ddiv(v, qp + q) == (v * sc) / (qp + q));
}


/// Weighted-average entry law: adding a same-side fill keeps the
/// position's entry within one rounding step of the exact weighted
/// average — the scaled entry times the new quantity never exceeds
/// the summed cost q_p*e_p + q_i*p_i, and falls short of it by less
/// than the new quantity plus two scale units.
pub proof fn lemma_weighted_entry_envelope(qp: int, ep: int, q: int, price: int)
    requires
        0 < qp <= POS_MAX,
        0 < q <= POS_MAX,
        0 <= ep <= AMT_MAX,
        0 <= price <= AMT_MAX,
    ensures
        ({
            let e1 = ddiv(dmul(qp, ep) + dmul(q, price), qp + q);
            &&& (qp + q) * e1 <= qp * ep + q * price
            &&& qp * ep + q * price < (qp + q) * e1 + (qp + q) + 2 * SCALE
        }),
{
    let a = qp * ep;
    let b = q * price;
    let sc = SCALE as int;
    let qq = qp + q;
    assert(0 <= a && 0 <= b) by (nonlinear_arith)
        requires
            a == qp * ep,
            b == q * price,
            0 <= qp,
            0 <= q,
            0 <= ep,
            0 <= price,
    ;
    vstd::arithmetic::div_mod::lemma_div_pos_is_pos(a, sc);
    vstd::arithmetic::div_mod::lemma_div_pos_is_pos(b, sc);
    assert(dmul(qp, ep) == a / sc);
    assert(dmul(q, price) == b / sc);
    let v = a / sc + b / sc;
    vstd::arithmetic::div_mod::lemma_fundamental_div_mod(a, sc);
    vstd::arithmetic::div_mod::lemma_fundamental_div_mod(b, sc);
    assert(v * sc == (a / sc) * sc + (b / sc) * sc) by (nonlinear_arith)
        requires
            v == a / sc + b / sc,
    ;
    assert((a / sc) * sc <= a && a < (a / sc) * sc + sc) by (nonlinear_arith)
        requires
            a == sc * (a / sc) + a % sc,
            0 <= a % sc < sc,
    ;
    assert((b / sc) * sc <= b && b < (b / sc) * sc + sc) by (nonlinear_arith)
        requires
            b == sc * (b / sc) + b % sc,
            0 <= b % sc < sc,
    ;
    assert(v * sc <= a + b);
    assert(a + b < v * sc + 2 * sc);
    assert(v * sc >= 0) by (nonlinear_arith)
        requires
            v >= 0,
            sc > 0,
    ;
    let e1 = (v * sc) / qq;
    vstd::arithmetic::div_mod::lemma_fundamental_div_mod(v * sc, qq);
    assert(qq * e1 <= v * sc && v * sc < qq * e1 + qq) by (nonlinear_arith)
        requires
            v * sc == qq * ((v * sc) / qq) + (v * sc) % qq,
            0 <= (v * sc) % qq < qq,
            e1 == (v * sc) / qq,
    ;
    assert(ddiv(v, qq) == e1);
    assert(qq * e1 == (qp + q) * e1) by (nonlinear_arith)
        requires
            qq == qp + q,
    ;
}

/// Exact `==` test between a held `String` and a borrowed `&str`.
fn str_eq(a: &String, b: &str) -> (r: bool)
    ensures
        r == (a@ == b@),
{
    let bs = String::from_str(b);
    *a == bs
}

/// Outcome of the margin pre-check: nothing to check without
/// leverage and a margin type; otherwise the quote balance must cover
/// the required margin, and when a margin position already exists on
/// the symbol, the hypothetical post-fill position — entry and side
/// both given by the add/close/flip fold — must not already be
/// liquidated at the current price.
pub open spec fn spec_check_margin(
    a: Account,
    o: Order,
    current: int,
    margin_type: Option<MarginType>,
) -> Result<(), OrderError> {
    if o.leverage is None || margin_type is None {
        Ok(())
    } else {
        let lev = o.leverage->Some_0@;
        let mt = margin_type->Some_0;
        let rm = spec_required_margin(o.quantity@, o.price@, lev, mt);
        if bal_of(a.balances@, "USDT"@) < rm {
            Err(OrderError::InsufficientBalance)
        } else {
            let i = pos_idx(a.positions@, o.symbol@);
            if i >= 0 && a.positions@[i].position_type == PositionType::Margin {
                let p = a.positions@[i];
                let e1 = spec_fold_entry(
                    p.quantity@,
                    p.entry_price@,
                    p.side,
                    o.quantity@,
                    o.price@,
                    o.side,
                );
                let s1 = spec_fold_side(p.quantity@, p.side, o.quantity@, o.side);
                if spec_is_liquidated(current, e1, s1, lev, mt) {
                    Err(OrderError::WouldLiquidate)
                } else {
                    Ok(())
                }
            } else {
                Ok(())
            }
        }
    }
}


/// First index of a position on a symbol, if any.
fn position_index(ps: &Vec<Position>, symbol: &String) -> (r: Option<usize>)
    ensures
        match r {
            Some(i) => 0 <= i < ps@.len() && pos_idx(ps@, symbol@) == i as int,
            None => pos_idx(ps@, symbol@) == -1,
        },
{
    proof {
        lemma_pos_idx_char(ps@, symbol@);
    }
    let ghost s0 = ps@;
    let n = ps.len();
    let mut i: usize = 0;
    loop
        invariant
            0 <= i <= n,
            n == ps@.len(),
            ps@ == s0,
            forall|j: int| 0 <= j < i ==> (#[trigger] s0[j]).symbol@ != symbol@,
        ensures
            ps@ == s0,
            i <= n,
            i < n ==> s0[i as int].symbol@ == symbol@,
            i == n ==> forall|j: int| 0 <= j < n ==> (#[trigger] s0[j]).symbol@ != symbol@,
        decreases n - i,
    {
        if i == n {
            break;
        }
        if ps[i].symbol == *symbol {
            break;
        }
        i = i + 1;
    }
    if i == n {
        proof {
            assert(pos_idx(s0, symbol@) == -1);
        }
        None
    } else {
        proof {
            let f = pos_idx(s0, symbol@);
            if f < i as int {
                assert(s0[f].symbol@ != symbol@);
                assert(false);
            }
            if f > i as int {
                assert(s0[i as int].symbol@ != symbol@);
                assert(false);
            }
        }
        Some(i)
    }
}

/// The folded entry price, executable form of `spec_fold_entry`.
fn fold_entry_exec(qp: Dec, ep: Dec, sp: Side, q: Dec, price: Dec, side: Side) -> (r: Dec)
    requires
        0 <= qp@ <= POS_MAX,
        0 <= ep@ <= AMT_MAX,
        0 <= q@ <= AMT_MAX,
        0 <= price@ <= AMT_MAX,
    ensures
        r@ == spec_fold_entry(qp@, ep@, sp, q@, price@, side),
        0 <= r@ <= AMT_MAX,
{
    if side == sp {
        if qp.m == 0 {
            price
        } else {
            proof {
                assert(0 <= qp@ * ep@ <= POS_MAX as int * AMT_MAX as int) by (nonlinear_arith)
                    requires
                        0 <= qp@ <= POS_MAX as int,
                        0 <= ep@ <= AMT_MAX as int,
                ;
                assert(0 <= q@ * price@ <= POS_MAX as int * AMT_MAX as int) by (nonlinear_arith)
                    requires
                        0 <= q@ <= AMT_MAX as int,
                        0 <= price@ <= AMT_MAX as int,
                        AMT_MAX < POS_MAX,
                ;
                vstd::arithmetic::div_mod::lemma_div_pos_is_pos(qp@ * ep@, SCALE as int);
                vstd::arithmetic::div_mod::lemma_div_pos_is_pos(q@ * price@, SCALE as int);
                vstd::arithmetic::div_mod::lemma_div_is_ordered(
                    qp@ * ep@,
                    POS_MAX as int * AMT_MAX as int,
                    SCALE as int,
                );
                vstd::arithmetic::div_mod::lemma_div_is_ordered(
                    q@ * price@,
                    POS_MAX as int * AMT_MAX as int,
                    SCALE as int,
                );
                lemma_weighted_entry_bound(qp@, ep@, q@, price@);
            }
            let total = qp.mul(ep).add(q.mul(price));
            total.div(qp.add(q))
        }
    } else if q.le(qp) {
        ep
    } else {
        price
    }
}

/// One position fold in executable form; requires that an addition
/// stays
/// inside the representable position size.
fn fold_position(
    p: Position,
    side: Side,
    quantity: Dec,
    entry_price: Dec,
    position_type: PositionType,
    leverage: &Option<Dec>,
    margin_type: &Option<MarginType>,
    now: i64,
) -> (r: Position)
    requires
        p.wf(),
        0 < quantity@ <= AMT_MAX,
        0 <= entry_price@ <= AMT_MAX,
        0 <= now,
        match leverage {
            Some(l) => SCALE < l@ <= AMT_MAX,
            None => true,
        },
        side == p.side ==> p.quantity@ + quantity@ <= POS_MAX,
    ensures
        r == spec_fold_position(
            p,
            side,
            quantity@,
            entry_price@,
            position_type,
            *leverage,
            *margin_type,
            now,
        ),
        r.wf(),
        r.user_id == p.user_id,
        r.symbol@ == p.symbol@,
{
    let qp = p.quantity;
    let ep = p.entry_price;
    let e1 = fold_entry_exec(qp, ep, p.side, quantity, entry_price, side);
    let adding = side == p.side;
    let q1 = if adding {
        qp.add(quantity)
    } else if quantity.le(qp) {
        qp.sub(quantity)
    } else {
        quantity.sub(qp)
    };
    let side1 = if adding || quantity.le(qp) {
        p.side
    } else {
        side
    };
    let margin1 = if adding {
        p.margin
    } else {
        let closed = if quantity.le(qp) {
            quantity
        } else {
            qp
        };
        proof {
            assert(-(2 * AMT_MAX as int * AMT_MAX as int) <= (entry_price@ - ep@) * closed@ <= 2
                * AMT_MAX as int * AMT_MAX as int) by (nonlinear_arith)
                requires
                    -(AMT_MAX as int) <= entry_price@ - ep@ <= AMT_MAX as int,
                    0 <= closed@ <= AMT_MAX as int,
            ;
            crate::decimal::lemma_tdiv_magnitude((entry_price@ - ep@) * closed@, SCALE as int);
            crate::decimal::lemma_tdiv_magnitude((ep@ - entry_price@) * closed@, SCALE as int);
            assert(-(2 * AMT_MAX as int * AMT_MAX as int) <= (ep@ - entry_price@) * closed@ <= 2
                * AMT_MAX as int * AMT_MAX as int) by (nonlinear_arith)
                requires
                    -(AMT_MAX as int) <= ep@ - entry_price@ <= AMT_MAX as int,
                    0 <= closed@ <= AMT_MAX as int,
            ;
        }
        let pnl = if p.side == Side::Buy {
            entry_price.sub(ep).mul(closed)
        } else {
            ep.sub(entry_price).mul(closed)
        };
        match p.margin {
            Some(m) => Some(m.cap_add(pnl)),
            None => None,
        }
    };
    let set_margin_fields = position_type == PositionType::Margin && leverage.is_some()
        && margin_type.is_some();
    let lev1 = if set_margin_fields {
        *leverage
    } else {
        p.leverage
    };
    let mt1 = if set_margin_fields {
        *margin_type
    } else {
        p.margin_type
    };
    let liq1 = if set_margin_fields && q1.m > 0 {
        let lv = match leverage {
            Some(l) => *l,
            None => Dec::one(),
        };
        let mt = match margin_type {
            Some(m) => *m,
            None => MarginType::Isolated,
        };
        Some(MarginCalculator::calculate_liquidation_price(e1, side1, lv, mt))
    } else {
        p.liquidation_price
    };
    Position {
        side: side1,
        quantity: q1,
        entry_price: e1,
        margin: margin1,
        leverage: lev1,
        margin_type: mt1,
        liquidation_price: liq1,
        updated_at: now,
        ..p
    }
}

impl Account {
    /// Machine-range well-formedness: every balance inside the
    /// representable band and non-negative, every position
    /// well-formed and owned by this account.
    pub open spec fn wf(&self) -> bool {
        &&& forall|i: int|
            0 <= i < self.balances@.len() ==> 0 <= (#[trigger] self.balances@[i]).1@ <= BAL_MAX
        &&& forall|i: int|
            0 <= i < self.positions@.len() ==> (#[trigger] self.positions@[i]).wf()
                && self.positions@[i].user_id == self.user_id
    }

    /// A fresh account with no balances and no positions.
    pub fn new(user_id: u128) -> (r: Account)
        ensures
            r.user_id == user_id,
            r.balances@.len() == 0,
            r.positions@.len() == 0,
            r.wf(),
    {
        Account { user_id, balances: Vec::new(), positions: Vec::new() }
    }

    /// Adds to the balance of one asset; other assets and the
    /// positions are untouched.
    pub fn deposit(&mut self, asset: String, amount: Dec)
        requires
            old(self).wf(),
            0 <= amount@,
            bal_of(old(self).balances@, asset@) + amount@ <= BAL_MAX,
        ensures
            final(self).wf(),
            final(self).user_id == old(self).user_id,
            final(self).positions@ == old(self).positions@,
            bal_of(final(self).balances@, asset@) == bal_of(old(self).balances@, asset@)
                + amount@,
            forall|b: Seq<char>|
                b != asset@ ==> bal_of(final(self).balances@, b) == bal_of(
                    old(self).balances@,
                    b,
                ),
    {
        proof {
            lemma_bal_idx_char(old(self).balances@, asset@);
        }
        let ghost s0 = self.balances@;
        let n = self.balances.len();
        let mut i: usize = 0;
        loop
            invariant
                0 <= i <= n,
                n == self.balances@.len(),
                self.balances@ == s0,
                forall|j: int| 0 <= j < i ==> (#[trigger] s0[j]).0@ != asset@,
            ensures
                self.balances@ == s0,
                i <= n,
                i < n ==> s0[i as int].0@ == asset@,
                i == n ==> forall|j: int| 0 <= j < n ==> (#[trigger] s0[j]).0@ != asset@,
            decreases n - i,
        {
            if i == n {
                break;
            }
            if self.balances[i].0 == asset {
                break;
            }
            i = i + 1;
        }
        if i == n {
            proof {
                assert(bal_idx(s0, asset@) == -1);
            }
            self.balances.push((asset, amount));
            proof {
                assert(bal_of(self.balances@, asset@) == amount@) by {
                    lemma_bal_of_push(s0, (self.balances@[n as int].0, amount), asset@);
                    assert(self.balances@[n as int].0@ == asset@);
                }
                assert forall|b: Seq<char>|
                    b != asset@ implies bal_of(self.balances@, b) == bal_of(s0, b) by {
                    lemma_bal_of_push(s0, self.balances@[n as int], b);
                }
            }
        } else {
            proof {
                let f = bal_idx(s0, asset@);
                if f < i as int {
                    assert(s0[f].0@ != asset@);
                    assert(false);
                }
                if f > i as int {
                    assert(s0[i as int].0@ != asset@);
                    assert(false);
                }
            }
            let entry = self.balances.remove(i);
            let new_bal = entry.1.add(amount);
            self.balances.insert(i, (entry.0, new_bal));
            proof {
                let x = self.balances@[i as int];
                assert(self.balances@ =~= s0.update(i as int, x));
                lemma_bal_of_update(s0, i as int, x, asset@);
                assert forall|b: Seq<char>|
                    b != asset@ implies bal_of(self.balances@, b) == bal_of(s0, b) by {
                    lemma_bal_of_update(s0, i as int, x, b);
                }
            }
        }
    }


    /// Subtracts from the balance of one asset (collateral locking);
    /// other assets and the positions are untouched.
    pub fn debit(&mut self, asset: &str, amount: Dec)
        requires
            old(self).wf(),
            0 <= amount@ <= bal_of(old(self).balances@, asset@),
        ensures
            final(self).wf(),
            final(self).user_id == old(self).user_id,
            final(self).positions@ == old(self).positions@,
            bal_of(final(self).balances@, asset@) == bal_of(old(self).balances@, asset@)
                - amount@,
            forall|b: Seq<char>|
                b != asset@ ==> bal_of(final(self).balances@, b) == bal_of(
                    old(self).balances@,
                    b,
                ),
    {
        proof {
            lemma_bal_idx_char(old(self).balances@, asset@);
        }
        let ghost s0 = self.balances@;
        let n = self.balances.len();
        let mut i: usize = 0;
        loop
            invariant
                0 <= i <= n,
                n == self.balances@.len(),
                self.balances@ == s0,
                forall|j: int| 0 <= j < i ==> (#[trigger] s0[j]).0@ != asset@,
            ensures
                self.balances@ == s0,
                i <= n,
                i < n ==> s0[i as int].0@ == asset@,
                i == n ==> forall|j: int| 0 <= j < n ==> (#[trigger] s0[j]).0@ != asset@,
            decreases n - i,
        {
            if i == n {
                break;
            }
            if str_eq(&self.balances[i].0, asset) {
                break;
            }
            i = i + 1;
        }
        if i == n {
            proof {
                assert(bal_idx(s0, asset@) == -1);
                assert(bal_of(s0, asset@) == 0);
            }
            // the asset is unknown, so its balance is 0 and the only
            // admissible amount is 0: nothing to do
        } else {
            proof {
                let f = bal_idx(s0, asset@);
                if f < i as int {
                    assert(s0[f].0@ != asset@);
                    assert(false);
                }
                if f > i as int {
                    assert(s0[i as int].0@ != asset@);
                    assert(false);
                }
            }
            let entry = self.balances.remove(i);
            let new_bal = entry.1.sub(amount);
            self.balances.insert(i, (entry.0, new_bal));
            proof {
                let x = self.balances@[i as int];
                assert(self.balances@ =~= s0.update(i as int, x));
                lemma_bal_of_update(s0, i as int, x, asset@);
                assert forall|b: Seq<char>|
                    b != asset@ implies bal_of(self.balances@, b) == bal_of(s0, b) by {
                    lemma_bal_of_update(s0, i as int, x, b);
                }
            }
        }
    }


    /// Adds to the balance of one asset, saturating at the
    /// representable band (collateral refund); other assets and the
    /// positions are untouched.
    pub fn credit(&mut self, asset: &str, amount: Dec)
        requires
            old(self).wf(),
            0 <= amount@ <= 2 * BAL_MAX,
        ensures
            final(self).wf(),
            final(self).user_id == old(self).user_id,
            final(self).positions@ == old(self).positions@,
            bal_of(final(self).balances@, asset@) == crate::decimal::capped(
                bal_of(old(self).balances@, asset@) + amount@,
            ),
            forall|b: Seq<char>|
                b != asset@ ==> bal_of(final(self).balances@, b) == bal_of(
                    old(self).balances@,
                    b,
                ),
    {
        proof {
            lemma_bal_idx_char(old(self).balances@, asset@);
        }
        let ghost s0 = self.balances@;
        let n = self.balances.len();
        let mut i: usize = 0;
        loop
            invariant
                0 <= i <= n,
                n == self.balances@.len(),
                self.balances@ == s0,
                forall|j: int| 0 <= j < i ==> (#[trigger] s0[j]).0@ != asset@,
            ensures
                self.balances@ == s0,
                i <= n,
                i < n ==> s0[i as int].0@ == asset@,
                i == n ==> forall|j: int| 0 <= j < n ==> (#[trigger] s0[j]).0@ != asset@,
            decreases n - i,
        {
            if i == n {
                break;
            }
            if str_eq(&self.balances[i].0, asset) {
                break;
            }
            i = i + 1;
        }
        if i == n {
            proof {
                assert(bal_idx(s0, asset@) == -1);
                assert(bal_of(s0, asset@) == 0);
            }
            let capped_amount = Dec::zero().cap_add(amount);
            self.balances.push((String::from_str(asset), capped_amount));
            proof {
                assert(bal_of(self.balances@, asset@) == capped_amount@) by {
                    lemma_bal_of_push(s0, (self.balances@[n as int].0, capped_amount), asset@);
                    assert(self.balances@[n as int].0@ == asset@);
                }
                assert forall|b: Seq<char>|
                    b != asset@ implies bal_of(self.balances@, b) == bal_of(s0, b) by {
                    lemma_bal_of_push(s0, self.balances@[n as int], b);
                }
            }
        } else {
            proof {
                let f = bal_idx(s0, asset@);
                if f < i as int {
                    assert(s0[f].0@ != asset@);
                    assert(false);
                }
                if f > i as int {
                    assert(s0[i as int].0@ != asset@);
                    assert(false);
                }
            }
            let entry = self.balances.remove(i);
            let new_bal = entry.1.cap_add(amount);
            self.balances.insert(i, (entry.0, new_bal));
            proof {
                let x = self.balances@[i as int];
                assert(self.balances@ =~= s0.update(i as int, x));
                lemma_bal_of_update(s0, i as int, x, asset@);
                assert forall|b: Seq<char>|
                    b != asset@ implies bal_of(self.balances@, b) == bal_of(s0, b) by {
                    lemma_bal_of_update(s0, i as int, x, b);
                }
            }
        }
    }

    /// Reads the balance of an asset without changing it: settlement
    /// of an actual withdrawal belongs to an external collaborator.
    pub fn withdraw(&mut self, asset: String) -> (r: Dec)
        ensures
            *final(self) == *old(self),
            r@ == bal_of(old(self).balances@, asset@),
    {
        self.get_balance(asset.as_str())
    }

    /// The balance held in an asset; 0 for an unknown asset.
    pub fn get_balance(&self, asset: &str) -> (r: Dec)
        ensures
            r@ == bal_of(self.balances@, asset@),
    {
        let ghost s0 = self.balances@;
        let n = self.balances.len();
        let mut i: usize = 0;
        loop
            invariant
                0 <= i <= n,
                n == s0.len(),
                self.balances@ == s0,
                forall|j: int| 0 <= j < i ==> (#[trigger] s0[j]).0@ != asset@,
            ensures
                self.balances@ == s0,
                i <= n,
                i < n ==> s0[i as int].0@ == asset@,
                i == n ==> forall|j: int| 0 <= j < n ==> (#[trigger] s0[j]).0@ != asset@,
            decreases n - i,
        {
            if i == n {
                break;
            }
            if str_eq(&self.balances[i].0, asset) {
                break;
            }
            i = i + 1;
        }
        proof {
            lemma_bal_idx_char(s0, asset@);
            let f = bal_idx(s0, asset@);
            if i == n {
                assert(f == -1);
            } else {
                if f < i as int {
                    assert(s0[f].0@ != asset@);
                    assert(false);
                }
                if f > i as int {
                    assert(s0[i as int].0@ != asset@);
                    assert(false);
                }
            }
        }
        if i == n {
            Dec::zero()
        } else {
            self.balances[i].1
        }
    }

    /// Folds a fill into this account's position on a symbol,
    /// creating the position on first touch, exactly as
    /// `spec_fold_position` describes; every other position and all
    /// balances stay as they were.  Refuses only a fill that would
    /// grow a position past the representable size.
    pub fn update_position(
        &mut self,
        symbol: String,
        side: Side,
        quantity: Dec,
        entry_price: Dec,
        position_type: PositionType,
        leverage: &Option<Dec>,
        margin_type: &Option<MarginType>,
        now: i64,
    ) -> (r: Result<(), OrderError>)
        requires
            old(self).wf(),
            0 < quantity@ <= AMT_MAX,
            0 <= entry_price@ <= AMT_MAX,
            0 <= now,
            match leverage {
                Some(l) => SCALE < l@ <= AMT_MAX,
                None => true,
            },
        ensures
            final(self).wf(),
            final(self).user_id == old(self).user_id,
            final(self).balances@ == old(self).balances@,
            ({
                let ps0 = old(self).positions@;
                let i = pos_idx(ps0, symbol@);
                let base = if i >= 0 {
                    ps0[i]
                } else {
                    spec_fresh_position(
                        old(self).user_id,
                        symbol,
                        side,
                        position_type,
                        *leverage,
                        *margin_type,
                        now,
                    )
                };
                let grow = side == base.side && base.quantity@ + quantity@ > POS_MAX;
                let folded = spec_fold_position(
                    base,
                    side,
                    quantity@,
                    entry_price@,
                    position_type,
                    *leverage,
                    *margin_type,
                    now,
                );
                match r {
                    Result::Ok(u) => !grow && final(self).positions@ == (if i >= 0 {
                        ps0.update(i, folded)
                    } else {
                        ps0.push(folded)
                    }),
                    Result::Err(e) => e == OrderError::InvalidOrder && grow
                        && *final(self) == *old(self),
                }
            }),
    {
        let ghost ps0 = self.positions@;
        match position_index(&self.positions, &symbol) {
            Some(i) => {
                proof {
                    assert(self.positions@[i as int].wf());
                }
                if side == self.positions[i].side && self.positions[i].quantity.m + quantity.m
                    > POS_MAX {
                    return Err(OrderError::InvalidOrder);
                }
                let p = self.positions.remove(i);
                let p1 = fold_position(
                    p,
                    side,
                    quantity,
                    entry_price,
                    position_type,
                    leverage,
                    margin_type,
                    now,
                );
                self.positions.insert(i, p1);
                proof {
                    assert(self.positions@ =~= ps0.update(i as int, p1));
                    assert forall|j: int|
                        0 <= j < self.positions@.len() implies (
                    #[trigger] self.positions@[j]).wf() && self.positions@[j].user_id
                        == self.user_id by {
                        if j != i as int {
                            assert(self.positions@[j] == ps0[j]);
                        }
                    }
                }
                Ok(())
            },
            None => {
                let fresh = Position {
                    user_id: self.user_id,
                    symbol,
                    side,
                    position_type,
                    quantity: Dec::zero(),
                    entry_price: Dec::zero(),
                    leverage: *leverage,
                    margin_type: *margin_type,
                    margin: None,
                    liquidation_price: None,
                    updated_at: now,
                };
                let p1 = fold_position(
                    fresh,
                    side,
                    quantity,
                    entry_price,
                    position_type,
                    leverage,
                    margin_type,
                    now,
                );
                self.positions.push(p1);
                proof {
                    assert(self.positions@ =~= ps0.push(p1));
                    assert forall|j: int|
                        0 <= j < self.positions@.len() implies (
                    #[trigger] self.positions@[j]).wf() && self.positions@[j].user_id
                        == self.user_id by {
                        if j < ps0.len() {
                            assert(self.positions@[j] == ps0[j]);
                        }
                    }
                }
                Ok(())
            },
        }
    }

    /// The margin pre-check, exactly `spec_check_margin`:
    /// nothing is checked without leverage and a margin type; else the
    /// quote balance must cover the required margin and, when a margin
    /// position already exists on the symbol, the hypothetical
    /// post-fill entry must not be liquidated at the current price.
    pub fn check_margin_requirements(
        &self,
        order: &Order,
        current_price: Dec,
        margin_type: Option<MarginType>,
    ) -> (r: Result<(), OrderError>)
        requires
            self.wf(),
            order.valid(),
            0 <= current_price@ <= AMT_MAX,
        ensures
            r == spec_check_margin(*self, *order, current_price@, margin_type),
    {
        let (lev, mt) = match (&order.leverage, margin_type) {
            (Some(l), Some(m)) => (*l, m),
            _ => {
                return Ok(());
            },
        };
        let rm = MarginCalculator::calculate_required_margin(order.quantity, order.price, lev, mt);
        let bal = self.get_balance("USDT");
        if bal.lt(rm) {
            return Err(OrderError::InsufficientBalance);
        }
        match position_index(&self.positions, &order.symbol) {
            Some(i) => {
                proof {
                    assert(self.positions@[i as int].wf());
                }
                let p = &self.positions[i];
                if p.position_type == PositionType::Margin {
                    let e1 = fold_entry_exec(
                        p.quantity,
                        p.entry_price,
                        p.side,
                        order.quantity,
                        order.price,
                        order.side,
                    );
                    let s1 = if order.side == p.side || order.quantity.le(p.quantity) {
                        p.side
                    } else {
                        order.side
                    };
                    if MarginCalculator::is_position_liquidated(
                        current_price,
                        e1,
                        s1,
                        lev,
                        mt,
                    ) {
                        return Err(OrderError::WouldLiquidate);
                    }
                }
                Ok(())
            },
            None => Ok(()),
        }
    }

}

} // verus!
