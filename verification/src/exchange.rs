//! The venue orchestrator: routes placements through the margin
//! check, collateral lock, book matching, and per-trade position
//! settlement; runs funding across all symbols and accounts.

use vstd::prelude::*;
use crate::account::{
    bal_of, pos_idx, spec_fold_position, spec_fresh_position, spec_check_margin,
};
use crate::decimal::{Dec, AMT_MAX, POS_MAX, SCALE};
use crate::funding::{spec_funding_rate, FundingCalculator, RATE_LIMIT};
use crate::margin::{spec_required_margin, MarginCalculator};
use crate::models::{
    Account, FundingRate, MarginType, Order, OrderBook, OrderError, Position, PositionType, Side,
    Trade,
};
use crate::orderbook::{lemma_match_fill_bounds, spec_add_ok, spec_rejected, Execution};

verus! {

/// How old market data may be before the venue refuses to act on it,
/// in milliseconds.
pub const STALE_MS: i64 = 30_000;

/// Per-symbol oracle snapshot: mark and index prices, open interest
/// per side, and when it was last refreshed.
#[derive(Clone, Debug)]
pub struct MarketData {
    pub symbol: String,
    pub mark_price: Dec,
    pub index_price: Dec,
    pub open_interest_long: Dec,
    pub open_interest_short: Dec,
    pub last_update: i64,
}

impl MarketData {
    /// Machine-range well-formedness of a snapshot.
    pub open spec fn wf(&self) -> bool {
        &&& 0 <= self.mark_price@ <= AMT_MAX
        &&& 0 <= self.index_price@ <= AMT_MAX
        &&& 0 <= self.open_interest_long@ <= AMT_MAX
        &&& 0 <= self.open_interest_short@ <= AMT_MAX
        &&& 0 <= self.last_update
    }
}

/// The whole venue: accounts, one book and one market-data snapshot
/// per configured symbol, the funding calculator, and last trade
/// prices.
pub struct Exchange {
    pub accounts: Vec<Account>,
    pub order_books: Vec<OrderBook>,
    pub funding_calculator: FundingCalculator,
    pub symbols: Vec<String>,
    pub market_data: Vec<MarketData>,
    pub last_trade_prices: Vec<Dec>,
    pub quote_asset: String,
}

/// Index of the first symbol equal to `s`, or -1.
pub open spec fn sym_idx(symbols: Seq<String>, s: Seq<char>) -> int
    decreases symbols.len(),
{
    if symbols.len() == 0 {
        -1
    } else if symbols[0]@ == s {
        0
    } else if sym_idx(symbols.skip(1), s) == -1 {
        -1
    } else {
        1 + sym_idx(symbols.skip(1), s)
    }
}

/// Index of the first account of a user, or -1.
pub open spec fn acct_idx(accounts: Seq<Account>, user: u128) -> int
    decreases accounts.len(),
{
    if accounts.len() == 0 {
        -1
    } else if accounts[0].user_id == user {
        0
    } else if acct_idx(accounts.skip(1), user) == -1 {
        -1
    } else {
        1 + acct_idx(accounts.skip(1), user)
    }
}

/// Characterisation of the symbol lookup.
pub proof fn lemma_sym_idx_char(symbols: Seq<String>, s: Seq<char>)
    ensures
        -1 <= sym_idx(symbols, s) < symbols.len(),
        sym_idx(symbols, s) >= 0 ==> symbols[sym_idx(symbols, s)]@ == s,
        sym_idx(symbols, s) >= 0 ==> forall|j: int|
            0 <= j < sym_idx(symbols, s) ==> (#[trigger] symbols[j])@ != s,
        sym_idx(symbols, s) == -1 ==> forall|j: int|
            0 <= j < symbols.len() ==> (#[trigger] symbols[j])@ != s,
    decreases symbols.len(),
{
    if symbols.len() == 0 {
    } else if symbols[0]@ == s {
    } else {
        lemma_sym_idx_char(symbols.skip(1), s);
        let r = sym_idx(symbols, s);
        if sym_idx(symbols.skip(1), s) == -1 {
            assert forall|j: int| 0 <= j < symbols.len() implies (#[trigger] symbols[j])@ != s by {
                if j > 0 {
                    assert(symbols.skip(1)[j - 1] == symbols[j]);
                }
            }
        } else {
            assert(symbols[r] == symbols.skip(1)[r - 1]);
            assert forall|j: int| 0 <= j < r implies (#[trigger] symbols[j])@ != s by {
                if j > 0 {
                    assert(symbols.skip(1)[j - 1] == symbols[j]);
                }
            }
        }
    }
}

/// Characterisation of the account lookup.
pub proof fn lemma_acct_idx_char(accounts: Seq<Account>, user: u128)
    ensures
        -1 <= acct_idx(accounts, user) < accounts.len(),
        acct_idx(accounts, user) >= 0 ==> accounts[acct_idx(accounts, user)].user_id == user,
        acct_idx(accounts, user) >= 0 ==> forall|j: int|
            0 <= j < acct_idx(accounts, user) ==> (#[trigger] accounts[j]).user_id != user,
        acct_idx(accounts, user) == -1 ==> forall|j: int|
            0 <= j < accounts.len() ==> (#[trigger] accounts[j]).user_id != user,
    decreases accounts.len(),
{
    if accounts.len() == 0 {
    } else if accounts[0].user_id == user {
    } else {
        lemma_acct_idx_char(accounts.skip(1), user);
        let r = acct_idx(accounts, user);
        if acct_idx(accounts.skip(1), user) == -1 {
            assert forall|j: int|
                0 <= j < accounts.len() implies (#[trigger] accounts[j]).user_id != user by {
                if j > 0 {
                    assert(accounts.skip(1)[j - 1] == accounts[j]);
                }
            }
        } else {
            assert(accounts[r] == accounts.skip(1)[r - 1]);
            assert forall|j: int| 0 <= j < r implies (#[trigger] accounts[j]).user_id != user by {
                if j > 0 {
                    assert(accounts.skip(1)[j - 1] == accounts[j]);
                }
            }
        }
    }
}

/// One user's account list transition for one fill: the position on
/// the fill's symbol is folded by the add/close/flip rule (created
/// on first touch), the
/// account is created when the user has none, and nothing else moves.
pub open spec fn spec_settled(
    pre: Seq<Account>,
    post: Seq<Account>,
    user: u128,
    symbol: String,
    side: Side,
    q: int,
    price: int,
    lev: Option<Dec>,
    now: i64,
) -> bool {
    let i = acct_idx(pre, user);
    let base_positions = if i >= 0 {
        pre[i].positions@
    } else {
        Seq::<Position>::empty()
    };
    let pi = pos_idx(base_positions, symbol@);
    let base = if pi >= 0 {
        base_positions[pi]
    } else {
        spec_fresh_position(
            user,
            symbol,
            side,
            PositionType::Margin,
            lev,
            Some(MarginType::Isolated),
            now,
        )
    };
    let folded = spec_fold_position(
        base,
        side,
        q,
        price,
        PositionType::Margin,
        lev,
        Some(MarginType::Isolated),
        now,
    );
    let new_positions = if pi >= 0 {
        base_positions.update(pi, folded)
    } else {
        base_positions.push(folded)
    };
    if i >= 0 {
        &&& post.len() == pre.len()
        &&& forall|j: int| 0 <= j < pre.len() && j != i ==> post[j] == pre[j]
        &&& post[i].user_id == pre[i].user_id
        &&& post[i].balances@ == pre[i].balances@
        &&& post[i].positions@ == new_positions
    } else {
        &&& post.len() == pre.len() + 1
        &&& forall|j: int| 0 <= j < pre.len() ==> post[j] == pre[j]
        &&& post.last().user_id == user
        &&& post.last().balances@.len() == 0
        &&& post.last().positions@ == Seq::<Position>::empty().push(folded)
    }
}

/// Whether settling this fill would grow the user's position past the
/// representable size.
pub open spec fn spec_settle_grows(
    pre: Seq<Account>,
    user: u128,
    symbol: String,
    side: Side,
    q: int,
    lev: Option<Dec>,
    now: i64,
) -> bool {
    let i = acct_idx(pre, user);
    let base_positions = if i >= 0 {
        pre[i].positions@
    } else {
        Seq::<Position>::empty()
    };
    let pi = pos_idx(base_positions, symbol@);
    let base = if pi >= 0 {
        base_positions[pi]
    } else {
        spec_fresh_position(
            user,
            symbol,
            side,
            PositionType::Margin,
            lev,
            Some(MarginType::Isolated),
            now,
        )
    };
    side == base.side && base.quantity@ + q > POS_MAX
}

/// Both parties of an execution settled in order: first the buyer's
/// buy fill, then the seller's sell fill, each per `spec_settled`.
pub open spec fn spec_processed(
    pre: Seq<Account>,
    post: Seq<Account>,
    ex: Execution,
    taker_user: u128,
    taker_side: Side,
    taker_lev: Option<Dec>,
    now: i64,
) -> bool {
    let buyer = if taker_side == Side::Buy {
        taker_user
    } else {
        ex.maker_user_id
    };
    let buyer_lev = if taker_side == Side::Buy {
        taker_lev
    } else {
        ex.maker_leverage
    };
    let seller = if taker_side == Side::Buy {
        ex.maker_user_id
    } else {
        taker_user
    };
    let seller_lev = if taker_side == Side::Buy {
        ex.maker_leverage
    } else {
        taker_lev
    };
    exists|mid: Seq<Account>|
        #![trigger mid.len()]
        spec_settled(
            pre,
            mid,
            buyer,
            ex.trade.symbol,
            Side::Buy,
            ex.trade.quantity@,
            ex.trade.price@,
            buyer_lev,
            now,
        ) && spec_settled(
            mid,
            post,
            seller,
            ex.trade.symbol,
            Side::Sell,
            ex.trade.quantity@,
            ex.trade.price@,
            seller_lev,
            now,
        )
}

/// How a refused execution leaves the accounts: the buyer's
/// settlement would grow a position past the representable size and
/// nothing changed, or the buyer settled and the seller's settlement
/// would — the accounts then hold exactly the buyer's fill.
pub open spec fn spec_process_failed(
    pre: Seq<Account>,
    post: Seq<Account>,
    ex: Execution,
    taker_user: u128,
    taker_side: Side,
    taker_lev: Option<Dec>,
    now: i64,
) -> bool {
    let buyer = if taker_side == Side::Buy {
        taker_user
    } else {
        ex.maker_user_id
    };
    let buyer_lev = if taker_side == Side::Buy {
        taker_lev
    } else {
        ex.maker_leverage
    };
    let seller = if taker_side == Side::Buy {
        ex.maker_user_id
    } else {
        taker_user
    };
    let seller_lev = if taker_side == Side::Buy {
        ex.maker_leverage
    } else {
        taker_lev
    };
    ||| (spec_settle_grows(
        pre,
        buyer,
        ex.trade.symbol,
        Side::Buy,
        ex.trade.quantity@,
        buyer_lev,
        now,
    ) && post == pre)
    ||| (exists|mid: Seq<Account>|
        #![trigger mid.len()]
        spec_settled(
            pre,
            mid,
            buyer,
            ex.trade.symbol,
            Side::Buy,
            ex.trade.quantity@,
            ex.trade.price@,
            buyer_lev,
            now,
        ) && spec_settle_grows(
            mid,
            seller,
            ex.trade.symbol,
            Side::Sell,
            ex.trade.quantity@,
            seller_lev,
            now,
        ) && post == mid)
}

/// A collateral debit on one account: `rm` taken from its quote
/// balance, everything else exactly as it was.
pub open spec fn spec_debited(
    pre: Seq<Account>,
    post: Seq<Account>,
    ai: int,
    quote: Seq<char>,
    rm: int,
) -> bool {
    &&& 0 <= ai < pre.len()
    &&& post.len() == pre.len()
    &&& forall|j: int| 0 <= j < pre.len() && j != ai ==> post[j] == pre[j]
    &&& post[ai].user_id == pre[ai].user_id
    &&& post[ai].positions@ == pre[ai].positions@
    &&& bal_of(post[ai].balances@, quote) == bal_of(pre[ai].balances@, quote) - rm
    &&& forall|b: Seq<char>|
        b != quote ==> bal_of(#[trigger] post[ai].balances@, b) == bal_of(pre[ai].balances@, b)
}

/// `spec_settled`, with the symbol pinned by its text: which `String`
/// value carries the text into a freshly created position is left
/// open.
pub open spec fn spec_settled_v(
    pre: Seq<Account>,
    post: Seq<Account>,
    user: u128,
    symview: Seq<char>,
    side: Side,
    q: int,
    price: int,
    lev: Option<Dec>,
    now: i64,
) -> bool {
    exists|s: String|
        #![trigger s@]
        s@ == symview && spec_settled(pre, post, user, s, side, q, price, lev, now)
}

/// `spec_settle_grows`, with the symbol pinned by its text.
pub open spec fn spec_settle_grows_v(
    pre: Seq<Account>,
    user: u128,
    symview: Seq<char>,
    side: Side,
    q: int,
    lev: Option<Dec>,
    now: i64,
) -> bool {
    exists|s: String|
        #![trigger s@]
        s@ == symview && spec_settle_grows(pre, user, s, side, q, lev, now)
}

/// One fill settled (ok) or refused (not ok): settled means buyer
/// then seller folded per `spec_settled`; refused means the buyer's
/// settlement would grow a position past the representable size and
/// nothing changed, or the buyer settled and the seller's would.
pub open spec fn spec_fill_step(
    pre: Seq<Account>,
    post: Seq<Account>,
    ok: bool,
    maker: Order,
    qty: int,
    taker: Order,
    symview: Seq<char>,
    now: i64,
) -> bool {
    let buyer = if taker.side == Side::Buy {
        taker.user_id
    } else {
        maker.user_id
    };
    let buyer_lev = if taker.side == Side::Buy {
        taker.leverage
    } else {
        maker.leverage
    };
    let seller = if taker.side == Side::Buy {
        maker.user_id
    } else {
        taker.user_id
    };
    let seller_lev = if taker.side == Side::Buy {
        maker.leverage
    } else {
        taker.leverage
    };
    let price = maker.price@;
    if ok {
        exists|mid: Seq<Account>|
            #![trigger mid.len()]
            spec_settled_v(pre, mid, buyer, symview, Side::Buy, qty, price, buyer_lev, now)
                && spec_settled_v(mid, post, seller, symview, Side::Sell, qty, price, seller_lev, now)
    } else {
        ||| (spec_settle_grows_v(pre, buyer, symview, Side::Buy, qty, buyer_lev, now) && post
            == pre)
        ||| (exists|mid: Seq<Account>|
            #![trigger mid.len()]
            spec_settled_v(pre, mid, buyer, symview, Side::Buy, qty, price, buyer_lev, now)
                && spec_settle_grows_v(mid, seller, symview, Side::Sell, qty, seller_lev, now)
                && post == mid)
    }
}

/// The fills of a match settled in order: when `ok`, every fill
/// settles and `post` is the result of the whole chain; when not,
/// some prefix settles and the next fill is refused, `post` being the
/// state that refusal left.
pub open spec fn spec_settlements(
    pre: Seq<Account>,
    fills: Seq<(Order, int)>,
    taker: Order,
    symview: Seq<char>,
    now: i64,
    post: Seq<Account>,
    ok: bool,
) -> bool
    decreases fills.len(),
{
    if fills.len() == 0 {
        ok && post == pre
    } else {
        ||| (exists|mid: Seq<Account>|
            #![trigger mid.len()]
            spec_fill_step(pre, mid, true, fills[0].0, fills[0].1, taker, symview, now)
                && spec_settlements(mid, fills.skip(1), taker, symview, now, post, ok))
        ||| (!ok && spec_fill_step(pre, post, false, fills[0].0, fills[0].1, taker, symview, now))
    }
}

/// The account-side effect of a placement: the required margin
/// debited from the taker's quote balance, then the fills settled in
/// matching order (`ok`), or settled up to the first refusal.
pub open spec fn spec_placed_accounts(
    pre: Seq<Account>,
    post: Seq<Account>,
    ai: int,
    quote: Seq<char>,
    rm: int,
    fills: Seq<(Order, int)>,
    taker: Order,
    now: i64,
    ok: bool,
) -> bool {
    exists|mid: Seq<Account>|
        #![trigger mid.len()]
        spec_debited(pre, mid, ai, quote, rm) && spec_settlements(
            mid,
            fills,
            taker,
            taker.symbol@,
            now,
            post,
            ok,
        )
}

/// Whether a symbol's market data blocks funding: stale, or a
/// nonpositive index price.
pub open spec fn spec_symbol_bad(ex0: Exchange, i: int, now: i64) -> bool {
    ||| now - ex0.market_data@[i].last_update > STALE_MS
    ||| ex0.market_data@[i].index_price@ <= 0
}

/// The rate a funding run computes for one symbol.
pub open spec fn spec_rate_at(ex0: Exchange, i: int) -> int {
    spec_funding_rate(
        ex0.market_data@[i].mark_price@,
        ex0.market_data@[i].index_price@,
        ex0.market_data@[i].open_interest_long@,
        ex0.market_data@[i].open_interest_short@,
    )
}

/// When the rate computed for one symbol of a funding run falls due:
/// the schedule advances one interval per symbol.
pub open spec fn spec_due_at(ex0: Exchange, i: int) -> int {
    ex0.funding_calculator.last_funding_time + (i + 1) * ex0.funding_calculator.funding_interval
}

/// One account's positions after the funding rounds from symbol `i`
/// on: each due round applies its symbol's rate per
/// `spec_apply_funding`, rounds not yet due change nothing.
pub open spec fn spec_funding_rounds(ps: Seq<Position>, ex0: Exchange, i: int, now: i64) -> Seq<
    Position,
>
    decreases ex0.symbols@.len() - i,
{
    if i < 0 || i >= ex0.symbols@.len() {
        ps
    } else {
        let ps1 = if now < spec_due_at(ex0, i) {
            ps
        } else {
            crate::funding::spec_apply_funding(ps, ex0.symbols@[i]@, spec_rate_at(ex0, i), now).0
        };
        spec_funding_rounds(ps1, ex0, i + 1, now)
    }
}

/// Whether the funding rounds from symbol `i` on would drive one of
/// this account's margins negative.
pub open spec fn spec_funding_rounds_fail(ps: Seq<Position>, ex0: Exchange, i: int, now: i64) -> bool
    decreases ex0.symbols@.len() - i,
{
    if i < 0 || i >= ex0.symbols@.len() {
        false
    } else if now < spec_due_at(ex0, i) {
        spec_funding_rounds_fail(ps, ex0, i + 1, now)
    } else {
        ||| crate::funding::spec_apply_funding(ps, ex0.symbols@[i]@, spec_rate_at(ex0, i), now).2
        ||| spec_funding_rounds_fail(
            crate::funding::spec_apply_funding(ps, ex0.symbols@[i]@, spec_rate_at(ex0, i), now).0,
            ex0,
            i + 1,
            now,
        )
    }
}

/// A settled execution is one settled fill of the match.
proof fn lemma_processed_to_fill_step(
    pre: Seq<Account>,
    post: Seq<Account>,
    ex: Execution,
    fill: (Order, int),
    taker: Order,
    symview: Seq<char>,
    now: i64,
)
    requires
        spec_processed(pre, post, ex, taker.user_id, taker.side, taker.leverage, now),
        crate::orderbook::exec_matches_fill(ex, fill, taker, symview, now),
    ensures
        spec_fill_step(pre, post, true, fill.0, fill.1, taker, symview, now),
{
    let buyer = if taker.side == Side::Buy {
        taker.user_id
    } else {
        ex.maker_user_id
    };
    let buyer_lev = if taker.side == Side::Buy {
        taker.leverage
    } else {
        ex.maker_leverage
    };
    let seller = if taker.side == Side::Buy {
        ex.maker_user_id
    } else {
        taker.user_id
    };
    let seller_lev = if taker.side == Side::Buy {
        ex.maker_leverage
    } else {
        taker.leverage
    };
    let m = choose|mid: Seq<Account>|
        #![trigger mid.len()]
        spec_settled(
            pre,
            mid,
            buyer,
            ex.trade.symbol,
            Side::Buy,
            ex.trade.quantity@,
            ex.trade.price@,
            buyer_lev,
            now,
        ) && spec_settled(
            mid,
            post,
            seller,
            ex.trade.symbol,
            Side::Sell,
            ex.trade.quantity@,
            ex.trade.price@,
            seller_lev,
            now,
        );
    assert(m.len() >= 0);
    assert(ex.trade.symbol@ == symview);
    assert(spec_settled_v(pre, m, buyer, symview, Side::Buy, fill.1, fill.0.price@, buyer_lev, now));
    assert(spec_settled_v(
        m,
        post,
        seller,
        symview,
        Side::Sell,
        fill.1,
        fill.0.price@,
        seller_lev,
        now,
    ));
}

/// A refused execution is one refused fill of the match.
proof fn lemma_failed_to_fill_step(
    pre: Seq<Account>,
    post: Seq<Account>,
    ex: Execution,
    fill: (Order, int),
    taker: Order,
    symview: Seq<char>,
    now: i64,
)
    requires
        spec_process_failed(pre, post, ex, taker.user_id, taker.side, taker.leverage, now),
        crate::orderbook::exec_matches_fill(ex, fill, taker, symview, now),
    ensures
        spec_fill_step(pre, post, false, fill.0, fill.1, taker, symview, now),
{
    let buyer = if taker.side == Side::Buy {
        taker.user_id
    } else {
        ex.maker_user_id
    };
    let buyer_lev = if taker.side == Side::Buy {
        taker.leverage
    } else {
        ex.maker_leverage
    };
    let seller = if taker.side == Side::Buy {
        ex.maker_user_id
    } else {
        taker.user_id
    };
    let seller_lev = if taker.side == Side::Buy {
        ex.maker_leverage
    } else {
        taker.leverage
    };
    assert(ex.trade.symbol@ == symview);
    if spec_settle_grows(
        pre,
        buyer,
        ex.trade.symbol,
        Side::Buy,
        ex.trade.quantity@,
        buyer_lev,
        now,
    ) && post == pre {
        assert(spec_settle_grows_v(pre, buyer, symview, Side::Buy, fill.1, buyer_lev, now));
    } else {
        let m = choose|mid: Seq<Account>|
            #![trigger mid.len()]
            spec_settled(
                pre,
                mid,
                buyer,
                ex.trade.symbol,
                Side::Buy,
                ex.trade.quantity@,
                ex.trade.price@,
                buyer_lev,
                now,
            ) && spec_settle_grows(
                mid,
                seller,
                ex.trade.symbol,
                Side::Sell,
                ex.trade.quantity@,
                seller_lev,
                now,
            ) && post == mid;
        assert(m.len() >= 0);
        assert(spec_settled_v(
            pre,
            m,
            buyer,
            symview,
            Side::Buy,
            fill.1,
            fill.0.price@,
            buyer_lev,
            now,
        ));
        assert(spec_settle_grows_v(m, seller, symview, Side::Sell, fill.1, seller_lev, now));
    }
}

/// Extending a settled chain by one more settled fill.
proof fn lemma_settlements_snoc(
    pre: Seq<Account>,
    fs: Seq<(Order, int)>,
    x: (Order, int),
    taker: Order,
    symview: Seq<char>,
    now: i64,
    mid: Seq<Account>,
    post: Seq<Account>,
)
    requires
        spec_settlements(pre, fs, taker, symview, now, mid, true),
        spec_fill_step(mid, post, true, x.0, x.1, taker, symview, now),
    ensures
        spec_settlements(pre, fs.push(x), taker, symview, now, post, true),
    decreases fs.len(),
{
    assert(fs.push(x).len() == fs.len() + 1);
    if fs.len() == 0 {
        assert(mid == pre);
        assert(fs.push(x)[0] == x);
        assert(fs.push(x).skip(1) =~= Seq::<(Order, int)>::empty());
        assert(spec_settlements(post, fs.push(x).skip(1), taker, symview, now, post, true));
        assert(post.len() >= 0);
    } else {
        let m1 = choose|m: Seq<Account>|
            #![trigger m.len()]
            spec_fill_step(pre, m, true, fs[0].0, fs[0].1, taker, symview, now)
                && spec_settlements(m, fs.skip(1), taker, symview, now, mid, true);
        assert(m1.len() >= 0);
        lemma_settlements_snoc(m1, fs.skip(1), x, taker, symview, now, mid, post);
        assert(fs.push(x)[0] == fs[0]);
        assert(fs.push(x).skip(1) =~= fs.skip(1).push(x));
    }
}

/// A settled prefix followed by one refused fill refuses the whole
/// chain, leaving the refusal's state.
proof fn lemma_settlements_fail_tail(
    pre: Seq<Account>,
    fills: Seq<(Order, int)>,
    k: int,
    taker: Order,
    symview: Seq<char>,
    now: i64,
    mid: Seq<Account>,
    post: Seq<Account>,
)
    requires
        0 <= k < fills.len(),
        spec_settlements(pre, fills.take(k), taker, symview, now, mid, true),
        spec_fill_step(mid, post, false, fills[k].0, fills[k].1, taker, symview, now),
    ensures
        spec_settlements(pre, fills, taker, symview, now, post, false),
    decreases k,
{
    if k == 0 {
        assert(fills.take(0) =~= Seq::<(Order, int)>::empty());
        assert(mid == pre);
    } else {
        assert(fills.take(k)[0] == fills[0]);
        let m1 = choose|m: Seq<Account>|
            #![trigger m.len()]
            spec_fill_step(pre, m, true, fills.take(k)[0].0, fills.take(k)[0].1, taker, symview, now)
                && spec_settlements(m, fills.take(k).skip(1), taker, symview, now, mid, true);
        assert(m1.len() >= 0);
        assert(fills.take(k).skip(1) =~= fills.skip(1).take(k - 1));
        assert(fills.skip(1)[k - 1] == fills[k]);
        lemma_settlements_fail_tail(m1, fills.skip(1), k - 1, taker, symview, now, mid, post);
        assert(spec_fill_step(pre, m1, true, fills[0].0, fills[0].1, taker, symview, now));
    }
}

/// First index of a symbol in the configured list, if any.
fn symbol_index(symbols: &Vec<String>, s: &String) -> (r: Option<usize>)
    ensures
        match r {
            Some(i) => 0 <= i < symbols@.len() && sym_idx(symbols@, s@) == i as int,
            None => sym_idx(symbols@, s@) == -1,
        },
{
    proof {
        lemma_sym_idx_char(symbols@, s@);
    }
    let ghost s0 = symbols@;
    let n = symbols.len();
    let mut i: usize = 0;
    loop
        invariant
            0 <= i <= n,
            n == symbols@.len(),
            symbols@ == s0,
            forall|j: int| 0 <= j < i ==> (#[trigger] s0[j])@ != s@,
        ensures
            symbols@ == s0,
            i <= n,
            i < n ==> s0[i as int]@ == s@,
            i == n ==> forall|j: int| 0 <= j < n ==> (#[trigger] s0[j])@ != s@,
        decreases n - i,
    {
        if i == n {
            break;
        }
        if symbols[i] == *s {
            break;
        }
        i = i + 1;
    }
    if i == n {
        None
    } else {
        proof {
            let f = sym_idx(s0, s@);
            if f < i as int {
                assert(s0[f]@ != s@);
                assert(false);
            }
            if f > i as int {
                assert(s0[i as int]@ != s@);
                assert(false);
            }
        }
        Some(i)
    }
}

/// First index of a user's account, if any.
fn account_index(accounts: &Vec<Account>, user: u128) -> (r: Option<usize>)
    ensures
        match r {
            Some(i) => 0 <= i < accounts@.len() && acct_idx(accounts@, user) == i as int,
            None => acct_idx(accounts@, user) == -1,
        },
{
    proof {
        lemma_acct_idx_char(accounts@, user);
    }
    let ghost s0 = accounts@;
    let n = accounts.len();
    let mut i: usize = 0;
    loop
        invariant
            0 <= i <= n,
            n == accounts@.len(),
            accounts@ == s0,
            forall|j: int| 0 <= j < i ==> (#[trigger] s0[j]).user_id != user,
        ensures
            accounts@ == s0,
            i <= n,
            i < n ==> s0[i as int].user_id == user,
            i == n ==> forall|j: int| 0 <= j < n ==> (#[trigger] s0[j]).user_id != user,
        decreases n - i,
    {
        if i == n {
            break;
        }
        if accounts[i].user_id == user {
            break;
        }
        i = i + 1;
    }
    if i == n {
        None
    } else {
        proof {
            let f = acct_idx(s0, user);
            if f < i as int {
                assert(s0[f].user_id != user);
                assert(false);
            }
            if f > i as int {
                assert(s0[i as int].user_id != user);
                assert(false);
            }
        }
        Some(i)
    }
}

impl Exchange {
    /// Venue well-formedness: one book, one market-data snapshot and
    /// one last-trade price per configured symbol, all aligned;
    /// well-formed accounts; a well-formed funding schedule.
    pub open spec fn wf(&self) -> bool {
        &&& self.order_books@.len() == self.symbols@.len()
        &&& self.market_data@.len() == self.symbols@.len()
        &&& self.last_trade_prices@.len() == self.symbols@.len()
        &&& forall|i: int|
            0 <= i < self.symbols@.len() ==> (#[trigger] self.order_books@[i]).wf()
                && self.order_books@[i].symbol@ == self.symbols@[i]@
        &&& forall|i: int|
            0 <= i < self.symbols@.len() ==> (#[trigger] self.market_data@[i]).wf()
                && self.market_data@[i].symbol@ == self.symbols@[i]@
        &&& forall|i: int| 0 <= i < self.accounts@.len() ==> (#[trigger] self.accounts@[i]).wf()
        &&& self.funding_calculator.wf()
    }
}

/// Which rejection, if any, a placement meets before it can touch the
/// book: unknown symbol, stale market data, unknown account, a failed
/// margin pre-check, an order the book refuses (stops, bad numbers,
/// unfillable FOK), or a quote balance short of the required margin.
pub open spec fn spec_place_rejection(ex0: Exchange, order: Order, now: i64) -> Option<
    OrderError,
> {
    let si = sym_idx(ex0.symbols@, order.symbol@);
    if si == -1 {
        Some(OrderError::InvalidOrder)
    } else if now - ex0.market_data@[si].last_update > STALE_MS {
        Some(OrderError::InvalidOrder)
    } else {
        let ai = acct_idx(ex0.accounts@, order.user_id);
        if ai == -1 {
            Some(OrderError::OrderNotFound)
        } else {
            match spec_check_margin(
                ex0.accounts@[ai],
                order,
                ex0.market_data@[si].mark_price@,
                Some(MarginType::Isolated),
            ) {
                Result::Err(e) => Some(e),
                Result::Ok(u) => {
                    if spec_rejected(ex0.order_books@[si], order) {
                        Some(OrderError::InvalidOrder)
                    } else {
                        match order.leverage {
                            Some(l) => {
                                if bal_of(ex0.accounts@[ai].balances@, ex0.quote_asset@)
                                    < spec_required_margin(
                                    order.quantity@,
                                    order.price@,
                                    l@,
                                    MarginType::Isolated,
                                ) {
                                    Some(OrderError::InsufficientBalance)
                                } else {
                                    None
                                }
                            },
                            None => None,
                        }
                    }
                },
            }
        }
    }
}

impl Exchange {
    /// A venue over the given symbols: empty books, zeroed market
    /// data stamped `now`, no accounts, a funding schedule starting at
    /// `now`.
    pub fn new(symbols: Vec<String>, funding_interval: i64, quote_asset: String, now: i64) -> (r:
        Exchange)
        requires
            0 <= funding_interval,
            0 <= now,
        ensures
            r.wf(),
            r.symbols@ == symbols@,
            r.quote_asset@ == quote_asset@,
            r.accounts@.len() == 0,
            r.funding_calculator.funding_interval == funding_interval,
            r.funding_calculator.last_funding_time == now,
            r.funding_calculator.funding_rate_history@.len() == 0,
            r.funding_calculator.funding_payments@.len() == 0,
            forall|i: int|
                0 <= i < symbols@.len() ==> (#[trigger] r.order_books@[i]).bids@.len() == 0
                    && r.order_books@[i].asks@.len() == 0,
            forall|i: int|
                0 <= i < symbols@.len() ==> (#[trigger] r.market_data@[i]).mark_price@ == 0
                    && r.market_data@[i].index_price@ == 0 && r.market_data@[i].last_update == now,
            forall|i: int| 0 <= i < symbols@.len() ==> (#[trigger] r.last_trade_prices@[i])@ == 0,
    {
        let mut order_books: Vec<OrderBook> = Vec::new();
        let mut market_data: Vec<MarketData> = Vec::new();
        let mut last_trade_prices: Vec<Dec> = Vec::new();
        let n = symbols.len();
        let mut i: usize = 0;
        loop
            invariant
                0 <= i <= n,
                n == symbols@.len(),
                order_books@.len() == i,
                market_data@.len() == i,
                last_trade_prices@.len() == i,
                0 <= now,
                forall|j: int|
                    0 <= j < i ==> (#[trigger] order_books@[j]).wf() && order_books@[j].symbol@
                        == symbols@[j]@ && order_books@[j].bids@.len() == 0
                        && order_books@[j].asks@.len() == 0,
                forall|j: int|
                    0 <= j < i ==> (#[trigger] market_data@[j]).wf() && market_data@[j].symbol@
                        == symbols@[j]@ && market_data@[j].mark_price@ == 0
                        && market_data@[j].index_price@ == 0 && market_data@[j].last_update == now,
                forall|j: int| 0 <= j < i ==> (#[trigger] last_trade_prices@[j])@ == 0,
            ensures
                i == n,
                order_books@.len() == n,
                market_data@.len() == n,
                last_trade_prices@.len() == n,
                forall|j: int|
                    0 <= j < n ==> (#[trigger] order_books@[j]).wf() && order_books@[j].symbol@
                        == symbols@[j]@ && order_books@[j].bids@.len() == 0
                        && order_books@[j].asks@.len() == 0,
                forall|j: int|
                    0 <= j < n ==> (#[trigger] market_data@[j]).wf() && market_data@[j].symbol@
                        == symbols@[j]@ && market_data@[j].mark_price@ == 0
                        && market_data@[j].index_price@ == 0 && market_data@[j].last_update == now,
                forall|j: int| 0 <= j < n ==> (#[trigger] last_trade_prices@[j])@ == 0,
            decreases n - i,
        {
            if i == n {
                break;
            }
            order_books.push(OrderBook::new(symbols[i].clone()));
            market_data.push(
                MarketData {
                    symbol: symbols[i].clone(),
                    mark_price: Dec::zero(),
                    index_price: Dec::zero(),
                    open_interest_long: Dec::zero(),
                    open_interest_short: Dec::zero(),
                    last_update: now,
                },
            );
            last_trade_prices.push(Dec::zero());
            i = i + 1;
        }
        Exchange {
            accounts: Vec::new(),
            order_books,
            funding_calculator: FundingCalculator::new(funding_interval, now),
            symbols,
            market_data,
            last_trade_prices,
            quote_asset,
        }
    }

    /// Ensures the user has an account, creating an empty one on
    /// first reference.
    pub fn create_account(&mut self, user_id: u128)
        requires
            old(self).wf(),
        ensures
            final(self).wf(),
            final(self).order_books@ == old(self).order_books@,
            final(self).symbols@ == old(self).symbols@,
            final(self).market_data@ == old(self).market_data@,
            final(self).last_trade_prices@ == old(self).last_trade_prices@,
            final(self).funding_calculator == old(self).funding_calculator,
            final(self).quote_asset@ == old(self).quote_asset@,
            ({
                let a0 = old(self).accounts@;
                let a1 = final(self).accounts@;
                &&& acct_idx(a0, user_id) >= 0 ==> a1 == a0
                &&& acct_idx(a0, user_id) == -1 ==> a1.len() == a0.len() + 1 && (forall|j: int|
                    0 <= j < a0.len() ==> #[trigger] a1[j] == a0[j]) && a1.last().user_id
                    == user_id && a1.last().balances@.len() == 0 && a1.last().positions@.len()
                    == 0
                &&& acct_idx(a1, user_id) >= 0
            }),
    {
        proof {
            lemma_acct_idx_char(old(self).accounts@, user_id);
        }
        match account_index(&self.accounts, user_id) {
            Some(i) => {},
            None => {
                self.accounts.push(Account::new(user_id));
                proof {
                    lemma_acct_idx_char(self.accounts@, user_id);
                    let f = acct_idx(self.accounts@, user_id);
                    if f == -1 {
                        assert(self.accounts@.last().user_id != user_id);
                        assert(false);
                    }
                    assert forall|j: int|
                        0 <= j < self.accounts@.len() implies (#[trigger] self.accounts@[j]).wf() by {
                        if j < old(self).accounts@.len() {
                            assert(self.accounts@[j] == old(self).accounts@[j]);
                        }
                    }
                }
            },
        }
    }

    /// The user's account, or `OrderNotFound`.
    pub fn get_account(&self, user_id: u128) -> (r: Result<&Account, OrderError>)
        ensures
            match r {
                Result::Ok(a) => acct_idx(self.accounts@, user_id) >= 0 && *a == self.accounts@[
                    acct_idx(self.accounts@, user_id)
                ],
                Result::Err(e) => e == OrderError::OrderNotFound && acct_idx(
                    self.accounts@,
                    user_id,
                ) == -1,
            },
    {
        match account_index(&self.accounts, user_id) {
            Some(i) => Ok(&self.accounts[i]),
            None => Err(OrderError::OrderNotFound),
        }
    }

    /// Oracle push: refreshes one symbol's snapshot and stamps it
    /// `now`; an unknown symbol changes nothing.
    pub fn update_market_data(
        &mut self,
        symbol: &str,
        mark_price: Dec,
        index_price: Dec,
        open_interest_long: Dec,
        open_interest_short: Dec,
        now: i64,
    )
        requires
            old(self).wf(),
            0 <= mark_price@ <= AMT_MAX,
            0 <= index_price@ <= AMT_MAX,
            0 <= open_interest_long@ <= AMT_MAX,
            0 <= open_interest_short@ <= AMT_MAX,
            0 <= now,
        ensures
            final(self).wf(),
            final(self).order_books@ == old(self).order_books@,
            final(self).symbols@ == old(self).symbols@,
            final(self).accounts@ == old(self).accounts@,
            final(self).last_trade_prices@ == old(self).last_trade_prices@,
            final(self).funding_calculator == old(self).funding_calculator,
            final(self).quote_asset@ == old(self).quote_asset@,
            ({
                let si = sym_idx(old(self).symbols@, symbol@);
                if si == -1 {
                    final(self).market_data@ == old(self).market_data@
                } else {
                    &&& final(self).market_data@.len() == old(self).market_data@.len()
                    &&& forall|j: int|
                        0 <= j < old(self).market_data@.len() && j != si
                            ==> #[trigger] final(self).market_data@[j] == old(self).market_data@[j]
                    &&& final(self).market_data@[si].symbol@ == old(self).market_data@[si].symbol@
                    &&& final(self).market_data@[si].mark_price == mark_price
                    &&& final(self).market_data@[si].index_price == index_price
                    &&& final(self).market_data@[si].open_interest_long == open_interest_long
                    &&& final(self).market_data@[si].open_interest_short == open_interest_short
                    &&& final(self).market_data@[si].last_update == now
                }
            }),
    {
        let sym = String::from_str(symbol);
        match symbol_index(&self.symbols, &sym) {
            Some(i) => {
                let old_md = self.market_data.remove(i);
                self.market_data.insert(
                    i,
                    MarketData {
                        symbol: old_md.symbol,
                        mark_price,
                        index_price,
                        open_interest_long,
                        open_interest_short,
                        last_update: now,
                    },
                );
                proof {
                    assert(self.market_data@ =~= old(self).market_data@.update(
                        i as int,
                        self.market_data@[i as int],
                    ));
                    assert forall|j: int|
                        0 <= j < self.symbols@.len() implies (#[trigger] self.market_data@[j]).wf()
                            && self.market_data@[j].symbol@ == self.symbols@[j]@ by {
                        if j != i as int {
                            assert(self.market_data@[j] == old(self).market_data@[j]);
                        }
                    }
                }
            },
            None => {},
        }
    }

    /// Settles one side of a fill into one user's account, creating
    /// the account on first touch, as `spec_settled` describes.
    pub fn settle_fill(
        &mut self,
        user: u128,
        symbol: String,
        side: Side,
        quantity: Dec,
        price: Dec,
        leverage: &Option<Dec>,
        now: i64,
    ) -> (r: Result<(), OrderError>)
        requires
            old(self).wf(),
            0 < quantity@ <= AMT_MAX,
            0 <= price@ <= AMT_MAX,
            0 <= now,
            match leverage {
                Some(l) => SCALE < l@ <= AMT_MAX,
                None => true,
            },
        ensures
            final(self).wf(),
            final(self).order_books@ == old(self).order_books@,
            final(self).symbols@ == old(self).symbols@,
            final(self).market_data@ == old(self).market_data@,
            final(self).last_trade_prices@ == old(self).last_trade_prices@,
            final(self).funding_calculator == old(self).funding_calculator,
            final(self).quote_asset@ == old(self).quote_asset@,
            match r {
                Result::Ok(u) => !spec_settle_grows(
                    old(self).accounts@,
                    user,
                    symbol,
                    side,
                    quantity@,
                    *leverage,
                    now,
                ) && spec_settled(
                    old(self).accounts@,
                    final(self).accounts@,
                    user,
                    symbol,
                    side,
                    quantity@,
                    price@,
                    *leverage,
                    now,
                ),
                Result::Err(e) => e == OrderError::InvalidOrder && spec_settle_grows(
                    old(self).accounts@,
                    user,
                    symbol,
                    side,
                    quantity@,
                    *leverage,
                    now,
                ) && final(self).accounts@ == old(self).accounts@,
            },
    {
        let ghost a0 = self.accounts@;
        proof {
            lemma_acct_idx_char(a0, user);
        }
        match account_index(&self.accounts, user) {
            Some(i) => {
                proof {
                    assert(a0[i as int].wf());
                    assert(a0[i as int].user_id == user);
                }
                let mut acct = self.accounts.remove(i);
                let res = acct.update_position(
                    symbol,
                    side,
                    quantity,
                    price,
                    PositionType::Margin,
                    leverage,
                    &Some(MarginType::Isolated),
                    now,
                );
                self.accounts.insert(i, acct);
                proof {
                    assert(self.accounts@ =~= a0.update(i as int, self.accounts@[i as int]));
                    assert forall|j: int|
                        0 <= j < self.accounts@.len() implies (#[trigger] self.accounts@[j]).wf() by {
                        if j != i as int {
                            assert(self.accounts@[j] == a0[j]);
                        }
                    }
                    assert forall|j: int|
                        0 <= j < a0.len() && j != i as int implies #[trigger] self.accounts@[j]
                            == a0[j] by {}
                }
                match res {
                    Ok(u) => Ok(()),
                    Err(e) => {
                        proof {
                            assert(self.accounts@[i as int] == a0[i as int]);
                            assert(self.accounts@ =~= a0);
                        }
                        Err(e)
                    },
                }
            },
            None => {
                let mut acct = Account::new(user);
                let res = acct.update_position(
                    symbol,
                    side,
                    quantity,
                    price,
                    PositionType::Margin,
                    leverage,
                    &Some(MarginType::Isolated),
                    now,
                );
                match res {
                    Ok(u) => {
                        self.accounts.push(acct);
                        proof {
                            assert forall|j: int|
                                0 <= j < self.accounts@.len() implies (
                            #[trigger] self.accounts@[j]).wf() by {
                                if j < a0.len() {
                                    assert(self.accounts@[j] == a0[j]);
                                }
                            }
                            assert(self.accounts@.last().positions@ =~= Seq::<
                                Position,
                            >::empty().push(self.accounts@.last().positions@[0]));
                        }
                        Ok(())
                    },
                    Err(e) => Err(e),
                }
            },
        }
    }

    /// Settles one execution: the buyer's account takes a buy fill,
    /// the seller's a sell fill, in that order, each per
    /// `spec_settled`.  The taker is one party, the resting maker the
    /// other.  An error (a position grown past the representable
    /// size) can leave the buyer settled and the seller not.
    pub fn process_trade(
        &mut self,
        ex: &Execution,
        taker_user: u128,
        taker_side: Side,
        taker_leverage: &Option<Dec>,
        now: i64,
    ) -> (r: Result<(), OrderError>)
        requires
            old(self).wf(),
            0 < ex.trade.quantity@ <= AMT_MAX,
            0 <= ex.trade.price@ <= AMT_MAX,
            0 <= now,
            match taker_leverage {
                Some(l) => SCALE < l@ <= AMT_MAX,
                None => true,
            },
            match ex.maker_leverage {
                Some(l) => SCALE < l@ <= AMT_MAX,
                None => true,
            },
        ensures
            final(self).wf(),
            final(self).order_books@ == old(self).order_books@,
            final(self).symbols@ == old(self).symbols@,
            final(self).market_data@ == old(self).market_data@,
            final(self).last_trade_prices@ == old(self).last_trade_prices@,
            final(self).funding_calculator == old(self).funding_calculator,
            final(self).quote_asset@ == old(self).quote_asset@,
            match r {
                Result::Ok(u) => spec_processed(
                    old(self).accounts@,
                    final(self).accounts@,
                    *ex,
                    taker_user,
                    taker_side,
                    *taker_leverage,
                    now,
                ),
                Result::Err(e) => e == OrderError::InvalidOrder && spec_process_failed(
                    old(self).accounts@,
                    final(self).accounts@,
                    *ex,
                    taker_user,
                    taker_side,
                    *taker_leverage,
                    now,
                ),
            },
    {
        let buyer_user = if taker_side == Side::Buy {
            taker_user
        } else {
            ex.maker_user_id
        };
        let buyer_lev = if taker_side == Side::Buy {
            *taker_leverage
        } else {
            ex.maker_leverage
        };
        let seller_user = if taker_side == Side::Buy {
            ex.maker_user_id
        } else {
            taker_user
        };
        let seller_lev = if taker_side == Side::Buy {
            ex.maker_leverage
        } else {
            *taker_leverage
        };
        match self.settle_fill(
            buyer_user,
            ex.trade.symbol.clone(),
            Side::Buy,
            ex.trade.quantity,
            ex.trade.price,
            &buyer_lev,
            now,
        ) {
            Ok(u) => {},
            Err(e) => {
                return Err(e);
            },
        }
        let ghost mid = self.accounts@;
        proof {
            assert(mid.len() >= 0);
        }
        match self.settle_fill(
            seller_user,
            ex.trade.symbol.clone(),
            Side::Sell,
            ex.trade.quantity,
            ex.trade.price,
            &seller_lev,
            now,
        ) {
            Ok(u) => {},
            Err(e) => {
                return Err(e);
            },
        }
        proof {
            assert(spec_processed(
                old(self).accounts@,
                self.accounts@,
                *ex,
                taker_user,
                taker_side,
                *taker_leverage,
                now,
            )) by {
                // materialise the witness term the quantifier triggers on
                assert(mid.len() == self.accounts@.len() || mid.len() != self.accounts@.len());
                assert(spec_settled(
                    old(self).accounts@,
                    mid,
                    buyer_user,
                    ex.trade.symbol,
                    Side::Buy,
                    ex.trade.quantity@,
                    ex.trade.price@,
                    buyer_lev,
                    now,
                ));
                assert(spec_settled(
                    mid,
                    self.accounts@,
                    seller_user,
                    ex.trade.symbol,
                    Side::Sell,
                    ex.trade.quantity@,
                    ex.trade.price@,
                    seller_lev,
                    now,
                ));
            }
        }
        Ok(())
    }

    /// Places an order: reject on unknown symbol, stale
    /// market data, unknown account, failed margin pre-check, an order
    /// the book refuses, or a short quote balance — all without any
    /// state change.  Otherwise the required margin is debited when
    /// the order is leveraged, the book matches per `spec_add_ok`,
    /// each execution is settled through `process_trade` in matching
    /// order, and the symbol's last trade price is updated.  The one
    /// error past matching (`InvalidOrder`, a position grown past the
    /// representable size) can leave settlement partial.
    pub fn place_order(&mut self, order: Order, now: i64) -> (r: Result<Vec<Trade>, OrderError>)
        requires
            old(self).wf(),
            order.valid(),
            0 <= now,
        ensures
            final(self).wf(),
            final(self).symbols@ == old(self).symbols@,
            final(self).market_data@ == old(self).market_data@,
            final(self).quote_asset@ == old(self).quote_asset@,
            final(self).funding_calculator == old(self).funding_calculator,
            ({
                let rej = spec_place_rejection(*old(self), order, now);
                let si = sym_idx(old(self).symbols@, order.symbol@);
                let ai = acct_idx(old(self).accounts@, order.user_id);
                let quote = old(self).quote_asset@;
                let rm = match order.leverage {
                    Some(l) => spec_required_margin(
                        order.quantity@,
                        order.price@,
                        l@,
                        MarginType::Isolated,
                    ),
                    None => 0int,
                };
                let fills = crate::orderbook::spec_match(
                    crate::orderbook::opposite_of(old(self).order_books@[si], order.side),
                    order.quantity@,
                    order,
                ).0;
                match r {
                    Result::Err(e) => (rej == Some(e) && *final(self) == *old(self)) || (rej
                        is None && e == OrderError::InvalidOrder && final(self).order_books@.len()
                        == old(self).order_books@.len() && (forall|j: int|
                        0 <= j < old(self).order_books@.len() && j != si
                            ==> #[trigger] final(self).order_books@[j] == old(self).order_books@[j])
                        && crate::orderbook::spec_books_after(
                        old(self).order_books@[si],
                        final(self).order_books@[si],
                        order,
                        now,
                    ) && final(self).last_trade_prices@ == old(self).last_trade_prices@
                        && spec_placed_accounts(
                        old(self).accounts@,
                        final(self).accounts@,
                        ai,
                        quote,
                        rm,
                        fills,
                        order,
                        now,
                        false,
                    )),
                    Result::Ok(trades) => {
                        &&& rej is None
                        &&& spec_add_ok(
                            old(self).order_books@[si],
                            final(self).order_books@[si],
                            order,
                            now,
                            trades@,
                        )
                        &&& final(self).order_books@.len() == old(self).order_books@.len()
                        &&& forall|j: int|
                            0 <= j < old(self).order_books@.len() && j != si
                                ==> #[trigger] final(self).order_books@[j] == old(self).order_books@[j]
                        &&& (trades@.len() == 0 ==> final(self).last_trade_prices@ == old(self).last_trade_prices@)
                        &&& (trades@.len() > 0 ==> final(self).last_trade_prices@ == old(self).last_trade_prices@.update(si, trades@.last().price))
                        &&& spec_placed_accounts(
                            old(self).accounts@,
                            final(self).accounts@,
                            ai,
                            quote,
                            rm,
                            fills,
                            order,
                            now,
                            true,
                        )
                    },
                }
            }),
    {
        let si = match symbol_index(&self.symbols, &order.symbol) {
            Some(i) => i,
            None => {
                return Err(OrderError::InvalidOrder);
            },
        };
        if now - self.market_data[si].last_update > STALE_MS {
            return Err(OrderError::InvalidOrder);
        }
        proof {
            assert(self.market_data@[si as int].wf());
        }
        let mark = self.market_data[si].mark_price;
        let ai = match account_index(&self.accounts, order.user_id) {
            Some(i) => i,
            None => {
                return Err(OrderError::OrderNotFound);
            },
        };
        proof {
            assert(self.accounts@[ai as int].wf());
        }
        match self.accounts[ai].check_margin_requirements(&order, mark, Some(MarginType::Isolated)) {
            Ok(u) => {},
            Err(e) => {
                return Err(e);
            },
        }
        proof {
            assert(self.order_books@[si as int].wf());
        }
        if self.order_books[si].rejects(&order) {
            return Err(OrderError::InvalidOrder);
        }
        let taker_user = order.user_id;
        let taker_side = order.side;
        let taker_lev = order.leverage;
        let ghost a0 = self.accounts@;
        match &order.leverage {
            Some(l) => {
                let rm = MarginCalculator::calculate_required_margin(
                    order.quantity,
                    order.price,
                    *l,
                    MarginType::Isolated,
                );
                let bal = self.accounts[ai].get_balance(self.quote_asset.as_str());
                if bal.lt(rm) {
                    return Err(OrderError::InsufficientBalance);
                }
                let mut acct = self.accounts.remove(ai);
                acct.debit(self.quote_asset.as_str(), rm);
                self.accounts.insert(ai, acct);
                proof {
                    assert(self.accounts@ =~= a0.update(ai as int, self.accounts@[ai as int]));
                    assert forall|j: int|
                        0 <= j < self.accounts@.len() implies (#[trigger] self.accounts@[j]).wf() by {
                        if j != ai as int {
                            assert(self.accounts@[j] == a0[j]);
                        }
                    }
                }
            },
            None => {},
        }
        let ghost accounts_debited = self.accounts@;
        let ghost grm: int = match order.leverage {
            Some(l) => spec_required_margin(
                order.quantity@,
                order.price@,
                l@,
                MarginType::Isolated,
            ),
            None => 0int,
        };
        proof {
            assert(spec_debited(a0, accounts_debited, ai as int, self.quote_asset@, grm));
        }
        let ghost gorder = order;
        let ghost books0 = self.order_books@;
        let mut book = self.order_books.remove(si);
        let ghost book0 = book;
        let execs = match book.execute_order(order, now) {
            Ok(es) => es,
            Err(e) => {
                self.order_books.insert(si, book);
                proof {
                    assert(self.order_books@ =~= books0);
                    assert(false);
                }
                return Err(e);
            },
        };
        self.order_books.insert(si, book);
        let ghost book1 = self.order_books@[si as int];
        proof {
            assert(self.order_books@ =~= books0.update(si as int, book1));
            assert forall|j: int|
                0 <= j < self.symbols@.len() implies (#[trigger] self.order_books@[j]).wf()
                    && self.order_books@[j].symbol@ == self.symbols@[j]@ by {
                if j != si as int {
                    assert(self.order_books@[j] == books0[j]);
                }
            }
            lemma_match_fill_bounds(
                crate::orderbook::opposite_of(book0, gorder.side),
                gorder.quantity@,
                gorder,
            );
            lemma_sym_idx_char(old(self).symbols@, gorder.symbol@);
            assert(books0 == old(self).order_books@);
            assert(book0 == old(self).order_books@[si as int]);
            assert(book0.symbol@ == gorder.symbol@);
        }
        let ghost sm = crate::orderbook::spec_match(
            crate::orderbook::opposite_of(book0, gorder.side),
            gorder.quantity@,
            gorder,
        );
        let ghost gex = execs@;
        proof {
            assert(spec_place_rejection(*old(self), gorder, now) is None);
        }
        let mut rest = execs;
        let mut trades: Vec<Trade> = Vec::new();
        proof {
            assert(sm.0.take(0) =~= Seq::<(Order, int)>::empty());
            assert(spec_settlements(
                accounts_debited,
                sm.0.take(0),
                gorder,
                gorder.symbol@,
                now,
                self.accounts@,
                true,
            ));
        }
        loop
            invariant
                self.wf(),
                self.symbols@ == old(self).symbols@,
                self.market_data@ == old(self).market_data@,
                self.quote_asset@ == old(self).quote_asset@,
                self.funding_calculator == old(self).funding_calculator,
                self.order_books@ == books0.update(si as int, book1),
                self.last_trade_prices@ == old(self).last_trade_prices@,
                0 <= si < books0.len(),
                books0.len() == old(self).order_books@.len(),
                trades@.len() + rest@.len() == gex.len(),
                rest@ =~= gex.skip(trades@.len() as int),
                forall|i: int| 0 <= i < trades@.len() ==> #[trigger] trades@[i] == gex[i].trade,
                gex.len() == sm.0.len(),
                forall|i: int|
                    0 <= i < sm.0.len() ==> crate::orderbook::exec_matches_fill(
                        #[trigger] gex[i],
                        sm.0[i],
                        gorder,
                        book0.symbol@,
                        now,
                    ),
                forall|i: int|
                    0 <= i < sm.0.len() ==> ({
                        let fill = #[trigger] sm.0[i];
                        &&& 0 < fill.1 <= AMT_MAX
                        &&& 0 < fill.0.price@ <= AMT_MAX
                        &&& match fill.0.leverage {
                            Some(l) => SCALE < l@ <= AMT_MAX,
                            None => true,
                        }
                    }),
                taker_side == gorder.side,
                taker_user == gorder.user_id,
                taker_lev == gorder.leverage,
                gorder.valid(),
                0 <= now,
                spec_place_rejection(*old(self), gorder, now) is None,
                gorder == order,
                gex.len() == 0 ==> self.accounts@ == accounts_debited,
                0 <= ai < old(self).accounts@.len(),
                spec_debited(
                    old(self).accounts@,
                    accounts_debited,
                    ai as int,
                    old(self).quote_asset@,
                    grm,
                ),
                grm == (match gorder.leverage {
                    Some(l) => spec_required_margin(
                        gorder.quantity@,
                        gorder.price@,
                        l@,
                        MarginType::Isolated,
                    ),
                    None => 0int,
                }),
                book0.symbol@ == gorder.symbol@,
                book0 == old(self).order_books@[si as int],
                books0 == old(self).order_books@,
                sym_idx(old(self).symbols@, gorder.symbol@) == si as int,
                acct_idx(old(self).accounts@, gorder.user_id) == ai as int,
                sm == crate::orderbook::spec_match(
                    crate::orderbook::opposite_of(book0, gorder.side),
                    gorder.quantity@,
                    gorder,
                ),
                crate::orderbook::spec_books_after(book0, book1, gorder, now),
                spec_settlements(
                    accounts_debited,
                    sm.0.take(trades@.len() as int),
                    gorder,
                    gorder.symbol@,
                    now,
                    self.accounts@,
                    true,
                ),
            ensures
                rest@.len() == 0,
                trades@.len() == gex.len(),
                forall|i: int| 0 <= i < trades@.len() ==> #[trigger] trades@[i] == gex[i].trade,
                self.wf(),
                self.symbols@ == old(self).symbols@,
                self.market_data@ == old(self).market_data@,
                self.quote_asset@ == old(self).quote_asset@,
                self.funding_calculator == old(self).funding_calculator,
                self.order_books@ == books0.update(si as int, book1),
                self.last_trade_prices@ == old(self).last_trade_prices@,
                spec_place_rejection(*old(self), gorder, now) is None,
                gex.len() == 0 ==> self.accounts@ == accounts_debited,
                spec_debited(
                    old(self).accounts@,
                    accounts_debited,
                    ai as int,
                    old(self).quote_asset@,
                    grm,
                ),
                grm == (match gorder.leverage {
                    Some(l) => spec_required_margin(
                        gorder.quantity@,
                        gorder.price@,
                        l@,
                        MarginType::Isolated,
                    ),
                    None => 0int,
                }),
                book0 == old(self).order_books@[si as int],
                spec_settlements(
                    accounts_debited,
                    sm.0.take(trades@.len() as int),
                    gorder,
                    gorder.symbol@,
                    now,
                    self.accounts@,
                    true,
                ),
            decreases rest@.len(),
        {
            if rest.len() == 0 {
                break;
            }
            let e = rest.remove(0);
            let ghost k: int = trades@.len() as int;
            let ghost pre_acc = self.accounts@;
            proof {
                assert(e == gex[k]);
                assert(crate::orderbook::exec_matches_fill(
                    e,
                    sm.0[k],
                    gorder,
                    book0.symbol@,
                    now,
                ));
            }
            match self.process_trade(&e, taker_user, taker_side, &taker_lev, now) {
                Ok(u) => {},
                Err(er) => {
                    proof {
                        lemma_failed_to_fill_step(
                            pre_acc,
                            self.accounts@,
                            e,
                            sm.0[k],
                            gorder,
                            gorder.symbol@,
                            now,
                        );
                        lemma_settlements_fail_tail(
                            accounts_debited,
                            sm.0,
                            k,
                            gorder,
                            gorder.symbol@,
                            now,
                            pre_acc,
                            self.accounts@,
                        );
                        assert(spec_placed_accounts(
                            old(self).accounts@,
                            self.accounts@,
                            ai as int,
                            old(self).quote_asset@,
                            grm,
                            sm.0,
                            gorder,
                            now,
                            false,
                        )) by {
                            assert(accounts_debited.len() >= 0);
                            assert(spec_debited(
                                old(self).accounts@,
                                accounts_debited,
                                ai as int,
                                old(self).quote_asset@,
                                grm,
                            ));
                            assert(spec_settlements(
                                accounts_debited,
                                sm.0,
                                gorder,
                                gorder.symbol@,
                                now,
                                self.accounts@,
                                false,
                            ));
                        }
                    }
                    return Err(er);
                },
            }
            proof {
                lemma_processed_to_fill_step(
                    pre_acc,
                    self.accounts@,
                    e,
                    sm.0[k],
                    gorder,
                    gorder.symbol@,
                    now,
                );
                lemma_settlements_snoc(
                    accounts_debited,
                    sm.0.take(k),
                    sm.0[k],
                    gorder,
                    gorder.symbol@,
                    now,
                    pre_acc,
                    self.accounts@,
                );
                assert(sm.0.take(k + 1) =~= sm.0.take(k).push(sm.0[k]));
            }
            trades.push(e.trade);
        }
        proof {
            assert(sm.0.take(trades@.len() as int) =~= sm.0);
            assert(spec_placed_accounts(
                old(self).accounts@,
                self.accounts@,
                ai as int,
                old(self).quote_asset@,
                grm,
                sm.0,
                gorder,
                now,
                true,
            )) by {
                assert(accounts_debited.len() >= 0);
                assert(spec_debited(
                    old(self).accounts@,
                    accounts_debited,
                    ai as int,
                    old(self).quote_asset@,
                    grm,
                ));
                assert(spec_settlements(
                    accounts_debited,
                    sm.0,
                    gorder,
                    gorder.symbol@,
                    now,
                    self.accounts@,
                    true,
                ));
            }
        }
        if trades.len() > 0 {
            let p = trades[trades.len() - 1].price;
            let ghost prices0 = self.last_trade_prices@;
            let removed = self.last_trade_prices.remove(si);
            self.last_trade_prices.insert(si, p);
            proof {
                assert(self.last_trade_prices@ =~= prices0.update(si as int, p));
            }
        }
        Ok(trades)
    }

    /// Cancels a resting order: removes it from the named side of its
    /// symbol's book and, when it was leveraged, credits the required
    /// margin for its remaining quantity back to the user's quote
    /// balance (saturating at the representable band) — the exact
    /// refund of the collateral a non-crossing placement locked.
    /// Every error leaves the venue exactly as it was.
    pub fn cancel_order(&mut self, user_id: u128, symbol: String, order_id: u128, side: Side) -> (r:
        Result<(), OrderError>)
        requires
            old(self).wf(),
        ensures
            final(self).wf(),
            final(self).symbols@ == old(self).symbols@,
            final(self).market_data@ == old(self).market_data@,
            final(self).quote_asset@ == old(self).quote_asset@,
            final(self).funding_calculator == old(self).funding_calculator,
            final(self).last_trade_prices@ == old(self).last_trade_prices@,
            ({
                let si = sym_idx(old(self).symbols@, symbol@);
                let ai = acct_idx(old(self).accounts@, user_id);
                if si == -1 {
                    r == Err::<(), OrderError>(OrderError::InvalidOrder) && *final(self) == *old(self)
                } else {
                    let book = old(self).order_books@[si];
                    let s0 = crate::orderbook::own_of(book, side);
                    let f = crate::orderbook::find_id(s0, order_id);
                    if f == -1 {
                        r == Err::<(), OrderError>(OrderError::OrderNotFound) && *final(self)
                            == *old(self)
                    } else {
                        let o = s0[f];
                        let book_updated = crate::orderbook::own_of(
                            final(self).order_books@[si],
                            side,
                        ) == s0.remove(f) && crate::orderbook::opposite_of(
                            final(self).order_books@[si],
                            side,
                        ) == crate::orderbook::opposite_of(book, side) && final(self).order_books@.len() == old(self).order_books@.len() && (forall|j: int|
                            0 <= j < old(self).order_books@.len() && j != si
                                ==> #[trigger] final(self).order_books@[j] == old(self).order_books@[j]);
                        match o.leverage {
                            Some(l) => {
                                if ai == -1 {
                                    r == Err::<(), OrderError>(OrderError::OrderNotFound)
                                        && *final(self) == *old(self)
                                } else {
                                    let rm = spec_required_margin(
                                        o.quantity@,
                                        o.price@,
                                        l@,
                                        MarginType::Isolated,
                                    );
                                    &&& r == Ok::<(), OrderError>(())
                                    &&& book_updated
                                    &&& final(self).accounts@.len() == old(self).accounts@.len()
                                    &&& forall|j: int|
                                        0 <= j < old(self).accounts@.len() && j != ai
                                            ==> #[trigger] final(self).accounts@[j] == old(self).accounts@[j]
                                    &&& final(self).accounts@[ai].user_id == old(self).accounts@[ai].user_id
                                    &&& final(self).accounts@[ai].positions@ == old(self).accounts@[ai].positions@
                                    &&& bal_of(
                                        final(self).accounts@[ai].balances@,
                                        old(self).quote_asset@,
                                    ) == crate::decimal::capped(
                                        bal_of(
                                            old(self).accounts@[ai].balances@,
                                            old(self).quote_asset@,
                                        ) + rm,
                                    )
                                    &&& forall|b: Seq<char>|
                                        b != old(self).quote_asset@ ==> bal_of(
                                            #[trigger] final(self).accounts@[ai].balances@,
                                            b,
                                        ) == bal_of(old(self).accounts@[ai].balances@, b)
                                }
                            },
                            None => r == Ok::<(), OrderError>(()) && book_updated && final(self).accounts@ == old(self).accounts@,
                        }
                    }
                }
            }),
    {
        let si = match symbol_index(&self.symbols, &symbol) {
            Some(i) => i,
            None => {
                return Err(OrderError::InvalidOrder);
            },
        };
        proof {
            assert(self.order_books@[si as int].wf());
            crate::orderbook::lemma_find_id_char(
                crate::orderbook::own_of(self.order_books@[si as int], side),
                order_id,
            );
        }
        // read the resting order's terms before removing it
        let ghost s0 = crate::orderbook::own_of(self.order_books@[si as int], side);
        let n = if side == Side::Buy {
            self.order_books[si].bids.len()
        } else {
            self.order_books[si].asks.len()
        };
        let mut j: usize = 0;
        loop
            invariant
                0 <= j <= n,
                0 <= si < self.order_books@.len(),
                n == s0.len(),
                s0 == crate::orderbook::own_of(self.order_books@[si as int], side),
                self == old(self),
                forall|k: int| 0 <= k < j ==> (#[trigger] s0[k]).id != order_id,
            ensures
                self == old(self),
                j <= n,
                j < n ==> s0[j as int].id == order_id,
                j == n ==> forall|k: int| 0 <= k < n ==> (#[trigger] s0[k]).id != order_id,
            decreases n - j,
        {
            if j == n {
                break;
            }
            let hit = if side == Side::Buy {
                self.order_books[si].bids[j].id == order_id
            } else {
                self.order_books[si].asks[j].id == order_id
            };
            if hit {
                break;
            }
            j = j + 1;
        }
        if j == n {
            proof {
                assert(crate::orderbook::find_id(s0, order_id) == -1);
            }
            return Err(OrderError::OrderNotFound);
        }
        proof {
            let f = crate::orderbook::find_id(s0, order_id);
            if f < j as int {
                assert(s0[f].id != order_id);
                assert(false);
            }
            if f > j as int {
                assert(s0[j as int].id != order_id);
                assert(false);
            }
            assert(crate::orderbook::wf_resting(s0[j as int]));
        }
        let (o_price, o_qty, o_lev) = if side == Side::Buy {
            (
                self.order_books[si].bids[j].price,
                self.order_books[si].bids[j].quantity,
                self.order_books[si].bids[j].leverage,
            )
        } else {
            (
                self.order_books[si].asks[j].price,
                self.order_books[si].asks[j].quantity,
                self.order_books[si].asks[j].leverage,
            )
        };
        // for a leveraged order, make sure the refund has somewhere to
        // go before the book is touched: an error leaves no partial
        // effect
        let refund_account = if o_lev.is_some() {
            match account_index(&self.accounts, user_id) {
                Some(a) => Some(a),
                None => {
                    return Err(OrderError::OrderNotFound);
                },
            }
        } else {
            None
        };
        let ghost books0 = self.order_books@;
        let mut book = self.order_books.remove(si);
        let cancel_res = book.cancel_order(order_id, side);
        self.order_books.insert(si, book);
        proof {
            assert(self.order_books@ =~= books0.update(si as int, self.order_books@[si as int]));
            assert forall|k: int|
                0 <= k < self.symbols@.len() implies (#[trigger] self.order_books@[k]).wf()
                    && self.order_books@[k].symbol@ == self.symbols@[k]@ by {
                if k != si as int {
                    assert(self.order_books@[k] == books0[k]);
                }
            }
        }
        match cancel_res {
            Ok(u) => {},
            Err(e) => {
                proof {
                    assert(false);
                }
                return Err(e);
            },
        }
        match (o_lev, refund_account) {
            (Some(l), Some(ai)) => {
                proof {
                    assert(self.accounts@[ai as int].wf());
                }
                let rm = MarginCalculator::calculate_required_margin(
                    o_qty,
                    o_price,
                    l,
                    MarginType::Isolated,
                );
                proof {
                    assert(rm@ == spec_required_margin(
                        o_qty@,
                        o_price@,
                        l@,
                        MarginType::Isolated,
                    ));
                    assert(0 <= rm@ <= 2 * crate::decimal::BAL_MAX) by {
                        crate::decimal::lemma_tdiv_magnitude(
                            o_qty@ * o_price@,
                            SCALE as int,
                        );
                        assert(0 <= o_qty@ * o_price@ <= AMT_MAX as int * AMT_MAX as int)
                            by (nonlinear_arith)
                            requires
                                0 <= o_qty@ <= AMT_MAX as int,
                                0 <= o_price@ <= AMT_MAX as int,
                        ;
                        crate::decimal::lemma_tdiv_magnitude(
                            crate::decimal::dmul(o_qty@, o_price@) * SCALE as int,
                            l@,
                        );
                    }
                }
                let ghost a0 = self.accounts@;
                let mut acct = self.accounts.remove(ai);
                acct.credit(self.quote_asset.as_str(), rm);
                self.accounts.insert(ai, acct);
                proof {
                    assert(self.accounts@ =~= a0.update(ai as int, self.accounts@[ai as int]));
                    assert forall|k: int|
                        0 <= k < self.accounts@.len() implies (#[trigger] self.accounts@[k]).wf() by {
                        if k != ai as int {
                            assert(self.accounts@[k] == a0[k]);
                        }
                    }
                }
                Ok(())
            },
            _ => Ok(()),
        }
    }

    /// Runs funding once over every symbol: computes and records one
    /// clamped rate per symbol from its market data (rejecting stale
    /// or unusable data with `InvalidOrder`), then applies each rate
    /// to every account's positions per `apply_funding`; an account
    /// whose funding would drive a margin negative fails the run with
    /// `FundingError`, leaving earlier accounts settled.
    /// Runs funding once over every symbol, in order: computes and
    /// records one clamped rate per symbol from its market data, then
    /// applies it to every account's positions per `apply_funding`.
    /// Fails with `InvalidOrder` exactly when some symbol's data is
    /// stale or its index price nonpositive, and with `FundingError`
    /// exactly when some account's funding rounds would drive a margin
    /// negative; an error can leave earlier symbols and accounts
    /// settled.  On success every account's positions are the fold of
    /// all due rounds, `spec_funding_rounds`.
    pub fn run_funding(&mut self, now: i64) -> (r: Result<Vec<FundingRate>, OrderError>)
        requires
            old(self).wf(),
            0 <= now,
            old(self).funding_calculator.last_funding_time + old(self).symbols@.len() * old(self).funding_calculator.funding_interval <= i64::MAX,
        ensures
            final(self).wf(),
            final(self).symbols@ == old(self).symbols@,
            final(self).market_data@ == old(self).market_data@,
            final(self).order_books@ == old(self).order_books@,
            final(self).last_trade_prices@ == old(self).last_trade_prices@,
            final(self).quote_asset@ == old(self).quote_asset@,
            final(self).funding_calculator.funding_interval == old(self).funding_calculator.funding_interval,
            match r {
                Result::Ok(rates) => {
                    &&& rates@.len() == old(self).symbols@.len()
                    &&& forall|i: int|
                        0 <= i < rates@.len() ==> (#[trigger] rates@[i]).symbol@ == old(self).symbols@[i]@ && rates@[i].rate@ == spec_rate_at(*old(self), i)
                            && rates@[i].next_funding_time == spec_due_at(*old(self), i)
                            && -RATE_LIMIT <= rates@[i].rate@ <= RATE_LIMIT
                    &&& forall|k: int|
                        0 <= k < old(self).symbols@.len() ==> !spec_symbol_bad(*old(self), k, now)
                    &&& final(self).accounts@.len() == old(self).accounts@.len()
                    &&& forall|j: int|
                        0 <= j < old(self).accounts@.len() ==> (#[trigger] final(self).accounts@[j]).user_id == old(self).accounts@[j].user_id
                            && final(self).accounts@[j].balances@ == old(self).accounts@[j].balances@
                            && final(self).accounts@[j].positions@ == spec_funding_rounds(
                            old(self).accounts@[j].positions@,
                            *old(self),
                            0,
                            now,
                        )
                },
                Result::Err(e) => (e == OrderError::InvalidOrder && exists|k: int|
                    0 <= k < old(self).symbols@.len() && spec_symbol_bad(*old(self), k, now)) || (
                e == OrderError::FundingError && exists|k: int|
                    0 <= k < old(self).accounts@.len() && spec_funding_rounds_fail(
                        old(self).accounts@[k].positions@,
                        *old(self),
                        0,
                        now,
                    )),
            },
    {
        let n = self.symbols.len();
        let mut rates: Vec<FundingRate> = Vec::new();
        let mut i: usize = 0;
        proof {
            assert forall|j: int|
                0 <= j < self.accounts@.len() implies spec_funding_rounds(
                self.accounts@[j].positions@,
                *old(self),
                0,
                now,
            ) == spec_funding_rounds(self.accounts@[j].positions@, *old(self), 0, now)
                && spec_funding_rounds_fail(self.accounts@[j].positions@, *old(self), 0, now)
                == spec_funding_rounds_fail(self.accounts@[j].positions@, *old(self), 0, now) by {}
        }
        loop
            invariant
                0 <= i <= n,
                n == self.symbols@.len(),
                self.wf(),
                self.symbols@ == old(self).symbols@,
                self.market_data@ == old(self).market_data@,
                self.order_books@ == old(self).order_books@,
                self.last_trade_prices@ == old(self).last_trade_prices@,
                self.quote_asset@ == old(self).quote_asset@,
                self.funding_calculator.funding_interval == old(self).funding_calculator.funding_interval,
                self.funding_calculator.last_funding_time == old(self).funding_calculator.last_funding_time
                    + i * old(self).funding_calculator.funding_interval,
                self.funding_calculator.last_funding_time + (n - i) * self.funding_calculator.funding_interval
                    <= i64::MAX,
                0 <= now,
                rates@.len() == i,
                forall|k: int|
                    0 <= k < i ==> (#[trigger] rates@[k]).symbol@ == old(self).symbols@[k]@
                        && rates@[k].rate@ == spec_rate_at(*old(self), k)
                        && rates@[k].next_funding_time == spec_due_at(*old(self), k)
                        && -RATE_LIMIT <= rates@[k].rate@ <= RATE_LIMIT,
                forall|k: int| 0 <= k < i ==> !spec_symbol_bad(*old(self), k, now),
                self.accounts@.len() == old(self).accounts@.len(),
                forall|j: int|
                    0 <= j < self.accounts@.len() ==> (#[trigger] self.accounts@[j]).user_id
                        == old(self).accounts@[j].user_id && self.accounts@[j].balances@ == old(self).accounts@[j].balances@
                        && spec_funding_rounds(
                        old(self).accounts@[j].positions@,
                        *old(self),
                        0,
                        now,
                    ) == spec_funding_rounds(self.accounts@[j].positions@, *old(self), i as int, now)
                        && spec_funding_rounds_fail(
                        old(self).accounts@[j].positions@,
                        *old(self),
                        0,
                        now,
                    ) == spec_funding_rounds_fail(
                        self.accounts@[j].positions@,
                        *old(self),
                        i as int,
                        now,
                    ),
            ensures
                i == n,
                self.wf(),
                self.symbols@ == old(self).symbols@,
                self.market_data@ == old(self).market_data@,
                self.order_books@ == old(self).order_books@,
                self.last_trade_prices@ == old(self).last_trade_prices@,
                self.quote_asset@ == old(self).quote_asset@,
                self.funding_calculator.funding_interval == old(self).funding_calculator.funding_interval,
                rates@.len() == n,
                forall|k: int|
                    0 <= k < n ==> (#[trigger] rates@[k]).symbol@ == old(self).symbols@[k]@
                        && rates@[k].rate@ == spec_rate_at(*old(self), k)
                        && rates@[k].next_funding_time == spec_due_at(*old(self), k)
                        && -RATE_LIMIT <= rates@[k].rate@ <= RATE_LIMIT,
                forall|k: int| 0 <= k < n ==> !spec_symbol_bad(*old(self), k, now),
                self.accounts@.len() == old(self).accounts@.len(),
                forall|j: int|
                    0 <= j < self.accounts@.len() ==> (#[trigger] self.accounts@[j]).user_id
                        == old(self).accounts@[j].user_id && self.accounts@[j].balances@ == old(self).accounts@[j].balances@
                        && spec_funding_rounds(
                        old(self).accounts@[j].positions@,
                        *old(self),
                        0,
                        now,
                    ) == spec_funding_rounds(self.accounts@[j].positions@, *old(self), n as int, now),
            decreases n - i,
        {
            if i == n {
                break;
            }
            if now - self.market_data[i].last_update > STALE_MS {
                proof {
                    assert(spec_symbol_bad(*old(self), i as int, now));
                }
                return Err(OrderError::InvalidOrder);
            }
            if self.market_data[i].index_price.m <= 0 {
                proof {
                    assert(spec_symbol_bad(*old(self), i as int, now));
                }
                return Err(OrderError::InvalidOrder);
            }
            proof {
                assert(self.market_data@[i as int].wf());
                assert((n - i) as int * self.funding_calculator.funding_interval as int
                    >= self.funding_calculator.funding_interval as int) by (nonlinear_arith)
                    requires
                        n - i >= 1,
                        self.funding_calculator.funding_interval >= 0,
                ;
                assert((n - i) as int * self.funding_calculator.funding_interval as int == (n - i
                    - 1) as int * self.funding_calculator.funding_interval as int
                    + self.funding_calculator.funding_interval as int) by (nonlinear_arith);
                let ghost fint: int = old(self).funding_calculator.funding_interval as int;
                assert((i + 1) as int * fint == i as int * fint + fint) by (nonlinear_arith);
            }
            let rate = self.funding_calculator.calculate_funding_rate(
                self.symbols[i].clone(),
                self.market_data[i].mark_price,
                self.market_data[i].index_price,
                self.market_data[i].open_interest_long,
                self.market_data[i].open_interest_short,
            );
            proof {
                assert(rate.rate@ == spec_rate_at(*old(self), i as int));
                assert(rate.next_funding_time == spec_due_at(*old(self), i as int));
                assert(rate.symbol@ == old(self).symbols@[i as int]@);
            }
            let ghost around = self.accounts@;
            let m = self.accounts.len();
            let mut k: usize = 0;
            loop
                invariant
                    0 <= k <= m,
                    m == around.len(),
                    self.accounts@.len() == m,
                    m == old(self).accounts@.len(),
                    0 <= i < n,
                    n == old(self).symbols@.len(),
                    self.wf(),
                    self.symbols@ == old(self).symbols@,
                    self.market_data@ == old(self).market_data@,
                    self.order_books@ == old(self).order_books@,
                    self.last_trade_prices@ == old(self).last_trade_prices@,
                    self.quote_asset@ == old(self).quote_asset@,
                    self.funding_calculator.funding_interval == old(self).funding_calculator.funding_interval,
                    self.funding_calculator.last_funding_time == old(self).funding_calculator.last_funding_time
                        + (i + 1) * old(self).funding_calculator.funding_interval,
                    self.funding_calculator.last_funding_time + (n - i - 1) * self.funding_calculator.funding_interval
                        <= i64::MAX,
                    -RATE_LIMIT <= rate.rate@ <= RATE_LIMIT,
                    rate.rate@ == spec_rate_at(*old(self), i as int),
                    rate.next_funding_time == spec_due_at(*old(self), i as int),
                    rate.symbol@ == old(self).symbols@[i as int]@,
                    0 <= now,
                    forall|j: int| k <= j < m ==> #[trigger] self.accounts@[j] == around[j],
                    forall|j: int|
                        0 <= j < k ==> (#[trigger] self.accounts@[j]).user_id == around[j].user_id
                            && self.accounts@[j].balances@ == around[j].balances@
                            && self.accounts@[j].positions@ == (if now < rate.next_funding_time {
                            around[j].positions@
                        } else {
                            crate::funding::spec_apply_funding(
                                around[j].positions@,
                                rate.symbol@,
                                rate.rate@,
                                now,
                            ).0
                        }) && (now >= rate.next_funding_time
                            ==> !crate::funding::spec_apply_funding(
                            around[j].positions@,
                            rate.symbol@,
                            rate.rate@,
                            now,
                        ).2),
                    forall|j: int|
                        0 <= j < m ==> (#[trigger] around[j]).user_id == old(self).accounts@[j].user_id
                            && around[j].balances@ == old(self).accounts@[j].balances@
                            && spec_funding_rounds(
                            old(self).accounts@[j].positions@,
                            *old(self),
                            0,
                            now,
                        ) == spec_funding_rounds(around[j].positions@, *old(self), i as int, now)
                            && spec_funding_rounds_fail(
                            old(self).accounts@[j].positions@,
                            *old(self),
                            0,
                            now,
                        ) == spec_funding_rounds_fail(
                            around[j].positions@,
                            *old(self),
                            i as int,
                            now,
                        ),
                ensures
                    k == m,
                    self.accounts@.len() == m,
                    self.wf(),
                    self.symbols@ == old(self).symbols@,
                    self.market_data@ == old(self).market_data@,
                    self.order_books@ == old(self).order_books@,
                    self.last_trade_prices@ == old(self).last_trade_prices@,
                    self.quote_asset@ == old(self).quote_asset@,
                    self.funding_calculator.funding_interval == old(self).funding_calculator.funding_interval,
                    self.funding_calculator.last_funding_time == old(self).funding_calculator.last_funding_time
                        + (i + 1) * old(self).funding_calculator.funding_interval,
                    self.funding_calculator.last_funding_time + (n - i - 1) * self.funding_calculator.funding_interval
                        <= i64::MAX,
                    forall|j: int|
                        0 <= j < m ==> (#[trigger] self.accounts@[j]).user_id == around[j].user_id
                            && self.accounts@[j].balances@ == around[j].balances@
                            && self.accounts@[j].positions@ == (if now < rate.next_funding_time {
                            around[j].positions@
                        } else {
                            crate::funding::spec_apply_funding(
                                around[j].positions@,
                                rate.symbol@,
                                rate.rate@,
                                now,
                            ).0
                        }) && (now >= rate.next_funding_time
                            ==> !crate::funding::spec_apply_funding(
                            around[j].positions@,
                            rate.symbol@,
                            rate.rate@,
                            now,
                        ).2),
                decreases m - k,
            {
                if k == self.accounts.len() {
                    break;
                }
                proof {
                    assert(self.accounts@[k as int].wf());
                    assert(self.accounts@[k as int] == around[k as int]);
                }
                let ghost a0 = self.accounts@;
                let mut acct = self.accounts.remove(k);
                let res = self.funding_calculator.apply_funding(&mut acct.positions, &rate, now);
                proof {
                    crate::funding::lemma_apply_funding_shape(
                        a0[k as int].positions@,
                        rate.symbol@,
                        rate.rate@,
                        now,
                    );
                }
                self.accounts.insert(k, acct);
                proof {
                    assert(self.accounts@ =~= a0.update(k as int, self.accounts@[k as int]));
                    assert forall|t: int|
                        0 <= t < self.accounts@.len() implies (#[trigger] self.accounts@[t]).wf() by {
                        if t != k as int {
                            assert(self.accounts@[t] == a0[t]);
                        }
                    }
                }
                match res {
                    Ok(u) => {},
                    Err(e) => {
                        proof {
                            // the failing account's rounds from symbol i fail,
                            // hence its rounds from the start fail
                            assert(spec_funding_rounds_fail(
                                around[k as int].positions@,
                                *old(self),
                                i as int,
                                now,
                            ));
                            assert(spec_funding_rounds_fail(
                                old(self).accounts@[k as int].positions@,
                                *old(self),
                                0,
                                now,
                            ));
                        }
                        return Err(e);
                    },
                }
                proof {
                    assert forall|j: int|
                        0 <= j < k + 1 implies (#[trigger] self.accounts@[j]).user_id == around[j].user_id
                            && self.accounts@[j].balances@ == around[j].balances@
                            && self.accounts@[j].positions@ == (if now < rate.next_funding_time {
                            around[j].positions@
                        } else {
                            crate::funding::spec_apply_funding(
                                around[j].positions@,
                                rate.symbol@,
                                rate.rate@,
                                now,
                            ).0
                        }) && (now >= rate.next_funding_time
                            ==> !crate::funding::spec_apply_funding(
                            around[j].positions@,
                            rate.symbol@,
                            rate.rate@,
                            now,
                        ).2) by {
                        if j < k as int {
                            assert(self.accounts@[j] == a0[j]);
                        } else {
                            assert(a0[k as int] == around[k as int]);
                        }
                    }
                }
                k = k + 1;
            }
            proof {
                assert forall|j: int|
                    0 <= j < self.accounts@.len() implies (#[trigger] self.accounts@[j]).user_id
                        == old(self).accounts@[j].user_id && self.accounts@[j].balances@ == old(self).accounts@[j].balances@
                        && spec_funding_rounds(
                        old(self).accounts@[j].positions@,
                        *old(self),
                        0,
                        now,
                    ) == spec_funding_rounds(
                        self.accounts@[j].positions@,
                        *old(self),
                        i as int + 1,
                        now,
                    ) && spec_funding_rounds_fail(
                        old(self).accounts@[j].positions@,
                        *old(self),
                        0,
                        now,
                    ) == spec_funding_rounds_fail(
                        self.accounts@[j].positions@,
                        *old(self),
                        i as int + 1,
                        now,
                    ) by {
                    assert(spec_funding_rounds(around[j].positions@, *old(self), i as int, now)
                        == spec_funding_rounds(
                        self.accounts@[j].positions@,
                        *old(self),
                        i as int + 1,
                        now,
                    ));
                    assert(spec_funding_rounds_fail(
                        around[j].positions@,
                        *old(self),
                        i as int,
                        now,
                    ) == spec_funding_rounds_fail(
                        self.accounts@[j].positions@,
                        *old(self),
                        i as int + 1,
                        now,
                    ));
                }
            }
            rates.push(rate);
            i = i + 1;
        }
        Ok(rates)
    }

    /// Read-only snapshot of one symbol's market data.
    pub fn get_market_data(&self, symbol: &str) -> (r: Option<&MarketData>)
        requires
            self.wf(),
        ensures
            match r {
                Some(md) => sym_idx(self.symbols@, symbol@) >= 0 && *md == self.market_data@[
                    sym_idx(self.symbols@, symbol@)
                ],
                None => sym_idx(self.symbols@, symbol@) == -1,
            },
    {
        let sym = String::from_str(symbol);
        match symbol_index(&self.symbols, &sym) {
            Some(i) => Some(&self.market_data[i]),
            None => None,
        }
    }

    /// The price of the last trade on a symbol, if the symbol is
    /// configured.
    pub fn get_last_trade_price(&self, symbol: &str) -> (r: Option<Dec>)
        requires
            self.wf(),
        ensures
            match r {
                Some(p) => sym_idx(self.symbols@, symbol@) >= 0 && p == self.last_trade_prices@[
                    sym_idx(self.symbols@, symbol@)
                ],
                None => sym_idx(self.symbols@, symbol@) == -1,
            },
    {
        let sym = String::from_str(symbol);
        match symbol_index(&self.symbols, &sym) {
            Some(i) => Some(self.last_trade_prices[i]),
            None => None,
        }
    }
}

} // verus!

