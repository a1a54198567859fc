use std::collections::VecDeque;
use vstd::prelude::*;
use vstd::string::StringExecFns;

use crate::notice::{Event, Message};
use crate::notice::decimal;
use crate::notice::decimal_string;
use crate::orders::{limit_order_text, LimitOrder, MarketOrder, MarketSide, Orders};

verus! {

/// All resting orders at one price, oldest first.
#[derive(Debug)]
pub struct PriceLevel {
    pub price: usize,
    pub orders: VecDeque<LimitOrder>,
}

/// For resting orders on `side`, whether price `a` is better than price `b`:
/// higher for bids, lower for asks.
pub open spec fn better(side: MarketSide, a: usize, b: usize) -> bool {
    match side {
        MarketSide::Bid => a > b,
        MarketSide::Ask => a < b,
    }
}

fn is_better(side: MarketSide, a: usize, b: usize) -> (r: bool)
    ensures
        r == better(side, a, b),
{
    match side {
        MarketSide::Bid => a > b,
        MarketSide::Ask => a < b,
    }
}

/// `o` may rest on `side` in the level at `price`: it belongs there and is
/// not yet completely filled.
pub open spec fn resting_ok(o: LimitOrder, side: MarketSide, price: usize) -> bool {
    &&& o.side == side
    &&& o.price == price
    &&& o.fill_size < o.size
}

/// The levels of one side of the book: prices strictly improving towards the
/// end (so the best level is the last), no empty level, and every order in
/// the level of its own price with some quantity still open.
pub open spec fn side_wf(side: MarketSide, levels: Seq<PriceLevel>) -> bool {
    &&& forall|i: int, j: int|
        0 <= i < j < levels.len() ==> better(side, #[trigger] levels[j].price, #[trigger] levels[i].price)
    &&& forall|i: int| 0 <= i < levels.len() ==> (#[trigger] levels[i]).orders@.len() > 0
    &&& forall|i: int, k: int|
        0 <= i < levels.len() && 0 <= k < levels[i].orders@.len() ==> resting_ok(
            #[trigger] levels[i].orders@[k],
            side,
            levels[i].price,
        )
}

/// The orders resting at `price`, oldest first; empty where no level has that price.
pub open spec fn orders_at(levels: Seq<PriceLevel>, price: usize) -> Seq<LimitOrder> {
    if exists|i: int| 0 <= i < levels.len() && levels[i].price == price {
        levels[choose|i: int| 0 <= i < levels.len() && levels[i].price == price].orders@
    } else {
        Seq::empty()
    }
}

/// All orders of one side in the order in which an aggressor meets them: best
/// price first, and oldest first within a price.
pub open spec fn queue(levels: Seq<PriceLevel>) -> Seq<LimitOrder>
    decreases levels.len(),
{
    if levels.len() == 0 {
        Seq::empty()
    } else {
        levels.last().orders@ + queue(levels.drop_last())
    }
}

/// A limit order that the book accepts: some quantity of it is still open.
pub open spec fn limit_valid(o: LimitOrder) -> bool {
    o.fill_size < o.size
}

/// A market order that the book accepts: it is not filled beyond its size.
pub open spec fn market_valid(m: MarketOrder) -> bool {
    m.fill_size <= m.size
}

pub open spec fn order_valid(order: Orders) -> bool {
    match order {
        Orders::Limit(o) => limit_valid(o),
        Orders::Market(m) => market_valid(m),
    }
}

/// What matching a market order with `rem` open against the resting orders
/// `q` (in priority order) leaves resting: orders are consumed from the front;
/// the first one larger than what is left keeps its place, partly filled.
pub open spec fn fill_queue(q: Seq<LimitOrder>, rem: int) -> Seq<LimitOrder>
    decreases q.len(),
{
    if rem <= 0 || q.len() == 0 {
        q
    } else if q[0].remaining() <= rem {
        fill_queue(q.drop_first(), rem - q[0].remaining())
    } else {
        q.update(0, q[0].filled_by(rem))
    }
}

/// The notifications of one trade of `amount` between resting order `o` and
/// market order `m`: to the resting order's client, to the market order's
/// client, and the trade price for the feed.
pub open spec fn trade_events(o: LimitOrder, m: MarketOrder, amount: int) -> Seq<Event> {
    seq![
        Event::Notify {
            client: o.client,
            message: Message::Filled { filled: amount as usize, requested: o.size },
        },
        Event::Notify {
            client: m.client,
            message: Message::FilledAt {
                filled: amount as usize,
                requested: m.size,
                price: o.price,
            },
        },
        Event::Trade { price: o.price },
    ]
}

/// The events of matching market order `m`, with `rem` still open, against
/// the resting orders `q`: one trade per resting order met, then, where the
/// resting orders run out first, the unfilled remainder to `m`'s client.
pub open spec fn match_events(q: Seq<LimitOrder>, m: MarketOrder, rem: int) -> Seq<Event>
    decreases q.len(),
{
    if rem <= 0 {
        Seq::empty()
    } else if q.len() == 0 {
        seq![
            Event::Notify {
                client: m.client,
                message: Message::Unfilled { remainder: rem as usize, requested: m.size },
            },
        ]
    } else if q[0].remaining() <= rem {
        trade_events(q[0], m, q[0].remaining()) + match_events(
            q.drop_first(),
            m,
            rem - q[0].remaining(),
        )
    } else {
        trade_events(q[0], m, rem)
    }
}

/// The orders of a level in the dump, oldest first, each followed by a space.
pub open spec fn orders_text(q: Seq<LimitOrder>) -> Seq<char>
    decreases q.len(),
{
    if q.len() == 0 {
        Seq::empty()
    } else {
        orders_text(q.drop_last()) + limit_order_text(q.last()) + " "@
    }
}

/// One line of the dump: a price and the orders resting at it.
pub open spec fn level_text(l: PriceLevel) -> Seq<char> {
    "  "@ + decimal(l.price as nat) + " -> "@ + orders_text(l.orders@) + "\n"@
}

/// The lines of `levels` in their own order.
pub open spec fn levels_text(levels: Seq<PriceLevel>) -> Seq<char>
    decreases levels.len(),
{
    if levels.len() == 0 {
        Seq::empty()
    } else {
        levels_text(levels.drop_last()) + level_text(levels.last())
    }
}

/// The lines of `levels` last first.
pub open spec fn levels_text_rev(levels: Seq<PriceLevel>) -> Seq<char>
    decreases levels.len(),
{
    if levels.len() == 0 {
        Seq::empty()
    } else {
        level_text(levels.last()) + levels_text_rev(levels.drop_last())
    }
}

/// The dump of a book: each side's levels by ascending price.
pub open spec fn book_text(bids: Seq<PriceLevel>, asks: Seq<PriceLevel>) -> Seq<char> {
    "OrderBook:\n"@ + "Bids:\n"@ + levels_text(bids) + "Asks:\n"@ + levels_text_rev(asks)
}

fn push_level(s: &mut String, l: &PriceLevel)
    ensures
        final(s)@ == old(s)@ + level_text(*l),
{
    let ghost s0 = s@;
    s.append("  ");
    let p = decimal_string(l.price);
    s.append(p.as_str());
    s.append(" -> ");
    let ghost s1 = s@;
    let n = l.orders.len();
    let mut i: usize = 0;
    while i < n
        invariant
            n == l.orders@.len(),
            0 <= i <= n,
            s@ == s1 + orders_text(l.orders@.subrange(0, i as int)),
        decreases n - i,
    {
        let t = l.orders[i].text();
        s.append(t.as_str());
        s.append(" ");
        proof {
            let q = l.orders@.subrange(0, i + 1);
            assert(q.drop_last() =~= l.orders@.subrange(0, i as int));
            assert(q.last() == l.orders@[i as int]);
            assert(s@ =~= s1 + orders_text(q));
        }
        i = i + 1;
    }
    s.append("\n");
    proof {
        assert(l.orders@.subrange(0, n as int) =~= l.orders@);
        assert(s@ =~= s0 + level_text(*l));
    }
}

/// Whether the book accepts `order` (see `order_valid`).
pub fn order_is_valid(order: &Orders) -> (r: bool)
    ensures
        r == order_valid(*order),
{
    match order {
        Orders::Limit(o) => o.fill_size < o.size,
        Orders::Market(m) => m.fill_size <= m.size,
    }
}

/// The level of a price is the level at that index, in well-formed levels.
proof fn lemma_orders_at_index(side: MarketSide, levels: Seq<PriceLevel>, i: int)
    requires
        side_wf(side, levels),
        0 <= i < levels.len(),
    ensures
        orders_at(levels, levels[i].price) == levels[i].orders@,
{
    let p = levels[i].price;
    let j = choose|j: int| 0 <= j < levels.len() && levels[j].price == p;
    if j < i {
        assert(better(side, levels[i].price, levels[j].price));
    } else if i < j {
        assert(better(side, levels[j].price, levels[i].price));
    }
}

/// Appending to the level at index `i` changes the orders of its price only.
proof fn lemma_grown_level(
    side: MarketSide,
    l0: Seq<PriceLevel>,
    l1: Seq<PriceLevel>,
    p: usize,
    i: int,
    o: LimitOrder,
)
    requires
        side_wf(side, l0),
        side_wf(side, l1),
        0 <= i < l0.len(),
        l1.len() == l0.len(),
        forall|a: int| 0 <= a < l0.len() && a != i ==> l1[a] == l0[a],
        l1[i].price == l0[i].price,
        l0[i].price == o.price,
        l1[i].orders@ == l0[i].orders@.push(o),
    ensures
        orders_at(l1, p) == if p == o.price {
            orders_at(l0, p).push(o)
        } else {
            orders_at(l0, p)
        },
{
    lemma_orders_at_index(side, l0, i);
    lemma_orders_at_index(side, l1, i);
    if p != o.price {
        if exists|a: int| 0 <= a < l0.len() && l0[a].price == p {
            let a = choose|a: int| 0 <= a < l0.len() && l0[a].price == p;
            lemma_orders_at_index(side, l0, a);
            lemma_orders_at_index(side, l1, a);
        } else {
            assert(!exists|a: int| 0 <= a < l1.len() && l1[a].price == p);
        }
    }
}

/// Inserting a new level for an absent price adds that price only.
proof fn lemma_new_level(
    side: MarketSide,
    l0: Seq<PriceLevel>,
    l1: Seq<PriceLevel>,
    p: usize,
    i: int,
    o: LimitOrder,
)
    requires
        side_wf(side, l0),
        side_wf(side, l1),
        0 <= i <= l0.len(),
        l1 == l0.insert(i, l1[i]),
        l1[i].price == o.price,
        l1[i].orders@ == seq![o],
        forall|k: int| 0 <= k < l0.len() ==> #[trigger] l0[k].price != o.price,
    ensures
        orders_at(l1, p) == if p == o.price {
            orders_at(l0, p).push(o)
        } else {
            orders_at(l0, p)
        },
{
    if p == o.price {
        lemma_orders_at_index(side, l1, i);
        assert(orders_at(l0, p) == Seq::<LimitOrder>::empty());
        assert(seq![o] =~= Seq::<LimitOrder>::empty().push(o));
    } else {
        if exists|a: int| 0 <= a < l0.len() && l0[a].price == p {
            let a = choose|a: int| 0 <= a < l0.len() && l0[a].price == p;
            lemma_orders_at_index(side, l0, a);
            if a < i {
                lemma_orders_at_index(side, l1, a);
            } else {
                assert(l1[a + 1] == l0[a]);
                lemma_orders_at_index(side, l1, a + 1);
            }
        } else {
            assert forall|a: int| 0 <= a < l1.len() implies l1[a].price != p by {
                if a < i {
                    assert(l1[a] == l0[a]);
                } else if a > i {
                    assert(l1[a] == l0[a - 1]);
                }
            }
        }
    }
}

/// The book: resting bids and asks, each side a sequence of price levels
/// kept in price-time priority.
#[derive(Debug)]
pub struct OrderBook {
    bids: Vec<PriceLevel>,
    asks: Vec<PriceLevel>,
}

impl OrderBook {
    /// The price levels resting on `side`, worst price first and best last.
    pub closed spec fn levels(&self, side: MarketSide) -> Seq<PriceLevel> {
        match side {
            MarketSide::Bid => self.bids@,
            MarketSide::Ask => self.asks@,
        }
    }

    pub open spec fn wf(&self) -> bool {
        &&& side_wf(MarketSide::Bid, self.levels(MarketSide::Bid))
        &&& side_wf(MarketSide::Ask, self.levels(MarketSide::Ask))
    }

    pub fn new() -> (r: Self)
        ensures
            r.wf(),
            r.levels(MarketSide::Bid) == Seq::<PriceLevel>::empty(),
            r.levels(MarketSide::Ask) == Seq::<PriceLevel>::empty(),
    {
        OrderBook { bids: Vec::new(), asks: Vec::new() }
    }

    /// A listing of the book for operators: per side, each price with the
    /// orders resting at it, by ascending price.
    pub fn dump(&self) -> (r: String)
        ensures
            r@ == book_text(self.levels(MarketSide::Bid), self.levels(MarketSide::Ask)),
    {
        let mut s = String::from_str("OrderBook:\n");
        s.append("Bids:\n");
        let ghost h = s@;
        let mut i: usize = 0;
        while i < self.bids.len()
            invariant
                0 <= i <= self.bids@.len(),
                s@ == h + levels_text(self.bids@.subrange(0, i as int)),
            decreases self.bids@.len() - i,
        {
            push_level(&mut s, &self.bids[i]);
            proof {
                let l = self.bids@.subrange(0, i + 1);
                assert(l.drop_last() =~= self.bids@.subrange(0, i as int));
                assert(s@ =~= h + levels_text(l));
            }
            i = i + 1;
        }
        proof {
            assert(self.bids@.subrange(0, self.bids@.len() as int) =~= self.bids@);
        }
        s.append("Asks:\n");
        let ghost h2 = s@;
        let mut j: usize = self.asks.len();
        proof {
            assert(self.asks@.subrange(0, j as int) =~= self.asks@);
            assert(s@ + levels_text_rev(self.asks@) =~= h2 + levels_text_rev(self.asks@));
        }
        while j > 0
            invariant
                0 <= j <= self.asks@.len(),
                h2 + levels_text_rev(self.asks@) == s@ + levels_text_rev(
                    self.asks@.subrange(0, j as int),
                ),
            decreases j,
        {
            let ghost s0 = s@;
            push_level(&mut s, &self.asks[j - 1]);
            proof {
                let l = self.asks@.subrange(0, j as int);
                assert(l.drop_last() =~= self.asks@.subrange(0, j - 1));
                assert(l.last() == self.asks@[j - 1]);
                assert(s0 + levels_text_rev(l) =~= s@ + levels_text_rev(l.drop_last()));
            }
            j = j - 1;
        }
        proof {
            assert(self.asks@.subrange(0, 0) =~= Seq::<PriceLevel>::empty());
            assert(s@ =~= book_text(self.bids@, self.asks@));
        }
        s
    }

    /// Matches `market_order` against the resting orders of the opposite
    /// side, best price first and oldest first within a price, until it is
    /// filled or that side is empty. Returns the notifications and trade
    /// prices, in the order in which they arose.
    pub fn match_order(&mut self, market_order: MarketOrder) -> (events: Vec<Event>)
        requires
            old(self).wf(),
            market_valid(market_order),
        ensures
            final(self).wf(),
            final(self).levels(market_order.side) == old(self).levels(market_order.side),
            queue(final(self).levels(market_order.side.opposite())) == fill_queue(
                queue(old(self).levels(market_order.side.opposite())),
                market_order.remaining(),
            ),
            events@ == match_events(
                queue(old(self).levels(market_order.side.opposite())),
                market_order,
                market_order.remaining(),
            ),
    {
        match market_order.side() {
            MarketSide::Ask => Self::match_levels(&mut self.bids, MarketSide::Bid, market_order),
            MarketSide::Bid => Self::match_levels(&mut self.asks, MarketSide::Ask, market_order),
        }
    }

    /// Applies one order to the book: a limit order rests, a market order
    /// trades. Returns what is to be sent out.
    pub fn handle_order(&mut self, order: Orders) -> (events: Vec<Event>)
        requires
            old(self).wf(),
            order_valid(order),
        ensures
            final(self).wf(),
            match order {
                Orders::Limit(o) => {
                    &&& events@ == Seq::<Event>::empty()
                    &&& final(self).levels(o.side.opposite()) == old(self).levels(
                        o.side.opposite(),
                    )
                    &&& forall|p: usize|
                        #[trigger] orders_at(final(self).levels(o.side), p) == if p == o.price {
                            orders_at(old(self).levels(o.side), p).push(o)
                        } else {
                            orders_at(old(self).levels(o.side), p)
                        }
                },
                Orders::Market(m) => {
                    &&& final(self).levels(m.side) == old(self).levels(m.side)
                    &&& queue(final(self).levels(m.side.opposite())) == fill_queue(
                        queue(old(self).levels(m.side.opposite())),
                        m.remaining(),
                    )
                    &&& events@ == match_events(
                        queue(old(self).levels(m.side.opposite())),
                        m,
                        m.remaining(),
                    )
                },
            },
    {
        match order {
            Orders::Market(market_order) => self.match_order(market_order),
            Orders::Limit(limit_order) => {
                self.add_order(limit_order);
                Vec::new()
            },
        }
    }

    /// Appends `limit_order` to the tail of the level of its price on its side.
    pub fn add_order(&mut self, limit_order: LimitOrder)
        requires
            old(self).wf(),
            limit_valid(limit_order),
        ensures
            final(self).wf(),
            final(self).levels(limit_order.side.opposite()) == old(self).levels(
                limit_order.side.opposite(),
            ),
            forall|p: usize|
                #[trigger] orders_at(final(self).levels(limit_order.side), p) == if p
                    == limit_order.price {
                    orders_at(old(self).levels(limit_order.side), p).push(limit_order)
                } else {
                    orders_at(old(self).levels(limit_order.side), p)
                },
    {
        match limit_order.side {
            MarketSide::Ask => Self::insert_level(&mut self.asks, limit_order),
            MarketSide::Bid => Self::insert_level(&mut self.bids, limit_order),
        }
    }

    /// The best price among well-formed levels: that of the last level.
    fn best_of(side: MarketSide, levels: &Vec<PriceLevel>) -> (r: Option<usize>)
        requires
            side_wf(side, levels@),
        ensures
            match r {
                None => forall|q: usize| #[trigger] orders_at(levels@, q).len() == 0,
                Some(p) => {
                    &&& orders_at(levels@, p).len() > 0
                    &&& forall|q: usize| #[trigger]
                        orders_at(levels@, q).len() > 0 ==> q == p || better(side, p, q)
                },
            },
    {
        let n = levels.len();
        if n == 0 {
            None
        } else {
            let p = levels[n - 1].price;
            proof {
                lemma_orders_at_index(side, levels@, n - 1);
                assert forall|q: usize| #[trigger]
                    orders_at(levels@, q).len() > 0 implies q == p || better(side, p, q) by {
                    let a = choose|a: int| 0 <= a < levels@.len() && levels@[a].price == q;
                    if a < n - 1 {
                        assert(better(side, levels@[n - 1].price, levels@[a].price));
                    }
                }
            }
            Some(p)
        }
    }

    /// The highest price at which a bid rests, if any.
    pub fn get_best_bid(&self) -> (r: Option<usize>)
        requires
            self.wf(),
        ensures
            match r {
                None => forall|q: usize|
                    #[trigger] orders_at(self.levels(MarketSide::Bid), q).len() == 0,
                Some(p) => {
                    &&& orders_at(self.levels(MarketSide::Bid), p).len() > 0
                    &&& forall|q: usize| #[trigger]
                        orders_at(self.levels(MarketSide::Bid), q).len() > 0 ==> q <= p
                },
            },
    {
        Self::best_of(MarketSide::Bid, &self.bids)
    }

    /// The lowest price at which an ask rests, if any.
    pub fn get_best_ask(&self) -> (r: Option<usize>)
        requires
            self.wf(),
        ensures
            match r {
                None => forall|q: usize|
                    #[trigger] orders_at(self.levels(MarketSide::Ask), q).len() == 0,
                Some(p) => {
                    &&& orders_at(self.levels(MarketSide::Ask), p).len() > 0
                    &&& forall|q: usize| #[trigger]
                        orders_at(self.levels(MarketSide::Ask), q).len() > 0 ==> q >= p
                },
            },
    {
        Self::best_of(MarketSide::Ask, &self.asks)
    }

    /// The orders resting on `side` at `price`, oldest first.
    pub fn resting_orders(&self, side: MarketSide, price: usize) -> (r: Vec<LimitOrder>)
        requires
            self.wf(),
        ensures
            r@ == orders_at(self.levels(side), price),
    {
        let levels = match side {
            MarketSide::Bid => &self.bids,
            MarketSide::Ask => &self.asks,
        };
        let mut r: Vec<LimitOrder> = Vec::new();
        let mut i: usize = 0;
        while i < levels.len()
            invariant
                levels@ == self.levels(side),
                side_wf(side, levels@),
                0 <= i <= levels@.len(),
                r@.len() == 0,
                forall|k: int| 0 <= k < i ==> #[trigger] levels@[k].price != price,
            decreases levels@.len() - i,
        {
            if levels[i].price == price {
                let q = &levels[i].orders;
                let mut k: usize = 0;
                while k < q.len()
                    invariant
                        0 <= k <= q@.len(),
                        r@ == q@.subrange(0, k as int),
                    decreases q@.len() - k,
                {
                    r.push(q[k]);
                    k = k + 1;
                    proof {
                        assert(r@ =~= q@.subrange(0, k as int));
                    }
                }
                proof {
                    lemma_orders_at_index(side, levels@, i as int);
                    assert(r@ =~= q@);
                }
                return r;
            }
            i = i + 1;
        }
        r
    }

    /// Matches market order `m` against the resting orders of `levels`, the
    /// side opposite to it: best price first, oldest first within a price.
    fn match_levels(levels: &mut Vec<PriceLevel>, side: MarketSide, m: MarketOrder) -> (events:
        Vec<Event>)
        requires
            side_wf(side, old(levels)@),
            market_valid(m),
        ensures
            side_wf(side, final(levels)@),
            queue(final(levels)@) == fill_queue(queue(old(levels)@), m.remaining()),
            events@ == match_events(queue(old(levels)@), m, m.remaining()),
    {
        let ghost q0 = queue(levels@);
        let mut market_order = m;
        let mut events: Vec<Event> = Vec::new();
        while market_order.size() - market_order.fill_size() > 0 && levels.len() > 0
            invariant
                side_wf(side, levels@),
                market_order.size == m.size,
                market_order.client == m.client,
                m.fill_size <= market_order.fill_size <= m.size,
                fill_queue(queue(levels@), market_order.remaining()) == fill_queue(
                    q0,
                    m.remaining(),
                ),
                events@ + match_events(queue(levels@), m, market_order.remaining())
                    == match_events(q0, m, m.remaining()),
            decreases market_order.remaining(),
        {
            let rem = market_order.size() - market_order.fill_size();
            let ghost l0 = levels@;
            let ghost ev0 = events@;
            let mut lvl = levels.pop().unwrap();
            let price = lvl.price;
            proof {
                assert(lvl == l0[l0.len() - 1]);
                assert(lvl.orders@.len() > 0);
                assert(resting_ok(lvl.orders@[0], side, price));
            }
            let ghost rest0 = lvl.orders@.drop_first();
            let mut limit_order = lvl.orders.pop_front().unwrap();
            let avail = limit_order.size() - limit_order.fill_size();
            let amount = if avail < rem {
                avail
            } else {
                rem
            };
            events.push(
                Event::Notify {
                    client: limit_order.client(),
                    message: Message::Filled { filled: amount, requested: limit_order.size() },
                },
            );
            events.push(
                Event::Notify {
                    client: market_order.client(),
                    message: Message::FilledAt {
                        filled: amount,
                        requested: market_order.size(),
                        price,
                    },
                },
            );
            events.push(Event::Trade { price });
            market_order.set_fill_size(market_order.fill_size() + amount);
            if avail > rem {
                limit_order.set_fill_size(limit_order.fill_size() + rem);
                lvl.orders.push_front(limit_order);
            }
            let ghost lvl1 = lvl;
            if lvl.orders.len() > 0 {
                levels.push(lvl);
            }
            proof {
                let q = queue(l0);
                let o = q[0];
                assert(l0.drop_last() =~= l0.subrange(0, l0.len() - 1));
                assert(q == l0[l0.len() - 1].orders@ + queue(l0.drop_last()));
                assert(o == l0[l0.len() - 1].orders@[0]);
                assert(q.drop_first() =~= rest0 + queue(l0.drop_last()));
                if lvl1.orders@.len() > 0 {
                    assert(levels@.drop_last() =~= l0.drop_last());
                    assert(queue(levels@) == lvl1.orders@ + queue(l0.drop_last()));
                    assert forall|a: int, b: int| 0 <= a < b < levels@.len() implies better(
                        side,
                        #[trigger] levels@[b].price,
                        #[trigger] levels@[a].price,
                    ) by {
                        assert(better(side, l0[b].price, l0[a].price));
                    }
                    assert forall|a: int, k: int|
                        0 <= a < levels@.len() && 0 <= k < levels@[a].orders@.len()
                            implies resting_ok(
                        #[trigger] levels@[a].orders@[k],
                        side,
                        levels@[a].price,
                    ) by {
                        if a < levels@.len() - 1 {
                            assert(levels@[a] == l0[a]);
                        } else if avail > rem && k == 0 {
                        } else if avail > rem {
                            assert(levels@[a].orders@[k] == l0[a].orders@[k]);
                        } else {
                            assert(levels@[a].orders@[k] == l0[a].orders@[k + 1]);
                        }
                    }
                } else {
                    assert(levels@ =~= l0.drop_last());
                    assert(lvl1.orders@ =~= Seq::<LimitOrder>::empty());
                    assert(queue(levels@) =~= lvl1.orders@ + queue(l0.drop_last()));
                }
                if avail > rem {
                    assert(lvl1.orders@ =~= seq![o.filled_by(rem as int)] + rest0);
                    assert(queue(levels@) =~= q.update(0, o.filled_by(rem as int)));
                    assert(market_order.remaining() == 0);
                    assert(fill_queue(queue(levels@), 0) == queue(levels@));
                } else {
                    assert(lvl1.orders@ =~= rest0);
                    assert(queue(levels@) =~= q.drop_first());
                }
                assert(events@ =~= ev0 + trade_events(o, m, amount as int));
            }
        }
        if market_order.size() - market_order.fill_size() > 0 {
            let remainder = market_order.size() - market_order.fill_size();
            events.push(
                Event::Notify {
                    client: market_order.client(),
                    message: Message::Unfilled { remainder, requested: market_order.size() },
                },
            );
        }
        proof {
            assert(queue(levels@) == fill_queue(queue(levels@), market_order.remaining()));
        }
        events
    }

    /// Appends `o` to the tail of the level of its price on its side,
    /// creating the level where there is none.
    fn insert_level(levels: &mut Vec<PriceLevel>, o: LimitOrder)
        requires
            side_wf(o.side, old(levels)@),
            limit_valid(o),
        ensures
            side_wf(o.side, final(levels)@),
            forall|p: usize|
                #[trigger] orders_at(final(levels)@, p) == if p == o.price {
                    orders_at(old(levels)@, p).push(o)
                } else {
                    orders_at(old(levels)@, p)
                },
    {
        let side = o.side;
        let price = o.price;
        let ghost l0 = levels@;
        let mut i: usize = 0;
        while i < levels.len() && is_better(side, price, levels[i].price)
            invariant
                levels@ == l0,
                0 <= i <= l0.len(),
                forall|k: int| 0 <= k < i ==> better(side, price, #[trigger] l0[k].price),
            decreases l0.len() - i,
        {
            i = i + 1;
        }
        if i < levels.len() && levels[i].price == price {
            let mut lvl = levels.remove(i);
            lvl.orders.push_back(o);
            levels.insert(i, lvl);
            proof {
                let l1 = levels@;
                assert(l1 == l0.update(i as int, l1[i as int]));
                assert forall|a: int, b: int| 0 <= a < b < l1.len() implies better(
                    side,
                    #[trigger] l1[b].price,
                    #[trigger] l1[a].price,
                ) by {
                    assert(better(side, l0[b].price, l0[a].price));
                }
                assert forall|a: int, k: int|
                    0 <= a < l1.len() && 0 <= k < l1[a].orders@.len() implies resting_ok(
                    #[trigger] l1[a].orders@[k],
                    side,
                    l1[a].price,
                ) by {
                    if a != i {
                        assert(l1[a] == l0[a]);
                    } else if k < l0[a].orders@.len() {
                        assert(l1[a].orders@[k] == l0[a].orders@[k]);
                    }
                }
                assert(side_wf(side, l1));
                assert forall|p: usize| #[trigger]
                    orders_at(l1, p) == if p == price {
                        orders_at(l0, p).push(o)
                    } else {
                        orders_at(l0, p)
                    } by {
                    lemma_grown_level(side, l0, l1, p, i as int, o);
                }
            }
        } else {
            assert(i < l0.len() ==> better(side, l0[i as int].price, price));
            assert forall|k: int| 0 <= k < l0.len() implies #[trigger] l0[k].price != price by {
                if k > i {
                    assert(better(side, l0[k].price, l0[i as int].price));
                }
            }
            let mut q: VecDeque<LimitOrder> = VecDeque::new();
            q.push_back(o);
            levels.insert(i, PriceLevel { price, orders: q });
            proof {
                let l1 = levels@;
                assert(l1 == l0.insert(i as int, l1[i as int]));
                assert forall|a: int, b: int| 0 <= a < b < l1.len() implies better(
                    side,
                    #[trigger] l1[b].price,
                    #[trigger] l1[a].price,
                ) by {
                    if b < i {
                        assert(better(side, l0[b].price, l0[a].price));
                    } else if b == i {
                        assert(better(side, price, l0[a].price));
                    } else if a == i {
                        assert(better(side, l0[i as int].price, price));
                        if b - 1 > i {
                            assert(better(side, l0[b - 1].price, l0[i as int].price));
                        }
                    } else if a < i {
                        assert(better(side, l0[b - 1].price, l0[a].price));
                    } else {
                        assert(better(side, l0[b - 1].price, l0[a - 1].price));
                    }
                }
                assert forall|a: int, k: int|
                    0 <= a < l1.len() && 0 <= k < l1[a].orders@.len() implies resting_ok(
                    #[trigger] l1[a].orders@[k],
                    side,
                    l1[a].price,
                ) by {
                    if a < i {
                        assert(l1[a] == l0[a]);
                    } else if a > i {
                        assert(l1[a] == l0[a - 1]);
                    }
                }
                assert(side_wf(side, l1));
                assert forall|p: usize| #[trigger]
                    orders_at(l1, p) == if p == price {
                        orders_at(l0, p).push(o)
                    } else {
                        orders_at(l0, p)
                    } by {
                    lemma_new_level(side, l0, l1, p, i as int, o);
                }
            }
        }
    }
}

} // verus!
