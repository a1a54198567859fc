use vstd::prelude::*;

use crate::book::{fill_queue, match_events, orders_at, queue, side_wf, trade_events, PriceLevel};
use crate::notice::{Event, Message};
use crate::orders::{LimitOrder, MarketOrder, MarketSide};

verus! {

/// The quantity still open over the resting orders `q`.
pub open spec fn volume(q: Seq<LimitOrder>) -> int
    decreases q.len(),
{
    if q.len() == 0 {
        0
    } else {
        q[0].remaining() + volume(q.drop_first())
    }
}

/// The quantity reported filled to market orders' clients in `events`.
pub open spec fn market_filled(events: Seq<Event>) -> int
    decreases events.len(),
{
    if events.len() == 0 {
        0
    } else {
        (match events[0] {
            Event::Notify { message: Message::FilledAt { filled, .. }, .. } => filled as int,
            _ => 0,
        }) + market_filled(events.drop_first())
    }
}

/// The quantity reported filled to resting orders' clients in `events`.
pub open spec fn resting_filled(events: Seq<Event>) -> int
    decreases events.len(),
{
    if events.len() == 0 {
        0
    } else {
        (match events[0] {
            Event::Notify { message: Message::Filled { filled, .. }, .. } => filled as int,
            _ => 0,
        }) + resting_filled(events.drop_first())
    }
}

/// Every order of `q` has some quantity open.
pub open spec fn all_open(q: Seq<LimitOrder>) -> bool {
    forall|i: int| 0 <= i < q.len() ==> (#[trigger] q[i]).fill_size < q[i].size
}

proof fn lemma_volume_nonneg(q: Seq<LimitOrder>)
    requires
        all_open(q),
    ensures
        volume(q) >= 0,
    decreases q.len(),
{
    if q.len() > 0 {
        assert(all_open(q.drop_first())) by {
            assert forall|i: int| 0 <= i < q.drop_first().len() implies (#[trigger] q.drop_first()[i]).fill_size
                < q.drop_first()[i].size by {
                assert(q.drop_first()[i] == q[i + 1]);
            }
        }
        lemma_volume_nonneg(q.drop_first());
    }
}

proof fn lemma_filled_concat(a: Seq<Event>, b: Seq<Event>)
    ensures
        market_filled(a + b) == market_filled(a) + market_filled(b),
        resting_filled(a + b) == resting_filled(a) + resting_filled(b),
    decreases a.len(),
{
    if a.len() > 0 {
        assert((a + b).drop_first() =~= a.drop_first() + b);
        lemma_filled_concat(a.drop_first(), b);
    } else {
        assert(a + b =~= b);
    }
}

proof fn lemma_trade_filled(o: LimitOrder, m: MarketOrder, amount: int)
    requires
        0 <= amount <= usize::MAX,
    ensures
        market_filled(trade_events(o, m, amount)) == amount,
        resting_filled(trade_events(o, m, amount)) == amount,
{
    let t = trade_events(o, m, amount);
    let t1 = t.drop_first();
    let t2 = t1.drop_first();
    assert(t2.drop_first() =~= Seq::<Event>::empty());
    assert(market_filled(t2.drop_first()) == 0);
    assert(resting_filled(t2.drop_first()) == 0);
    assert(market_filled(t2) == 0);
    assert(resting_filled(t2) == 0);
    assert(market_filled(t1) == amount);
    assert(resting_filled(t1) == 0);
}

/// Quantity is conserved by matching: whatever a market order with `rem`
/// open fills against the resting orders `q` is exactly what those orders
/// lose of their open quantity, both clients are told the same quantity, and
/// that quantity is the smaller of `rem` and what was resting.
pub proof fn quantity_conservation(q: Seq<LimitOrder>, m: MarketOrder, rem: int)
    requires
        all_open(q),
        0 <= rem <= usize::MAX,
    ensures
        market_filled(match_events(q, m, rem)) == resting_filled(match_events(q, m, rem)),
        volume(q) - volume(fill_queue(q, rem)) == market_filled(match_events(q, m, rem)),
        market_filled(match_events(q, m, rem)) == if rem < volume(q) {
            rem
        } else {
            volume(q)
        },
    decreases q.len(),
{
    lemma_volume_nonneg(q);
    if rem <= 0 || q.len() == 0 {
        if q.len() == 0 && rem > 0 {
            let e = match_events(q, m, rem);
            assert(e.drop_first() =~= Seq::<Event>::empty());
            assert(market_filled(e.drop_first()) == 0);
            assert(resting_filled(e.drop_first()) == 0);
            assert(market_filled(e) == 0);
            assert(resting_filled(e) == 0);
        }
    } else {
        let a = q[0].remaining();
        let rest = q.drop_first();
        assert(all_open(rest)) by {
            assert forall|i: int| 0 <= i < rest.len() implies (#[trigger] rest[i]).fill_size
                < rest[i].size by {
                assert(rest[i] == q[i + 1]);
            }
        }
        lemma_volume_nonneg(rest);
        if a <= rem {
            quantity_conservation(rest, m, rem - a);
            lemma_filled_concat(trade_events(q[0], m, a), match_events(rest, m, rem - a));
            lemma_trade_filled(q[0], m, a);
        } else {
            let r = q.update(0, q[0].filled_by(rem));
            assert(r.drop_first() =~= rest);
            lemma_trade_filled(q[0], m, rem);
        }
    }
}

/// Matching consumes resting orders strictly from the front: for some `k`,
/// the first `k` orders of `q` are filled completely and leave, the next one
/// (if any) keeps its place with what is left of `rem` added to its filled
/// size, and all orders behind it are untouched. So of two orders at one
/// price, the later one is not touched before the earlier one is gone.
pub proof fn fifo_consumption(q: Seq<LimitOrder>, rem: int) -> (k: int)
    requires
        all_open(q),
        0 <= rem,
    ensures
        0 <= k <= q.len(),
        volume(q.take(k)) <= rem,
        k < q.len() ==> rem - volume(q.take(k)) < q[k].remaining(),
        fill_queue(q, rem) == if k < q.len() {
            q.skip(k).update(0, q[k].filled_by(rem - volume(q.take(k))))
        } else {
            q.skip(k)
        },
    decreases q.len(),
{
    if q.len() == 0 {
        assert(q.take(0) =~= Seq::<LimitOrder>::empty());
        assert(q.skip(0) =~= q);
        0
    } else if rem <= 0 || q[0].remaining() > rem {
        assert(q.take(0) =~= Seq::<LimitOrder>::empty());
        assert(q.skip(0) =~= q);
        if rem <= 0 {
            assert(q[0].filled_by(0) == q[0]);
            assert(q.update(0, q[0]) =~= q);
        }
        0
    } else {
        let a = q[0].remaining();
        let rest = q.drop_first();
        assert(all_open(rest)) by {
            assert forall|i: int| 0 <= i < rest.len() implies (#[trigger] rest[i]).fill_size
                < rest[i].size by {
                assert(rest[i] == q[i + 1]);
            }
        }
        let k1 = fifo_consumption(rest, rem - a);
        let k = k1 + 1;
        assert(q.take(k).drop_first() =~= rest.take(k1));
        assert(q.take(k)[0] == q[0]);
        assert(q.skip(k) =~= rest.skip(k1));
        if k < q.len() {
            assert(q[k] == rest[k1]);
        }
        k
    }
}

proof fn lemma_level_in_queue(levels: Seq<PriceLevel>, i: int)
    requires
        0 <= i < levels.len(),
        levels[i].orders@.len() > 0,
    ensures
        exists|j: int| 0 <= j < queue(levels).len() && queue(levels)[j] == levels[i].orders@[0],
    decreases levels.len(),
{
    let q = queue(levels);
    let last = levels.last().orders@;
    assert(q == last + queue(levels.drop_last()));
    if i == levels.len() - 1 {
        assert(q[0] == levels[i].orders@[0]);
    } else {
        assert(levels.drop_last()[i] == levels[i]);
        lemma_level_in_queue(levels.drop_last(), i);
        let j = choose|j: int|
            0 <= j < queue(levels.drop_last()).len() && queue(levels.drop_last())[j]
                == levels[i].orders@[0];
        assert(q[last.len() + j] == levels[i].orders@[0]);
    }
}

/// A price with no resting order left has no level either: once matching has
/// drained a level, its price is gone from the book, so a best-price query
/// (which only returns prices with resting orders) skips it.
pub proof fn drained_level_removed(side: MarketSide, levels: Seq<PriceLevel>, price: usize)
    requires
        side_wf(side, levels),
        forall|j: int| 0 <= j < queue(levels).len() ==> (#[trigger] queue(levels)[j]).price != price,
    ensures
        orders_at(levels, price) == Seq::<LimitOrder>::empty(),
        forall|i: int| 0 <= i < levels.len() ==> (#[trigger] levels[i]).price != price,
{
    assert forall|i: int| 0 <= i < levels.len() implies (#[trigger] levels[i]).price != price by {
        assert(levels[i].orders@.len() > 0);
        lemma_level_in_queue(levels, i);
        assert(levels[i].orders@[0].price == levels[i].price);
    }
}

} // verus!
