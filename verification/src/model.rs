//! The mathematical model of the order book and of its two operations.
//!
//! Every executable operation of the library is specified against the spec
//! functions here: `spec_submit` says exactly what submitting an order does
//! to a book, `spec_cancel` what cancelling an identifier does.

use vstd::prelude::*;

use crate::orders::{OrderId, OrderInV, OrderV, Price, Size};

verus! {

/// Does an incoming order priced `incoming` cross a resting opposite-side
/// order priced `resting`?  A sell crosses a resting bid priced at or above
/// it; a buy crosses a resting ask priced at or below it.
pub open spec fn crosses(incoming_is_sell: bool, incoming: Price, resting: Price) -> bool {
    if incoming_is_sell {
        incoming <= resting
    } else {
        incoming >= resting
    }
}

/// Does a new resting order priced `new_price` have strict price priority
/// over one priced `old_price` on the same side?  On the ask side a lower
/// price wins; on the bid side a higher price wins.  The relation is strict,
/// so equal-priced orders keep time priority: a later order never has
/// priority over an earlier one at the same price.
pub open spec fn has_priority(ask_side: bool, new_price: Price, old_price: Price) -> bool {
    if ask_side {
        new_price < old_price
    } else {
        new_price > old_price
    }
}

/// Mathematical view of a whole book: the two resting queues and the
/// identifier counter.
#[verifier::ext_equal]
pub ghost struct BookV {
    /// Resting buy orders, best (highest) price first.
    pub bids: Seq<OrderInV>,
    /// Resting sell orders, best (lowest) price first.
    pub asks: Seq<OrderInV>,
    /// The identifier the next submission will return.
    pub id: int,
}

/// `a` belongs before `b` in a queue of the given side: `a` has strict
/// price priority, or the prices are equal and `a` arrived earlier
/// (identifiers grow with time).
pub open spec fn entry_before(a: OrderInV, b: OrderInV, ask_side: bool) -> bool {
    ||| has_priority(ask_side, a.order.price, b.order.price)
    ||| (a.order.price == b.order.price && a.id < b.id)
}

/// The queue is sorted by price priority, ties broken by arrival order.
pub open spec fn queue_ordered(q: Seq<OrderInV>, ask_side: bool) -> bool {
    forall|i: int, j: int| 0 <= i < j < q.len() ==> entry_before(q[i], q[j], ask_side)
}

/// Every resting entry has remaining size above zero.
pub open spec fn sizes_positive(q: Seq<OrderInV>) -> bool {
    forall|i: int| 0 <= i < q.len() ==> q[i].order.size > 0
}

/// Every resting identifier was allocated: at least 1 and below the counter.
pub open spec fn ids_below(q: Seq<OrderInV>, next: int) -> bool {
    forall|i: int| 0 <= i < q.len() ==> 1 <= #[trigger] q[i].id < next
}

/// No identifier appears twice in the queue.
pub open spec fn distinct_ids(q: Seq<OrderInV>) -> bool {
    forall|i: int, j: int| 0 <= i < j < q.len() ==> q[i].id != q[j].id
}

/// No identifier appears in both queues.
pub open spec fn disjoint_ids(a: Seq<OrderInV>, b: Seq<OrderInV>) -> bool {
    forall|i: int, j: int| 0 <= i < a.len() && 0 <= j < b.len() ==> a[i].id != b[j].id
}

/// Well-formedness of a book: both queues sorted by their side's priority
/// rule with ties in arrival order, no zero-size entry rests, identifiers
/// are unique across both queues and below the counter, and the counter
/// stays within the identifier width.
pub open spec fn wf(b: BookV) -> bool {
    &&& queue_ordered(b.bids, false)
    &&& queue_ordered(b.asks, true)
    &&& sizes_positive(b.bids)
    &&& sizes_positive(b.asks)
    &&& ids_below(b.bids, b.id)
    &&& ids_below(b.asks, b.id)
    &&& distinct_ids(b.bids)
    &&& distinct_ids(b.asks)
    &&& disjoint_ids(b.bids, b.asks)
    &&& 1 <= b.id <= u64::MAX
}

/// `e` with its remaining size reduced by `by`.
pub open spec fn reduced(e: OrderInV, by: Size) -> OrderInV {
    OrderInV {
        order: OrderV {
            symbol: e.order.symbol,
            trader: e.order.trader,
            side: e.order.side,
            price: e.order.price,
            size: (e.order.size - by) as Size,
        },
        id: e.id,
    }
}

/// Matching walk of an incoming order of the given side, price and size
/// against the opposite queue `q`, front to back.  Returns the queue that
/// survives (fully consumed entries removed, a partially consumed front
/// entry reduced) and the residual size of the incoming order.  The walk
/// stops at the first resting entry the incoming price does not cross:
/// the queue is price-ordered, so no later entry can cross either.
pub open spec fn spec_match(
    q: Seq<OrderInV>,
    incoming_is_sell: bool,
    price: Price,
    size: Size,
) -> (Seq<OrderInV>, Size)
    decreases q.len(),
{
    if size == 0 || q.len() == 0 || !crosses(incoming_is_sell, price, q.first().order.price) {
        (q, size)
    } else if size >= q.first().order.size {
        spec_match(
            q.drop_first(),
            incoming_is_sell,
            price,
            (size - q.first().order.size) as Size,
        )
    } else {
        (seq![reduced(q.first(), size)] + q.drop_first(), 0 as Size)
    }
}

/// Position at which a residual order of the given side and price rests in
/// its own side's queue: before the first entry it has strict price
/// priority over, hence after every entry of equal or better price.
pub open spec fn spec_insertion_index(q: Seq<OrderInV>, ask_side: bool, price: Price) -> int
    decreases q.len(),
{
    if q.len() == 0 {
        0
    } else if has_priority(ask_side, price, q.first().order.price) {
        0
    } else {
        1 + spec_insertion_index(q.drop_first(), ask_side, price)
    }
}

/// The queue with every entry bearing `id` removed, survivors in order.
pub open spec fn without_id(q: Seq<OrderInV>, id: OrderId) -> Seq<OrderInV>
    decreases q.len(),
{
    if q.len() == 0 {
        Seq::empty()
    } else {
        let rest = without_id(q.drop_last(), id);
        if q.last().id == id {
            rest
        } else {
            rest.push(q.last())
        }
    }
}

/// The residual size of `ord` after matching against the book: what is
/// left of the incoming order once the opposite queue has been walked.
pub open spec fn spec_residual(b: BookV, ord: OrderV) -> Size {
    let sell = ord.side == 1;
    spec_match(if sell { b.bids } else { b.asks }, sell, ord.price, ord.size).1
}

/// The size of `ord` consumed by matching against the book.
pub open spec fn spec_filled(b: BookV, ord: OrderV) -> int {
    ord.size - spec_residual(b, ord)
}

/// What submitting `ord` does to the book: the opposite queue is walked
/// and consumed by `spec_match`; if a residual remains it rests in the
/// order's own queue at its priority position, under the identifier the
/// call returns (the counter before the call); the counter always advances
/// by one, fill or no fill.
pub open spec fn spec_submit(b: BookV, ord: OrderV) -> BookV {
    let sell = ord.side == 1;
    let opp = if sell { b.bids } else { b.asks };
    let own = if sell { b.asks } else { b.bids };
    let m = spec_match(opp, sell, ord.price, ord.size);
    let own2 = if m.1 > 0 {
        own.insert(
            spec_insertion_index(own, sell, ord.price),
            OrderInV {
                order: OrderV {
                    symbol: ord.symbol,
                    trader: ord.trader,
                    side: ord.side,
                    price: ord.price,
                    size: m.1,
                },
                id: b.id as OrderId,
            },
        )
    } else {
        own
    };
    BookV {
        bids: if sell { m.0 } else { own2 },
        asks: if sell { own2 } else { m.0 },
        id: b.id + 1,
    }
}

/// What cancelling `id` does to the book: every entry bearing the
/// identifier leaves whichever queue holds it; the counter is untouched.
/// An unknown identifier changes nothing.
pub open spec fn spec_cancel(b: BookV, id: OrderId) -> BookV {
    BookV { bids: without_id(b.bids, id), asks: without_id(b.asks, id), id: b.id }
}

/// One externally invoked operation, as the model sees it.
pub ghost enum BookEvent {
    Submit { ord: OrderV },
    Cancel { id: OrderId },
}

/// The book after one operation.
pub open spec fn apply_event(b: BookV, e: BookEvent) -> BookV {
    match e {
        BookEvent::Submit { ord } => spec_submit(b, ord),
        BookEvent::Cancel { id } => spec_cancel(b, id),
    }
}

/// The book after a sequence of operations, first to last.
pub open spec fn apply_events(b: BookV, es: Seq<BookEvent>) -> BookV
    decreases es.len(),
{
    if es.len() == 0 {
        b
    } else {
        apply_events(apply_event(b, es.first()), es.drop_first())
    }
}

/// How many of the operations are submissions; each advances the counter.
pub open spec fn count_submits(es: Seq<BookEvent>) -> int
    decreases es.len(),
{
    if es.len() == 0 {
        0
    } else {
        (match es.first() {
            BookEvent::Submit { .. } => 1int,
            BookEvent::Cancel { .. } => 0int,
        }) + count_submits(es.drop_first())
    }
}

/// The book after a sequence of cancellations, first to last.
pub open spec fn apply_cancels(b: BookV, ids: Seq<OrderId>) -> BookV
    decreases ids.len(),
{
    if ids.len() == 0 {
        b
    } else {
        apply_cancels(spec_cancel(b, ids.first()), ids.drop_first())
    }
}

/// Total resting size of a queue.
pub open spec fn total_size(q: Seq<OrderInV>) -> int
    decreases q.len(),
{
    if q.len() == 0 {
        0
    } else {
        q.first().order.size + total_size(q.drop_first())
    }
}

} // verus!
