//! The book's stated properties, proved once over the mathematical model.
//!
//! The executable operations promise `final(self)@ == spec_submit(...)` and
//! `final(self)@ == spec_cancel(...)`; the proof functions here say what
//! those model operations preserve and guarantee: ordering and
//! well-formedness, conservation of size, idempotent cancellation, and
//! strictly increasing identifiers.

use vstd::prelude::*;

use crate::model::{
    apply_cancels, apply_events, count_submits, crosses, disjoint_ids, distinct_ids, entry_before,
    has_priority, ids_below, queue_ordered, reduced, sizes_positive, spec_cancel, spec_filled,
    spec_insertion_index, spec_match, spec_submit, total_size, wf, without_id, BookEvent, BookV,
};
use crate::orders::{OrderId, OrderInV, OrderV, Price, Size};
use crate::queue::{lemma_insertion_index_props, lemma_without_id_absent};

verus! {

/// Every entry surviving `without_id` stood in the queue, and none of the
/// survivors bears the removed identifier.
pub proof fn lemma_without_id_elems(q: Seq<OrderInV>, id: OrderId)
    ensures
        without_id(q, id).len() <= q.len(),
        forall|k: int|
            0 <= k < without_id(q, id).len() ==> #[trigger] without_id(q, id)[k].id != id,
        forall|k: int| #![trigger without_id(q, id)[k]]
            0 <= k < without_id(q, id).len() ==> exists|m: int|
                0 <= m < q.len() && without_id(q, id)[k] == #[trigger] q[m],
    decreases q.len(),
{
    if q.len() == 0 {
    } else {
        let dl = q.drop_last();
        lemma_without_id_elems(dl, id);
        let w = without_id(q, id);
        let wd = without_id(dl, id);
        assert forall|k: int| 0 <= k < w.len() implies #[trigger] w[k].id != id by {
            if k < wd.len() {
                assert(w[k] == wd[k]);
            } else {
                assert(w[k] == q.last());
            }
        }
        assert forall|k: int| #![trigger w[k]] 0 <= k < w.len() implies exists|m: int|
            0 <= m < q.len() && w[k] == #[trigger] q[m] by {
            if k < wd.len() {
                assert(w[k] == wd[k]);
                let m = choose|m: int| 0 <= m < dl.len() && wd[k] == #[trigger] dl[m];
                assert(q[m] == dl[m]);
                assert(w[k] == q[m]);
            } else {
                assert(w[k] == q.last());
                assert(w[k] == q[q.len() - 1]);
            }
        }
    }
}

/// A relation holding of every in-order pair of a queue still holds of
/// every in-order pair after removal by identifier: survivors keep both
/// their relative order and their values.
pub proof fn lemma_without_id_pairwise(
    q: Seq<OrderInV>,
    id: OrderId,
    r: spec_fn(OrderInV, OrderInV) -> bool,
)
    requires
        forall|i: int, j: int| 0 <= i < j < q.len() ==> #[trigger] r(q[i], q[j]),
    ensures
        forall|i: int, j: int|
            0 <= i < j < without_id(q, id).len() ==> #[trigger] r(
                without_id(q, id)[i],
                without_id(q, id)[j],
            ),
    decreases q.len(),
{
    if q.len() == 0 {
    } else {
        let dl = q.drop_last();
        assert forall|i: int, j: int| 0 <= i < j < dl.len() implies #[trigger] r(dl[i], dl[j]) by {
            assert(dl[i] == q[i]);
            assert(dl[j] == q[j]);
        }
        lemma_without_id_pairwise(dl, id, r);
        lemma_without_id_elems(dl, id);
        let w = without_id(q, id);
        let wd = without_id(dl, id);
        assert forall|i: int, j: int| 0 <= i < j < w.len() implies #[trigger] r(w[i], w[j]) by {
            if j < wd.len() {
                assert(w[i] == wd[i]);
                assert(w[j] == wd[j]);
            } else {
                assert(q.last().id != id && w[j] == q.last() && w[i] == wd[i]);
                let m = choose|m: int| 0 <= m < dl.len() && wd[i] == #[trigger] dl[m];
                assert(dl[m] == q[m]);
                assert(r(q[m], q[q.len() - 1]));
            }
        }
    }
}

/// Price ordering and well-formedness survive cancellation: removing an
/// identifier keeps both queues sorted by price priority with ties in
/// arrival order, keeps sizes positive, and keeps identifiers unique and
/// below the counter, which does not move.
pub proof fn lemma_cancel_preserves_wf(b: BookV, id: OrderId)
    requires
        wf(b),
    ensures
        wf(spec_cancel(b, id)),
        spec_cancel(b, id).id == b.id,
{
    let nb = without_id(b.bids, id);
    let na = without_id(b.asks, id);
    lemma_without_id_elems(b.bids, id);
    lemma_without_id_elems(b.asks, id);
    let rb = |x: OrderInV, y: OrderInV| entry_before(x, y, false);
    let ra = |x: OrderInV, y: OrderInV| entry_before(x, y, true);
    let rd = |x: OrderInV, y: OrderInV| x.id != y.id;
    lemma_without_id_pairwise(b.bids, id, rb);
    lemma_without_id_pairwise(b.asks, id, ra);
    lemma_without_id_pairwise(b.bids, id, rd);
    lemma_without_id_pairwise(b.asks, id, rd);
    assert forall|i: int, j: int| 0 <= i < j < nb.len() implies entry_before(
        nb[i],
        nb[j],
        false,
    ) by {
        assert(rb(nb[i], nb[j]));
    }
    assert forall|i: int, j: int| 0 <= i < j < na.len() implies entry_before(
        na[i],
        na[j],
        true,
    ) by {
        assert(ra(na[i], na[j]));
    }
    assert forall|i: int, j: int| 0 <= i < j < nb.len() implies #[trigger] nb[i].id
        != #[trigger] nb[j].id by {
        assert(rd(nb[i], nb[j]));
    }
    assert forall|i: int, j: int| 0 <= i < j < na.len() implies #[trigger] na[i].id
        != #[trigger] na[j].id by {
        assert(rd(na[i], na[j]));
    }
    assert forall|i: int| 0 <= i < nb.len() implies nb[i].order.size > 0 && 1 <= #[trigger] nb[i].id
        < b.id by {
        let m = choose|m: int| 0 <= m < b.bids.len() && nb[i] == #[trigger] b.bids[m];
        assert(b.bids[m].order.size > 0);
    }
    assert forall|i: int| 0 <= i < na.len() implies na[i].order.size > 0 && 1 <= #[trigger] na[i].id
        < b.id by {
        let m = choose|m: int| 0 <= m < b.asks.len() && na[i] == #[trigger] b.asks[m];
        assert(b.asks[m].order.size > 0);
    }
    assert forall|i: int, j: int| 0 <= i < nb.len() && 0 <= j < na.len() implies nb[i].id
        != na[j].id by {
        let m = choose|m: int| 0 <= m < b.bids.len() && nb[i] == #[trigger] b.bids[m];
        let m2 = choose|m2: int| 0 <= m2 < b.asks.len() && na[j] == #[trigger] b.asks[m2];
        assert(b.bids[m].id != b.asks[m2].id);
    }
}

/// The matching walk consumes entries only from the front of a well-ordered
/// queue, so what survives it stays sorted with positive sizes, keeps its
/// identifiers distinct, below any bound they were below, and disjoint from
/// any queue they were disjoint from.
pub proof fn lemma_match_props(
    q: Seq<OrderInV>,
    incoming_is_sell: bool,
    price: Price,
    size: Size,
    ask_side: bool,
    other: Seq<OrderInV>,
    n: int,
)
    requires
        queue_ordered(q, ask_side),
        sizes_positive(q),
    ensures
        ({
            let m = spec_match(q, incoming_is_sell, price, size);
            &&& m.1 <= size
            &&& queue_ordered(m.0, ask_side)
            &&& sizes_positive(m.0)
            &&& (distinct_ids(q) ==> distinct_ids(m.0))
            &&& (ids_below(q, n) ==> ids_below(m.0, n))
            &&& (disjoint_ids(m.0, other) <== disjoint_ids(q, other))
        }),
    decreases q.len(),
{
    let m = spec_match(q, incoming_is_sell, price, size);
    if size == 0 || q.len() == 0 || !crosses(incoming_is_sell, price, q.first().order.price) {
    } else {
        let d = q.drop_first();
        assert forall|i: int, j: int| 0 <= i < j < d.len() implies entry_before(
            d[i],
            d[j],
            ask_side,
        ) by {
            assert(d[i] == q[i + 1]);
            assert(d[j] == q[j + 1]);
        }
        assert forall|i: int| 0 <= i < d.len() implies #[trigger] d[i].order.size > 0 by {
            assert(d[i] == q[i + 1]);
        }
        if size >= q.first().order.size {
            lemma_match_props(
                d,
                incoming_is_sell,
                price,
                (size - q.first().order.size) as Size,
                ask_side,
                other,
                n,
            );
            if distinct_ids(q) {
                assert forall|i: int, j: int| 0 <= i < j < d.len() implies #[trigger] d[i].id
                    != #[trigger] d[j].id by {
                    assert(d[i] == q[i + 1]);
                    assert(d[j] == q[j + 1]);
                }
            }
            if ids_below(q, n) {
                assert forall|i: int| 0 <= i < d.len() implies 1 <= #[trigger] d[i].id < n by {
                    assert(d[i] == q[i + 1]);
                }
            }
            if disjoint_ids(q, other) {
                assert forall|i: int, j: int|
                    0 <= i < d.len() && 0 <= j < other.len() implies d[i].id != other[j].id by {
                    assert(d[i] == q[i + 1]);
                }
            }
        } else {
            let r = seq![reduced(q.first(), size)] + d;
            assert(m.0 == r);
            assert(r.len() == q.len());
            assert(r[0] == reduced(q.first(), size));
            assert forall|k: int| 1 <= k < r.len() implies r[k] == q[k] by {
                assert(r[k] == d[k - 1]);
            }
            assert forall|i: int, j: int| 0 <= i < j < r.len() implies entry_before(
                r[i],
                r[j],
                ask_side,
            ) by {
                if i == 0 {
                    assert(entry_before(q[0], q[j], ask_side));
                }
            }
            if distinct_ids(q) {
                assert forall|i: int, j: int| 0 <= i < j < r.len() implies #[trigger] r[i].id
                    != #[trigger] r[j].id by {
                    assert(q[i].id != q[j].id);
                }
            }
            if ids_below(q, n) {
                assert forall|i: int| 0 <= i < r.len() implies 1 <= #[trigger] r[i].id < n by {
                    assert(1 <= q[i].id < n);
                }
            }
            if disjoint_ids(q, other) {
                assert forall|i: int, j: int|
                    0 <= i < r.len() && 0 <= j < other.len() implies r[i].id != other[j].id by {
                    assert(q[i].id != other[j].id);
                }
            }
        }
    }
}

/// Conservation: the total size the matching walk removes from the resting
/// queue is exactly the size it consumes from the incoming order.  No size
/// is created or destroyed by a match.
pub proof fn lemma_match_conservation(
    q: Seq<OrderInV>,
    incoming_is_sell: bool,
    price: Price,
    size: Size,
)
    ensures
        ({
            let m = spec_match(q, incoming_is_sell, price, size);
            &&& total_size(m.0) + size == total_size(q) + m.1
            &&& m.1 <= size
        }),
    decreases q.len(),
{
    let m = spec_match(q, incoming_is_sell, price, size);
    if size == 0 || q.len() == 0 || !crosses(incoming_is_sell, price, q.first().order.price) {
    } else if size >= q.first().order.size {
        lemma_match_conservation(
            q.drop_first(),
            incoming_is_sell,
            price,
            (size - q.first().order.size) as Size,
        );
    } else {
        let r = seq![reduced(q.first(), size)] + q.drop_first();
        assert(r.drop_first() =~= q.drop_first());
        assert(r.first() == reduced(q.first(), size));
        assert(total_size(r) == r.first().order.size + total_size(r.drop_first()));
    }
}

/// A residual order rests at its insertion index without disturbing the
/// queue's order: its identifier is fresher than every resting one, so at
/// its own price it queues behind all earlier arrivals, and the index
/// chosen by strict price priority keeps the price sort intact.
pub proof fn lemma_insert_rests(
    q: Seq<OrderInV>,
    ask_side: bool,
    e: OrderInV,
    other: Seq<OrderInV>,
    n: int,
)
    requires
        queue_ordered(q, ask_side),
        distinct_ids(q),
        ids_below(q, e.id as int),
        e.id >= 1,
    ensures
        ({
            let s = q.insert(spec_insertion_index(q, ask_side, e.order.price), e);
            &&& s.len() == q.len() + 1
            &&& queue_ordered(s, ask_side)
            &&& (sizes_positive(q) && e.order.size > 0 ==> sizes_positive(s))
            &&& distinct_ids(s)
            &&& (ids_below(q, n) && 1 <= e.id < n ==> ids_below(s, n))
            &&& ((disjoint_ids(other, q) && (forall|j: int|
                0 <= j < other.len() ==> #[trigger] other[j].id != e.id)) ==> disjoint_ids(
                other,
                s,
            ))
        }),
{
    let p = e.order.price;
    let idx = spec_insertion_index(q, ask_side, p);
    lemma_insertion_index_props(q, ask_side, p);
    let s = q.insert(idx, e);
    q.insert_ensures(idx, e);
    assert forall|i: int, j: int| 0 <= i < j < s.len() implies entry_before(
        s[i],
        s[j],
        ask_side,
    ) by {
        if j < idx {
            assert(s[i] == q[i] && s[j] == q[j]);
        } else if i < idx && j == idx {
            assert(s[i] == q[i] && s[j] == e);
            assert(!has_priority(ask_side, p, q[i].order.price));
            assert(1 <= q[i].id < e.id as int);
        } else if i < idx && j > idx {
            assert(s[i] == q[i] && s[j] == q[j - 1]);
            assert(entry_before(q[i], q[j - 1], ask_side));
        } else if i == idx {
            assert(s[i] == e && s[j] == q[j - 1]);
            assert(has_priority(ask_side, p, q[idx].order.price));
            if j - 1 > idx {
                assert(entry_before(q[idx], q[j - 1], ask_side));
            }
        } else {
            assert(s[i] == q[i - 1] && s[j] == q[j - 1]);
        }
    }
    if sizes_positive(q) && e.order.size > 0 {
        assert forall|i: int| 0 <= i < s.len() implies #[trigger] s[i].order.size > 0 by {
            if i < idx {
                assert(s[i] == q[i]);
            } else if i == idx {
            } else {
                assert(s[i] == q[i - 1]);
            }
        }
    }
    assert forall|i: int, j: int| 0 <= i < j < s.len() implies #[trigger] s[i].id
        != #[trigger] s[j].id by {
        if j < idx {
            assert(s[i] == q[i] && s[j] == q[j]);
        } else if i < idx && j == idx {
            assert(s[i] == q[i] && s[j] == e);
            assert(1 <= q[i].id < e.id as int);
        } else if i < idx && j > idx {
            assert(s[i] == q[i] && s[j] == q[j - 1]);
        } else if i == idx {
            assert(s[i] == e && s[j] == q[j - 1]);
            assert(1 <= q[j - 1].id < e.id as int);
        } else {
            assert(s[i] == q[i - 1] && s[j] == q[j - 1]);
        }
    }
    if ids_below(q, n) && 1 <= e.id < n {
        assert forall|i: int| 0 <= i < s.len() implies 1 <= #[trigger] s[i].id < n by {
            if i < idx {
                assert(s[i] == q[i]);
            } else if i > idx {
                assert(s[i] == q[i - 1]);
            }
        }
    }
    if disjoint_ids(other, q) && (forall|j: int|
        0 <= j < other.len() ==> #[trigger] other[j].id != e.id) {
        assert forall|i: int, j: int|
            0 <= i < other.len() && 0 <= j < s.len() implies other[i].id != s[j].id by {
            if j < idx {
                assert(s[j] == q[j]);
            } else if j > idx {
                assert(s[j] == q[j - 1]);
            }
        }
    }
}

/// Price ordering and well-formedness survive a submission: both queues
/// stay sorted by price priority with ties in arrival order, no zero-size
/// entry rests, identifiers stay unique across both queues and below the
/// counter, and the counter advances by exactly one.
pub proof fn lemma_submit_preserves_wf(b: BookV, ord: OrderV)
    requires
        wf(b),
        b.id < u64::MAX,
    ensures
        wf(spec_submit(b, ord)),
        spec_submit(b, ord).id == b.id + 1,
{
    let sell = ord.side == 1;
    let opp = if sell { b.bids } else { b.asks };
    let own = if sell { b.asks } else { b.bids };
    let m = spec_match(opp, sell, ord.price, ord.size);
    if sell {
        assert forall|i: int, j: int|
            0 <= i < opp.len() && 0 <= j < own.len() implies opp[i].id != own[j].id by {
            assert(b.bids[i].id != b.asks[j].id);
        }
    }
    lemma_match_props(opp, sell, ord.price, ord.size, !sell, own, b.id);
    lemma_match_conservation(opp, sell, ord.price, ord.size);
    let b2 = spec_submit(b, ord);
    if m.1 > 0 {
        let e = OrderInV {
            order: OrderV {
                symbol: ord.symbol,
                trader: ord.trader,
                side: ord.side,
                price: ord.price,
                size: m.1,
            },
            id: b.id as OrderId,
        };
        assert(e.id as int == b.id);
        lemma_insert_rests(own, sell, e, m.0, b.id + 1);
        let s = own.insert(spec_insertion_index(own, sell, ord.price), e);
        assert forall|i: int| 0 <= i < m.0.len() implies 1 <= #[trigger] m.0[i].id < b.id + 1 by {
        }
        assert(disjoint_ids(m.0, s));
        if !sell {
            assert forall|i: int, j: int|
                0 <= i < s.len() && 0 <= j < m.0.len() implies s[i].id != m.0[j].id by {
                assert(m.0[j].id != s[i].id);
            }
        }
    } else {
        assert forall|i: int| 0 <= i < m.0.len() implies 1 <= #[trigger] m.0[i].id < b.id + 1 by {
        }
        assert forall|i: int| 0 <= i < own.len() implies 1 <= #[trigger] own[i].id < b.id + 1 by {
        }
        if !sell {
            assert forall|i: int, j: int|
                0 <= i < own.len() && 0 <= j < m.0.len() implies own[i].id != m.0[j].id by {
                assert(m.0[j].id != own[i].id);
            }
        }
    }
}

/// Conservation at the submit level: the total size a submission removes
/// from the opposite queue equals the size it consumes from the incoming
/// order, and the consumed size never exceeds what was submitted.
pub proof fn lemma_submit_conservation(b: BookV, ord: OrderV)
    ensures
        ({
            let sell = ord.side == 1;
            let opp = if sell { b.bids } else { b.asks };
            let opp2 = if sell { spec_submit(b, ord).bids } else { spec_submit(b, ord).asks };
            &&& total_size(opp) - total_size(opp2) == spec_filled(b, ord)
            &&& 0 <= spec_filled(b, ord) <= ord.size
        }),
{
    let sell = ord.side == 1;
    let opp = if sell { b.bids } else { b.asks };
    lemma_match_conservation(opp, sell, ord.price, ord.size);
}

/// No zero-size entry rests in either queue once a submission is applied:
/// a fill to zero removes the entry within the same operation.
pub proof fn lemma_submit_no_zero_sizes(b: BookV, ord: OrderV)
    requires
        wf(b),
        b.id < u64::MAX,
    ensures
        sizes_positive(spec_submit(b, ord).bids),
        sizes_positive(spec_submit(b, ord).asks),
{
    lemma_submit_preserves_wf(b, ord);
}

/// A sequence holds no negative number of submissions.
pub proof fn lemma_count_submits_nonneg(es: Seq<BookEvent>)
    ensures
        count_submits(es) >= 0,
    decreases es.len(),
{
    if es.len() > 0 {
        lemma_count_submits_nonneg(es.drop_first());
    }
}

/// The price ordering invariant over whole histories: after any sequence of
/// submissions and cancellations on a well-formed book — as long as the
/// identifier space is not exhausted — the bids stay non-increasing and the
/// asks non-decreasing by price, ties in arrival order, with no zero-size
/// entry resting and all identifiers unique.
pub proof fn lemma_wf_after_any_sequence(b: BookV, es: Seq<BookEvent>)
    requires
        wf(b),
        b.id + count_submits(es) <= u64::MAX,
    ensures
        wf(apply_events(b, es)),
    decreases es.len(),
{
    if es.len() > 0 {
        lemma_count_submits_nonneg(es.drop_first());
        match es.first() {
            BookEvent::Submit { ord } => {
                lemma_submit_preserves_wf(b, ord);
                lemma_wf_after_any_sequence(spec_submit(b, ord), es.drop_first());
            },
            BookEvent::Cancel { id } => {
                lemma_cancel_preserves_wf(b, id);
                lemma_wf_after_any_sequence(spec_cancel(b, id), es.drop_first());
            },
        }
    }
}

/// Cancellations never move the identifier counter.
pub proof fn lemma_apply_cancels_id(b: BookV, ids: Seq<OrderId>)
    ensures
        apply_cancels(b, ids).id == b.id,
    decreases ids.len(),
{
    if ids.len() > 0 {
        lemma_apply_cancels_id(spec_cancel(b, ids.first()), ids.drop_first());
    }
}

/// Monotonic identifiers: a submission returns the counter and advances it,
/// and cancellations leave it alone, so the identifier returned by a later
/// submission is strictly above the one returned by an earlier submission,
/// regardless of fill outcome and of any cancellations in between.
pub proof fn lemma_ids_monotonic(b: BookV, first: OrderV, cancelled: Seq<OrderId>, second: OrderV)
    ensures
        apply_cancels(spec_submit(b, first), cancelled).id == b.id + 1,
        apply_cancels(spec_submit(b, first), cancelled).id > b.id,
{
    lemma_apply_cancels_id(spec_submit(b, first), cancelled);
}

/// Cancelling an identifier twice has the effect of cancelling it once:
/// the first cancellation leaves no entry bearing the identifier, so the
/// second changes nothing.
pub proof fn lemma_cancel_idempotent(b: BookV, id: OrderId)
    ensures
        spec_cancel(spec_cancel(b, id), id) == spec_cancel(b, id),
{
    lemma_without_id_elems(b.bids, id);
    lemma_without_id_elems(b.asks, id);
    lemma_without_id_absent(without_id(b.bids, id), id);
    lemma_without_id_absent(without_id(b.asks, id), id);
    assert(spec_cancel(spec_cancel(b, id), id) =~= spec_cancel(b, id));
}

} // verus!

