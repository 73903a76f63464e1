//! Executable operations on one side's queue of resting orders.

use vstd::prelude::*;

use crate::model::{
    distinct_ids, entry_before, has_priority, ids_below, queue_ordered, reduced, sizes_positive,
    spec_insertion_index, spec_match, without_id,
};
use crate::orders::{queue_view, OrderId, OrderIn, Price, Size};

verus! {

/// The insertion index is within bounds, no entry before it is one the
/// price has priority over, and the entry at it (if any) is one it has.
pub proof fn lemma_insertion_index_props(q: Seq<crate::orders::OrderInV>, ask_side: bool, price: Price)
    ensures
        0 <= spec_insertion_index(q, ask_side, price) <= q.len(),
        forall|k: int|
            0 <= k < spec_insertion_index(q, ask_side, price)
                ==> !has_priority(ask_side, price, #[trigger] q[k].order.price),
        spec_insertion_index(q, ask_side, price) < q.len()
            ==> has_priority(ask_side, price, q[spec_insertion_index(q, ask_side, price)].order.price),
    decreases q.len(),
{
    if q.len() == 0 {
    } else if has_priority(ask_side, price, q.first().order.price) {
    } else {
        lemma_insertion_index_props(q.drop_first(), ask_side, price);
        assert forall|k: int|
            0 <= k < spec_insertion_index(q, ask_side, price)
                implies !has_priority(ask_side, price, #[trigger] q[k].order.price) by {
            if k > 0 {
                assert(q.drop_first()[k - 1] == q[k]);
            }
        }
        let i = spec_insertion_index(q, ask_side, price);
        if i < q.len() {
            assert(q.drop_first()[i - 1] == q[i]);
        }
    }
}

/// A queue holding no entry with the identifier is unchanged by its removal.
pub proof fn lemma_without_id_absent(q: Seq<crate::orders::OrderInV>, id: OrderId)
    requires
        forall|k: int| 0 <= k < q.len() ==> #[trigger] q[k].id != id,
    ensures
        without_id(q, id) == q,
    decreases q.len(),
{
    if q.len() == 0 {
        assert(without_id(q, id) =~= q);
    } else {
        lemma_without_id_absent(q.drop_last(), id);
        assert(without_id(q, id) =~= q);
    }
}

/// In a queue of distinct identifiers, removing an identifier found at
/// position `i` removes exactly that position.
pub proof fn lemma_without_id_unique(q: Seq<crate::orders::OrderInV>, id: OrderId, i: int)
    requires
        distinct_ids(q),
        0 <= i < q.len(),
        q[i].id == id,
    ensures
        without_id(q, id) == q.remove(i),
    decreases q.len(),
{
    if i == q.len() - 1 {
        assert forall|k: int| 0 <= k < q.drop_last().len() implies #[trigger] q.drop_last()[k].id
            != id by {
            assert(q.drop_last()[k] == q[k]);
        }
        lemma_without_id_absent(q.drop_last(), id);
        assert(without_id(q, id) =~= q.remove(i));
    } else {
        lemma_without_id_unique(q.drop_last(), id, i);
        assert(without_id(q, id) =~= q.remove(i));
    }
}

/// Walks the opposite-side queue front to back, filling the incoming order
/// of the given side, price and size.  Fully consumed entries leave the
/// queue; a partially consumed front entry stays with its size reduced; the
/// walk stops at the first entry the incoming price does not cross.
/// Returns the residual size of the incoming order.
pub fn match_queue(
    book: &mut Vec<OrderIn>,
    incoming_is_sell: bool,
    price: Price,
    size: Size,
) -> (residual: Size)
    ensures
        queue_view(final(book)@) == spec_match(
            queue_view(old(book)@),
            incoming_is_sell,
            price,
            size,
        ).0,
        residual == spec_match(queue_view(old(book)@), incoming_is_sell, price, size).1,
{
    let mut remaining = size;
    let mut done = false;
    while !done
        invariant
            spec_match(queue_view(book@), incoming_is_sell, price, remaining) == spec_match(
                queue_view(old(book)@),
                incoming_is_sell,
                price,
                size,
            ),
            done ==> spec_match(queue_view(book@), incoming_is_sell, price, remaining) == (
                queue_view(book@),
                remaining,
            ),
        decreases book@.len(), (if done { 0int } else { 1int }),
    {
        let ghost pre = queue_view(book@);
        if remaining == 0 {
            done = true;
        } else if book.len() == 0 {
            done = true;
        } else {
            let front_price = book[0].order.price;
            let cross = if incoming_is_sell {
                price <= front_price
            } else {
                price >= front_price
            };
            if !cross {
                done = true;
            } else {
                let front_size = book[0].order.size;
                if remaining >= front_size {
                    book.remove(0);
                    remaining = remaining - front_size;
                    proof {
                        assert(queue_view(book@) =~= pre.drop_first());
                    }
                } else {
                    let mut e = book.remove(0);
                    e.order.size = e.order.size - remaining;
                    book.insert(0, e);
                    proof {
                        assert(queue_view(book@) =~= seq![reduced(pre.first(), remaining)]
                            + pre.drop_first());
                    }
                    remaining = 0;
                    done = true;
                }
            }
        }
    }
    remaining
}

/// Position at which a residual order of the given side and price rests in
/// its own side's queue: before the first resting entry the price has
/// strict priority over, at the tail if there is none.
pub fn find_insertion_index(book: &Vec<OrderIn>, ask_side: bool, price: Price) -> (idx: usize)
    ensures
        idx == spec_insertion_index(queue_view(book@), ask_side, price),
        idx <= book@.len(),
{
    let ghost q = queue_view(book@);
    let mut i: usize = 0;
    while i < book.len()
        invariant
            i <= q.len(),
            q == queue_view(book@),
            forall|k: int| 0 <= k < i ==> !has_priority(ask_side, price, #[trigger] q[k].order.price),
        decreases book@.len() - i,
    {
        let p = book[i].order.price;
        let prio = if ask_side {
            price < p
        } else {
            price > p
        };
        if prio {
            proof {
                assert(q[i as int].order.price == p);
                lemma_insertion_index_props(q, ask_side, price);
                let s = spec_insertion_index(q, ask_side, price);
                if s < i {
                    assert(has_priority(ask_side, price, q[s].order.price));
                    assert(!has_priority(ask_side, price, q[s].order.price));
                } else if s > i {
                    assert(!has_priority(ask_side, price, q[i as int].order.price));
                }
            }
            return i;
        }
        i = i + 1;
    }
    proof {
        lemma_insertion_index_props(q, ask_side, price);
        let s = spec_insertion_index(q, ask_side, price);
        if s < q.len() {
            assert(!has_priority(ask_side, price, q[s].order.price));
        }
    }
    i
}

/// Does `a` sort before `b` on a queue of the given side: strict price
/// priority, or equal price and earlier arrival?
pub fn entry_sorts_before(a: &OrderIn, b: &OrderIn, ask_side: bool) -> (r: bool)
    ensures
        r == entry_before(a@, b@, ask_side),
{
    let prio = if ask_side {
        a.order.price < b.order.price
    } else {
        a.order.price > b.order.price
    };
    prio || (a.order.price == b.order.price && a.id < b.id)
}

/// Decides whether one side's queue is well-formed: sorted by the side's
/// priority rule with ties in arrival order, every size positive, every
/// identifier allocated (at least 1 and below `next`) and unique.
#[verifier::loop_isolation(false)]
pub fn queue_well_formed(book: &Vec<OrderIn>, ask_side: bool, next: OrderId) -> (r: bool)
    ensures
        r == ({
            let q = queue_view(book@);
            &&& queue_ordered(q, ask_side)
            &&& sizes_positive(q)
            &&& ids_below(q, next as int)
            &&& distinct_ids(q)
        }),
{
    let ghost q = queue_view(book@);
    let mut i: usize = 0;
    while i < book.len()
        invariant
            i <= q.len(),
            forall|k: int| 0 <= k < i ==> #[trigger] q[k].order.size > 0,
            forall|k: int| 0 <= k < i ==> 1 <= #[trigger] q[k].id < next,
            forall|k: int, l: int|
                0 <= k < l < q.len() && k < i ==> entry_before(q[k], q[l], ask_side),
            forall|k: int, l: int|
                0 <= k < l < q.len() && k < i ==> #[trigger] q[k].id != #[trigger] q[l].id,
        decreases q.len() - i,
    {
        if book[i].order.size == 0 {
            proof {
                assert(q[i as int].order.size == 0);
            }
            return false;
        }
        if book[i].id < 1 || book[i].id >= next {
            proof {
                assert(!(1 <= q[i as int].id < next));
            }
            return false;
        }
        let mut j = i + 1;
        while j < book.len()
            invariant
                i < j <= q.len(),
                forall|l: int| i < l < j ==> entry_before(q[i as int], q[l], ask_side),
                forall|l: int| i < l < j ==> q[i as int].id != #[trigger] q[l].id,
            decreases q.len() - j,
        {
            if !entry_sorts_before(&book[i], &book[j], ask_side) {
                proof {
                    assert(!entry_before(q[i as int], q[j as int], ask_side));
                }
                return false;
            }
            if book[i].id == book[j].id {
                proof {
                    assert(q[i as int].id == q[j as int].id);
                }
                return false;
            }
            j = j + 1;
        }
        i = i + 1;
    }
    true
}

/// Decides whether no identifier appears in both queues.
#[verifier::loop_isolation(false)]
pub fn queues_disjoint(a: &Vec<OrderIn>, b: &Vec<OrderIn>) -> (r: bool)
    ensures
        r == crate::model::disjoint_ids(queue_view(a@), queue_view(b@)),
{
    let ghost qa = queue_view(a@);
    let ghost qb = queue_view(b@);
    let mut i: usize = 0;
    while i < a.len()
        invariant
            i <= qa.len(),
            forall|k: int, l: int|
                0 <= k < i && 0 <= l < qb.len() ==> #[trigger] qa[k].id != #[trigger] qb[l].id,
        decreases qa.len() - i,
    {
        let mut j: usize = 0;
        while j < b.len()
            invariant
                j <= qb.len(),
                forall|l: int| 0 <= l < j ==> qa[i as int].id != #[trigger] qb[l].id,
            decreases qb.len() - j,
        {
            if a[i].id == b[j].id {
                proof {
                    assert(qa[i as int].id == qb[j as int].id);
                }
                return false;
            }
            j = j + 1;
        }
        i = i + 1;
    }
    true
}

/// Removes the entry bearing `id`, if present; a no-op when the identifier
/// is unknown.  The queue's identifiers must be distinct, as they are in a
/// well-formed book.
pub fn remove_by_id(book: &mut Vec<OrderIn>, id: OrderId)
    requires
        distinct_ids(queue_view(old(book)@)),
    ensures
        queue_view(final(book)@) == without_id(queue_view(old(book)@), id),
{
    let ghost q = queue_view(book@);
    let mut i: usize = 0;
    while i < book.len()
        invariant
            i <= q.len(),
            q == queue_view(book@),
            q == queue_view(old(book)@),
            distinct_ids(q),
            forall|k: int| 0 <= k < i ==> #[trigger] q[k].id != id,
        decreases book@.len() - i,
    {
        if book[i].id == id {
            book.remove(i);
            proof {
                assert(queue_view(book@) =~= q.remove(i as int));
                lemma_without_id_unique(q, id, i as int);
            }
            return;
        }
        i = i + 1;
    }
    proof {
        lemma_without_id_absent(q, id);
    }
}

} // verus!
