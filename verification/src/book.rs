//! The order book and its two externally invoked operations.

use vstd::prelude::*;

use crate::laws::{lemma_cancel_preserves_wf, lemma_submit_preserves_wf};
use crate::model::{crosses, has_priority, spec_cancel, spec_submit, wf, BookV};
use crate::orders::{queue_view, Order, OrderId, OrderIn, Price, Side};
use crate::queue::{find_insertion_index, match_queue, queue_well_formed, queues_disjoint, remove_by_id};

verus! {

/// A single-instrument limit order book: resting bids and asks, each sorted
/// by price priority with ties in arrival order, and the identifier counter
/// for the next submission.  The execution host serializes all calls, so
/// each operation has exclusive access to the book.
pub struct Lobstah {
    /// Resting buy orders, best (highest) price first.
    pub bids: Vec<OrderIn>,
    /// Resting sell orders, best (lowest) price first.
    pub asks: Vec<OrderIn>,
    /// The identifier the next submission will return.
    pub id: OrderId,
}

impl View for Lobstah {
    type V = BookV;

    open spec fn view(&self) -> BookV {
        BookV {
            bids: queue_view(self.bids@),
            asks: queue_view(self.asks@),
            id: self.id as int,
        }
    }
}

impl Lobstah {
    /// The book's invariant: well-formedness of its mathematical view.
    /// Constructors establish it and every operation preserves it.
    pub open spec fn inv(&self) -> bool {
        wf(self@)
    }

    /// Is the side a sell?
    pub fn is_ask(s: Side) -> (r: bool)
        ensures
            r == (s == 1),
    {
        s == 1
    }

    /// Does an incoming buy priced `bid` cross a resting ask priced `ask`?
    pub fn hit_ask(bid: Price, ask: Price) -> (r: bool)
        ensures
            r == crosses(false, bid, ask),
    {
        bid >= ask
    }

    /// Does an incoming sell priced `ask` cross a resting bid priced `bid`?
    pub fn hit_bid(ask: Price, bid: Price) -> (r: bool)
        ensures
            r == crosses(true, ask, bid),
    {
        ask <= bid
    }

    /// Does a new ask have strict price priority over a resting ask?
    pub fn priority_ask(ask_new: Price, ask_old: Price) -> (r: bool)
        ensures
            r == has_priority(true, ask_new, ask_old),
    {
        ask_new < ask_old
    }

    /// Does a new bid have strict price priority over a resting bid?
    pub fn priority_bid(bid_new: Price, bid_old: Price) -> (r: bool)
        ensures
            r == has_priority(false, bid_new, bid_old),
    {
        bid_new > bid_old
    }

    /// Creates an empty book with the identifier counter at 1.  The flag is
    /// accepted for the host's constructor calling convention and ignored:
    /// an empty book needs no configuration.
    pub fn new(_init_value: bool) -> (book: Lobstah)
        ensures
            book.inv(),
            book@.bids.len() == 0,
            book@.asks.len() == 0,
            book@.id == 1,
    {
        Lobstah { bids: Vec::<OrderIn>::new(), asks: Vec::<OrderIn>::new(), id: 1 }
    }

    /// Decides the book invariant, so that state handed back across the
    /// host boundary can be validated before the book is operated on.
    pub fn is_well_formed(&self) -> (r: bool)
        ensures
            r == self.inv(),
    {
        self.id >= 1 && queue_well_formed(&self.bids, false, self.id) && queue_well_formed(
            &self.asks,
            true,
            self.id,
        ) && queues_disjoint(&self.bids, &self.asks)
    }

    /// Submits a limit order: crosses off as many shares as possible
    /// against the opposite queue, queues any unfilled remainder in the
    /// order's own queue at its priority position, and returns the newly
    /// allocated identifier.  The counter advances on every submission,
    /// fill or no fill; a zero-size order consumes an identifier slot and
    /// rests nowhere.
    pub fn limit_order(&mut self, ord: Order) -> (id: OrderId)
        requires
            old(self).inv(),
            old(self)@.id < u64::MAX,
        ensures
            final(self).inv(),
            id == old(self)@.id,
            final(self)@ == spec_submit(old(self)@, ord@),
    {
        let ghost o = ord@;
        let isask = Self::is_ask(ord.side);
        let return_id = self.id;
        if isask {
            let residual = match_queue(&mut self.bids, true, ord.price, ord.size);
            if residual > 0 {
                let insertion_index = find_insertion_index(&self.asks, true, ord.price);
                let mut rest = ord;
                rest.size = residual;
                let new_order = OrderIn { order: rest, id: return_id };
                self.asks.insert(insertion_index, new_order);
                proof {
                    assert(queue_view(self.asks@) =~= queue_view(old(self).asks@).insert(
                        insertion_index as int,
                        new_order@,
                    ));
                }
            }
        } else {
            let residual = match_queue(&mut self.asks, false, ord.price, ord.size);
            if residual > 0 {
                let insertion_index = find_insertion_index(&self.bids, false, ord.price);
                let mut rest = ord;
                rest.size = residual;
                let new_order = OrderIn { order: rest, id: return_id };
                self.bids.insert(insertion_index, new_order);
                proof {
                    assert(queue_view(self.bids@) =~= queue_view(old(self).bids@).insert(
                        insertion_index as int,
                        new_order@,
                    ));
                }
            }
        }
        self.id = self.id + 1;
        proof {
            assert(self@ =~= spec_submit(old(self)@, o));
            lemma_submit_preserves_wf(old(self)@, o);
        }
        return_id
    }

    /// Cancels the order with the given identifier: the entry leaves
    /// whichever queue holds it.  An unknown identifier — already filled,
    /// already cancelled, or never allocated — is a no-op, not an error,
    /// so cancellation is idempotent.
    pub fn cancel(&mut self, id: OrderId)
        requires
            old(self).inv(),
        ensures
            final(self).inv(),
            final(self)@ == spec_cancel(old(self)@, id),
    {
        remove_by_id(&mut self.asks, id);
        remove_by_id(&mut self.bids, id);
        proof {
            assert(self@ =~= spec_cancel(old(self)@, id));
            lemma_cancel_preserves_wf(old(self)@, id);
        }
    }
}

} // verus!

