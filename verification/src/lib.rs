//! A single-instrument limit order matching core.
//!
//! Incoming limit orders are crossed against resting opposite-side orders
//! under price priority; any unfilled remainder is queued in time priority.
//! The book is an owned value with exclusive access per call: the execution
//! host that invokes it serializes all calls, so the core holds no
//! synchronization of its own.  Every operation is total: an unknown
//! identifier on cancel and a zero-size submission are absorbed, not errors.

mod book;
mod laws;
mod model;
mod orders;
mod queue;

pub use book::Lobstah;
pub use laws::{
    lemma_apply_cancels_id, lemma_cancel_idempotent, lemma_cancel_preserves_wf,
    lemma_count_submits_nonneg, lemma_ids_monotonic, lemma_insert_rests,
    lemma_match_conservation, lemma_match_props, lemma_submit_conservation,
    lemma_submit_no_zero_sizes, lemma_submit_preserves_wf, lemma_wf_after_any_sequence,
    lemma_without_id_elems, lemma_without_id_pairwise,
};
pub use model::{
    apply_cancels, apply_event, apply_events, count_submits, crosses, disjoint_ids, distinct_ids,
    entry_before, has_priority, ids_below, queue_ordered, reduced, sizes_positive, spec_cancel,
    spec_filled, spec_insertion_index, spec_match, spec_residual, spec_submit, total_size, wf,
    without_id, BookEvent, BookV,
};
pub use orders::{queue_view, Order, OrderId, OrderIn, OrderInV, OrderV, Price, Side, Size};
pub use queue::{
    entry_sorts_before, find_insertion_index, lemma_insertion_index_props,
    lemma_without_id_absent, lemma_without_id_unique, match_queue, queue_well_formed,
    queues_disjoint, remove_by_id,
};
