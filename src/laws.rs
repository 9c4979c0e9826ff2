//! What holds of every session, across the operations of `session`.

use vstd::prelude::*;
use crate::frame::{Request, Response};
use crate::session::{expired, Polled, SessionError, SessionView, Submitted, WriterAction};

verus! {

/// A poll that yields a response yields the one that carries the polled
/// correlation id.
pub proof fn lemma_poll_matches_id(s: SessionView, id: u32)
    requires
        s.wf(),
    ensures
        s.poll_result(id) matches Polled::Ready(Some(r)) ==> r.id == id,
{
}

/// A response reaches the caller whose request carried its correlation id:
/// storing it hands out that caller's token, the caller's next poll yields
/// exactly that response, and no other caller's poll changes.
pub proof fn lemma_response_reaches_its_caller(s: SessionView, r: Response)
    requires
        s.wf(),
        s.table.contains_key(r.id),
        s.table[r.id].waker is Some,
    ensures
        s.deliver_result(r) == s.table[r.id].waker,
        s.after_deliver(r).poll_result(r.id) == Polled::Ready(Some(r)),
        forall|id: u32| id != r.id ==> #[trigger] s.after_deliver(r).poll_result(id) == s.poll_result(id),
{
    let d = s.after_deliver(r);
    assert forall|id: u32| id != r.id implies #[trigger] d.poll_result(id) == s.poll_result(id) by {
        assert(d.table.contains_key(id) == s.table.contains_key(id));
        if s.table.contains_key(id) {
            assert(d.table[id] == s.table[id]);
        }
        assert(d.queue == s.queue && d.current == s.current);
    }
}

/// Once the writer has published its token, every accepted submission
/// hands that token out, and the writer's next move is to write.
pub proof fn lemma_submission_wakes_writer(s: SessionView, req: Request, caller: u64, now: u64)
    requires
        s.wf(),
        s.writer is Some,
        !s.closed,
        s.queue.len() < s.capacity,
    ensures
        s.submit_result(req) == (Submitted::Queued { id: s.next_id, wake_writer: s.writer }),
        s.after_submit(req, caller).writer_action(now) == WriterAction::Write,
{
}

/// The queue never holds more than its capacity: a submission to a full
/// queue is handed back, and the callers that found it full are all woken
/// when the writer takes a request off it.
pub proof fn lemma_queue_bounded(s: SessionView, req: Request, caller: u64, now: u64)
    requires
        s.wf(),
    ensures
        s.after_submit(req, caller).queue.len() <= s.capacity,
        !s.closed && s.queue.len() >= s.capacity ==> s.submit_result(req) == Submitted::Full(req),
        !s.mid_write() && s.queue.len() > 0 ==> s.writer_wake(now) == s.blocked,
{
}

/// When every entry is older than the timeout, one janitor pass empties
/// the table, hands out the token of every caller in it, and each of their
/// polls then resolves empty.
pub proof fn lemma_eviction_clears_stale_entries(s: SessionView, now: u64, timeout: u64)
    requires
        s.wf(),
        forall|k: u32| #[trigger] s.table.contains_key(k) ==> expired(s.table[k], now, timeout),
    ensures
        s.after_evict(now, timeout).table == Map::<u32, crate::session::Entry>::empty(),
        forall|k: u32, t: u64|
            #[trigger] s.table.contains_key(k) && s.table[k].waker == Some(t) ==> #[trigger] s.expired_waker(
                t,
                now,
                timeout,
            ),
        forall|id: u32|
            !s.awaiting_write(id) ==> #[trigger] s.after_evict(now, timeout).poll_result(id) == Polled::Ready(
                None,
            ),
{
    assert(s.after_evict(now, timeout).table =~= Map::<u32, crate::session::Entry>::empty());
}

/// A caller that walks away leaves nothing behind for long: its entry is
/// gone after the first janitor pass past the timeout, while the entries
/// that are not yet that old, and their polls, stay as they were.
pub proof fn lemma_abandoned_entry_evicted(s: SessionView, now: u64, timeout: u64, id: u32, other: u32)
    requires
        s.wf(),
        s.table.contains_key(id),
        expired(s.table[id], now, timeout),
        s.table.contains_key(other),
        !expired(s.table[other], now, timeout),
    ensures
        !s.after_evict(now, timeout).table.contains_key(id),
        s.after_evict(now, timeout).table[other] == s.table[other],
        s.after_evict(now, timeout).poll_result(other) == s.poll_result(other),
{
}

/// After a failure of either half, whatever the writer's token, every poll
/// resolves empty, every submission is refused, and a failure is recorded:
/// the new one, unless an earlier one was there.
pub proof fn lemma_failure_is_fatal(
    s: SessionView,
    err: SessionError,
    writer: Option<u64>,
    id: u32,
    req: Request,
)
    requires
        s.wf(),
    ensures
        (SessionView { writer, ..s.after_failure(err) }).poll_result(id) == Polled::Ready(None),
        (SessionView { writer, ..s.after_failure(err) }).submit_result(req) == Submitted::Closed,
        (SessionView { writer, ..s.after_failure(err) }).error == if s.error is None {
            Some(err)
        } else {
            s.error
        },
{
}

/// Closing the session keeps the requests in flight answerable: the table
/// is untouched, a response that arrives afterwards is still delivered, and
/// the writer shuts down exactly when nothing is left to write.
pub proof fn lemma_close_keeps_in_flight(s: SessionView, r: Response, now: u64)
    requires
        s.wf(),
        s.table.contains_key(r.id),
        s.table[r.id].waker is Some,
    ensures
        s.after_close().table == s.table,
        s.after_close().closed,
        s.after_close().after_deliver(r).poll_result(r.id) == Polled::Ready(Some(r)),
        s.after_close().writer_action(now) == WriterAction::Shutdown <==> s.queue.len() == 0
            && !s.mid_write(),
{
}

} // verus!
