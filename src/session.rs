//! The shared state of one multiplexed session, as a state machine.
//!
//! Callers, the writer task, the reader task and the janitor each turn one
//! event into a call here. A wake token is a `u64` that names a suspended
//! task; every call returns the tokens that must be signalled, and a
//! response is stored in the state before its token is handed out.

use vstd::prelude::*;
use crate::frame::{Request, Response, ResponseFailure, frame_bytes, MAX_PAYLOAD};

verus! {

/// The capacity of the request queue that a session gets by default.
pub const DEFAULT_QUEUE_CAPACITY: usize = 1024;

/// The record that bridges a written-but-unanswered request and its caller.
pub struct Entry {
    pub data: Option<Response>,
    pub waker: Option<u64>,
    pub created: u64,
}

/// The terminal failure of a session.
#[derive(Clone, Debug, PartialEq, Eq)]
pub enum SessionError {
    /// The write half failed, with the I/O error's message.
    WriteFailed(String),
    /// A response could not be read or parsed.
    ResponseFailed(ResponseFailure),
}

/// Whether the keys of a table's entries are pairwise distinct.
pub open spec fn keys_unique(s: Seq<(u32, Entry)>) -> bool {
    forall|i: int, j: int|
        0 <= i < s.len() && 0 <= j < s.len() && #[trigger] s[i].0 == #[trigger] s[j].0 ==> i == j
}

/// Whether some entry of a table has key `k`.
pub open spec fn has_key(s: Seq<(u32, Entry)>, k: u32) -> bool {
    exists|i: int| 0 <= i < s.len() && s[i].0 == k
}

/// The map from correlation id to entry that a table of pairs stands for.
pub open spec fn table_of(s: Seq<(u32, Entry)>) -> Map<u32, Entry> {
    Map::new(
        |k: u32| has_key(s, k),
        |k: u32| s[choose|i: int| 0 <= i < s.len() && s[i].0 == k].1,
    )
}

proof fn lemma_table_at(s: Seq<(u32, Entry)>, i: int)
    requires
        keys_unique(s),
        0 <= i < s.len(),
    ensures
        table_of(s).contains_key(s[i].0),
        table_of(s)[s[i].0] == s[i].1,
{
    let k = s[i].0;
    assert(has_key(s, k));
    let j = choose|j: int| 0 <= j < s.len() && s[j].0 == k;
    assert(s[j].0 == s[i].0);
}

proof fn lemma_table_all(s: Seq<(u32, Entry)>)
    requires
        keys_unique(s),
    ensures
        forall|i: int|
            0 <= i < s.len() ==> table_of(s).contains_key(#[trigger] s[i].0) && table_of(s)[s[i].0]
                == s[i].1,
{
    assert forall|i: int| 0 <= i < s.len() implies table_of(s).contains_key(#[trigger] s[i].0)
        && table_of(s)[s[i].0] == s[i].1 by {
        lemma_table_at(s, i);
    }
}

proof fn lemma_table_push(s: Seq<(u32, Entry)>, k: u32, e: Entry)
    requires
        keys_unique(s),
        !has_key(s, k),
    ensures
        keys_unique(s.push((k, e))),
        table_of(s.push((k, e))) =~= table_of(s).insert(k, e),
{
    let t = s.push((k, e));
    assert(t[s.len() as int] == (k, e));
    assert forall|i: int, j: int|
        0 <= i < t.len() && 0 <= j < t.len() && #[trigger] t[i].0 == #[trigger] t[j].0 implies i == j by {
        if i < s.len() && j < s.len() {
            assert(s[i].0 == s[j].0);
        } else if i < s.len() {
            assert(s[i].0 == k);
        } else if j < s.len() {
            assert(s[j].0 == k);
        }
    }
    lemma_table_all(s);
    lemma_table_all(t);
    assert forall|q: u32| table_of(t).contains_key(q) <==> table_of(s).insert(k, e).contains_key(q) by {
        if has_key(t, q) && q != k {
            let i = choose|i: int| 0 <= i < t.len() && t[i].0 == q;
            assert(s[i].0 == q);
        }
        if has_key(s, q) {
            let i = choose|i: int| 0 <= i < s.len() && s[i].0 == q;
            assert(t[i].0 == q);
        }
    }
    assert forall|q: u32| table_of(t).contains_key(q) implies table_of(t)[q] == table_of(s).insert(k, e)[q] by {
        let i = choose|i: int| 0 <= i < t.len() && t[i].0 == q;
        if i < s.len() {
            assert(s[i] == t[i]);
        }
    }
}

proof fn lemma_table_update(s: Seq<(u32, Entry)>, i: int, e: Entry)
    requires
        keys_unique(s),
        0 <= i < s.len(),
    ensures
        keys_unique(s.update(i, (s[i].0, e))),
        table_of(s.update(i, (s[i].0, e))) =~= table_of(s).insert(s[i].0, e),
{
    let k = s[i].0;
    let t = s.update(i, (k, e));
    assert forall|a: int, b: int|
        0 <= a < t.len() && 0 <= b < t.len() && #[trigger] t[a].0 == #[trigger] t[b].0 implies a == b by {
        assert(s[a].0 == t[a].0 && s[b].0 == t[b].0);
    }
    lemma_table_all(s);
    lemma_table_all(t);
    assert forall|q: u32| table_of(t).contains_key(q) <==> table_of(s).contains_key(q) by {
        if has_key(t, q) {
            let j = choose|j: int| 0 <= j < t.len() && t[j].0 == q;
            assert(s[j].0 == q);
        }
        if has_key(s, q) {
            let j = choose|j: int| 0 <= j < s.len() && s[j].0 == q;
            assert(t[j].0 == q);
        }
    }
    assert forall|q: u32| table_of(t).contains_key(q) implies table_of(t)[q] == table_of(s).insert(k, e)[q] by {
        let j = choose|j: int| 0 <= j < t.len() && t[j].0 == q;
        if j != i {
            assert(s[j] == t[j]);
        }
    }
    assert(table_of(t).contains_key(k));
}

proof fn lemma_table_remove(s: Seq<(u32, Entry)>, i: int)
    requires
        keys_unique(s),
        0 <= i < s.len(),
    ensures
        keys_unique(s.remove(i)),
        table_of(s.remove(i)) =~= table_of(s).remove(s[i].0),
{
    let k = s[i].0;
    let t = s.remove(i);
    assert forall|a: int| 0 <= a < t.len() implies #[trigger] t[a] == if a < i { s[a] } else { s[a + 1] } by {}
    assert forall|a: int, b: int|
        0 <= a < t.len() && 0 <= b < t.len() && #[trigger] t[a].0 == #[trigger] t[b].0 implies a == b by {
        let a2 = if a < i { a } else { a + 1 };
        let b2 = if b < i { b } else { b + 1 };
        assert(s[a2].0 == s[b2].0);
    }
    lemma_table_all(s);
    lemma_table_all(t);
    assert forall|q: u32| table_of(t).contains_key(q) <==> table_of(s).remove(k).contains_key(q) by {
        if has_key(t, q) {
            let j = choose|j: int| 0 <= j < t.len() && t[j].0 == q;
            let j2 = if j < i { j } else { j + 1 };
            assert(s[j2].0 == q);
            assert(j2 != i);
        }
        if has_key(s, q) && q != k {
            let j = choose|j: int| 0 <= j < s.len() && s[j].0 == q;
            assert(j != i);
            let j2 = if j < i { j } else { j - 1 };
            assert(t[j2].0 == q);
        }
    }
    assert forall|q: u32| table_of(t).contains_key(q) implies table_of(t)[q] == table_of(s).remove(k)[q] by {
        let j = choose|j: int| 0 <= j < t.len() && t[j].0 == q;
        let j2 = if j < i { j } else { j + 1 };
        assert(t[j] == s[j2]);
    }
}

fn find_entry(table: &Vec<(u32, Entry)>, id: u32) -> (r: Option<usize>)
    ensures
        r matches Some(i) ==> i < table@.len() && table@[i as int].0 == id,
        r is None ==> !has_key(table@, id),
{
    let mut i: usize = 0;
    while i < table.len()
        invariant
            i <= table@.len(),
            forall|j: int| 0 <= j < i ==> table@[j].0 != id,
        decreases table.len() - i,
    {
        if table[i].0 == id {
            return Some(i);
        }
        i = i + 1;
    }
    None
}


/// What submitting a request gave.
pub enum Submitted {
    /// The request was queued under correlation id `id`; `wake_writer` is the
    /// writer's token, to be signalled so that it picks the request up.
    Queued { id: u32, wake_writer: Option<u64> },
    /// The queue is full: the request is handed back, and the caller is
    /// woken once the writer has taken a request off the queue.
    Full(Request),
    /// The session is closed: the request will never be answered.
    Closed,
}

/// What polling for a response gave.
pub enum Polled {
    /// The response, or `None` when the request will never be answered.
    Ready(Option<Response>),
    /// The request is still on its way; the caller is woken later.
    Pending,
}

/// What the writer task is to do next.
#[derive(PartialEq, Eq, Structural)]
pub enum WriterAction {
    /// Write the unwritten part of the current frame.
    Write,
    /// Flush the write half.
    Flush,
    /// Wait to be woken.
    Idle,
    /// Wait one request timeout, then shut the write half down.
    Shutdown,
}

/// An action for the writer task, and the tokens to signal.
pub struct WriterStep {
    pub action: WriterAction,
    pub wake: Vec<u64>,
}

/// Whether an entry is older than `timeout` at time `now`.
pub open spec fn expired(e: Entry, now: u64, timeout: u64) -> bool {
    now as int - e.created as int > timeout as int
}

/// The abstract state of a session.
pub struct SessionView {
    /// The writer's wake token, once the writer has published it.
    pub writer: Option<u64>,
    /// The next correlation id to mint.
    pub next_id: u32,
    /// The bound on the request queue.
    pub capacity: nat,
    /// Whether the request queue refuses new requests.
    pub closed: bool,
    /// The queued requests, oldest first, each with its caller's token.
    pub queue: Seq<(Request, u64)>,
    /// The callers that found the queue full.
    pub blocked: Seq<u64>,
    /// The request that the writer is writing, with its caller's token.
    pub current: Option<(Request, u64)>,
    /// The frame of the current request.
    pub frame: Seq<u8>,
    /// How many bytes of the frame have been written.
    pub offset: nat,
    /// Whether bytes were written since the last flush.
    pub unflushed: bool,
    /// The pending-response table.
    pub table: Map<u32, Entry>,
    /// The terminal failure, if any.
    pub error: Option<SessionError>,
}

/// The id that follows `id`, wrapping after `u32::MAX`.
pub open spec fn next_id_after(id: u32) -> u32 {
    if id == u32::MAX {
        0
    } else {
        (id + 1) as u32
    }
}

impl SessionView {
    pub open spec fn wf(self) -> bool {
        &&& self.capacity > 0
        &&& self.queue.len() <= self.capacity
        &&& forall|i: int| 0 <= i < self.queue.len() ==> (#[trigger] self.queue[i]).0.wf()
        &&& forall|k: u32|
            #[trigger] self.table.contains_key(k) && self.table[k].data is Some
                ==> self.table[k].data->0.id == k
        &&& self.current matches Some(c) ==> c.0.wf() && self.frame == frame_bytes(c.0.id, c.0.payload@)
            && self.offset <= self.frame.len()
    }

    /// Whether the request with correlation id `id` is queued or being written.
    pub open spec fn awaiting_write(self, id: u32) -> bool {
        (exists|i: int| 0 <= i < self.queue.len() && self.queue[i].0.id == id)
            || (self.current matches Some(c) && c.0.id == id)
    }

    /// Whether the task with token `t` waits on this session for a request
    /// of its own.
    pub open spec fn awaits(self, t: u64) -> bool {
        ||| exists|i: int| 0 <= i < self.queue.len() && self.queue[i].1 == t
        ||| self.blocked.contains(t)
        ||| self.current matches Some(c) && c.1 == t
        ||| exists|k: u32| self.table.contains_key(k) && self.table[k].waker == Some(t)
    }

    pub open spec fn submit_result(self, req: Request) -> Submitted {
        if self.closed {
            Submitted::Closed
        } else if self.queue.len() >= self.capacity {
            Submitted::Full(req)
        } else {
            Submitted::Queued { id: self.next_id, wake_writer: self.writer }
        }
    }

    pub open spec fn after_submit(self, req: Request, caller: u64) -> SessionView {
        if self.closed {
            self
        } else if self.queue.len() >= self.capacity {
            SessionView { blocked: self.blocked.push(caller), ..self }
        } else {
            SessionView {
                next_id: next_id_after(self.next_id),
                queue: self.queue.push((Request { id: self.next_id, payload: req.payload }, caller)),
                ..self
            }
        }
    }

    pub open spec fn poll_result(self, id: u32) -> Polled {
        if self.table.contains_key(id) {
            match self.table[id].data {
                Some(r) => Polled::Ready(Some(r)),
                None => Polled::Pending,
            }
        } else if self.awaiting_write(id) {
            Polled::Pending
        } else {
            Polled::Ready(None)
        }
    }

    pub open spec fn after_poll(self, id: u32, caller: u64) -> SessionView {
        if self.table.contains_key(id) {
            if self.table[id].data is Some {
                SessionView { table: self.table.remove(id), ..self }
            } else {
                SessionView {
                    table: self.table.insert(
                        id,
                        Entry { data: None, waker: Some(caller), created: self.table[id].created },
                    ),
                    ..self
                }
            }
        } else {
            self
        }
    }

    /// The token to signal once response `r` has been stored.
    pub open spec fn deliver_result(self, r: Response) -> Option<u64> {
        if self.table.contains_key(r.id) {
            self.table[r.id].waker
        } else {
            None
        }
    }

    /// The state once a fully written current request has been entered in
    /// the table, stamped with time `now`.
    pub open spec fn registered(self, now: u64) -> SessionView {
        match self.current {
            Some(c) => if self.offset >= self.frame.len() {
                SessionView {
                    current: None,
                    table: self.table.insert(
                        c.0.id,
                        Entry { data: None, waker: Some(c.1), created: now },
                    ),
                    ..self
                }
            } else {
                self
            },
            None => self,
        }
    }

    /// Whether part of the current request's frame is still to be written.
    pub open spec fn mid_write(self) -> bool {
        self.current is Some && self.offset < self.frame.len()
    }

    pub open spec fn writer_action(self, now: u64) -> WriterAction {
        if self.mid_write() {
            WriterAction::Write
        } else {
            let s = self.registered(now);
            if s.queue.len() > 0 {
                WriterAction::Write
            } else if !s.closed {
                if s.unflushed {
                    WriterAction::Flush
                } else {
                    WriterAction::Idle
                }
            } else {
                WriterAction::Shutdown
            }
        }
    }

    pub open spec fn writer_wake(self, now: u64) -> Seq<u64> {
        if !self.mid_write() && self.registered(now).queue.len() > 0 {
            self.blocked
        } else {
            Seq::empty()
        }
    }

    pub open spec fn after_writer_poll(self, now: u64) -> SessionView {
        if self.mid_write() {
            self
        } else {
            let s = self.registered(now);
            if s.queue.len() > 0 {
                SessionView {
                    current: Some(s.queue[0]),
                    frame: frame_bytes(s.queue[0].0.id, s.queue[0].0.payload@),
                    offset: 0,
                    queue: s.queue.drop_first(),
                    blocked: Seq::empty(),
                    ..s
                }
            } else if !s.closed {
                s
            } else {
                SessionView { writer: None, ..s }
            }
        }
    }

    /// The state after a fatal failure: the queue is closed, every request
    /// is dropped, and the failure is kept unless an earlier one is there.
    pub open spec fn after_failure(self, err: SessionError) -> SessionView {
        SessionView {
            closed: true,
            queue: Seq::empty(),
            blocked: Seq::empty(),
            current: None,
            table: Map::empty(),
            error: if self.error is None {
                Some(err)
            } else {
                self.error
            },
            ..self
        }
    }

    /// The table without the entries that are older than `timeout` at `now`.
    pub open spec fn after_evict(self, now: u64, timeout: u64) -> SessionView {
        SessionView {
            table: Map::new(
                |k: u32| self.table.contains_key(k) && !expired(self.table[k], now, timeout),
                |k: u32| self.table[k],
            ),
            ..self
        }
    }

    /// Whether `t` is the token of an entry that is older than `timeout` at `now`.
    pub open spec fn expired_waker(self, t: u64, now: u64, timeout: u64) -> bool {
        exists|k: u32|
            self.table.contains_key(k) && expired(self.table[k], now, timeout) && self.table[k].waker
                == Some(t)
    }

    pub open spec fn after_close(self) -> SessionView {
        SessionView { closed: true, writer: None, blocked: Seq::empty(), ..self }
    }

    pub open spec fn after_deliver(self, r: Response) -> SessionView {
        if self.table.contains_key(r.id) && self.table[r.id].waker is Some {
            SessionView {
                table: self.table.insert(
                    r.id,
                    Entry { data: Some(r), waker: None, created: self.table[r.id].created },
                ),
                ..self
            }
        } else {
            self
        }
    }
}

proof fn lemma_push_contains(s: Seq<u64>, x: u64)
    ensures
        forall|t: u64| #[trigger] s.push(x).contains(t) <==> (s.contains(t) || t == x),
{
    assert forall|t: u64| #[trigger] s.push(x).contains(t) <==> (s.contains(t) || t == x) by {
        if s.contains(t) {
            let j = choose|j: int| 0 <= j < s.len() && s[j] == t;
            assert(s.push(x)[j] == t);
        }
        if t == x {
            assert(s.push(x)[s.len() as int] == x);
        }
        if s.push(x).contains(t) {
            let j = choose|j: int| 0 <= j < s.len() + 1 && s.push(x)[j] == t;
            if j < s.len() {
                assert(s[j] == t);
            }
        }
    }
}

fn table_insert(table: &mut Vec<(u32, Entry)>, id: u32, e: Entry)
    requires
        keys_unique(old(table)@),
    ensures
        keys_unique(final(table)@),
        table_of(final(table)@) == table_of(old(table)@).insert(id, e),
{
    let ghost s = table@;
    match find_entry(table, id) {
        Some(i) => {
            table[i] = (id, e);
            proof {
                lemma_table_update(s, i as int, e);
            }
        }
        None => {
            table.push((id, e));
            proof {
                lemma_table_push(s, id, e);
            }
        }
    }
}

fn collect_tokens(tokens: &Vec<u64>, wake: &mut Vec<u64>)
    ensures
        forall|t: u64| #[trigger] final(wake)@.contains(t) <==> old(wake)@.contains(t) || tokens@.contains(t),
{
    let ghost w0 = wake@;
    let mut i: usize = 0;
    while i < tokens.len()
        invariant
            i <= tokens@.len(),
            forall|t: u64|
                #[trigger] wake@.contains(t) <==> w0.contains(t) || exists|j: int| 0 <= j < i && tokens@[j] == t,
        decreases tokens.len() - i,
    {
        proof {
            lemma_push_contains(wake@, tokens@[i as int]);
        }
        wake.push(tokens[i]);
        i = i + 1;
        assert forall|t: u64| #[trigger] wake@.contains(t) <==> w0.contains(t) || exists|j: int|
            0 <= j < i && tokens@[j] == t by {
            if t == tokens@[i - 1] {
                assert(tokens@[i - 1] == t);
            }
            if exists|j: int| 0 <= j < i && tokens@[j] == t {
                let j = choose|j: int| 0 <= j < i && tokens@[j] == t;
                if j < i - 1 {
                    assert(exists|j: int| 0 <= j < i - 1 && tokens@[j] == t);
                }
            }
        }
    }
}

fn collect_queue_tokens(queue: &Vec<(Request, u64)>, wake: &mut Vec<u64>)
    ensures
        forall|t: u64|
            #[trigger] final(wake)@.contains(t) <==> old(wake)@.contains(t) || exists|j: int|
                0 <= j < queue@.len() && queue@[j].1 == t,
{
    let ghost w0 = wake@;
    let mut i: usize = 0;
    while i < queue.len()
        invariant
            i <= queue@.len(),
            forall|t: u64|
                #[trigger] wake@.contains(t) <==> w0.contains(t) || exists|j: int| 0 <= j < i && queue@[j].1 == t,
        decreases queue.len() - i,
    {
        proof {
            lemma_push_contains(wake@, queue@[i as int].1);
        }
        wake.push(queue[i].1);
        i = i + 1;
        assert forall|t: u64| #[trigger] wake@.contains(t) <==> w0.contains(t) || exists|j: int|
            0 <= j < i && queue@[j].1 == t by {
            if t == queue@[i - 1].1 {
                assert(queue@[i - 1].1 == t);
            }
            if exists|j: int| 0 <= j < i && queue@[j].1 == t {
                let j = choose|j: int| 0 <= j < i && queue@[j].1 == t;
                if j < i - 1 {
                    assert(exists|j: int| 0 <= j < i - 1 && queue@[j].1 == t);
                }
            }
        }
    }
}

fn collect_table_tokens(table: &Vec<(u32, Entry)>, wake: &mut Vec<u64>)
    requires
        keys_unique(table@),
    ensures
        forall|t: u64|
            #[trigger] final(wake)@.contains(t) <==> old(wake)@.contains(t) || exists|k: u32|
                table_of(table@).contains_key(k) && table_of(table@)[k].waker == Some(t),
{
    let ghost w0 = wake@;
    let mut i: usize = 0;
    while i < table.len()
        invariant
            i <= table@.len(),
            forall|t: u64|
                #[trigger] wake@.contains(t) <==> w0.contains(t) || exists|j: int|
                    0 <= j < i && table@[j].1.waker == Some(t),
        decreases table.len() - i,
    {
        let w = table[i].1.waker;
        match w {
            Some(x) => {
                proof {
                    lemma_push_contains(wake@, x);
                }
                wake.push(x);
            }
            None => {}
        }
        i = i + 1;
        assert forall|t: u64| #[trigger] wake@.contains(t) <==> w0.contains(t) || exists|j: int|
            0 <= j < i && table@[j].1.waker == Some(t) by {
            if table@[i - 1].1.waker == Some(t) {
                assert(table@[i - 1].1.waker == Some(t));
            }
            if exists|j: int| 0 <= j < i && table@[j].1.waker == Some(t) {
                let j = choose|j: int| 0 <= j < i && table@[j].1.waker == Some(t);
                if j < i - 1 {
                    assert(exists|j: int| 0 <= j < i - 1 && table@[j].1.waker == Some(t));
                }
            }
        }
    }
    proof {
        let s = table@;
        lemma_table_all(s);
        assert forall|t: u64| #[trigger] wake@.contains(t) implies ((exists|j: int| 0 <= j < s.len() && s[j].1.waker == Some(t)) <==> (exists|k: u32|
            table_of(s).contains_key(k) && table_of(s)[k].waker == Some(t))) by {
            if exists|j: int| 0 <= j < s.len() && s[j].1.waker == Some(t) {
                let j = choose|j: int| 0 <= j < s.len() && s[j].1.waker == Some(t);
                assert(table_of(s).contains_key(s[j].0));
            }
            if exists|k: u32| table_of(s).contains_key(k) && table_of(s)[k].waker == Some(t) {
                let k = choose|k: u32| table_of(s).contains_key(k) && table_of(s)[k].waker == Some(t);
                let j = choose|j: int| 0 <= j < s.len() && s[j].0 == k;
                assert(s[j].1.waker == Some(t));
            }
        }
    }
}

/// Whether the entry at index `a` of `orig` is not older than `timeout` at `now`.
spec fn survives(orig: Seq<(u32, Entry)>, a: int, now: u64, timeout: u64) -> bool {
    !expired(orig[a].1, now, timeout)
}

/// Whether `x` is an entry of `orig` at index `from` or later that is not
/// older than `timeout` at `now`.
spec fn kept_from(orig: Seq<(u32, Entry)>, from: int, x: (u32, Entry), now: u64, timeout: u64) -> bool {
    exists|a: int| from <= a < orig.len() && orig[a] == x && !expired(orig[a].1, now, timeout)
}

/// Whether `kept` holds exactly the entries of `orig` that are not older
/// than `timeout` at `now`, and `wake` the tokens of those that are.
spec fn split_done(orig: Seq<(u32, Entry)>, from: int, kept: Seq<(u32, Entry)>, wake: Seq<u64>, now: u64, timeout: u64) -> bool {
    &&& keys_unique(kept)
    &&& forall|j: int| 0 <= j < kept.len() ==> #[trigger] kept_from(orig, from, kept[j], now, timeout)
    &&& forall|a: int|
        from <= a < orig.len() && #[trigger] survives(orig, a, now, timeout) ==> exists|j: int|
            0 <= j < kept.len() && kept[j] == orig[a]
    &&& forall|t: u64|
        #[trigger] wake.contains(t) <==> exists|a: int|
            from <= a < orig.len() && expired(orig[a].1, now, timeout) && orig[a].1.waker == Some(t)
}

proof fn lemma_split_step(orig: Seq<(u32, Entry)>, n: int, kept: Seq<(u32, Entry)>, wake: Seq<u64>, now: u64, timeout: u64)
    requires
        keys_unique(orig),
        0 <= n < orig.len(),
        split_done(orig, n + 1, kept, wake, now, timeout),
    ensures
        expired(orig[n].1, now, timeout) ==> split_done(
            orig,
            n,
            kept,
            match orig[n].1.waker {
                Some(w) => wake.push(w),
                None => wake,
            },
            now,
            timeout,
        ),
        !expired(orig[n].1, now, timeout) ==> split_done(orig, n, kept.push(orig[n]), wake, now, timeout),
{
    let item = orig[n];
    if expired(item.1, now, timeout) {
        let w2 = match item.1.waker {
            Some(w) => wake.push(w),
            None => wake,
        };
        match item.1.waker {
            Some(w) => lemma_push_contains(wake, w),
            None => {}
        }
        assert forall|a: int| n <= a < orig.len() && #[trigger] survives(orig, a, now, timeout) implies exists|j: int|
            0 <= j < kept.len() && kept[j] == orig[a] by {
            assert(a != n);
        }
        assert forall|j: int| 0 <= j < kept.len() implies #[trigger] kept_from(orig, n, kept[j], now, timeout) by {
            assert(kept_from(orig, n + 1, kept[j], now, timeout));
            let a = choose|a: int| n + 1 <= a < orig.len() && orig[a] == kept[j] && !expired(orig[a].1, now, timeout);
            assert(n <= a);
        }
        assert forall|t: u64| #[trigger] w2.contains(t) <==> exists|a: int|
            n <= a < orig.len() && expired(orig[a].1, now, timeout) && orig[a].1.waker == Some(t) by {
            if orig[n].1.waker == Some(t) {
                assert(orig[n].1.waker == Some(t));
            }
            if exists|a: int| n <= a < orig.len() && expired(orig[a].1, now, timeout) && orig[a].1.waker == Some(t) {
                let a = choose|a: int| n <= a < orig.len() && expired(orig[a].1, now, timeout) && orig[a].1.waker == Some(t);
                if a > n {
                    assert(wake.contains(t));
                }
            }
        }
        assert(keys_unique(kept));
        assert(split_done(orig, n, kept, w2, now, timeout));
    } else {
        assert forall|j: int| 0 <= j < kept.len() implies kept[j].0 != item.0 by {
            assert(kept_from(orig, n + 1, kept[j], now, timeout));
            let a = choose|a: int| n + 1 <= a < orig.len() && orig[a] == kept[j] && !expired(orig[a].1, now, timeout);
            assert(orig[a].0 != orig[n].0);
        }
        lemma_table_push(kept, item.0, item.1);
        let k2 = kept.push(item);
        assert(k2[kept.len() as int] == orig[n]);
        assert forall|j: int| 0 <= j < k2.len() implies #[trigger] kept_from(orig, n, k2[j], now, timeout) by {
            if j < kept.len() {
                assert(k2[j] == kept[j]);
                assert(kept_from(orig, n + 1, kept[j], now, timeout));
            } else {
                assert(orig[n] == k2[j]);
            }
        }
        assert forall|a: int| n <= a < orig.len() && #[trigger] survives(orig, a, now, timeout) implies exists|j: int|
            0 <= j < k2.len() && k2[j] == orig[a] by {
            if a > n {
                let j = choose|j: int| 0 <= j < kept.len() && kept[j] == orig[a];
                assert(k2[j] == orig[a]);
            }
        }
        assert forall|t: u64| #[trigger] wake.contains(t) <==> exists|a: int|
            n <= a < orig.len() && expired(orig[a].1, now, timeout) && orig[a].1.waker == Some(t) by {
            if exists|a: int| n <= a < orig.len() && expired(orig[a].1, now, timeout) && orig[a].1.waker == Some(t) {
                let a = choose|a: int| n <= a < orig.len() && expired(orig[a].1, now, timeout) && orig[a].1.waker == Some(t);
                assert(a != n);
            }
        }
    }
}

proof fn lemma_evicted(orig: Seq<(u32, Entry)>, ks: Seq<(u32, Entry)>, wake: Seq<u64>, now: u64, timeout: u64)
    requires
        keys_unique(orig),
        split_done(orig, 0, ks, wake, now, timeout),
    ensures
        keys_unique(ks),
        table_of(ks) =~= Map::new(
            |k: u32| table_of(orig).contains_key(k) && !expired(table_of(orig)[k], now, timeout),
            |k: u32| table_of(orig)[k],
        ),
        forall|t: u64| #[trigger] wake.contains(t) <==> exists|k: u32|
            table_of(orig).contains_key(k) && expired(table_of(orig)[k], now, timeout) && table_of(orig)[k].waker == Some(t),
{
    lemma_table_all(orig);
    lemma_table_all(ks);
    let target = Map::new(
        |k: u32| table_of(orig).contains_key(k) && !expired(table_of(orig)[k], now, timeout),
        |k: u32| table_of(orig)[k],
    );
    assert forall|q: u32| table_of(ks).contains_key(q) <==> target.contains_key(q) by {
        if has_key(ks, q) {
            let j = choose|j: int| 0 <= j < ks.len() && ks[j].0 == q;
            assert(kept_from(orig, 0, ks[j], now, timeout));
            let a = choose|a: int| 0 <= a < orig.len() && orig[a] == ks[j] && !expired(orig[a].1, now, timeout);
            assert(table_of(orig)[orig[a].0] == orig[a].1);
        }
        if target.contains_key(q) {
            let a = choose|a: int| 0 <= a < orig.len() && orig[a].0 == q;
            assert(table_of(orig)[orig[a].0] == orig[a].1);
            assert(survives(orig, a, now, timeout));
            let j = choose|j: int| 0 <= j < ks.len() && ks[j] == orig[a];
            assert(ks[j].0 == q);
        }
    }
    assert forall|q: u32| table_of(ks).contains_key(q) implies table_of(ks)[q] == target[q] by {
        let j = choose|j: int| 0 <= j < ks.len() && ks[j].0 == q;
        assert(kept_from(orig, 0, ks[j], now, timeout));
        let a = choose|a: int| 0 <= a < orig.len() && orig[a] == ks[j] && !expired(orig[a].1, now, timeout);
        assert(table_of(orig)[orig[a].0] == orig[a].1);
        assert(table_of(ks)[ks[j].0] == ks[j].1);
    }
    assert forall|t: u64| #[trigger] wake.contains(t) <==> exists|k: u32|
        table_of(orig).contains_key(k) && expired(table_of(orig)[k], now, timeout) && table_of(orig)[k].waker == Some(t) by {
        if wake.contains(t) {
            let a = choose|a: int| 0 <= a < orig.len() && expired(orig[a].1, now, timeout) && orig[a].1.waker == Some(t);
            assert(table_of(orig)[orig[a].0] == orig[a].1);
        }
        if exists|k: u32| table_of(orig).contains_key(k) && expired(table_of(orig)[k], now, timeout) && table_of(orig)[k].waker == Some(t) {
            let k = choose|k: u32| table_of(orig).contains_key(k) && expired(table_of(orig)[k], now, timeout) && table_of(orig)[k].waker == Some(t);
            let a = choose|a: int| 0 <= a < orig.len() && orig[a].0 == k;
            assert(table_of(orig)[orig[a].0] == orig[a].1);
        }
    }
}

/// Splits a table into the entries that are not older than `timeout` at
/// `now`, and the tokens of the callers of those that are.
fn split_expired(table: Vec<(u32, Entry)>, now: u64, timeout: u64) -> (r: (Vec<(u32, Entry)>, Vec<u64>))
    requires
        keys_unique(table@),
    ensures
        split_done(table@, 0, r.0@, r.1@, now, timeout),
{
    let ghost orig = table@;
    let mut rest = table;
    let mut kept: Vec<(u32, Entry)> = Vec::new();
    let mut wake: Vec<u64> = Vec::new();
    assert(rest@ =~= orig.subrange(0, orig.len() as int));
    assert(kept@ =~= Seq::<(u32, Entry)>::empty());
    while rest.len() > 0
        invariant
            keys_unique(orig),
            rest@.len() <= orig.len(),
            rest@ == orig.subrange(0, rest@.len() as int),
            split_done(orig, rest@.len() as int, kept@, wake@, now, timeout),
        decreases rest.len(),
    {
        match rest.pop() {
            Some(item) => {
                let ghost n = rest@.len() as int;
                assert(item == orig[n]);
                assert(rest@ =~= orig.subrange(0, n));
                proof {
                    lemma_split_step(orig, n, kept@, wake@, now, timeout);
                }
                let created = item.1.created;
                if now > created && now - created > timeout {
                    match item.1.waker {
                        Some(w) => wake.push(w),
                        None => {}
                    }
                } else {
                    kept.push(item);
                }
            }
            None => {}
        }
    }
    (kept, wake)
}

/// The shared state of one session.
pub struct Session {
    writer: Option<u64>,
    next_id: u32,
    capacity: usize,
    closed: bool,
    queue: Vec<(Request, u64)>,
    blocked: Vec<u64>,
    current: Option<(Request, u64)>,
    frame: Vec<u8>,
    offset: usize,
    unflushed: bool,
    table: Vec<(u32, Entry)>,
    error: Option<SessionError>,
}

impl View for Session {
    type V = SessionView;

    closed spec fn view(&self) -> SessionView {
        SessionView {
            writer: self.writer,
            next_id: self.next_id,
            capacity: self.capacity as nat,
            closed: self.closed,
            queue: self.queue@,
            blocked: self.blocked@,
            current: self.current,
            frame: self.frame@,
            offset: self.offset as nat,
            unflushed: self.unflushed,
            table: table_of(self.table@),
            error: self.error,
        }
    }
}

impl Session {
    pub closed spec fn wf(&self) -> bool {
        &&& self@.wf()
        &&& keys_unique(self.table@)
    }

    /// A session whose request queue holds at most `capacity` requests.
    pub fn new(capacity: usize) -> (r: Session)
        requires
            capacity > 0,
        ensures
            r.wf(),
            r@ == (SessionView {
                writer: None,
                next_id: 0,
                capacity: capacity as nat,
                closed: false,
                queue: Seq::empty(),
                blocked: Seq::empty(),
                current: None,
                frame: Seq::empty(),
                offset: 0,
                unflushed: false,
                table: Map::empty(),
                error: None,
            }),
    {
        let r = Session {
            writer: None,
            next_id: 0,
            capacity,
            closed: false,
            queue: Vec::new(),
            blocked: Vec::new(),
            current: None,
            frame: Vec::new(),
            offset: 0,
            unflushed: false,
            table: Vec::new(),
            error: None,
        };
        assert(r@.table =~= Map::empty());
        assert(r@.queue =~= Seq::empty());
        assert(r@.blocked =~= Seq::empty());
        assert(r@.frame =~= Seq::empty());
        r
    }

    /// Records the writer's wake token, on the writer's first poll.
    pub fn publish_writer(&mut self, token: u64)
        requires
            old(self).wf(),
        ensures
            final(self).wf(),
            final(self)@ == (SessionView { writer: Some(token), ..old(self)@ }),
    {
        self.writer = Some(token);
    }

    /// The writer's wake token, once published: a send handle is handed out
    /// only after it is there.
    pub fn writer_token(&self) -> (r: Option<u64>)
        ensures
            r == self@.writer,
    {
        self.writer
    }

    pub fn is_closed(&self) -> (r: bool)
        ensures
            r == self@.closed,
    {
        self.closed
    }

    /// The terminal failure of the session, if any.
    pub fn fetch_error(&self) -> (r: &Option<SessionError>)
        ensures
            *r == self@.error,
    {
        &self.error
    }

    /// Whether no request waits in the pending-response table.
    pub fn table_is_empty(&self) -> (r: bool)
        requires
            self.wf(),
        ensures
            r == (self@.table == Map::<u32, Entry>::empty()),
    {
        proof {
            lemma_table_all(self.table@);
        }
        if self.table.len() == 0 {
            assert(self@.table =~= Map::<u32, Entry>::empty());
            true
        } else {
            assert(self@.table.contains_key(self.table@[0].0));
            false
        }
    }

    /// Queues `req` for the writer on behalf of the caller with token `caller`,
    /// stamping it with a fresh correlation id.
    pub fn submit(&mut self, req: Request, caller: u64) -> (r: Submitted)
        requires
            old(self).wf(),
            req.wf(),
        ensures
            final(self).wf(),
            r == old(self)@.submit_result(req),
            final(self)@ == old(self)@.after_submit(req, caller),
    {
        if self.closed {
            return Submitted::Closed;
        }
        if self.queue.len() >= self.capacity {
            self.blocked.push(caller);
            return Submitted::Full(req);
        }
        let id = self.next_id;
        self.next_id = if id == u32::MAX { 0 } else { id + 1 };
        let ghost payload = req.payload;
        let mut req = req;
        req.set_id(id);
        self.queue.push((req, caller));
        assert(self@.queue =~= old(self)@.queue.push((Request { id, payload }, caller)));
        Submitted::Queued { id, wake_writer: self.writer }
    }

    fn awaiting_write_exec(&self, id: u32) -> (r: bool)
        ensures
            r == self@.awaiting_write(id),
    {
        let mut i: usize = 0;
        while i < self.queue.len()
            invariant
                i <= self.queue@.len(),
                forall|j: int| 0 <= j < i ==> self.queue@[j].0.id != id,
            decreases self.queue.len() - i,
        {
            if self.queue[i].0.id == id {
                assert(self@.queue[i as int].0.id == id);
                return true;
            }
            i = i + 1;
        }
        match &self.current {
            Some(c) => c.0.id == id,
            None => false,
        }
    }

    /// Polls for the response to the request with correlation id `id`, on
    /// behalf of the caller with token `caller`.
    pub fn poll_response(&mut self, id: u32, caller: u64) -> (r: Polled)
        requires
            old(self).wf(),
        ensures
            final(self).wf(),
            r == old(self)@.poll_result(id),
            final(self)@ == old(self)@.after_poll(id, caller),
    {
        proof {
            lemma_table_all(self.table@);
        }
        match find_entry(&self.table, id) {
            Some(i) => {
                if self.table[i].1.data.is_some() {
                    let ghost s = self.table@;
                    let (_, e) = self.table.remove(i);
                    proof {
                        lemma_table_remove(s, i as int);
                    }
                    Polled::Ready(e.data)
                } else {
                    let ghost s = self.table@;
                    let created = self.table[i].1.created;
                    let e = Entry { data: None, waker: Some(caller), created };
                    self.table[i] = (id, e);
                    proof {
                        lemma_table_update(s, i as int, e);
                    }
                    Polled::Pending
                }
            }
            None => {
                if self.awaiting_write_exec(id) {
                    Polled::Pending
                } else {
                    Polled::Ready(None)
                }
            }
        }
    }

    /// The writer's next move, at time `now`: a fully written request is
    /// entered in the table, the next queued one is taken up, and the writer
    /// learns whether to write, flush, wait, or shut down.
    pub fn writer_poll(&mut self, now: u64) -> (r: WriterStep)
        requires
            old(self).wf(),
        ensures
            final(self).wf(),
            r.action == old(self)@.writer_action(now),
            r.wake@ == old(self)@.writer_wake(now),
            final(self)@ == old(self)@.after_writer_poll(now),
    {
        if self.current.is_some() && self.offset < self.frame.len() {
            return WriterStep { action: WriterAction::Write, wake: Vec::new() };
        }
        proof {
            lemma_table_all(self.table@);
        }
        let ghost before = self@;
        match self.current.take() {
            Some(c) => {
                let (req, caller) = c;
                table_insert(&mut self.table, req.id, Entry { data: None, waker: Some(caller), created: now });
            }
            None => {}
        }
        assert(self@ == before.registered(now));
        if self.queue.len() > 0 {
            let ghost q = self.queue@;
            let (req, caller) = self.queue.remove(0);
            assert(self.queue@ =~= q.drop_first());
            self.frame = req.as_bytes();
            self.offset = 0;
            self.current = Some((req, caller));
            let mut wake: Vec<u64> = Vec::new();
            std::mem::swap(&mut wake, &mut self.blocked);
            assert(self.blocked@ =~= Seq::empty());
            return WriterStep { action: WriterAction::Write, wake };
        }
        if !self.closed {
            if self.unflushed {
                WriterStep { action: WriterAction::Flush, wake: Vec::new() }
            } else {
                WriterStep { action: WriterAction::Idle, wake: Vec::new() }
            }
        } else {
            self.writer = None;
            WriterStep { action: WriterAction::Shutdown, wake: Vec::new() }
        }
    }

    /// The bytes of the current frame.
    pub fn frame(&self) -> (r: &Vec<u8>)
        ensures
            r@ == self@.frame,
    {
        &self.frame
    }

    /// How many bytes of the current frame have been written.
    pub fn offset(&self) -> (r: usize)
        ensures
            r == self@.offset,
    {
        self.offset
    }

    /// Records that `n` more bytes of the current frame were written.
    pub fn writer_wrote(&mut self, n: usize)
        requires
            old(self).wf(),
            old(self)@.current is Some,
            old(self)@.offset + n <= old(self)@.frame.len(),
        ensures
            final(self).wf(),
            final(self)@ == (SessionView { offset: (old(self)@.offset + n) as nat, unflushed: true, ..old(self)@ }),
    {
        self.offset = self.offset + n;
        self.unflushed = true;
    }

    /// Records that the write half was flushed.
    pub fn writer_flushed(&mut self)
        requires
            old(self).wf(),
        ensures
            final(self).wf(),
            final(self)@ == (SessionView { unflushed: false, ..old(self)@ }),
    {
        self.unflushed = false;
    }

    /// Closes the queue, drops every request, records `err` unless a failure
    /// is already recorded, and returns the tokens of every waiting caller.
    fn fail(&mut self, err: SessionError) -> (r: Vec<u64>)
        requires
            old(self).wf(),
        ensures
            final(self).wf(),
            final(self)@ == old(self)@.after_failure(err),
            forall|t: u64| #[trigger] r@.contains(t) <==> old(self)@.awaits(t),
    {
        let ghost before = self@;
        let mut wake: Vec<u64> = Vec::new();
        match self.current.take() {
            Some(c) => {
                proof {
                    lemma_push_contains(wake@, c.1);
                }
                wake.push(c.1);
            }
            None => {}
        }
        collect_queue_tokens(&self.queue, &mut wake);
        collect_tokens(&self.blocked, &mut wake);
        collect_table_tokens(&self.table, &mut wake);
        self.queue.clear();
        self.blocked.clear();
        self.table.clear();
        self.closed = true;
        if self.error.is_none() {
            self.error = Some(err);
        }
        assert(self@.queue =~= Seq::empty());
        assert(self@.blocked =~= Seq::empty());
        assert(self@.table =~= Map::empty());
        wake
    }

    /// The write half failed with the I/O error whose message is `message`.
    /// Returns the tokens of every waiting caller.
    pub fn writer_failed(&mut self, message: String) -> (r: Vec<u64>)
        requires
            old(self).wf(),
        ensures
            final(self).wf(),
            final(self)@ == old(self)@.after_failure(SessionError::WriteFailed(message)),
            forall|t: u64| #[trigger] r@.contains(t) <==> old(self)@.awaits(t),
    {
        self.fail(SessionError::WriteFailed(message))
    }

    /// A response could not be read. Returns the tokens of every waiting
    /// caller and the writer's token, so that the writer shuts down.
    pub fn reader_failed(&mut self, failure: ResponseFailure) -> (r: Vec<u64>)
        requires
            old(self).wf(),
        ensures
            final(self).wf(),
            final(self)@ == (SessionView {
                writer: None,
                ..old(self)@.after_failure(SessionError::ResponseFailed(failure))
            }),
            forall|t: u64| #[trigger] r@.contains(t) <==> old(self)@.awaits(t) || old(self)@.writer == Some(t),
    {
        let mut wake = self.fail(SessionError::ResponseFailed(failure));
        match self.writer.take() {
            Some(w) => {
                proof {
                    lemma_push_contains(wake@, w);
                }
                wake.push(w);
            }
            None => {}
        }
        wake
    }

    /// Every send handle is gone: the queue is closed, and the writer and
    /// the callers that wait for room in the queue are to be woken.
    pub fn close(&mut self) -> (r: Vec<u64>)
        requires
            old(self).wf(),
        ensures
            final(self).wf(),
            final(self)@ == old(self)@.after_close(),
            forall|t: u64| #[trigger] r@.contains(t) <==> old(self)@.blocked.contains(t) || old(self)@.writer == Some(t),
    {
        self.closed = true;
        let mut wake: Vec<u64> = Vec::new();
        std::mem::swap(&mut wake, &mut self.blocked);
        assert(self.blocked@ =~= Seq::empty());
        match self.writer.take() {
            Some(w) => {
                proof {
                    lemma_push_contains(wake@, w);
                }
                wake.push(w);
            }
            None => {}
        }
        wake
    }

    /// Removes every entry older than `timeout` at time `now`, and returns
    /// the tokens of their callers.
    pub fn evict_expired(&mut self, now: u64, timeout: u64) -> (r: Vec<u64>)
        requires
            old(self).wf(),
        ensures
            final(self).wf(),
            final(self)@ == old(self)@.after_evict(now, timeout),
            forall|t: u64| #[trigger] r@.contains(t) <==> old(self)@.expired_waker(t, now, timeout),
    {
        let ghost orig = self.table@;
        let ghost before = self@;
        let mut rest: Vec<(u32, Entry)> = Vec::new();
        std::mem::swap(&mut rest, &mut self.table);
        let (kept, wake) = split_expired(rest, now, timeout);
        self.table = kept;
        proof {
            lemma_evicted(orig, self.table@, wake@, now, timeout);
        }
        assert(self@.table =~= before.after_evict(now, timeout).table);
        wake
    }

    /// Stores response `r` in its entry and hands out the token of the caller
    /// to wake; a response that no entry awaits is dropped.
    pub fn deliver(&mut self, r: Response) -> (w: Option<u64>)
        requires
            old(self).wf(),
        ensures
            final(self).wf(),
            w == old(self)@.deliver_result(r),
            final(self)@ == old(self)@.after_deliver(r),
    {
        proof {
            lemma_table_all(self.table@);
        }
        let id = r.id;
        match find_entry(&self.table, id) {
            Some(i) => {
                let waker = self.table[i].1.waker;
                if waker.is_some() {
                    let ghost s = self.table@;
                    let created = self.table[i].1.created;
                    let e = Entry { data: Some(r), waker: None, created };
                    self.table[i] = (id, e);
                    proof {
                        lemma_table_update(s, i as int, e);
                    }
                }
                waker
            }
            None => None,
        }
    }
}

} // verus!
