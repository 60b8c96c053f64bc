//! The database client's decision logic: classifying wire responses and
//! managing the connection pool's workers and retry buffer.
//!
//! The socket work itself lives with the embedder; what is here is every
//! decision the client takes on plain values: which command shape expects
//! a record batch back, what a response body means, which worker serves
//! the next request, and what is buffered for retry.

use std::collections::VecDeque;

use vstd::prelude::*;

use crate::queue::CircularQueue;
use crate::utils::{spec_split, split_char};

verus! {

/// What the database client can fail with.
#[derive(Debug)]
pub enum Error {
    /// The server answered with failure and a message.
    ServerError(String),
    /// The server does not know the named database.
    DBNotFoundError(String),
    /// The transport broke.
    ConnectionError,
}

impl Error {
    /// A one-line description of the failure.
    pub fn message(&self) -> (r: String)
        ensures
            self matches Error::ServerError(m) ==> r@ == "Error: "@ + m@,
            self matches Error::DBNotFoundError(d) ==> r@ == "DBNotFoundError: "@ + d@,
            self matches Error::ConnectionError ==> r@ == "ConnectionError"@,
    {
        match self {
            Error::ServerError(m) => String::from_str("Error: ").concat(m.as_str()),
            Error::DBNotFoundError(d) => String::from_str("DBNotFoundError: ").concat(d.as_str()),
            Error::ConnectionError => String::from_str("ConnectionError"),
        }
    }
}

/// `p` occurs in `s` as a contiguous run.
pub open spec fn spec_contains_str(s: Seq<char>, p: Seq<char>) -> bool {
    exists|i: int| 0 <= i <= s.len() - p.len() && #[trigger] s.subrange(i, i + p.len()) == p
}

fn match_at(s: &str, pat: &str, i: usize) -> (r: bool)
    requires
        i + pat@.len() <= s@.len(),
    ensures
        r == (s@.subrange(i as int, i + pat@.len()) == pat@),
{
    let sl = s.unicode_len();
    let m = pat.unicode_len();
    let mut j: usize = 0;
    while j < m
        invariant
            j <= m,
            m == pat@.len(),
            sl == s@.len(),
            i + m <= sl,
            forall|k: int| 0 <= k < j ==> s@[i + k] == pat@[k],
        decreases m - j,
    {
        if s.get_char(i + j) != pat.get_char(j) {
            proof {
                assert(s@.subrange(i as int, i + pat@.len())[j as int] == s@[i + j]);
            }
            return false;
        }
        j = j + 1;
    }
    proof {
        assert(s@.subrange(i as int, i + pat@.len()) =~= pat@);
    }
    true
}

/// Whether `pat` occurs anywhere in `s`.
pub fn str_contains(s: &str, pat: &str) -> (r: bool)
    ensures
        r == spec_contains_str(s@, pat@),
{
    let n = s.unicode_len();
    let m = pat.unicode_len();
    if m > n {
        return false;
    }
    if m == 0 {
        proof {
            assert(s@.subrange(0, 0int + pat@.len() as int) =~= pat@);
            assert(spec_contains_str(s@, pat@));
        }
        return true;
    }
    let mut i: usize = 0;
    while i <= n - m
        invariant
            0 < m <= n,
            n == s@.len(),
            m == pat@.len(),
            i <= n - m + 1,
            forall|k: int| 0 <= k < i ==> #[trigger] s@.subrange(k, k + pat@.len()) != pat@,
        decreases n + 1 - m - i,
    {
        if match_at(s, pat, i) {
            return true;
        }
        i = i + 1;
    }
    false
}

/// The command shapes of the wire protocol that answer with a record
/// batch: a `GET` that asks for neither CSV nor JSON.
pub open spec fn spec_is_raw_get(cmd: Seq<char>) -> bool {
    &&& cmd.len() >= 3
    &&& cmd.subrange(0, 3) == "GET"@
    &&& !spec_contains_str(cmd, "AS CSV"@)
    &&& !spec_contains_str(cmd, "AS JSON"@)
}

/// Whether a command expects a raw record batch as its answer.
pub fn is_raw_get(command: &str) -> (r: bool)
    ensures
        r == spec_is_raw_get(command@),
{
    proof {
        reveal_strlit("GET");
        reveal_strlit("AS CSV");
        reveal_strlit("AS JSON");
    }
    let n = command.unicode_len();
    if n < 3 {
        return false;
    }
    if !match_at(command, "GET", 0) {
        return false;
    }
    if str_contains(command, "AS CSV") {
        return false;
    }
    if str_contains(command, "AS JSON") {
        return false;
    }
    true
}

/// Reads a response body in the light of the server's success flag. A
/// successful response is returned as is. A failing body that opens with
/// the database-missing marker names the database in its third
/// space-separated token; any other failing body, including a marked one
/// too short to name the database, is a server error.
pub fn classify_response(success: bool, res: String) -> (r: Result<String, Error>)
    ensures
        success ==> (r matches Ok(s) && s@ == res@),
        !success ==> r is Err,
        ({
            let parts = spec_split(res@, ' ');
            let marked = res@.len() >= 7 && res@.subrange(0, 7) == "ERR: DB"@;
            &&& (!success && marked && parts.len() >= 3) ==> (r matches Err(e) && e matches
                Error::DBNotFoundError(d) && d@ == parts[2])
            &&& (!success && !(marked && parts.len() >= 3)) ==> (r matches Err(e) && e matches
                Error::ServerError(m) && m@ == res@)
        }),
{
    if success {
        return Ok(res);
    }
    proof {
        reveal_strlit("ERR: DB");
    }
    let n = res.as_str().unicode_len();
    if n >= 7 && match_at(res.as_str(), "ERR: DB", 0) {
        let mut parts = split_char(res.as_str(), ' ');
        if parts.len() >= 3 {
            let d = parts.remove(2);
            return Err(Error::DBNotFoundError(d));
        }
    }
    Err(Error::ServerError(res))
}

/// The connection pool's bookkeeping: how many connections exist, which
/// are free to serve a request, and which inserts await a retry. The
/// sockets themselves belong to the embedder, one per index below
/// `spec_n_cxns()`.
pub struct CxnPool<C: Copy> {
    n_cxns: usize,
    available_workers: VecDeque<usize>,
    queue: CircularQueue<C>,
}

impl<C: Copy> CxnPool<C> {
    /// The pool's bookkeeping is coherent: every free worker index names
    /// an existing connection.
    pub closed spec fn wf(self) -> bool {
        &&& self.queue.wf()
        &&& forall|k: int|
            0 <= k < self.available_workers@.len() ==> self.available_workers@[k] < self.n_cxns
    }

    /// How many connections the pool has opened so far.
    pub closed spec fn spec_n_cxns(&self) -> nat {
        self.n_cxns as nat
    }

    /// The free worker indices, oldest first.
    pub closed spec fn spec_available(&self) -> Seq<usize> {
        self.available_workers@
    }

    /// The buffered inserts awaiting retry, newest first.
    pub closed spec fn spec_buffered(&self) -> Seq<C> {
        self.queue@
    }

    /// How many pops a saturated retry buffer has already served;
    /// `queue_capacity()` of them exhaust it until a push wins one back.
    pub closed spec fn spec_buffer_popped(&self) -> nat {
        self.queue.spec_popped()
    }

    /// A pool over `n_workers` connections (the embedder opens one per
    /// index below `n_workers`), all free, with an empty retry buffer of
    /// the given capacity.
    pub fn new(n_workers: usize, capacity: usize) -> (r: Self)
        requires
            capacity > 0,
        ensures
            r.wf(),
            r.spec_n_cxns() == n_workers,
            r.spec_available().len() == n_workers,
            forall|k: int| 0 <= k < n_workers ==> r.spec_available()[k] == k,
            r.spec_buffered() == Seq::<C>::empty(),
            r.queue_capacity() == capacity,
            r.spec_buffer_popped() == 0,
    {
        let mut workers: VecDeque<usize> = VecDeque::new();
        let mut i: usize = 0;
        while i < n_workers
            invariant
                i <= n_workers,
                workers@.len() == i,
                forall|k: int| 0 <= k < i ==> workers@[k] == k,
            decreases n_workers - i,
        {
            workers.push_back(i);
            i = i + 1;
        }
        CxnPool { n_cxns: n_workers, available_workers: workers, queue: CircularQueue::with_capacity(capacity) }
    }

    /// How many connections the pool has opened so far.
    pub fn n_cxns(&self) -> (r: usize)
        ensures
            r == self.spec_n_cxns(),
    {
        self.n_cxns
    }

    /// Picks the worker that serves the next request: the longest-free
    /// one, or a fresh index when none is free — the pool then grows by
    /// one connection, which the embedder must open.
    pub fn take_worker(&mut self) -> (r: (usize, bool))
        requires
            old(self).wf(),
            old(self).spec_n_cxns() < usize::MAX,
        ensures
            final(self).wf(),
            r.0 < final(self).spec_n_cxns(),
            final(self).spec_buffered() == old(self).spec_buffered(),
            final(self).queue_capacity() == old(self).queue_capacity(),
            final(self).spec_buffer_popped() == old(self).spec_buffer_popped(),
            old(self).spec_available().len() > 0 ==> !r.1 && r.0 == old(self).spec_available()[0]
                && final(self).spec_available() == old(self).spec_available().drop_first()
                && final(self).spec_n_cxns() == old(self).spec_n_cxns(),
            old(self).spec_available().len() == 0 ==> r.1 && r.0 == old(self).spec_n_cxns()
                && final(self).spec_n_cxns() == old(self).spec_n_cxns() + 1 && final(self).spec_available().len() == 0,
    {
        match self.available_workers.pop_front() {
            Some(n) => (n, false),
            None => {
                let n = self.n_cxns;
                self.n_cxns = self.n_cxns + 1;
                (n, true)
            },
        }
    }

    /// Hands a worker back to the free list.
    pub fn release_worker(&mut self, n: usize)
        requires
            old(self).wf(),
            n < old(self).spec_n_cxns(),
        ensures
            final(self).wf(),
            final(self).spec_available() == old(self).spec_available().push(n),
            final(self).spec_n_cxns() == old(self).spec_n_cxns(),
            final(self).spec_buffered() == old(self).spec_buffered(),
            final(self).queue_capacity() == old(self).queue_capacity(),
            final(self).spec_buffer_popped() == old(self).spec_buffer_popped(),
    {
        self.available_workers.push_back(n);
    }

    /// Buffers a failing insert for a later retry; once the buffer is
    /// full the oldest buffered insert is lost.
    pub fn buffer_insert(&mut self, cmd: C)
        requires
            old(self).wf(),
        ensures
            final(self).wf(),
            final(self).spec_n_cxns() == old(self).spec_n_cxns(),
            final(self).spec_available() == old(self).spec_available(),
            old(self).spec_buffered().len() < old(self).queue_capacity() ==> final(self).spec_buffered() == seq![cmd] + old(self).spec_buffered(),
            old(self).spec_buffered().len() == old(self).queue_capacity() ==> final(self).spec_buffered() == seq![cmd] + old(self).spec_buffered().drop_last(),
            final(self).queue_capacity() == old(self).queue_capacity(),
            final(self).spec_buffer_popped() == (if old(self).spec_buffer_popped() > 0 {
                (old(self).spec_buffer_popped() - 1) as nat
            } else {
                0nat
            }),
    {
        self.queue.push(cmd);
    }

    /// The retry buffer's fixed capacity.
    pub closed spec fn queue_capacity(&self) -> nat {
        self.queue.spec_capacity()
    }

    /// Takes the most recently buffered insert for an opportunistic
    /// retry, if one is there to take. A full buffer serves at most
    /// `queue_capacity()` pops, rotating each popped insert to the
    /// oldest position, before it refuses until the next push.
    pub fn pop_buffered(&mut self) -> (r: Option<C>)
        requires
            old(self).wf(),
        ensures
            final(self).wf(),
            final(self).spec_n_cxns() == old(self).spec_n_cxns(),
            final(self).spec_available() == old(self).spec_available(),
            final(self).queue_capacity() == old(self).queue_capacity(),
            old(self).spec_buffered().len() == 0 ==> r is None && final(self).spec_buffered()
                == old(self).spec_buffered() && final(self).spec_buffer_popped() == old(self).spec_buffer_popped(),
            (0 < old(self).spec_buffered().len() < old(self).queue_capacity()) ==> r == Some(
                old(self).spec_buffered()[0],
            ) && final(self).spec_buffered() == old(self).spec_buffered().drop_first() && final(self).spec_buffer_popped() == old(self).spec_buffer_popped(),
            (old(self).spec_buffered().len() == old(self).queue_capacity() && old(self).spec_buffer_popped() == old(self).queue_capacity()) ==> r is None && final(self).spec_buffered() == old(self).spec_buffered() && final(self).spec_buffer_popped()
                == old(self).spec_buffer_popped(),
            (old(self).spec_buffered().len() == old(self).queue_capacity() && old(self).spec_buffer_popped() < old(self).queue_capacity()) ==> r == Some(
                old(self).spec_buffered()[0],
            ) && final(self).spec_buffered() == old(self).spec_buffered().drop_first().push(
                old(self).spec_buffered()[0],
            ) && final(self).spec_buffer_popped() == old(self).spec_buffer_popped() + 1,
    {
        self.queue.pop()
    }
}

} // verus!
