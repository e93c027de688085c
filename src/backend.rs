//! The decisions of the backend handler: answer from the cache, join a fetch
//! that is under way, or start one; deliver a fetch's outcome to every waiter.
//! The caller runs the loop: it performs each returned action and reports
//! completed fetches back.

use vstd::prelude::*;
use crate::assoc::{assoc, has_key, keys_unique, lemma_assoc_dom, lemma_assoc_index, lemma_assoc_push,
    lemma_assoc_remove, lemma_assoc_update};
use crate::cache::{BlockCache, ChainMeta, Key, Value, ValueView};

verus! {

/// Why a request was not answered with a value.
#[derive(Clone, Copy, Debug, PartialEq, Eq, Structural)]
pub enum FetchError {
    /// The remote node failed or did not have the object.
    Remote,
    /// The handler has shut down.
    Unavailable,
}

/// What the handler asks its runner to do next. Replies are named by the
/// runner's own reply-channel numbers.
#[derive(Debug, PartialEq, Eq)]
pub enum Action {
    /// Send `value` on every listed reply channel.
    Answer { replies: Vec<u64>, value: Value },
    /// Send `error` on every listed reply channel.
    Fail { replies: Vec<u64>, error: FetchError },
    /// Query the remote node for this key at the pinned height.
    Fetch(Key),
    /// Nothing to do now: the request joined a fetch under way.
    Wait,
}

pub enum ActionView {
    Answer(Seq<u64>, ValueView),
    Fail(Seq<u64>, FetchError),
    Fetch(Key),
    Wait,
}

impl Action {
    pub open spec fn view(&self) -> ActionView {
        match self {
            Action::Answer { replies, value } => ActionView::Answer(replies@, value@),
            Action::Fail { replies, error } => ActionView::Fail(replies@, *error),
            Action::Fetch(k) => ActionView::Fetch(*k),
            Action::Wait => ActionView::Wait,
        }
    }
}

/// The state of a handler: resolved values, the waiters of each fetch under
/// way, and whether it has shut down.
pub struct HandlerView {
    pub cache: Map<Key, ValueView>,
    pub pending: Map<Key, Seq<u64>>,
    pub stopped: bool,
}

/// The handler's answer to a request for `key` on reply channel `reply`.
pub open spec fn request_step(s: HandlerView, key: Key, reply: u64) -> (HandlerView, ActionView) {
    if s.stopped {
        (s, ActionView::Fail(seq![reply], FetchError::Unavailable))
    } else if s.cache.contains_key(key) {
        (s, ActionView::Answer(seq![reply], s.cache[key]))
    } else if s.pending.contains_key(key) {
        (HandlerView { pending: s.pending.insert(key, s.pending[key].push(reply)), ..s }, ActionView::Wait)
    } else {
        (HandlerView { pending: s.pending.insert(key, seq![reply]), ..s }, ActionView::Fetch(key))
    }
}

/// The handler's state and action once the fetch of `key` has ended with `result`.
/// Failures are not cached: a later request fetches again.
pub open spec fn fetched_step(s: HandlerView, key: Key, result: Result<ValueView, FetchError>) -> (
    HandlerView,
    ActionView,
) {
    let waiters = if s.pending.contains_key(key) { s.pending[key] } else { Seq::empty() };
    let pending = s.pending.remove(key);
    match result {
        Ok(v) => {
            let cache = if s.cache.contains_key(key) { s.cache } else { s.cache.insert(key, v) };
            (HandlerView { cache, pending, stopped: s.stopped }, ActionView::Answer(waiters, cache[key]))
        },
        Err(e) => (HandlerView { pending, ..s }, ActionView::Fail(waiters, e)),
    }
}

/// The handler's state after it is told to stop.
pub open spec fn shutdown_step(s: HandlerView) -> HandlerView {
    HandlerView { stopped: true, ..s }
}

pub open spec fn result_view(r: Result<Value, FetchError>) -> Result<ValueView, FetchError> {
    match r {
        Ok(v) => Ok(v@),
        Err(e) => Err(e),
    }
}

pub open spec fn pending_view(s: Seq<(Key, Vec<u64>)>) -> Seq<(Key, Seq<u64>)> {
    s.map_values(|e: (Key, Vec<u64>)| (e.0, e.1@))
}

fn one_reply(reply: u64) -> (r: Vec<u64>)
    ensures
        r@ == seq![reply],
{
    let mut r: Vec<u64> = Vec::new();
    r.push(reply);
    proof {
        assert(r@ =~= seq![reply]);
    }
    r
}

/// Owner of a block cache and of the registry of fetches under way.
pub struct BackendHandler {
    cache: BlockCache,
    pending: Vec<(Key, Vec<u64>)>,
    stopped: bool,
}

impl BackendHandler {
    pub closed spec fn view(&self) -> HandlerView {
        HandlerView { cache: self.cache@, pending: assoc(pending_view(self.pending@)), stopped: self.stopped }
    }

    pub closed spec fn wf(&self) -> bool {
        self.cache.wf() && keys_unique(pending_view(self.pending@))
    }

    /// A running handler over `cache`, with no fetch under way.
    pub fn new(cache: BlockCache) -> (r: BackendHandler)
        requires
            cache.wf(),
        ensures
            r.wf(),
            r@ == (HandlerView { cache: cache@, pending: Map::empty(), stopped: false }),
    {
        let r = BackendHandler { cache, pending: Vec::new(), stopped: false };
        proof {
            assert(pending_view(r.pending@) =~= Seq::<(Key, Seq<u64>)>::empty());
        }
        r
    }

    /// A running handler with an empty in-memory cache for `meta`.
    pub fn in_memory(meta: ChainMeta) -> (r: BackendHandler)
        ensures
            r.wf(),
            r@ == (HandlerView { cache: Map::empty(), pending: Map::empty(), stopped: false }),
    {
        BackendHandler::new(BlockCache::new(meta))
    }

    pub fn cache(&self) -> (r: &BlockCache)
        ensures
            r@ == self@.cache,
            self.wf() ==> r.wf(),
    {
        &self.cache
    }

    pub fn is_stopped(&self) -> (r: bool)
        ensures
            r == self@.stopped,
    {
        self.stopped
    }

    fn find_pending(&self, key: &Key) -> (r: Option<usize>)
        requires
            self.wf(),
        ensures
            r.is_none() ==> !self@.pending.contains_key(*key),
            r matches Some(i) ==> i < self.pending@.len() && self.pending@[i as int].0 == *key,
    {
        let mut i: usize = 0;
        while i < self.pending.len()
            invariant
                i <= self.pending@.len(),
                forall|j: int| 0 <= j < i ==> self.pending@[j].0 != *key,
            decreases self.pending@.len() - i,
        {
            if self.pending[i].0 == *key {
                return Some(i);
            }
            i = i + 1;
        }
        proof {
            let s = pending_view(self.pending@);
            lemma_assoc_dom(s, *key);
            if has_key(s, *key) {
                let j = choose|j: int| 0 <= j < s.len() && s[j].0 == *key;
                assert(self.pending@[j].0 == s[j].0);
            }
        }
        None
    }

    /// Handles a request for `key` whose answer goes to reply channel `reply`.
    pub fn on_request(&mut self, key: Key, reply: u64) -> (r: Action)
        requires
            old(self).wf(),
        ensures
            final(self).wf(),
            (final(self)@, r@) == request_step(old(self)@, key, reply),
    {
        if self.stopped {
            let r = Action::Fail { replies: one_reply(reply), error: FetchError::Unavailable };
            proof {
                assert(r@ == ActionView::Fail(seq![reply], FetchError::Unavailable));
            }
            return r;
        }
        if let Some(v) = self.cache.get(&key) {
            let r = Action::Answer { replies: one_reply(reply), value: v };
            proof {
                assert(r@ == ActionView::Answer(seq![reply], self@.cache[key]));
            }
            return r;
        }
        let ghost s = pending_view(self.pending@);
        match self.find_pending(&key) {
            Some(i) => {
                let (k, mut waiters) = self.pending.remove(i);
                let ghost w0 = waiters@;
                waiters.push(reply);
                self.pending.insert(i, (k, waiters));
                proof {
                    lemma_assoc_index(s, i as int);
                    lemma_assoc_update(s, i as int, w0.push(reply));
                    assert(pending_view(self.pending@) =~= s.update(i as int, (s[i as int].0, w0.push(reply))));
                    assert(self@ =~= request_step(old(self)@, key, reply).0);
                }
                Action::Wait
            },
            None => {
                let ghost ws = seq![reply];
                let waiters = one_reply(reply);
                proof {
                    lemma_assoc_dom(s, key);
                    lemma_assoc_push(s, key, ws);
                    assert(waiters@ == ws);
                }
                self.pending.push((key, waiters));
                proof {
                    assert(pending_view(self.pending@) =~= s.push((key, ws)));
                    assert(self@ =~= request_step(old(self)@, key, reply).0);
                }
                Action::Fetch(key)
            },
        }
    }

    /// Handles the end of the fetch of `key`: stores a value and answers every
    /// waiter with it, or fails every waiter with the error.
    pub fn on_fetched(&mut self, key: Key, result: Result<Value, FetchError>) -> (r: Action)
        requires
            old(self).wf(),
        ensures
            final(self).wf(),
            (final(self)@, r@) == fetched_step(old(self)@, key, result_view(result)),
    {
        let ghost s = pending_view(self.pending@);
        let waiters = match self.find_pending(&key) {
            Some(i) => {
                let (_, w) = self.pending.remove(i);
                proof {
                    lemma_assoc_index(s, i as int);
                    lemma_assoc_remove(s, i as int);
                    assert(pending_view(self.pending@) =~= s.remove(i as int));
                }
                w
            },
            None => {
                proof {
                    assert(assoc(s).remove(key) =~= assoc(s));
                }
                Vec::new()
            },
        };
        proof {
            assert(waiters@ == if old(self)@.pending.contains_key(key) {
                old(self)@.pending[key]
            } else {
                Seq::<u64>::empty()
            });
        }
        match result {
            Ok(v) => {
                self.cache.insert(key, v);
                let stored = self.cache.get(&key);
                match stored {
                    Some(value) => {
                        let r = Action::Answer { replies: waiters, value };
                        proof {
                            assert(self@ =~= fetched_step(old(self)@, key, result_view(result)).0);
                        }
                        r
                    },
                    None => {
                        proof {
                            assert(false);
                        }
                        Action::Wait
                    },
                }
            },
            Err(e) => {
                proof {
                    assert(self@ =~= fetched_step(old(self)@, key, result_view(result)).0);
                }
                Action::Fail { replies: waiters, error: e }
            },
        }
    }

    /// Stops the handler: later requests fail at once. Fetches under way still
    /// deliver their outcome to their waiters.
    pub fn shutdown(&mut self)
        requires
            old(self).wf(),
        ensures
            final(self).wf(),
            final(self)@ == shutdown_step(old(self)@),
    {
        self.stopped = true;
    }
}

/// The state after requests for `key` on each channel of `replies` in turn,
/// and how many of them started a fetch.
pub open spec fn run_requests(s: HandlerView, key: Key, replies: Seq<u64>) -> (HandlerView, nat)
    decreases replies.len(),
{
    if replies.len() == 0 {
        (s, 0)
    } else {
        let (s1, n) = run_requests(s, key, replies.drop_last());
        let (s2, a) = request_step(s1, key, replies.last());
        (s2, n + if a is Fetch { 1nat } else { 0nat })
    }
}

/// A key that is resolved is answered from the cache, and one whose fetch is
/// under way joins it: neither starts a fetch. After a successful fetch the key
/// is resolved, so it is never fetched again.
pub proof fn lemma_fetch_at_most_once(s: HandlerView, key: Key, reply: u64, v: ValueView)
    ensures
        s.cache.contains_key(key) || s.pending.contains_key(key) ==> !(request_step(s, key, reply).1 is Fetch),
        s.cache.contains_key(key) && !s.stopped ==> request_step(s, key, reply).1 == ActionView::Answer(
            seq![reply],
            s.cache[key],
        ),
        fetched_step(s, key, Ok(v)).0.cache.contains_key(key),
        s.cache.contains_key(key) ==> fetched_step(s, key, Ok(v)).0.cache == s.cache,
{
}

/// Any number of requests for a resolved key start no fetch and change nothing.
pub proof fn lemma_cached_key_never_fetched(s: HandlerView, key: Key, replies: Seq<u64>)
    requires
        s.cache.contains_key(key),
    ensures
        run_requests(s, key, replies) == (s, 0nat),
    decreases replies.len(),
{
    if replies.len() > 0 {
        lemma_cached_key_never_fetched(s, key, replies.drop_last());
    }
}

proof fn lemma_run_requests(s: HandlerView, key: Key, replies: Seq<u64>)
    requires
        !s.stopped,
        !s.cache.contains_key(key),
        !s.pending.contains_key(key),
        replies.len() > 0,
    ensures
        run_requests(s, key, replies).1 == 1,
        run_requests(s, key, replies).0.pending.contains_key(key),
        run_requests(s, key, replies).0.pending[key] == replies,
        run_requests(s, key, replies).0.cache == s.cache,
        !run_requests(s, key, replies).0.stopped,
    decreases replies.len(),
{
    if replies.len() == 1 {
        assert(replies.drop_last() =~= Seq::<u64>::empty());
        assert(seq![replies.last()] =~= replies);
    } else {
        lemma_run_requests(s, key, replies.drop_last());
        assert(replies.drop_last().push(replies.last()) =~= replies);
    }
}

/// Concurrent requests for one missing key start exactly one fetch, and its
/// value goes to every one of them.
pub proof fn lemma_coalescing(s: HandlerView, key: Key, replies: Seq<u64>, v: ValueView)
    requires
        !s.stopped,
        !s.cache.contains_key(key),
        !s.pending.contains_key(key),
        replies.len() > 0,
    ensures
        run_requests(s, key, replies).1 == 1,
        fetched_step(run_requests(s, key, replies).0, key, Ok(v)).1 == ActionView::Answer(replies, v),
        !fetched_step(run_requests(s, key, replies).0, key, Ok(v)).0.pending.contains_key(key),
{
    lemma_run_requests(s, key, replies);
}

/// Once the handler has stopped, every request fails at once as unavailable,
/// while resolved values stay in the cache.
pub proof fn lemma_unavailable_after_shutdown(s: HandlerView, key: Key, reply: u64)
    ensures
        request_step(shutdown_step(s), key, reply).1 == ActionView::Fail(seq![reply], FetchError::Unavailable),
        shutdown_step(s).cache == s.cache,
{
}

} // verus!
