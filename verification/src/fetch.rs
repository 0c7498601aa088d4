//! The pending-fetch queue: keyed HTTP requests held in a priority queue
//! ordered by submission recency, so that the most recently needed tile is
//! served first and queued requests can be cancelled by key.
//!
//! The network itself is driven outside this crate; this module owns every
//! scheduling decision: what is queued, what is cancelled, what comes next.

use vstd::prelude::*;
use priority_queue::PriorityQueue;

use crate::tiling::TileId;

verus! {

#[verifier::external_type_specification]
#[verifier::external_body]
#[verifier::reject_recursive_types(I)]
#[verifier::reject_recursive_types(P)]
#[verifier::reject_recursive_types(H)]
pub struct ExPriorityQueue<I, P, H>(PriorityQueue<I, P, H>);

/// What a serial-keyed priority queue holds: each queued item, mapped to
/// its priority.
pub uninterp spec fn pq_entries(q: PriorityQueue<u64, u64>) -> Map<u64, u64>;

/// No entries at all: the empty queue contents.
pub open spec fn no_entries() -> Map<u64, u64> {
    Map::empty()
}

/// Relies on PriorityQueue::new: a new queue is empty.
#[verifier::external_body]
fn pq_new() -> (r: PriorityQueue<u64, u64>)
    ensures
        pq_entries(r) == no_entries(),
{
    PriorityQueue::new()
}

/// Relies on PriorityQueue::push: inserts the item with the priority; if
/// the item was already queued its priority is updated and the old one
/// returned.
#[verifier::external_body]
fn pq_push(q: &mut PriorityQueue<u64, u64>, item: u64, priority: u64) -> (old_priority: Option<
    u64,
>)
    ensures
        pq_entries(*final(q)) == pq_entries(*old(q)).insert(item, priority),
        pq_entries(*old(q)).dom().contains(item) ==> old_priority == Some(
            pq_entries(*old(q))[item],
        ),
        !pq_entries(*old(q)).dom().contains(item) ==> old_priority is None,
        pq_entries(*old(q)).dom().finite() ==> pq_entries(*final(q)).dom().finite(),
{
    q.push(item, priority)
}

/// Relies on PriorityQueue::pop: removes and returns an item of greatest
/// priority, or `None` when the queue is empty.
#[verifier::external_body]
fn pq_pop(q: &mut PriorityQueue<u64, u64>) -> (r: Option<(u64, u64)>)
    ensures
        match r {
            Some(pair) => {
                &&& pq_entries(*old(q)).dom().contains(pair.0)
                &&& pq_entries(*old(q))[pair.0] == pair.1
                &&& forall|i: u64|
                    #[trigger] pq_entries(*old(q)).dom().contains(i) ==> pq_entries(*old(q))[i]
                        <= pair.1
                &&& pq_entries(*final(q)) == pq_entries(*old(q)).remove(pair.0)
            },
            None => {
                &&& pq_entries(*old(q)) == no_entries()
                &&& pq_entries(*final(q)) == pq_entries(*old(q))
            },
        },
{
    q.pop()
}

/// Relies on PriorityQueue::remove: takes the given item out of the queue
/// wherever it sits, returning its priority, or `None` when absent.
#[verifier::external_body]
fn pq_remove(q: &mut PriorityQueue<u64, u64>, item: &u64) -> (r: Option<(u64, u64)>)
    ensures
        pq_entries(*final(q)) == pq_entries(*old(q)).remove(*item),
        pq_entries(*old(q)).dom().contains(*item) ==> r == Some((
            *item,
            pq_entries(*old(q))[*item],
        )),
        !pq_entries(*old(q)).dom().contains(*item) ==> r is None,
{
    q.remove(item)
}

/// A keyed HTTP GET request: the key of the resource, the URL to fetch and
/// the extra headers to send.
#[derive(Clone, Debug, PartialEq, Eq, Hash)]
pub enum HttpRequest<T> {
    Get { id: T, url: String, headers: Vec<(String, String)> },
}

impl<T: Copy> HttpRequest<T> {
    /// The request's key.
    pub open spec fn spec_id(&self) -> T {
        match *self {
            HttpRequest::Get { id, .. } => id,
        }
    }

    /// The request's key.
    pub fn id(&self) -> (r: T)
        ensures
            r == self.spec_id(),
    {
        match self {
            HttpRequest::Get { id, .. } => *id,
        }
    }
}

/// Keeping every request whose key differs from `id`: what a cancel
/// leaves behind.
pub open spec fn keeps_key(id: TileId) -> spec_fn(HttpRequest<TileId>) -> bool {
    |r: HttpRequest<TileId>| r.spec_id() != id
}


/// Keeping every request whose key is outside `cancelled`: what a run of
/// cancels leaves behind.
pub open spec fn keeps_keys(cancelled: Seq<TileId>) -> spec_fn(HttpRequest<TileId>) -> bool {
    |r: HttpRequest<TileId>| !cancelled.contains(r.spec_id())
}

/// Cancelling nothing keeps everything.
pub proof fn lemma_keeps_all(q: Seq<HttpRequest<TileId>>, cancelled: Seq<TileId>)
    requires
        cancelled.len() == 0,
    ensures
        q.filter(keeps_keys(cancelled)) == q,
    decreases q.len(),
{
    reveal(Seq::filter);
    let pred = keeps_keys(cancelled);
    if q.len() == 0 {
        assert(q.filter(pred) =~= q);
    } else {
        lemma_keeps_all(q.drop_last(), cancelled);
        assert(q.filter(pred) =~= q);
    }
}

/// One more cancel folds into the kept-key filter.
pub proof fn lemma_cancel_step(q: Seq<HttpRequest<TileId>>, pre: Seq<TileId>, c: TileId)
    ensures
        q.filter(keeps_keys(pre)).filter(keeps_key(c)) == q.filter(keeps_keys(pre.push(c))),
    decreases q.len(),
{
    reveal(Seq::filter);
    let f1 = keeps_keys(pre);
    let f2 = keeps_key(c);
    let f12 = keeps_keys(pre.push(c));
    if q.len() == 0 {
        assert(q.filter(f1) =~= q);
        assert(q.filter(f1).filter(f2) =~= q);
        assert(q.filter(f12) =~= q);
    } else {
        let q1 = q.drop_last();
        lemma_cancel_step(q1, pre, c);
        let last = q.last();
        assert(f12(last) == (f1(last) && f2(last))) by {
            assert(pre.push(c).contains(last.spec_id()) == (pre.contains(last.spec_id())
                || last.spec_id() == c)) by {
                if pre.contains(last.spec_id()) {
                    let k = choose|k: int| 0 <= k < pre.len() && pre[k] == last.spec_id();
                    assert(pre.push(c)[k] == last.spec_id());
                }
                if last.spec_id() == c {
                    assert(pre.push(c)[pre.len() as int] == last.spec_id());
                }
                if pre.push(c).contains(last.spec_id()) {
                    let k = choose|k: int|
                        0 <= k < pre.push(c).len() && pre.push(c)[k] == last.spec_id();
                    if k < pre.len() {
                        assert(pre[k] == last.spec_id());
                    }
                }
            }
        }
        if f1(last) {
            assert(q.filter(f1) =~= q1.filter(f1).push(last));
            assert(q.filter(f1).drop_last() =~= q1.filter(f1));
            if f2(last) {
                assert(q.filter(f1).filter(f2) =~= q1.filter(f1).filter(f2).push(last));
                assert(q.filter(f12) =~= q1.filter(f12).push(last));
            } else {
                assert(q.filter(f1).filter(f2) =~= q1.filter(f1).filter(f2));
                assert(q.filter(f12) =~= q1.filter(f12));
            }
        } else {
            assert(q.filter(f1) =~= q1.filter(f1));
            assert(q.filter(f12) =~= q1.filter(f12));
        }
        assert(q.filter(f1).filter(f2) =~= q.filter(f12));
    }
}

/// A kept request was queued: filtering only drops entries.
pub proof fn lemma_filter_keeps_members(
    q: Seq<HttpRequest<TileId>>,
    pred: spec_fn(HttpRequest<TileId>) -> bool,
    x: HttpRequest<TileId>,
)
    requires
        q.filter(pred).contains(x),
    ensures
        q.contains(x),
    decreases q.len(),
{
    reveal(Seq::filter);
    if q.len() > 0 {
        let q1 = q.drop_last();
        if pred(q.last()) && x == q.last() {
            assert(q[q.len() - 1] == x);
        } else {
            assert(q1.filter(pred).contains(x)) by {
                if pred(q.last()) {
                    let k = choose|k: int|
                        0 <= k < q.filter(pred).len() && q.filter(pred)[k] == x;
                    assert(k < q.filter(pred).len() - 1);
                    assert(q.filter(pred).drop_last() =~= q1.filter(pred));
                    assert(q1.filter(pred)[k] == x);
                }
            }
            lemma_filter_keeps_members(q1, pred, x);
            let k = choose|k: int| 0 <= k < q1.len() && q1[k] == x;
            assert(q[k] == x);
        }
    }
}

/// Whether some entry of `pending` carries the serial `s`.
pub open spec fn has_serial(pending: Seq<(u64, HttpRequest<TileId>)>, s: u64) -> bool {
    exists|k: int| 0 <= k < pending.len() && pending[k].0 == s
}

/// The request queue of one fetch pool: pending requests in submission
/// order, and a priority queue over their submission serials so that the
/// freshest request is dispatched first.
pub struct FetchQueue {
    pub queue: PriorityQueue<u64, u64>,
    pub pending: Vec<(u64, HttpRequest<TileId>)>,
    pub next_serial: u64,
}

impl FetchQueue {
    /// The queued requests, oldest first.
    pub open spec fn view(&self) -> Seq<HttpRequest<TileId>> {
        self.pending@.map_values(|e: (u64, HttpRequest<TileId>)| e.1)
    }

    /// Well-formedness: serials grow with position and stay below the next
    /// one to hand out, and the priority queue holds exactly the pending
    /// serials, each with itself as priority.
    pub open spec fn wf(&self) -> bool {
        &&& forall|k1: int, k2: int|
            #![trigger self.pending@[k1], self.pending@[k2]]
            0 <= k1 < k2 < self.pending@.len() ==> self.pending@[k1].0 < self.pending@[k2].0
        &&& forall|k: int|
            0 <= k < self.pending@.len() ==> (#[trigger] self.pending@[k]).0 < self.next_serial
        &&& forall|k: int|
            0 <= k < self.pending@.len() ==> pq_entries(self.queue).dom().contains(
                (#[trigger] self.pending@[k]).0,
            )
        &&& forall|s: u64|
            #[trigger] pq_entries(self.queue).dom().contains(s) ==> has_serial(self.pending@, s)
                && pq_entries(self.queue)[s] == s
    }

    /// An empty queue.
    pub fn new() -> (r: FetchQueue)
        ensures
            r.wf(),
            r@ == Seq::<HttpRequest<TileId>>::empty(),
            r.spec_next_serial() == 0,
    {
        let r = FetchQueue { queue: pq_new(), pending: Vec::new(), next_serial: 0 };
        proof {
            assert(r@ =~= Seq::<HttpRequest<TileId>>::empty());
        }
        r
    }

    /// How many requests are queued.
    pub fn pending_count(&self) -> (n: usize)
        ensures
            n == self@.len(),
    {
        self.pending.len()
    }

    /// Enqueues a request as the most recently submitted. A request whose
    /// key is already queued is refreshed, not duplicated: the old entry
    /// for that key leaves and the new one takes the freshest place.
    /// Returns whether the request was taken; it is refused only once the
    /// submission counter is exhausted.
    pub fn send(&mut self, request: HttpRequest<TileId>) -> (accepted: bool)
        requires
            old(self).wf(),
        ensures
            final(self).wf(),
            accepted == (old(self).spec_next_serial() < u64::MAX),
            accepted ==> final(self)@ == old(self)@.filter(keeps_key(request.spec_id())).push(
                request,
            ),
            accepted ==> final(self).spec_next_serial() == old(self).spec_next_serial() + 1,
            !accepted ==> *final(self) == *old(self),
    {
        if self.next_serial == u64::MAX {
            return false;
        }
        let key = request.id();
        self.cancel(&key);
        let ghost mid = *self;
        let serial = self.next_serial;
        proof {
            assert(!pq_entries(self.queue).dom().contains(serial)) by {
                if pq_entries(self.queue).dom().contains(serial) {
                    assert(has_serial(self.pending@, serial));
                }
            }
        }
        pq_push(&mut self.queue, serial, serial);
        self.pending.push((serial, request));
        self.next_serial = self.next_serial + 1;
        proof {
            assert(self@ =~= mid@.push(request));
            assert(self@ =~= old(self)@.filter(keeps_key(request.spec_id())).push(request));
            assert forall|s: u64| #[trigger]
                pq_entries(self.queue).dom().contains(s) implies has_serial(self.pending@, s)
                && pq_entries(self.queue)[s] == s by {
                if s == serial {
                    assert(self.pending@[self.pending@.len() - 1].0 == s);
                } else {
                    assert(pq_entries(mid.queue).dom().contains(s));
                    let k = choose|k: int| 0 <= k < mid.pending@.len() && mid.pending@[k].0 == s;
                    assert(self.pending@[k].0 == s);
                }
            }
        }
        true
    }

    /// The next submission serial to be handed out.
    pub open spec fn spec_next_serial(&self) -> u64 {
        self.next_serial
    }

    /// Removes every queued request whose key is `id`; the rest keep their
    /// order. A key with no queued request leaves the queue unchanged.
    pub fn cancel(&mut self, id: &TileId)
        requires
            old(self).wf(),
        ensures
            final(self).wf(),
            final(self)@ == old(self)@.filter(keeps_key(*id)),
            final(self).spec_next_serial() == old(self).spec_next_serial(),
    {
        let ghost orig = self.pending@;
        let ghost epred = |e: (u64, HttpRequest<TileId>)| e.1.spec_id() != *id;
        let n = self.pending.len();
        let mut k = n;
        proof {
            reveal(Seq::filter);
            assert(orig.subrange(k as int, n as int).filter(epred) =~= Seq::<
                (u64, HttpRequest<TileId>),
            >::empty());
            assert(self.pending@ =~= orig.subrange(0, k as int) + orig.subrange(
                k as int,
                n as int,
            ).filter(epred));
        }
        while k > 0
            invariant
                k <= n,
                n == orig.len(),
                self.next_serial == old(self).next_serial,
                self.pending@ =~= orig.subrange(0, k as int) + orig.subrange(
                    k as int,
                    n as int,
                ).filter((|e: (u64, HttpRequest<TileId>)| e.1.spec_id() != *id)),
                epred == (|e: (u64, HttpRequest<TileId>)| e.1.spec_id() != *id),
                self.wf(),
            decreases k,
        {
            k = k - 1;
            let ghost cur = self.pending@;
            let ghost tail_filtered = orig.subrange(k as int + 1, n as int).filter(epred);
            proof {
                // the element under scrutiny is the original one
                assert(cur[k as int] == (orig.subrange(0, k as int + 1) + tail_filtered)[
                    k as int
                ]);
                assert(cur[k as int] == orig[k as int]);
                // peel one element off the unprocessed prefix
                assert(orig.subrange(k as int, n as int) =~= seq![orig[k as int]]
                    + orig.subrange(k as int + 1, n as int));
                Seq::filter_distributes_over_add(
                    seq![orig[k as int]],
                    orig.subrange(k as int + 1, n as int),
                    epred,
                );
                reveal(Seq::filter);
                assert(seq![orig[k as int]].drop_last() =~= Seq::<
                    (u64, HttpRequest<TileId>),
                >::empty());
                assert(seq![orig[k as int]].last() == orig[k as int]);
            }
            let matches_id = self.pending[k].1.id() == *id;
            if matches_id {
                let removed = self.pending.remove(k);
                pq_remove(&mut self.queue, &removed.0);
                proof {
                    cur.remove_ensures(k as int);
                    assert(removed == orig[k as int]);
                    assert(!epred(orig[k as int]));
                    lemma_filter_singleton(orig[k as int], epred);
                    assert(self.pending@ =~= orig.subrange(0, k as int) + orig.subrange(
                        k as int,
                        n as int,
                    ).filter(epred));
                    // the removed serial appears nowhere else
                    assert forall|j: int|
                        0 <= j < self.pending@.len() implies (#[trigger] self.pending@[j]).0
                        != removed.0 by {
                        if j < k {
                            assert(cur[j] == self.pending@[j]);
                            assert(cur[j].0 < cur[k as int].0);
                        } else {
                            assert(cur[j + 1] == self.pending@[j]);
                            assert(cur[k as int].0 < cur[j + 1].0);
                        }
                    }
                    assert forall|s: u64| #[trigger]
                        pq_entries(self.queue).dom().contains(s) implies has_serial(
                        self.pending@,
                        s,
                    ) && pq_entries(self.queue)[s] == s by {
                        assert(s != removed.0);
                        let j = choose|j: int| 0 <= j < cur.len() && cur[j].0 == s;
                        if j < k {
                            assert(self.pending@[j].0 == s);
                        } else {
                            assert(j != k);
                            assert(self.pending@[j - 1].0 == s);
                        }
                    }
                    assert forall|j: int|
                        0 <= j < self.pending@.len() implies pq_entries(self.queue).dom().contains(
                        (#[trigger] self.pending@[j]).0,
                    ) by {
                        if j < k {
                            assert(cur[j] == self.pending@[j]);
                        } else {
                            assert(cur[j + 1] == self.pending@[j]);
                        }
                    }
                }
            } else {
                proof {
                    assert(epred(orig[k as int]));
                    lemma_filter_singleton(orig[k as int], epred);
                    assert(self.pending@ =~= orig.subrange(0, k as int) + orig.subrange(
                        k as int,
                        n as int,
                    ).filter(epred));
                }
            }
        }
        proof {
            assert(orig.subrange(0, 0) =~= Seq::<(u64, HttpRequest<TileId>)>::empty());
            assert(orig.subrange(0, n as int) =~= orig);
            assert(self.pending@ =~= orig.filter(epred));
            lemma_map_values_of_filter(orig, *id);
            assert(self@ =~= old(self)@.filter(keeps_key(*id)));
        }
    }

    /// Removes and returns the most recently submitted request, or `None`
    /// when nothing is queued.
    pub fn pop_next(&mut self) -> (r: Option<HttpRequest<TileId>>)
        requires
            old(self).wf(),
        ensures
            final(self).wf(),
            old(self)@.len() == 0 ==> r is None && final(self)@ == old(self)@,
            old(self)@.len() > 0 ==> r == Some(old(self)@.last()) && final(self)@ == old(
                self,
            )@.drop_last(),
            final(self).spec_next_serial() == old(self).spec_next_serial(),
    {
        let popped = pq_pop(&mut self.queue);
        match popped {
            None => {
                proof {
                    if self.pending@.len() > 0 {
                        assert(pq_entries(old(self).queue).dom().contains(self.pending@[0].0));
                    }
                    assert(self.pending@.len() == 0);
                    assert(self@ =~= old(self)@);
                }
                None
            },
            Some(pair) => {
                proof {
                    let n = self.pending@.len() as int;
                    assert(n > 0) by {
                        assert(has_serial(self.pending@, pair.0));
                    }
                    assert(has_serial(self.pending@, pair.0));
                    let j = choose|j: int| 0 <= j < n && self.pending@[j].0 == pair.0;
                    assert(pq_entries(old(self).queue).dom().contains(self.pending@[n - 1].0));
                    assert(self.pending@[n - 1].0 <= pair.1);
                    assert(j == n - 1) by {
                        if j < n - 1 {
                            assert(self.pending@[j].0 < self.pending@[n - 1].0);
                        }
                    }
                }
                let last = self.pending.pop();
                match last {
                    Some(entry) => {
                        proof {
                            let n = old(self).pending@.len() as int;
                            assert(self.pending@ =~= old(self).pending@.drop_last());
                            assert(self@ =~= old(self)@.drop_last());
                            assert(old(self)@.last() == entry.1);
                            assert forall|s: u64| #[trigger]
                                pq_entries(self.queue).dom().contains(s) implies has_serial(
                                self.pending@,
                                s,
                            ) && pq_entries(self.queue)[s] == s by {
                                assert(pq_entries(old(self).queue).dom().contains(s));
                                let j = choose|j: int|
                                    0 <= j < n && old(self).pending@[j].0 == s;
                                assert(j < n - 1) by {
                                    if j == n - 1 {
                                        assert(s == entry.0);
                                    }
                                }
                                assert(self.pending@[j].0 == s);
                            }
                            assert forall|j: int|
                                0 <= j < self.pending@.len() implies pq_entries(
                                self.queue,
                            ).dom().contains((#[trigger] self.pending@[j]).0) by {
                                assert(old(self).pending@[j].0 < old(self).pending@[n - 1].0);
                            }
                        }
                        Some(entry.1)
                    },
                    None => {
                        proof {
                            assert(false);
                        }
                        None
                    },
                }
            },
        }
    }
}

/// Filtering a one-element sequence keeps or drops that element.
proof fn lemma_filter_singleton(
    e: (u64, HttpRequest<TileId>),
    pred: spec_fn((u64, HttpRequest<TileId>)) -> bool,
)
    ensures
        pred(e) ==> seq![e].filter(pred) == seq![e],
        !pred(e) ==> seq![e].filter(pred) == Seq::<(u64, HttpRequest<TileId>)>::empty(),
{
    reveal_with_fuel(Seq::filter, 3);
    let s = seq![e];
    assert(s.drop_last() =~= Seq::<(u64, HttpRequest<TileId>)>::empty());
    assert(Seq::<(u64, HttpRequest<TileId>)>::empty().filter(pred) =~= Seq::<
        (u64, HttpRequest<TileId>),
    >::empty());
    if pred(e) {
        assert(s.filter(pred) =~= s);
    } else {
        assert(s.filter(pred) =~= Seq::<(u64, HttpRequest<TileId>)>::empty());
    }
}

/// Filtering entries by key and then projecting to the requests is the
/// same as projecting first and filtering the requests by key.
proof fn lemma_map_values_of_filter(p: Seq<(u64, HttpRequest<TileId>)>, id: TileId)
    ensures
        p.filter(|e: (u64, HttpRequest<TileId>)| e.1.spec_id() != id).map_values(
            |e: (u64, HttpRequest<TileId>)| e.1,
        ) == p.map_values(|e: (u64, HttpRequest<TileId>)| e.1).filter(keeps_key(id)),
    decreases p.len(),
{
    reveal(Seq::filter);
    let epred = |e: (u64, HttpRequest<TileId>)| e.1.spec_id() != id;
    let rpred = keeps_key(id);
    let proj = |e: (u64, HttpRequest<TileId>)| e.1;
    if p.len() == 0 {
        assert(p.filter(epred).map_values(proj) =~= p.map_values(proj).filter(rpred));
    } else {
        lemma_map_values_of_filter(p.drop_last(), id);
        assert(p.map_values(proj).drop_last() =~= p.drop_last().map_values(proj));
        assert(p.map_values(proj).last() == proj(p.last()));
        if epred(p.last()) {
            assert(p.filter(epred).map_values(proj) =~= p.drop_last().filter(epred).map_values(
                proj,
            ).push(proj(p.last())));
        }
        assert(p.filter(epred).map_values(proj) =~= p.map_values(proj).filter(rpred));
    }
}

/// Cancelling a key that has no queued request leaves the queue as it was.
pub proof fn lemma_cancel_absent_is_noop(q: Seq<HttpRequest<TileId>>, id: TileId)
    requires
        forall|k: int| 0 <= k < q.len() ==> (#[trigger] q[k]).spec_id() != id,
    ensures
        q.filter(keeps_key(id)) == q,
    decreases q.len(),
{
    reveal(Seq::filter);
    let pred = keeps_key(id);
    if q.len() == 0 {
        assert(q.filter(pred) =~= q);
    } else {
        lemma_cancel_absent_is_noop(q.drop_last(), id);
        assert(q.filter(pred) =~= q);
    }
}

} // verus!
