use vstd::prelude::*;
use crate::node::Node;
use crate::request::{Receiver, Request, Response, Sender};
use crate::util::{Error, RequestError};

verus! {

/// A one-directional bounded FIFO queue: the sequential stand-in for
/// one direction of the channel between a sender and a receiver.
pub struct BoundedQueue<T> {
    items: Vec<T>,
    cap: usize,
}

impl<T> View for BoundedQueue<T> {
    type V = Seq<T>;

    closed spec fn view(&self) -> Seq<T> {
        self.items@
    }
}

impl<T> BoundedQueue<T> {
    /// The fixed capacity the queue was made with.
    pub closed spec fn cap_spec(&self) -> usize {
        self.cap
    }

    pub fn new(cap: usize) -> (r: Self)
        requires
            cap >= 1,
        ensures
            r@ =~= Seq::<T>::empty(),
            r.cap_spec() == cap,
    {
        BoundedQueue { items: Vec::new(), cap }
    }

    pub fn len(&self) -> (r: usize)
        ensures
            r == self@.len(),
    {
        self.items.len()
    }

    /// Appends `t` unless the queue is full.
    pub fn push(&mut self, t: T) -> (r: bool)
        ensures
            final(self).cap_spec() == old(self).cap_spec(),
            old(self)@.len() < old(self).cap_spec() ==> r && final(self)@ == old(self)@.push(t),
            old(self)@.len() >= old(self).cap_spec() ==> !r && final(self)@ == old(self)@,
    {
        if self.items.len() < self.cap {
            self.items.push(t);
            true
        } else {
            false
        }
    }

    /// Takes the oldest element, if any.
    pub fn pop(&mut self) -> (r: Option<T>)
        ensures
            final(self).cap_spec() == old(self).cap_spec(),
            old(self)@.len() > 0 ==> r == Some(old(self)@[0]) && final(self)@ == old(
                self,
            )@.drop_first(),
            old(self)@.len() == 0 ==> r is None && final(self)@ == old(self)@,
    {
        if self.items.len() > 0 {
            Some(self.items.remove(0))
        } else {
            None
        }
    }
}

/// The pending-response table: completed results waiting for the
/// caller that owns their correlation id. An id present always denotes
/// a completed response awaiting pickup; entries are inserted once by
/// the drainer and removed once by the matching waiter.
pub struct ResponseTable<Res> {
    entries: Vec<(u64, Result<Res, Error>)>,
}

impl<Res> ResponseTable<Res> {
    /// The stored envelopes, in insertion order.
    pub closed spec fn entries_spec(&self) -> Seq<(u64, Result<Res, Error>)> {
        self.entries@
    }

    /// No id occurs twice.
    pub open spec fn wf(&self) -> bool {
        forall|i: int, j: int|
            0 <= i < j < self.entries_spec().len() ==> (#[trigger] self.entries_spec()[i].0) != (
            #[trigger] self.entries_spec()[j].0)
    }

    /// A completed result is recorded under `id`.
    pub open spec fn contains_id(&self, id: u64) -> bool {
        exists|i: int| 0 <= i < self.entries_spec().len() && (#[trigger] self.entries_spec()[i].0)
            == id
    }

    /// The position of the entry recorded under `id`.
    pub open spec fn index_of_id(&self, id: u64) -> int {
        choose|i: int|
            0 <= i < self.entries_spec().len() && (#[trigger] self.entries_spec()[i].0) == id
    }

    /// The result recorded under `id`.
    pub open spec fn value_of(&self, id: u64) -> Result<Res, Error> {
        self.entries_spec()[self.index_of_id(id)].1
    }

    pub fn new() -> (r: Self)
        ensures
            r.entries_spec() =~= Seq::<(u64, Result<Res, Error>)>::empty(),
            r.wf(),
    {
        ResponseTable { entries: Vec::new() }
    }

    /// Records `res` under the fresh id `id`.
    pub fn insert(&mut self, id: u64, res: Result<Res, Error>)
        requires
            old(self).wf(),
            !old(self).contains_id(id),
        ensures
            final(self).wf(),
            final(self).entries_spec() == old(self).entries_spec().push((id, res)),
            final(self).contains_id(id),
            final(self).value_of(id) == res,
            forall|x: u64| x != id ==> #[trigger] final(self).contains_id(x) == old(
                self,
            ).contains_id(x),
            forall|x: u64|
                x != id && old(self).contains_id(x) ==> #[trigger] final(self).value_of(x) == old(
                    self,
                ).value_of(x),
    {
        self.entries.push((id, res));
        proof {
            let n = old(self).entries_spec().len() as int;
            assert(self.entries_spec()[n] == (id, res));
            assert(self.entries_spec()[n].0 == id);
            assert forall|x: u64| x != id implies #[trigger] self.contains_id(x) == old(
                self,
            ).contains_id(x) by {
                if old(self).contains_id(x) {
                    let i = choose|i: int|
                        0 <= i < old(self).entries_spec().len() && (#[trigger] old(
                            self,
                        ).entries_spec()[i].0) == x;
                    assert(self.entries_spec()[i].0 == x);
                }
                if self.contains_id(x) {
                    let i = choose|i: int|
                        0 <= i < self.entries_spec().len() && (#[trigger] self.entries_spec()[i].0)
                            == x;
                    assert(old(self).entries_spec()[i] == self.entries_spec()[i]);
                }
            }
            assert forall|x: u64| x != id && old(self).contains_id(x) implies #[trigger] self
                .value_of(x) == old(self).value_of(x) by {
                let i = choose|i: int|
                    0 <= i < self.entries_spec().len() && (#[trigger] self.entries_spec()[i].0)
                        == x;
                let j = choose|j: int|
                    0 <= j < old(self).entries_spec().len() && (#[trigger] old(
                        self,
                    ).entries_spec()[j].0) == x;
                assert(self.entries_spec()[j].0 == x);
                assert(i == j);
            }
        }
    }

    /// Removes and returns the result recorded under `id`, if one is
    /// there; an absent id means not yet arrived or already claimed.
    pub fn remove(&mut self, id: u64) -> (r: Option<Result<Res, Error>>)
        requires
            old(self).wf(),
        ensures
            final(self).wf(),
            old(self).contains_id(id) ==> r == Some(old(self).value_of(id)) && final(self).entries_spec() == old(self).entries_spec().remove(old(self).index_of_id(id)),
            !old(self).contains_id(id) ==> r is None && *final(self) == *old(self),
            !final(self).contains_id(id),
            forall|x: u64| x != id ==> #[trigger] final(self).contains_id(x) == old(
                self,
            ).contains_id(x),
            forall|x: u64|
                x != id && old(self).contains_id(x) ==> #[trigger] final(self).value_of(x) == old(
                    self,
                ).value_of(x),
    {
        let n = self.entries.len();
        let mut i: usize = 0;
        while i < n
            invariant
                n == self.entries_spec().len(),
                0 <= i <= n,
                forall|j: int| 0 <= j < i ==> (#[trigger] self.entries_spec()[j].0) != id,
                self.wf(),
                *self == *old(self),
            decreases n - i,
        {
            if self.entries[i].0 == id {
                let (_, res) = self.entries.remove(i);
                proof {
                    let ii = i as int;
                    let ob = old(self).entries_spec();
                    ob.remove_ensures(ii);
                    assert(ob[ii].0 == id);
                    assert(old(self).contains_id(id));
                    let c = choose|j: int| 0 <= j < ob.len() && (#[trigger] ob[j].0) == id;
                    assert(c == ii);
                    assert forall|x: u64| x != id implies #[trigger] self.contains_id(x) == old(
                        self,
                    ).contains_id(x) by {
                        lemma_remove_keeps_ids(ob, ii, x);
                    }
                    assert forall|x: u64| x != id && old(self).contains_id(x) implies #[trigger] self
                        .value_of(x) == old(self).value_of(x) by {
                        lemma_remove_keeps_ids(ob, ii, x);
                    }
                    assert forall|x: u64| #[trigger] self.contains_id(x) implies x == id || old(
                        self,
                    ).contains_id(x) by {
                        lemma_remove_keeps_ids(ob, ii, x);
                    }
                }
                return Some(res);
            }
            i = i + 1;
        }
        None
    }
}

/// Removing the entry at `p` neither loses nor invents any other id,
/// and keeps the value recorded under every other id.
proof fn lemma_remove_keeps_ids<Res>(s: Seq<(u64, Result<Res, Error>)>, p: int, x: u64)
    requires
        0 <= p < s.len(),
        forall|i: int, j: int| 0 <= i < j < s.len() ==> (#[trigger] s[i].0) != (#[trigger] s[j].0),
        x != s[p].0,
    ensures
        (exists|i: int| 0 <= i < s.remove(p).len() && (#[trigger] s.remove(p)[i].0) == x)
            == (exists|i: int| 0 <= i < s.len() && (#[trigger] s[i].0) == x),
        (exists|i: int| 0 <= i < s.len() && (#[trigger] s[i].0) == x) ==> s.remove(p)[choose|i: int|
            0 <= i < s.remove(p).len() && (#[trigger] s.remove(p)[i].0) == x].1 == s[choose|i: int|
            0 <= i < s.len() && (#[trigger] s[i].0) == x].1,
        forall|i: int, j: int|
            0 <= i < j < s.remove(p).len() ==> (#[trigger] s.remove(p)[i].0) != (
            #[trigger] s.remove(p)[j].0),
{
    let t = s.remove(p);
    s.remove_ensures(p);
    if exists|i: int| 0 <= i < s.len() && (#[trigger] s[i].0) == x {
        let i = choose|i: int| 0 <= i < s.len() && (#[trigger] s[i].0) == x;
        if i < p {
            assert(t[i].0 == x);
        } else {
            assert(i != p);
            assert(t[i - 1] == s[i]);
            assert(t[i - 1].0 == x);
        }
    }
    if exists|i: int| 0 <= i < t.len() && (#[trigger] t[i].0) == x {
        let i = choose|i: int| 0 <= i < t.len() && (#[trigger] t[i].0) == x;
        if i < p {
            assert(s[i].0 == x);
        } else {
            assert(s[i + 1].0 == x);
        }
        // the witnesses on both sides name the same id, and ids are unique
        let iw = choose|j: int| 0 <= j < s.len() && (#[trigger] s[j].0) == x;
        let tw = choose|j: int| 0 <= j < t.len() && (#[trigger] t[j].0) == x;
        if tw < p {
            assert(s[tw].0 == x);
            assert(iw == tw);
            assert(t[tw].1 == s[iw].1);
        } else {
            assert(s[tw + 1].0 == x);
            assert(iw == tw + 1);
            assert(t[tw].1 == s[iw].1);
        }
    }
}

/// Ids of an envelope sequence are pairwise distinct.
pub open spec fn ids_distinct<X>(s: Seq<(u64, X)>) -> bool {
    forall|i: int, j: int| 0 <= i < j < s.len() ==> (#[trigger] s[i].0) != (#[trigger] s[j].0)
}

/// Every id of an envelope sequence lies below `b`.
pub open spec fn ids_below<X>(s: Seq<(u64, X)>, b: u64) -> bool {
    forall|i: int| 0 <= i < s.len() ==> (#[trigger] s[i].0) < b
}

/// `id` tags some envelope of the sequence.
pub open spec fn id_in<X>(s: Seq<(u64, X)>, id: u64) -> bool {
    exists|i: int| 0 <= i < s.len() && (#[trigger] s[i].0) == id
}

/// The ids in `s` were assigned in strictly ascending order and all
/// lie below `bound`.
pub open spec fn serials_ascending(s: Seq<u64>, bound: u64) -> bool {
    (forall|i: int, j: int| 0 <= i < j < s.len() ==> (#[trigger] s[i]) < (#[trigger] s[j]))
        && (forall|i: int| 0 <= i < s.len() ==> (#[trigger] s[i]) < bound)
}

/// Assigning the next id keeps the assignment history ascending.
proof fn lemma_serials_push(s: Seq<u64>, b: u64)
    requires
        serials_ascending(s, b),
        b < u64::MAX,
    ensures
        serials_ascending(s.push(b), (b + 1) as u64),
{
    let t = s.push(b);
    assert forall|i: int, j: int| 0 <= i < j < t.len() implies (#[trigger] t[i]) < (
    #[trigger] t[j]) by {
        if j == s.len() as int {
            assert(t[i] == s[i]);
        }
    }
    assert forall|i: int| 0 <= i < t.len() implies (#[trigger] t[i]) < (b + 1) as u64 by {
        if i < s.len() {
            assert(t[i] == s[i]);
        }
    }
}

/// The fixed capacity of the two queues of one sender/receiver pair.
pub const CHANNEL_CAPACITY: usize = 1024;

/// The handler-facing worker: it owns the two queues that connect the
/// pair, pulls request envelopes off the incoming one, hands each
/// request to the node, and forwards the node's result as a response
/// envelope.
#[verifier::reject_recursive_types(Req)]
#[verifier::reject_recursive_types(Res)]
pub struct ChannelReceiver<Req: Request, Res: Response, N: Node<Req = Req, Res = Res>> {
    req_rx: BoundedQueue<(u64, Req)>,
    res_tx: BoundedQueue<(u64, Result<Res, Error>)>,
    node: N,
}

impl<Req: Request, Res: Response, N: Node<Req = Req, Res = Res>> ChannelReceiver<Req, Res, N> {
    /// The queued request envelopes, oldest first.
    pub closed spec fn req_spec(&self) -> Seq<(u64, Req)> {
        self.req_rx@
    }

    /// The queued response envelopes, oldest first.
    pub closed spec fn res_spec(&self) -> Seq<(u64, Result<Res, Error>)> {
        self.res_tx@
    }

    /// The node the worker hands requests to.
    pub closed spec fn node_spec(&self) -> N {
        self.node
    }

    /// Both queues carry the fixed channel capacity.
    pub closed spec fn caps_fixed(&self) -> bool {
        self.req_rx.cap_spec() == CHANNEL_CAPACITY && self.res_tx.cap_spec() == CHANNEL_CAPACITY
    }

    fn new(
        req_rx: BoundedQueue<(u64, Req)>,
        res_tx: BoundedQueue<(u64, Result<Res, Error>)>,
        node: N,
    ) -> (r: Self)
        ensures
            r.req_spec() == req_rx@,
            r.res_spec() == res_tx@,
            r.node_spec() == node,
            r.caps_fixed() == (req_rx.cap_spec() == CHANNEL_CAPACITY && res_tx.cap_spec()
                == CHANNEL_CAPACITY),
    {
        Self { req_rx, res_tx, node }
    }

    /// What one full pass turns the queued requests into: each request
    /// becomes a response envelope under the same id.
    pub open spec fn processed_spec(&self) -> Seq<(u64, Result<Res, Error>)> {
        self.req_spec().map_values(|p: (u64, Req)| (p.0, self.node_spec().process_spec(p.1)))
    }
}

impl<Req: Request, Res: Response, N: Node<Req = Req, Res = Res>> Receiver for ChannelReceiver<
    Req,
    Res,
    N,
> {
    type Req = Req;
    type Res = Res;
    type N = N;

    open spec fn collect_ready(&self) -> bool {
        self.caps_fixed() && self.req_spec().len() + self.res_spec().len() <= CHANNEL_CAPACITY
    }

    fn collect_req(&mut self)
        ensures
            final(self).req_spec() =~= Seq::<(u64, Req)>::empty(),
            final(self).res_spec() == old(self).res_spec() + old(self).processed_spec(),
            final(self).node_spec() == old(self).node_spec(),
    {
        let ghost orig = *old(self);
        let ghost mut done: int = 0;
        loop
            invariant
                orig == *old(self),
                self.caps_fixed(),
                self.node == orig.node,
                0 <= done <= orig.req_spec().len(),
                self.req_rx@ == orig.req_spec().skip(done),
                self.res_tx@ == orig.res_spec() + orig.processed_spec().take(done),
                orig.req_spec().len() + orig.res_spec().len() <= CHANNEL_CAPACITY,
            decreases self.req_rx@.len(),
        {
            let next = self.req_rx.pop();
            match next {
                Some((id, req)) => {
                    proof {
                        assert(orig.req_spec().skip(done)[0] == orig.req_spec()[done]);
                        assert(orig.req_spec().skip(done).drop_first() =~= orig.req_spec().skip(
                            done + 1,
                        ));
                    }
                    let res = self.node.process(req);
                    let ok = self.res_tx.push((id, res));
                    proof {
                        assert(ok);
                        assert(orig.processed_spec()[done] == (
                            orig.req_spec()[done].0,
                            orig.node_spec().process_spec(orig.req_spec()[done].1),
                        ));
                        assert(self.res_tx@ =~= orig.res_spec() + orig.processed_spec().take(
                            done + 1,
                        ));
                        done = done + 1;
                    }
                }
                None => {
                    proof {
                        assert(done == orig.req_spec().len());
                        assert(orig.processed_spec().take(done) =~= orig.processed_spec());
                    }
                    return ;
                }
            }
        }
    }
}

/// The caller-facing handle: it assigns correlation ids, queues
/// request envelopes for the worker, drains response envelopes into
/// the pending-response table, and matches each caller with the result
/// tagged by its own id.
///
/// The worker that the constructor pairs the handle with is owned by
/// the handle and driven in place, one turn per call, where a
/// concurrent deployment runs it in the background; the public step
/// methods expose those turns so that any interleaving can be played
/// out.
#[verifier::reject_recursive_types(Req)]
#[verifier::reject_recursive_types(Res)]
pub struct ChannelSender<Req: Request, Res: Response, N: Node<Req = Req, Res = Res>> {
    serial: u64,
    issued: Ghost<Seq<u64>>,
    res_map: ResponseTable<Res>,
    terminate: bool,
    receiver: ChannelReceiver<Req, Res, N>,
}

/// Connects a fresh sender/receiver pair over `node`.
pub fn new_channel_connect<Req: Request, Res: Response, N: Node<Req = Req, Res = Res>>(
    node: N,
) -> (tx: ChannelSender<Req, Res, N>)
    ensures
        tx.wf(),
        tx.serial_spec() == 0,
        tx.issued_spec() =~= Seq::<u64>::empty(),
        !tx.terminate_spec(),
        tx.table_spec() =~= Seq::<(u64, Result<Res, Error>)>::empty(),
        tx.req_spec() =~= Seq::<(u64, Req)>::empty(),
        tx.res_spec() =~= Seq::<(u64, Result<Res, Error>)>::empty(),
        tx.node_spec() == node,
{
    let req_rx = BoundedQueue::new(CHANNEL_CAPACITY);
    let res_tx = BoundedQueue::new(CHANNEL_CAPACITY);
    let rx = ChannelReceiver::new(req_rx, res_tx, node);
    ChannelSender::new(rx)
}

impl<Req: Request, Res: Response, N: Node<Req = Req, Res = Res>> ChannelSender<Req, Res, N> {
    /// The next correlation id to hand out.
    pub closed spec fn serial_spec(&self) -> u64 {
        self.serial
    }

    /// Every id handed out so far, in the order of assignment.
    pub closed spec fn issued_spec(&self) -> Seq<u64> {
        self.issued@
    }

    /// The termination flag: set once by `close`, never reset.
    pub closed spec fn terminate_spec(&self) -> bool {
        self.terminate
    }

    /// The envelopes sitting in the pending-response table.
    pub closed spec fn table_spec(&self) -> Seq<(u64, Result<Res, Error>)> {
        self.res_map.entries_spec()
    }

    /// A completed result is recorded under `id`.
    pub closed spec fn resolved(&self, id: u64) -> bool {
        self.res_map.contains_id(id)
    }

    /// The result recorded under `id`.
    pub closed spec fn resolved_value(&self, id: u64) -> Result<Res, Error> {
        self.res_map.value_of(id)
    }

    /// The request envelopes queued toward the worker.
    pub closed spec fn req_spec(&self) -> Seq<(u64, Req)> {
        self.receiver.req_spec()
    }

    /// The response envelopes buffered toward the drainer.
    pub closed spec fn res_spec(&self) -> Seq<(u64, Result<Res, Error>)> {
        self.receiver.res_spec()
    }

    /// The node behind the paired worker.
    pub closed spec fn node_spec(&self) -> N {
        self.receiver.node_spec()
    }

    /// The paired worker itself.
    pub closed spec fn receiver_spec(&self) -> ChannelReceiver<Req, Res, N> {
        self.receiver
    }

    /// What one worker turn makes of the queued requests.
    pub open spec fn processed_spec(&self) -> Seq<(u64, Result<Res, Error>)> {
        self.req_spec().map_values(|p: (u64, Req)| (p.0, self.node_spec().process_spec(p.1)))
    }

    /// How many envelopes are in flight between assignment and pickup.
    pub open spec fn in_flight(&self) -> int {
        self.req_spec().len() as int + self.res_spec().len() as int
            + self.table_spec().len() as int
    }

    /// The handle's invariant: ids were assigned in strictly ascending
    /// order, all lie below the next serial, no id tags two envelopes
    /// anywhere in the pipeline, and the pipeline never holds more
    /// envelopes than one queue can.
    pub open spec fn wf(&self) -> bool {
        &&& serials_ascending(self.issued_spec(), self.serial_spec())
        &&& ids_distinct(self.table_spec())
        &&& ids_below(self.table_spec(), self.serial_spec())
        &&& ids_distinct(self.req_spec())
        &&& ids_below(self.req_spec(), self.serial_spec())
        &&& ids_distinct(self.res_spec())
        &&& ids_below(self.res_spec(), self.serial_spec())
        &&& forall|x: u64|
            #[trigger] id_in(self.req_spec(), x) ==> !id_in(self.res_spec(), x) && !id_in(
                self.table_spec(),
                x,
            )
        &&& forall|x: u64|
            #[trigger] id_in(self.res_spec(), x) ==> !id_in(self.table_spec(), x)
        &&& self.receiver_spec().caps_fixed()
        &&& self.in_flight() <= CHANNEL_CAPACITY
    }

    fn new(receiver: ChannelReceiver<Req, Res, N>) -> (r: Self)
        requires
            receiver.caps_fixed(),
            receiver.req_spec().len() == 0,
            receiver.res_spec().len() == 0,
    ensures
            r.wf(),
            r.serial_spec() == 0,
            r.issued_spec() =~= Seq::<u64>::empty(),
            !r.terminate_spec(),
            r.table_spec() =~= Seq::<(u64, Result<Res, Error>)>::empty(),
            r.receiver == receiver,
    {
        Self {
            serial: 0,
            issued: Ghost(Seq::empty()),
            res_map: ResponseTable::new(),
            terminate: false,
            receiver,
        }
    }

    /// Hands out a fresh correlation id.
    fn new_serial_id(&mut self) -> (r: u64)
        requires
            old(self).serial_spec() < u64::MAX,
        ensures
            r == old(self).serial_spec(),
            final(self).serial_spec() == old(self).serial_spec() + 1,
            final(self).issued_spec() == old(self).issued_spec().push(r),
            final(self).res_map == old(self).res_map,
            final(self).terminate_spec() == old(self).terminate_spec(),
            final(self).receiver_spec() == old(self).receiver_spec(),
    {
        let id = self.serial;
        self.serial = self.serial + 1;
        proof {
            self.issued@ = self.issued@.push(id);
        }
        id
    }

    /// The queuing half of a call: assigns an id and queues the
    /// request envelope. The id wraparound and a saturated pipeline
    /// are rejected with a transport error instead of suspending, and
    /// so is a terminated handle.
    pub fn enqueue_request(&mut self, req: Req) -> (r: Result<u64, Error>)
        requires
            old(self).wf(),
        ensures
            final(self).wf(),
            old(self).terminate_spec() || old(self).serial_spec() == u64::MAX || old(
                self,
            ).in_flight() == CHANNEL_CAPACITY ==> (r matches Err(Error::RequestError(
                RequestError::SendError(_),
            )) && *final(self) == *old(self)),
            old(self).terminate_spec() ==> (r matches Err(Error::RequestError(
                RequestError::SendError(m),
            )) && m@ == "channel terminated"@),
            !old(self).terminate_spec() && old(self).serial_spec() == u64::MAX ==> (r matches Err(
                Error::RequestError(RequestError::SendError(m)),
            ) && m@ == "correlation ids exhausted"@),
            !old(self).terminate_spec() && old(self).serial_spec() < u64::MAX && old(
                self,
            ).in_flight() == CHANNEL_CAPACITY ==> (r matches Err(Error::RequestError(
                RequestError::SendError(m),
            )) && m@ == "channel saturated"@),
            !old(self).terminate_spec() && old(self).serial_spec() < u64::MAX && old(
                self,
            ).in_flight() < CHANNEL_CAPACITY ==> r == Ok::<u64, Error>(old(self).serial_spec())
                && final(self).serial_spec() == old(self).serial_spec() + 1 && final(self).issued_spec() == old(self).issued_spec().push(old(self).serial_spec()) && final(self).req_spec() == old(self).req_spec().push(
                (old(self).serial_spec(), req),
            ) && final(self).res_spec() == old(self).res_spec() && final(self).node_spec() == old(self).node_spec() && final(self).table_spec()
                == old(self).table_spec() && final(self).terminate_spec() == old(
                self,
            ).terminate_spec(),
    {
        if self.terminate {
            return Err(Error::RequestError(RequestError::SendError(terminated_note())));
        }
        if self.serial == u64::MAX {
            return Err(Error::RequestError(RequestError::SendError(exhausted_note())));
        }
        let queued = self.receiver.req_rx.len();
        let buffered = self.receiver.res_tx.len();
        let pending = self.res_map.entries.len();
        if queued + buffered >= CHANNEL_CAPACITY || CHANNEL_CAPACITY - queued - buffered <= pending
        {
            return Err(Error::RequestError(RequestError::SendError(saturated_note())));
        }
        let id = self.new_serial_id();
        let ok = self.receiver.req_rx.push((id, req));
        proof {
            assert(ok);
            lemma_serials_push(old(self).issued_spec(), id);
            let oldq = old(self).req_spec();
            assert forall|i: int, j: int|
                0 <= i < j < self.req_spec().len() implies (
            #[trigger] self.req_spec()[i].0) != (
            #[trigger] self.req_spec()[j].0) by {
                if j == oldq.len() as int {
                    assert(oldq[i].0 < id);
                }
            }
            assert forall|x: u64| id_in(self.req_spec(), x) implies !(#[trigger] id_in(
                self.res_spec(),
                x,
            )) && !id_in(self.table_spec(), x) by {
                let i = choose|i: int|
                    0 <= i < self.req_spec().len() && (
                    #[trigger] self.req_spec()[i].0) == x;
                if i < oldq.len() {
                    assert(id_in(oldq, x));
                } else {
                    assert(x == id);
                    if id_in(self.res_spec(), x) {
                        let j = choose|j: int|
                            0 <= j < self.res_spec().len() && (
                            #[trigger] self.res_spec()[j].0) == x;
                        assert(self.res_spec()[j].0 < id);
                    }
                    if id_in(self.table_spec(), x) {
                        let j = choose|j: int|
                            0 <= j < self.table_spec().len() && (#[trigger] self.table_spec()[j].0)
                                == x;
                        assert(self.table_spec()[j].0 < id);
                    }
                }
            }
        }
        Ok(id)
    }

    /// One turn of the worker: every queued request is handed to the
    /// node and its result queued as a response envelope.
    pub fn collect_pending(&mut self)
        requires
            old(self).wf(),
        ensures
            final(self).wf(),
            final(self).req_spec() =~= Seq::<(u64, Req)>::empty(),
            final(self).res_spec() == old(self).res_spec() + old(
                self,
            ).processed_spec(),
            final(self).node_spec() == old(self).node_spec(),
            final(self).serial_spec() == old(self).serial_spec(),
            final(self).issued_spec() == old(self).issued_spec(),
            final(self).table_spec() == old(self).table_spec(),
            final(self).terminate_spec() == old(self).terminate_spec(),
    {
        let ghost oldr = self.receiver;
        self.receiver.collect_req();
        proof {
            let oldreq = oldr.req_spec();
            let oldres = oldr.res_spec();
            let newres = self.res_spec();
            assert(oldr.processed_spec().len() == oldreq.len());
            assert forall|q: int| 0 <= q < oldr.processed_spec().len() implies (
            #[trigger] oldr.processed_spec()[q].0) == oldreq[q].0 by {}
            assert forall|i: int, j: int|
                0 <= i < j < newres.len() implies (#[trigger] newres[i].0) != (
            #[trigger] newres[j].0) by {
                lemma_concat_id(oldres, oldr.processed_spec(), oldreq, i);
                lemma_concat_id(oldres, oldr.processed_spec(), oldreq, j);
                if i < oldres.len() && j >= oldres.len() {
                    assert(id_in(oldres, newres[i].0));
                    assert(id_in(oldreq, newres[j].0));
                }
            }
            assert(ids_below(newres, self.serial_spec()));
            assert forall|x: u64| #[trigger] id_in(newres, x) implies !id_in(
                self.table_spec(),
                x,
            ) by {
                let i = choose|i: int| 0 <= i < newres.len() && (#[trigger] newres[i].0) == x;
                lemma_concat_id(oldres, oldr.processed_spec(), oldreq, i);
                if i >= oldres.len() {
                    assert(id_in(oldreq, x));
                }
            }
        }
    }

    /// One turn of the background drainer: if the handle is not
    /// terminated, every buffered response envelope moves into the
    /// pending-response table; once it is terminated, nothing moves.
    pub fn polling_resp(&mut self)
        requires
            old(self).wf(),
        ensures
            final(self).wf(),
            old(self).terminate_spec() ==> *final(self) == *old(self),
            !old(self).terminate_spec() ==> final(self).res_spec() =~= Seq::<
                (u64, Result<Res, Error>),
            >::empty() && final(self).table_spec() == old(self).table_spec() + old(
                self,
            ).res_spec() && final(self).req_spec() == old(
                self,
            ).req_spec() && final(self).node_spec() == old(
                self,
            ).node_spec() && final(self).serial_spec() == old(self).serial_spec() && final(self).issued_spec() == old(self).issued_spec() && final(self).terminate_spec() == old(
                self,
            ).terminate_spec(),
    {
        if self.terminate {
            return ;
        }
        let ghost orig = *old(self);
        let ghost mut done: int = 0;
        loop
            invariant
                orig == *old(self),
                orig.wf(),
                !orig.terminate_spec(),
                !self.terminate,
                self.wf(),
                self.serial == orig.serial,
                self.issued == orig.issued,
                self.receiver.req_rx == orig.receiver.req_rx,
                self.receiver.res_tx.cap_spec() == orig.receiver.res_tx.cap_spec(),
                self.receiver.node == orig.receiver.node,
                0 <= done <= orig.res_spec().len(),
                self.res_spec() == orig.res_spec().skip(done),
                self.table_spec() == orig.table_spec() + orig.res_spec().take(done),
            decreases self.res_spec().len(),
        {
            let next = self.receiver.res_tx.pop();
            match next {
                Some((id, res)) => {
                    proof {
                        assert(orig.res_spec().skip(done)[0]
                            == orig.res_spec()[done]);
                        assert(orig.res_spec().skip(done).drop_first()
                            =~= orig.res_spec().skip(done + 1));
                        assert(id_in(orig.res_spec().skip(done), id));
                        assert(!id_in(orig.table_spec() + orig.res_spec().take(done), id))
                            by {
                            if id_in(
                                orig.table_spec() + orig.res_spec().take(done),
                                id,
                            ) {
                                let j = choose|j: int|
                                    0 <= j < (orig.table_spec() + orig.res_spec().take(
                                        done,
                                    )).len() && (#[trigger] (orig.table_spec()
                                        + orig.res_spec().take(done))[j].0) == id;
                                if j < orig.table_spec().len() {
                                    assert(id_in(orig.table_spec(), id));
                                    assert(id_in(orig.res_spec(), id));
                                } else {
                                    let a = j - orig.table_spec().len();
                                    let b = done;
                                    assert(orig.res_spec()[a].0 == id);
                                    assert(orig.res_spec()[done].0 == id);
                                    assert(a < done);
                                }
                            }
                        }
                        assert(!self.res_map.contains_id(id)) by {
                            if self.res_map.contains_id(id) {
                                let j = choose|j: int|
                                    0 <= j < self.table_spec().len() && (
                                    #[trigger] self.table_spec()[j].0) == id;
                                assert(id_in(
                                    orig.table_spec() + orig.res_spec().take(done),
                                    id,
                                ));
                            }
                        }
                    }
                    self.res_map.insert(id, res);
                    proof {
                        done = done + 1;
                        assert(self.table_spec() =~= orig.table_spec()
                            + orig.res_spec().take(done));
                        lemma_polling_wf(orig, *self, done);
                    }
                }
                None => {
                    proof {
                        assert(done == orig.res_spec().len());
                        assert(orig.res_spec().take(done) =~= orig.res_spec());
                    }
                    return ;
                }
            }
        }
    }

    /// The waiter's check: takes the result recorded under `id`, if it
    /// has arrived and was not claimed yet.
    pub fn wait_resp(&mut self, id: u64) -> (r: Option<Result<Res, Error>>)
        requires
            old(self).wf(),
        ensures
            final(self).wf(),
            old(self).resolved(id) ==> r == Some(old(self).resolved_value(id)),
            !old(self).resolved(id) ==> r is None && *final(self) == *old(self),
            !final(self).resolved(id),
            forall|x: u64| x != id ==> #[trigger] final(self).resolved(x) == old(self).resolved(x),
            forall|x: u64|
                x != id && old(self).resolved(x) ==> #[trigger] final(self).resolved_value(x)
                    == old(self).resolved_value(x),
            final(self).serial_spec() == old(self).serial_spec(),
            final(self).issued_spec() == old(self).issued_spec(),
            final(self).terminate_spec() == old(self).terminate_spec(),
            final(self).receiver_spec() == old(self).receiver_spec(),
    {
        let r = self.res_map.remove(id);
        proof {
            if old(self).resolved(id) {
                let c = choose|i: int|
                    0 <= i < old(self).table_spec().len() && (#[trigger] old(self).table_spec()[
                        i
                    ].0) == id;
                old(self).table_spec().remove_ensures(c);
                assert forall|x: u64| #[trigger] id_in(self.res_spec(), x) implies !id_in(
                    self.table_spec(),
                    x,
                ) by {
                    if id_in(self.table_spec(), x) {
                        let j = choose|j: int|
                            0 <= j < self.table_spec().len() && (#[trigger] self.table_spec()[j].0)
                                == x;
                        if j < c {
                            assert(old(self).table_spec()[j].0 == x);
                        } else {
                            assert(old(self).table_spec()[j + 1].0 == x);
                        }
                    }
                }
                assert forall|x: u64| id_in(self.req_spec(), x) implies !(
                #[trigger] id_in(self.res_spec(), x)) && !id_in(self.table_spec(), x) by {
                    if id_in(self.table_spec(), x) {
                        let j = choose|j: int|
                            0 <= j < self.table_spec().len() && (#[trigger] self.table_spec()[j].0)
                                == x;
                        if j < c {
                            assert(old(self).table_spec()[j].0 == x);
                        } else {
                            assert(old(self).table_spec()[j + 1].0 == x);
                        }
                    }
                }
                assert(ids_below(self.table_spec(), self.serial_spec())) by {
                    assert forall|i: int| 0 <= i < self.table_spec().len() implies (
                    #[trigger] self.table_spec()[i].0) < self.serial_spec() by {
                        if i < c {
                            assert(old(self).table_spec()[i].0 < self.serial_spec());
                        } else {
                            assert(old(self).table_spec()[i + 1].0 < self.serial_spec());
                        }
                    }
                }
            }
        }
        r
    }

    /// Sets the termination flag; nothing else changes, and in-flight
    /// calls that were not resolved stay unresolved.
    pub fn close(&mut self)
        requires
            old(self).wf(),
        ensures
            final(self).wf(),
            final(self).terminate_spec(),
            final(self).serial_spec() == old(self).serial_spec(),
            final(self).issued_spec() == old(self).issued_spec(),
            final(self).table_spec() == old(self).table_spec(),
            final(self).receiver_spec() == old(self).receiver_spec(),
    {
        self.terminate = true;
    }

    /// A full call: assigns an id, queues the envelope, drives the
    /// worker and the drainer one turn each, and picks up the result
    /// matched to that id. Returns the node's own result for this
    /// request, or a transport error from `enqueue_request`.
    pub fn send(&mut self, req: Req) -> (r: Result<Res, Error>)
        requires
            old(self).wf(),
        ensures
            final(self).wf(),
            old(self).terminate_spec() || old(self).serial_spec() == u64::MAX || old(
                self,
            ).in_flight() == CHANNEL_CAPACITY ==> (r matches Err(Error::RequestError(
                RequestError::SendError(_),
            )) && *final(self) == *old(self)),
            old(self).terminate_spec() ==> (r matches Err(Error::RequestError(
                RequestError::SendError(m),
            )) && m@ == "channel terminated"@),
            !old(self).terminate_spec() && old(self).serial_spec() == u64::MAX ==> (r matches Err(
                Error::RequestError(RequestError::SendError(m)),
            ) && m@ == "correlation ids exhausted"@),
            !old(self).terminate_spec() && old(self).serial_spec() < u64::MAX && old(
                self,
            ).in_flight() == CHANNEL_CAPACITY ==> (r matches Err(Error::RequestError(
                RequestError::SendError(m),
            )) && m@ == "channel saturated"@),
            !old(self).terminate_spec() && old(self).serial_spec() < u64::MAX && old(
                self,
            ).in_flight() < CHANNEL_CAPACITY ==> r == old(self).node_spec().process_spec(
                req,
            ) && final(self).serial_spec() == old(self).serial_spec() + 1 && final(self).issued_spec() == old(self).issued_spec().push(old(self).serial_spec()),
    {
        let id = match self.enqueue_request(req) {
            Ok(id) => id,
            Err(e) => {
                return Err(e);
            }
        };
        self.collect_pending();
        self.polling_resp();
        let ghost mid = *self;
        proof {
            let pre = *old(self);
            let procd = pre.req_spec().push((id, req)).map_values(
                |p: (u64, Req)| (p.0, pre.node_spec().process_spec(p.1)),
            );
            assert(mid.table_spec() =~= pre.table_spec() + pre.res_spec() + procd);
            let n = mid.table_spec().len() as int;
            assert(procd[procd.len() - 1] == (id, pre.node_spec().process_spec(req)));
            assert(mid.table_spec()[n - 1] == (id, pre.node_spec().process_spec(req)));
            assert(mid.table_spec()[n - 1].0 == id);
            assert(mid.resolved(id));
            let c = choose|i: int|
                0 <= i < mid.table_spec().len() && (#[trigger] mid.table_spec()[i].0) == id;
            assert(c == n - 1);
            assert(mid.resolved_value(id) == pre.node_spec().process_spec(req));
        }
        match self.wait_resp(id) {
            Some(res) => res,
            None => {
                proof {
                    assert(false);
                }
                Err(Error::Unknown)
            }
        }
    }
}

/// Where an element of the concatenation of two envelope sequences
/// comes from, with the second sequence given as the requests it was
/// mapped from.
proof fn lemma_concat_id<Req, Res>(
    a: Seq<(u64, Result<Res, Error>)>,
    b: Seq<(u64, Result<Res, Error>)>,
    breq: Seq<(u64, Req)>,
    i: int,
)
    requires
        b.len() == breq.len(),
        forall|q: int| 0 <= q < b.len() ==> (#[trigger] b[q].0) == breq[q].0,
        0 <= i < a.len() + b.len(),
    ensures
        i < a.len() ==> (a + b)[i] == a[i] && id_in(a, (a + b)[i].0),
        i >= a.len() ==> (a + b)[i] == b[i - a.len()] && id_in(breq, (a + b)[i].0),
{
    if i < a.len() {
        assert(a[i].0 == (a + b)[i].0);
    } else {
        assert(b[i - a.len()].0 == breq[i - a.len()].0);
        assert(breq[i - a.len()].0 == (a + b)[i].0);
    }
}

/// After one drain step the handle's invariant still holds.
proof fn lemma_polling_wf<Req: Request, Res: Response, N: Node<Req = Req, Res = Res>>(
    orig: ChannelSender<Req, Res, N>,
    cur: ChannelSender<Req, Res, N>,
    done: int,
)
    requires
        orig.wf(),
        0 <= done <= orig.res_spec().len(),
        cur.serial_spec() == orig.serial_spec(),
        cur.issued_spec() == orig.issued_spec(),
        cur.res_map.wf(),
        cur.req_spec() == orig.req_spec(),
        cur.res_spec() == orig.res_spec().skip(done),
        cur.table_spec() == orig.table_spec() + orig.res_spec().take(done),
        cur.receiver.caps_fixed(),
    ensures
        cur.wf(),
{
    let ores = orig.res_spec();
    let otab = orig.table_spec();
    assert forall|i: int| 0 <= i < cur.table_spec().len() implies (
    #[trigger] cur.table_spec()[i].0) < cur.serial_spec() by {
        if i < otab.len() {
            assert(cur.table_spec()[i] == otab[i]);
        } else {
            assert(cur.table_spec()[i] == ores[i - otab.len()]);
        }
    }
    assert forall|i: int| 0 <= i < cur.res_spec().len() implies (
    #[trigger] cur.res_spec()[i].0) < cur.serial_spec() by {
        assert(cur.res_spec()[i] == ores[done + i]);
    }
    assert forall|i: int, j: int|
        0 <= i < j < cur.res_spec().len() implies (
    #[trigger] cur.res_spec()[i].0) != (#[trigger] cur.res_spec()[j].0) by {
        assert(cur.res_spec()[i] == ores[done + i]);
        assert(cur.res_spec()[j] == ores[done + j]);
    }
    assert forall|x: u64| id_in(cur.req_spec(), x) implies !(#[trigger] id_in(
        cur.res_spec(),
        x,
    )) && !id_in(cur.table_spec(), x) by {
        assert(id_in(orig.req_spec(), x));
        if id_in(cur.res_spec(), x) {
            let i = choose|i: int|
                0 <= i < cur.res_spec().len() && (#[trigger] cur.res_spec()[i].0)
                    == x;
            assert(ores[done + i].0 == x);
            assert(id_in(ores, x));
        }
        if id_in(cur.table_spec(), x) {
            let i = choose|i: int|
                0 <= i < cur.table_spec().len() && (#[trigger] cur.table_spec()[i].0) == x;
            if i < otab.len() {
                assert(otab[i].0 == x);
                assert(id_in(otab, x));
            } else {
                assert(ores[i - otab.len()].0 == x);
                assert(id_in(ores, x));
            }
        }
    }
    assert forall|x: u64| #[trigger] id_in(cur.res_spec(), x) implies !id_in(
        cur.table_spec(),
        x,
    ) by {
        let i = choose|i: int|
            0 <= i < cur.res_spec().len() && (#[trigger] cur.res_spec()[i].0)
                == x;
        assert(ores[done + i].0 == x);
        if id_in(cur.table_spec(), x) {
            let j = choose|j: int|
                0 <= j < cur.table_spec().len() && (#[trigger] cur.table_spec()[j].0) == x;
            if j < otab.len() {
                assert(otab[j].0 == x);
                assert(id_in(otab, x));
                assert(id_in(ores, x));
            } else {
                let a = j - otab.len();
                assert(ores[a].0 == x);
                assert(a < done && done + i < ores.len());
                assert(ores[a].0 != ores[done + i].0);
            }
        }
    }
}

/// Law: the correlation ids assigned by one sender are strictly
/// increasing and never reused within that sender's lifetime.
pub proof fn lemma_ids_strictly_increasing<
    Req: Request,
    Res: Response,
    N: Node<Req = Req, Res = Res>,
>(s: &ChannelSender<Req, Res, N>)
    requires
        s.wf(),
    ensures
        forall|i: int, j: int|
            0 <= i < j < s.issued_spec().len() ==> (#[trigger] s.issued_spec()[i]) < (
            #[trigger] s.issued_spec()[j]),
{
}

impl<Req: Request, Res: Response, N: Node<Req = Req, Res = Res>> Sender for ChannelSender<
    Req,
    Res,
    N,
> {
    type Req = Req;
    type Res = Res;

    open spec fn send_ready(&self) -> bool {
        self.wf()
    }

    fn send(&mut self, req: Req) -> (r: Result<Res, Error>) {
        self.send(req)
    }

    fn close(&mut self) {
        self.close()
    }
}

/// What a sender refused to queue, rendered for the transport error.
fn terminated_note() -> (r: String)
    ensures
        r@ == "channel terminated"@,
{
    "channel terminated".to_owned()
}

fn exhausted_note() -> (r: String)
    ensures
        r@ == "correlation ids exhausted"@,
{
    "correlation ids exhausted".to_owned()
}

fn saturated_note() -> (r: String)
    ensures
        r@ == "channel saturated"@,
{
    "channel saturated".to_owned()
}

} // verus!
