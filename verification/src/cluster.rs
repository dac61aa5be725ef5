use vstd::prelude::*;
use core::marker::PhantomData;
use crate::node::{Node, Server};
use crate::request::channel::{id_in, ids_below, ids_distinct};
use crate::request::{Request, Response, Sender};
use crate::util::Error;

verus! {

/// The membership bookkeeping of one cluster: the nodes and servers
/// that joined, and the sender responsible for reaching each member,
/// keyed by the member id it was assigned on joining.
#[verifier::reject_recursive_types(Req)]
#[verifier::reject_recursive_types(Res)]
pub struct Cluster<N: Node, S: Server, Req: Request, Res: Response, SE: Sender<
    Req = Req,
    Res = Res,
>> {
    phantom: PhantomData<(Req, Res)>,
    nodes: Vec<N>,
    servers: Vec<S>,
    map: Vec<(u64, SE)>,
    id: u64,
}

impl<N: Node, S: Server, Req: Request, Res: Response, SE: Sender<Req = Req, Res = Res>> Cluster<
    N,
    S,
    Req,
    Res,
    SE,
> {
    /// The members' senders, keyed by member id, in joining order.
    pub closed spec fn map_spec(&self) -> Seq<(u64, SE)> {
        self.map@
    }

    /// The next member id to assign.
    pub closed spec fn id_spec(&self) -> u64 {
        self.id
    }

    /// How many nodes joined.
    pub closed spec fn nodes_len(&self) -> nat {
        self.nodes@.len()
    }

    /// How many servers joined.
    pub closed spec fn servers_len(&self) -> nat {
        self.servers@.len()
    }

    /// Member ids are unique and below the next id to assign.
    pub open spec fn wf(&self) -> bool {
        ids_distinct(self.map_spec()) && ids_below(self.map_spec(), self.id_spec())
    }

    /// A member was registered under `id`.
    pub open spec fn has_member(&self, id: u64) -> bool {
        id_in(self.map_spec(), id)
    }

    /// The position of the member registered under `id`.
    pub open spec fn member_idx(&self, id: u64) -> int {
        choose|i: int| 0 <= i < self.map_spec().len() && (#[trigger] self.map_spec()[i].0) == id
    }

    pub fn new() -> (r: Result<Self, Error>)
        ensures
            r matches Ok(c) && c.wf() && c.id_spec() == 0 && c.map_spec() =~= Seq::<
                (u64, SE),
            >::empty() && c.nodes_len() == 0 && c.servers_len() == 0,
    {
        Ok(Cluster {
            phantom: PhantomData,
            nodes: Vec::new(),
            servers: Vec::new(),
            map: Vec::new(),
            id: 0,
        })
    }

    /// Hands out the next member id.
    fn get_node_id(&mut self) -> (r: u64)
        requires
            old(self).id_spec() < u64::MAX,
        ensures
            r == old(self).id_spec(),
            final(self).id_spec() == old(self).id_spec() + 1,
            final(self).map_spec() == old(self).map_spec(),
            final(self).nodes_len() == old(self).nodes_len(),
            final(self).servers_len() == old(self).servers_len(),
    {
        let id = self.id;
        self.id = self.id + 1;
        id
    }

    /// Registers a node together with the sender that reaches it.
    pub fn join_node(&mut self, sender: SE, n: N)
        requires
            old(self).wf(),
            old(self).id_spec() < u64::MAX,
        ensures
            final(self).wf(),
            final(self).map_spec() == old(self).map_spec().push((old(self).id_spec(), sender)),
            final(self).id_spec() == old(self).id_spec() + 1,
            final(self).nodes_len() == old(self).nodes_len() + 1,
            final(self).servers_len() == old(self).servers_len(),
    {
        self.nodes.push(n);
        let id = self.get_node_id();
        self.map.push((id, sender));
        proof {
            lemma_member_push(old(self).map_spec(), id, sender, final(self).id_spec());
        }
    }

    /// Registers a server together with the sender that reaches it.
    pub fn join_server(&mut self, sender: SE, s: S)
        requires
            old(self).wf(),
            old(self).id_spec() < u64::MAX,
        ensures
            final(self).wf(),
            final(self).map_spec() == old(self).map_spec().push((old(self).id_spec(), sender)),
            final(self).id_spec() == old(self).id_spec() + 1,
            final(self).servers_len() == old(self).servers_len() + 1,
            final(self).nodes_len() == old(self).nodes_len(),
    {
        self.servers.push(s);
        let id = self.get_node_id();
        self.map.push((id, sender));
        proof {
            lemma_member_push(old(self).map_spec(), id, sender, final(self).id_spec());
        }
    }

    /// Routes one request to the member registered under `id` and
    /// hands back what its sender returned.
    pub fn send(&mut self, id: u64, req: Req) -> (r: Result<Res, Error>)
        requires
            old(self).wf(),
            old(self).has_member(id),
            old(self).map_spec()[old(self).member_idx(id)].1.send_ready(),
        ensures
            final(self).wf(),
            final(self).id_spec() == old(self).id_spec(),
            final(self).map_spec().len() == old(self).map_spec().len(),
            forall|i: int|
                0 <= i < final(self).map_spec().len() ==> (#[trigger] final(self).map_spec()[i].0)
                    == old(self).map_spec()[i].0,
    {
        let n = self.map.len();
        let mut i: usize = 0;
        while i < n
            invariant
                old(self).wf(),
                old(self).has_member(id),
                old(self).map_spec()[old(self).member_idx(id)].1.send_ready(),
                *self == *old(self),
                n == self.map_spec().len(),
                0 <= i <= n,
                forall|j: int| 0 <= j < i ==> (#[trigger] self.map_spec()[j].0) != id,
            decreases n - i,
        {
            if self.map[i].0 == id {
                proof {
                    assert(old(self).map_spec()[i as int].0 == id);
                    assert(old(self).member_idx(id) == i as int);
                }
                let (mid, mut sender) = self.map.remove(i);
                let res = sender.send(req);
                self.map.insert(i, (mid, sender));
                proof {
                    let ii = i as int;
                    let om = old(self).map_spec();
                    assert(self.map_spec() =~= om.update(ii, (om[ii].0, sender)));
                    assert forall|a: int|
                        0 <= a < self.map_spec().len() implies (#[trigger] self.map_spec()[a].0)
                            == om[a].0 by {}
                    assert forall|a: int, b: int|
                        0 <= a < b < self.map_spec().len() implies (#[trigger] self.map_spec()[
                        a
                    ].0) != (#[trigger] self.map_spec()[b].0) by {
                        assert(om[a].0 != om[b].0);
                    }
                    assert forall|a: int| 0 <= a < self.map_spec().len() implies (
                    #[trigger] self.map_spec()[a].0) < self.id_spec() by {
                        assert(om[a].0 < self.id_spec());
                    }
                }
                return res;
            }
            i = i + 1;
        }
        proof {
            assert(!old(self).has_member(id));
        }
        vstd::pervasive::unreached()
    }
}

/// Appending a member under the freshly assigned id keeps the member
/// ids unique and bounded.
proof fn lemma_member_push<SE>(m: Seq<(u64, SE)>, id: u64, sender: SE, bound: u64)
    requires
        ids_distinct(m),
        ids_below(m, id),
        id < bound,
    ensures
        ids_distinct(m.push((id, sender))),
        ids_below(m.push((id, sender)), bound),
{
    let t = m.push((id, sender));
    assert forall|i: int, j: int| 0 <= i < j < t.len() implies (#[trigger] t[i].0) != (
    #[trigger] t[j].0) by {
        if j == m.len() as int {
            assert(t[i] == m[i]);
            assert(m[i].0 < id);
        }
    }
    assert forall|i: int| 0 <= i < t.len() implies (#[trigger] t[i].0) < bound by {
        if i < m.len() {
            assert(t[i] == m[i]);
        }
    }
}

} // verus!
