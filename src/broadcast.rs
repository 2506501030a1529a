use crate::neighborhood::{ids, NeighborHood};
use std::collections::{HashMap, HashSet};
use vstd::prelude::*;
use vstd::std_specs::iter::IteratorSpec;

verus! {

broadcast use vstd::std_specs::hash::group_hash_axioms;

/// The body of a message of the broadcast protocol.
pub enum Payload {
    Broadcast { message: usize },
    BroadcastOk,
    Read,
    ReadOk { messages: HashSet<usize> },
    Topology { topology: HashMap<String, Vec<String>> },
    TopologyOk,
    Gossip { seen: HashSet<usize> },
    GossipOk { seen: HashSet<usize> },
}

/// An event generated inside the node rather than received.
pub enum InjectedPayload {
    Gossip,
}

/// One input of the node: a message from a peer or client, a timer event, or the
/// end of the input.
pub enum Event {
    Message { src: String, payload: Payload },
    Injected(InjectedPayload),
    EOF,
}

/// A message the node emits: to `dst` where it is given, else as the reply to the
/// message being handled.
pub struct Outgoing {
    pub dst: Option<String>,
    pub payload: Payload,
}

/// Why a step could not be taken.
#[derive(PartialEq, Eq, Structural, Clone, Copy, Debug)]
pub enum StepError {
    /// A gossip partner that is not a member of the cluster.
    UnknownPeer,
}

impl Payload {
    pub open spec fn is_gossip_of(&self, s: Set<usize>) -> bool {
        match self {
            Payload::Gossip { seen } => seen@ == s,
            _ => false,
        }
    }

    pub open spec fn is_gossip_ok_of(&self, s: Set<usize>) -> bool {
        match self {
            Payload::GossipOk { seen } => seen@ == s,
            _ => false,
        }
    }

    pub open spec fn is_read_ok_of(&self, s: Set<usize>) -> bool {
        match self {
            Payload::ReadOk { messages } => messages@ == s,
            _ => false,
        }
    }
}

impl Outgoing {
    /// A reply to the message being handled.
    pub open spec fn is_reply(&self) -> bool {
        self.dst is None
    }

    /// A message to the node `to`.
    pub open spec fn is_to(&self, to: Seq<char>) -> bool {
        match self.dst {
            Some(d) => d@ == to,
            None => false,
        }
    }
}

/// The gossip one tick sends: to each neighbour `n` in turn, the values not yet
/// believed known to `n`, where there are any or where `n` is the node itself.
pub open spec fn gossip_plan(
    me: Seq<char>,
    nbrs: Seq<Seq<char>>,
    messages: Set<usize>,
    known: Map<Seq<char>, Set<usize>>,
) -> Seq<(Seq<char>, Set<usize>)>
    decreases nbrs.len(),
{
    if nbrs.len() == 0 {
        Seq::empty()
    } else {
        let rest = gossip_plan(me, nbrs.drop_last(), messages, known);
        let n = nbrs.last();
        let notify = messages.difference(known[n]);
        if !notify.is_empty() || n == me {
            rest.push((n, notify))
        } else {
            rest
        }
    }
}

/// `out` sends, in order, the gossip of `plan`.
pub open spec fn sends_plan(out: Seq<Outgoing>, plan: Seq<(Seq<char>, Set<usize>)>) -> bool {
    &&& out.len() == plan.len()
    &&& forall|i: int|
        0 <= i < out.len() ==> (#[trigger] out[i]).is_to(plan[i].0) && out[i].payload.is_gossip_of(
            plan[i].1,
        )
}

/// What a peer is believed to know after it declared `seen`.
pub open spec fn merged(
    known: Map<Seq<char>, Set<usize>>,
    p: Seq<char>,
    seen: Set<usize>,
) -> Map<Seq<char>, Set<usize>> {
    known.insert(p, known[p].union(seen))
}

/// `a` with every value of `b` added.
fn add_all(a: &mut HashSet<usize>, b: &HashSet<usize>)
    ensures
        final(a)@ == old(a)@.union(b@),
{
    broadcast use vstd::std_specs::hash::axiom_spec_hash_keys_iter;

    let ghost all = b.iter().remaining().unref();
    let ghost start = a@;
    for m in it: b.iter()
        invariant
            all.to_set() == b@,
            it.seq().unref() == all,
            forall|x: usize| #[trigger]
                a@.contains(x) <==> start.contains(x) || (exists|i: int|
                    0 <= i < it.index() && all[i] == x),
    {
        a.insert(*m);
    }
    assert(a@ =~= start.union(b@));
}

/// The values of `a` that are not in `b`.
fn difference(a: &HashSet<usize>, b: &HashSet<usize>) -> (r: HashSet<usize>)
    ensures
        r@ == a@.difference(b@),
{
    broadcast use vstd::std_specs::hash::axiom_spec_hash_keys_iter;

    let mut r: HashSet<usize> = HashSet::new();
    let ghost all = a.iter().remaining().unref();
    for m in it: a.iter()
        invariant
            all.to_set() == a@,
            it.seq().unref() == all,
            forall|x: usize| #[trigger]
                r@.contains(x) <==> (exists|i: int| 0 <= i < it.index() && all[i] == x)
                    && !b@.contains(x),
    {
        if !b.contains(m) {
            r.insert(*m);
        }
    }
    assert(r@ =~= a@.difference(b@));
    r
}

/// A copy of `a`.
fn copy_set(a: &HashSet<usize>) -> (r: HashSet<usize>)
    ensures
        r@ == a@,
{
    let mut r: HashSet<usize> = HashSet::new();
    add_all(&mut r, a);
    assert(r@ =~= a@);
    r
}

/// One node of the cluster: every value it has learned, and for each peer the
/// values that peer is believed to know.
pub struct BroadcastNode {
    node: String,
    messages: HashSet<usize>,
    peers: Vec<String>,
    known: Vec<HashSet<usize>>,
    neighborhood: NeighborHood,
}

proof fn lemma_index_of(v: Seq<Seq<char>>, i: int)
    requires
        v.no_duplicates(),
        0 <= i < v.len(),
    ensures
        v.index_of(v[i]) == i,
{
    let j = v.index_of(v[i]);
    assert(v.contains(v[i]));
    assert(v[j] == v[i]);
}

impl BroadcastNode {
    /// This node's own id.
    pub closed spec fn node_id(&self) -> Seq<char> {
        self.node@
    }

    /// Every value this node has learned.
    pub closed spec fn messages_view(&self) -> Set<usize> {
        self.messages@
    }

    /// The members of the cluster, each once.
    pub closed spec fn peer_ids(&self) -> Seq<Seq<char>> {
        ids(self.peers@)
    }

    /// For each member of the cluster, the values it is believed to know.
    pub closed spec fn known_view(&self) -> Map<Seq<char>, Set<usize>> {
        Map::new(
            |p: Seq<char>| ids(self.peers@).contains(p),
            |p: Seq<char>| self.known@[ids(self.peers@).index_of(p)]@,
        )
    }

    /// The gossip overlay in use.
    pub closed spec fn overlay(&self) -> NeighborHood {
        self.neighborhood
    }

    /// Each peer is believed to know only values this node holds.
    pub open spec fn beliefs_held(&self) -> bool {
        forall|p: Seq<char>|
            #[trigger] self.known_view().contains_key(p) ==> self.known_view()[p].subset_of(
                self.messages_view(),
            )
    }

    pub open spec fn wf(&self) -> bool {
        &&& self.well_laid()
        &&& self.beliefs_held()
    }

    /// Each peer is listed once, with one set of believed-known values, and the
    /// overlay is a well-formed partition.
    pub closed spec fn well_laid(&self) -> bool {
        &&& ids(self.peers@).no_duplicates()
        &&& self.known@.len() == self.peers@.len()
        &&& self.neighborhood.wf()
    }

    /// Nothing that the node holds differs between `self` and `other`.
    pub open spec fn same_state(&self, other: &Self) -> bool {
        &&& self.node_id() == other.node_id()
        &&& self.messages_view() == other.messages_view()
        &&& self.known_view() == other.known_view()
        &&& self.overlay() == other.overlay()
    }

    /// `later` holds every value `self` holds, and believes each peer to know at
    /// least what `self` believes it knows.
    pub open spec fn grows_to(&self, later: &Self) -> bool {
        &&& self.messages_view().subset_of(later.messages_view())
        &&& self.known_view().dom() == later.known_view().dom()
        &&& forall|p: Seq<char>|
            #[trigger] self.known_view().contains_key(p) ==> self.known_view()[p].subset_of(
                later.known_view()[p],
            )
    }

    /// Where `p` stands among the peers.
    fn peer_index(&self, p: &String) -> (r: Option<usize>)
        requires
            self.wf(),
        ensures
            match r {
                Some(i) => i < self.peer_ids().len() && self.peer_ids()[i as int] == p@,
                None => !self.peer_ids().contains(p@),
            },
    {
        let mut i: usize = 0;
        while i < self.peers.len()
            invariant
                i <= self.peers@.len(),
                forall|j: int| 0 <= j < i ==> ids(self.peers@)[j] != p@,
            decreases self.peers@.len() - i,
        {
            if self.peers[i] == *p {
                return Some(i);
            }
            i = i + 1;
        }
        None
    }

    /// A node named `node` in a cluster of `node_ids`: no values learned yet, none
    /// believed known to any peer, and no overlay until a topology arrives.
    pub fn from_init(node: String, node_ids: Vec<String>) -> (r: Self)
        ensures
            r.wf(),
            r.node_id() == node@,
            r.messages_view() == Set::<usize>::empty(),
            r.known_view() == Map::new(
                |p: Seq<char>| ids(node_ids@).contains(p),
                |p: Seq<char>| Set::<usize>::empty(),
            ),
            r.overlay().node_ids().len() == 0,
    {
        let mut r = BroadcastNode {
            node,
            messages: HashSet::new(),
            peers: Vec::new(),
            known: Vec::new(),
            neighborhood: NeighborHood::default(),
        };
        let mut i: usize = 0;
        while i < node_ids.len()
            invariant
                r.wf(),
                r.node@ == node@,
                r.messages@ == Set::<usize>::empty(),
                r.neighborhood.node_ids().len() == 0,
                i <= node_ids@.len(),
                forall|p: Seq<char>|
                    ids(r.peers@).contains(p) <==> exists|j: int|
                        0 <= j < i && #[trigger] ids(node_ids@)[j] == p,
                forall|j: int| 0 <= j < r.known@.len() ==> (#[trigger] r.known@[j])@ == Set::<
                    usize,
                >::empty(),
            decreases node_ids@.len() - i,
        {
            let ghost before = ids(r.peers@);
            let ghost x = ids(node_ids@)[i as int];
            if r.peer_index(&node_ids[i]).is_none() {
                proof {
                    crate::neighborhood::lemma_ids_push(r.peers@, node_ids@[i as int]);
                }
                r.peers.push(node_ids[i].clone());
                r.known.push(HashSet::new());
                assert(ids(r.peers@) == before.push(x));
                assert forall|p: Seq<char>| ids(r.peers@).contains(p) <==> (before.contains(p) || p == x) by {
                    if ids(r.peers@).contains(p) {
                        let k = choose|k: int| 0 <= k < ids(r.peers@).len() && ids(r.peers@)[k] == p;
                        if k < before.len() {
                            assert(before[k] == p);
                        }
                    }
                    if before.contains(p) {
                        let k = choose|k: int| 0 <= k < before.len() && before[k] == p;
                        assert(ids(r.peers@)[k] == p);
                    }
                    if p == x {
                        assert(ids(r.peers@)[before.len() as int] == p);
                    }
                }
            }
            assert forall|p: Seq<char>|
                ids(r.peers@).contains(p) <==> exists|j: int|
                    0 <= j < i + 1 && #[trigger] ids(node_ids@)[j] == p by {
                assert(ids(r.peers@).contains(p) <==> (before.contains(p) || p == x));
                if p == x {
                    assert(ids(node_ids@)[i as int] == p);
                }
                if exists|j: int| 0 <= j < i + 1 && #[trigger] ids(node_ids@)[j] == p {
                    let j = choose|j: int| 0 <= j < i + 1 && #[trigger] ids(node_ids@)[j] == p;
                    if j < i {
                        assert(before.contains(p));
                    }
                }
            }
            i = i + 1;
        }
        assert(r.known_view() =~= Map::new(
            |p: Seq<char>| ids(node_ids@).contains(p),
            |p: Seq<char>| Set::<usize>::empty(),
        )) by {
            assert forall|p: Seq<char>| ids(r.peers@).contains(p) == ids(node_ids@).contains(p) by {
                if ids(node_ids@).contains(p) {
                    let k = choose|k: int| 0 <= k < ids(node_ids@).len() && ids(node_ids@)[k] == p;
                }
            }
            assert forall|p: Seq<char>| ids(r.peers@).contains(p) implies r.known@[ids(r.peers@).index_of(p)]@ == Set::<usize>::empty() by {
                let k = ids(r.peers@).index_of(p);
            }
        }
        r
    }
}

impl BroadcastNode {
    /// The neighbours of this node in the overlay.
    pub open spec fn neighbour_ids(&self) -> Seq<Seq<char>> {
        self.overlay().neighbours_spec(self.node_id())
    }

    /// Every neighbour is a member of the cluster.
    pub open spec fn neighbours_known(&self) -> bool {
        forall|k: int|
            0 <= k < self.neighbour_ids().len() ==> self.known_view().contains_key(
                #[trigger] self.neighbour_ids()[k],
            )
    }

    /// The gossip of one tick.
    pub open spec fn tick_plan(&self) -> Seq<(Seq<char>, Set<usize>)> {
        gossip_plan(self.node_id(), self.neighbour_ids(), self.messages_view(), self.known_view())
    }

    proof fn lemma_known_at(&self, i: int)
        requires
            self.wf(),
            0 <= i < self.peer_ids().len(),
        ensures
            self.known_view().contains_key(self.peer_ids()[i]),
            self.known_view()[self.peer_ids()[i]] == self.known@[i]@,
    {
        lemma_index_of(ids(self.peers@), i);
    }

    /// For each neighbour, the values it is not believed to know, where there are
    /// any or where it is this node itself.
    fn gossip(&self) -> (r: Result<Vec<Outgoing>, StepError>)
        requires
            self.wf(),
        ensures
            self.neighbours_known() ==> (r matches Ok(v) && sends_plan(v@, self.tick_plan())),
            !self.neighbours_known() ==> r == Err::<Vec<Outgoing>, StepError>(StepError::UnknownPeer),
    {
        let nbrs = self.neighborhood.get_neighbours(&self.node);
        let ghost nb = ids(nbrs@);
        let mut out: Vec<Outgoing> = Vec::new();
        let mut j: usize = 0;
        while j < nbrs.len()
            invariant
                self.wf(),
                nb == ids(nbrs@),
                nb == self.neighbour_ids(),
                j <= nb.len(),
                forall|k: int| 0 <= k < j ==> self.known_view().contains_key(#[trigger] nb[k]),
                sends_plan(
                    out@,
                    gossip_plan(self.node_id(), nb.subrange(0, j as int), self.messages_view(), self.known_view()),
                ),
            decreases nb.len() - j,
        {
            let ghost prefix = nb.subrange(0, j as int + 1);
            assert(prefix.drop_last() =~= nb.subrange(0, j as int));
            match self.peer_index(&nbrs[j]) {
                None => {
                    assert(!self.known_view().contains_key(nb[j as int]));
                    assert(!self.neighbours_known());
                    return Err(StepError::UnknownPeer);
                },
                Some(i) => {
                    proof {
                        self.lemma_known_at(i as int);
                    }
                    let notify = difference(&self.messages, &self.known[i]);
                    if !notify.is_empty() || nbrs[j] == self.node {
                        out.push(Outgoing { dst: Some(nbrs[j].clone()), payload: Payload::Gossip { seen: notify } });
                    }
                },
            }
            j = j + 1;
        }
        assert(nb.subrange(0, j as int) =~= nb);
        Ok(out)
    }
}

impl BroadcastNode {
    /// Records that the peer at `i` declared `seen`, and learns `seen`.
    fn learn_from(&mut self, i: usize, seen: &HashSet<usize>)
        requires
            old(self).wf(),
            i < old(self).peer_ids().len(),
        ensures
            final(self).wf(),
            final(self).node_id() == old(self).node_id(),
            final(self).peer_ids() == old(self).peer_ids(),
            final(self).overlay() == old(self).overlay(),
            final(self).messages_view() == old(self).messages_view().union(seen@),
            final(self).known_view() == merged(
                old(self).known_view(),
                old(self).peer_ids()[i as int],
                seen@,
            ),
    {
        let ghost before = *self;
        proof {
            before.lemma_known_at(i as int);
        }
        add_all(&mut self.known[i], seen);
        add_all(&mut self.messages, seen);
        proof {
            let v = ids(self.peers@);
            assert forall|p: Seq<char>| #[trigger] v.contains(p) && p != v[i as int] implies self.known@[v.index_of(p)]@ == before.known@[v.index_of(p)]@ by {
                let k = v.index_of(p);
                assert(v.contains(p));
                assert(v[k] == p);
            }
            self.lemma_known_at(i as int);
            assert(self.known_view() =~= merged(before.known_view(), v[i as int], seen@));
        }
    }

    /// Handles one event: updates the node and returns what it sends.
    pub fn step(&mut self, event: Event) -> (r: Result<Vec<Outgoing>, StepError>)
        requires
            old(self).wf(),
        ensures
            final(self).wf(),
            old(self).grows_to(final(self)),
            final(self).node_id() == old(self).node_id(),
            match event {
                Event::EOF => r matches Ok(v) && v@.len() == 0 && old(self).same_state(final(self)),
                Event::Injected(_) => {
                    &&& old(self).same_state(final(self))
                    &&& old(self).neighbours_known() ==> (r matches Ok(v) && sends_plan(v@, old(self).tick_plan()))
                    &&& !old(self).neighbours_known() ==> r == Err::<Vec<Outgoing>, StepError>(StepError::UnknownPeer)
                },
                Event::Message { src, payload } => match payload {
                    Payload::Gossip { seen } => if old(self).known_view().contains_key(src@) {
                        &&& final(self).messages_view() == old(self).messages_view().union(seen@)
                        &&& final(self).known_view() == merged(old(self).known_view(), src@, seen@)
                        &&& final(self).overlay() == old(self).overlay()
                        &&& r matches Ok(v) && v@.len() == 1 && v@[0].is_reply() && v@[0].payload.is_gossip_ok_of(seen@)
                    } else {
                        &&& old(self).same_state(final(self))
                        &&& r == Err::<Vec<Outgoing>, StepError>(StepError::UnknownPeer)
                    },
                    Payload::GossipOk { seen } => if old(self).known_view().contains_key(src@) {
                        &&& final(self).messages_view() == old(self).messages_view().union(seen@)
                        &&& final(self).known_view() == merged(old(self).known_view(), src@, seen@)
                        &&& final(self).overlay() == old(self).overlay()
                        &&& r matches Ok(v) && v@.len() == 0
                    } else {
                        &&& old(self).same_state(final(self))
                        &&& r == Err::<Vec<Outgoing>, StepError>(StepError::UnknownPeer)
                    },
                    Payload::Broadcast { message } => {
                        &&& final(self).messages_view() == old(self).messages_view().insert(message)
                        &&& final(self).known_view() == old(self).known_view()
                        &&& final(self).overlay() == old(self).overlay()
                        &&& r matches Ok(v) && v@.len() == 1 && v@[0].is_reply() && v@[0].payload is BroadcastOk
                    },
                    Payload::Read => {
                        &&& old(self).same_state(final(self))
                        &&& r matches Ok(v) && v@.len() == 1 && v@[0].is_reply()
                            && v@[0].payload.is_read_ok_of(old(self).messages_view())
                    },
                    Payload::Topology { topology } => {
                        &&& final(self).messages_view() == old(self).messages_view()
                        &&& final(self).known_view() == old(self).known_view()
                        &&& final(self).overlay().node_ids().to_set() == topology@.dom().map(|k: String| k@)
                        &&& final(self).overlay().topology_map() == topology@
                        &&& r matches Ok(v) && v@.len() == 1 && v@[0].is_reply() && v@[0].payload is TopologyOk
                    },
                    _ => r matches Ok(v) && v@.len() == 0 && old(self).same_state(final(self)),
                },
            },
    {
        match event {
            Event::EOF => Ok(Vec::new()),
            Event::Injected(InjectedPayload::Gossip) => self.gossip(),
            Event::Message { src, payload } => match payload {
                Payload::Gossip { seen } => match self.peer_index(&src) {
                    None => Err(StepError::UnknownPeer),
                    Some(i) => {
                        self.learn_from(i, &seen);
                        Ok(vec![Outgoing { dst: None, payload: Payload::GossipOk { seen } }])
                    },
                },
                Payload::GossipOk { seen } => match self.peer_index(&src) {
                    None => Err(StepError::UnknownPeer),
                    Some(i) => {
                        self.learn_from(i, &seen);
                        Ok(Vec::new())
                    },
                },
                Payload::Broadcast { message } => {
                    let ghost before = *self;
                    self.messages.insert(message);
                    assert(self.known_view() == before.known_view());
                    assert forall|p: Seq<char>| #[trigger] self.known_view().contains_key(p) implies self.known_view()[p].subset_of(self.messages_view()) by {
                        assert(before.known_view()[p].subset_of(before.messages_view()));
                    }
                    Ok(vec![Outgoing { dst: None, payload: Payload::BroadcastOk }])
                },
                Payload::Read => {
                    let messages = copy_set(&self.messages);
                    Ok(vec![Outgoing { dst: None, payload: Payload::ReadOk { messages } }])
                },
                Payload::Topology { topology } => {
                    let ghost before = *self;
                    self.neighborhood = NeighborHood::create(topology);
                    assert(self.known_view() == before.known_view());
                    assert(self.messages_view() == before.messages_view());
                    Ok(vec![Outgoing { dst: None, payload: Payload::TopologyOk }])
                },
                _ => Ok(Vec::new()),
            },
        }
    }
}

/// Along any run of steps, a later state holds every value an
/// earlier one held, and believes each peer to know at least as much.
pub proof fn lemma_run_grows(run: Seq<BroadcastNode>, i: int, j: int)
    requires
        forall|k: int| 0 <= k < run.len() - 1 ==> (#[trigger] run[k]).grows_to(&run[k + 1]),
        0 <= i <= j < run.len(),
    ensures
        run[i].grows_to(&run[j]),
    decreases j - i,
{
    if i < j {
        lemma_run_grows(run, i, j - 1);
        assert(run[j - 1].grows_to(&run[j]));
    }
}

/// Handling the same gossip from `p` twice leaves the node as handling
/// it once; and once a payload has been handled, handling it again changes nothing.
pub proof fn lemma_gossip_redelivery(
    messages: Set<usize>,
    known: Map<Seq<char>, Set<usize>>,
    p: Seq<char>,
    seen: Set<usize>,
)
    requires
        known.contains_key(p),
    ensures
        merged(merged(known, p, seen), p, seen) == merged(known, p, seen),
        messages.union(seen).union(seen) == messages.union(seen),
        seen.subset_of(messages) && seen.subset_of(known[p]) ==> {
            &&& merged(known, p, seen) == known
            &&& messages.union(seen) == messages
        },
{
    assert(known[p].union(seen).union(seen) =~= known[p].union(seen));
    assert(merged(merged(known, p, seen), p, seen) =~= merged(known, p, seen));
    assert(messages.union(seen).union(seen) =~= messages.union(seen));
    if seen.subset_of(messages) && seen.subset_of(known[p]) {
        assert(known[p].union(seen) =~= known[p]);
        assert(merged(known, p, seen) =~= known);
        assert(messages.union(seen) =~= messages);
    }
}

/// A peer that has every value it is believed to know holds all of
/// the sender's values once it has learned the sender's gossip to it.
pub proof fn lemma_gossip_completes(
    sender: Set<usize>,
    believed: Set<usize>,
    receiver: Set<usize>,
)
    requires
        believed.subset_of(receiver),
    ensures
        sender.subset_of(receiver.union(sender.difference(believed))),
{
}

/// One tick reaches every neighbour: `nbrs[k]` is either believed to
/// know every value already, or is sent exactly the values it is not believed to know.
pub proof fn lemma_tick_reaches(
    me: Seq<char>,
    nbrs: Seq<Seq<char>>,
    messages: Set<usize>,
    known: Map<Seq<char>, Set<usize>>,
    k: int,
)
    requires
        0 <= k < nbrs.len(),
    ensures
        messages.subset_of(known[nbrs[k]]) || exists|i: int|
            0 <= i < gossip_plan(me, nbrs, messages, known).len() && #[trigger] gossip_plan(
                me,
                nbrs,
                messages,
                known,
            )[i] == (nbrs[k], messages.difference(known[nbrs[k]])),
    decreases nbrs.len(),
{
    let plan = gossip_plan(me, nbrs, messages, known);
    let rest = gossip_plan(me, nbrs.drop_last(), messages, known);
    let n = nbrs.last();
    let notify = messages.difference(known[n]);
    if k == nbrs.len() - 1 {
        if !notify.is_empty() || n == me {
            assert(plan[rest.len() as int] == (nbrs[k], messages.difference(known[nbrs[k]])));
        } else {
            assert forall|x: usize| messages.contains(x) implies known[n].contains(x) by {
                if !known[n].contains(x) {
                    assert(notify.contains(x));
                }
            }
        }
    } else {
        lemma_tick_reaches(me, nbrs.drop_last(), messages, known, k);
        assert(nbrs.drop_last()[k] == nbrs[k]);
        if exists|i: int| 0 <= i < rest.len() && #[trigger] rest[i] == (nbrs[k], messages.difference(known[nbrs[k]])) {
            let i = choose|i: int| 0 <= i < rest.len() && #[trigger] rest[i] == (nbrs[k], messages.difference(known[nbrs[k]]));
            assert(plan[i] == rest[i]);
        }
    }
}

} // verus!
