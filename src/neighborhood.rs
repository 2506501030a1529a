use std::cmp::Ordering;
use std::collections::HashMap;
use vstd::prelude::*;

verus! {

/// A partition of the cluster's nodes into buckets of `interval` consecutive ids
/// (in sorted order), each headed by a leader: an overlay whose fanout per node is
/// about `sqrt(n)`.
pub struct NeighborHood {
    topology: HashMap<String, Vec<String>>,
    node_count: usize,
    interval: usize,
    leaders: Vec<String>,
    nodes: Vec<String>,
}

/// Lexicographic order on node ids, character by character (by code point).
pub open spec fn id_lt(a: Seq<char>, b: Seq<char>) -> bool
    decreases a.len(),
{
    if a.len() == 0 {
        b.len() > 0
    } else if b.len() == 0 {
        false
    } else if a[0] == b[0] {
        id_lt(a.drop_first(), b.drop_first())
    } else {
        (a[0] as u32) < (b[0] as u32)
    }
}

/// The character sequences of a list of node ids.
pub open spec fn ids(v: Seq<String>) -> Seq<Seq<char>> {
    v.map_values(|s: String| s@)
}

/// Ids in non-decreasing order.
pub open spec fn sorted_ids(v: Seq<Seq<char>>) -> bool {
    forall|i: int, j: int| 0 <= i < j < v.len() ==> !id_lt(#[trigger] v[j], #[trigger] v[i])
}

/// `k` is the bucket width for `n` nodes: `max(1, floor(sqrt(n)))`.
pub open spec fn is_interval(n: int, k: int) -> bool {
    &&& k >= 1
    &&& if n == 0 {
        k == 1
    } else {
        k * k <= n < (k + 1) * (k + 1)
    }
}

/// Every `k`-th id of `nodes`, from the first.
pub open spec fn leaders_of(nodes: Seq<Seq<char>>, k: int) -> Seq<Seq<char>> {
    Seq::new(((nodes.len() + k - 1) / k) as nat, |j: int| nodes[j * k])
}

/// The gossip targets of the node at sorted position `pos`: a leader talks to its
/// bucket and to all leaders, any other node to the leaders only.
pub open spec fn neighbours_of(nodes: Seq<Seq<char>>, k: int, pos: int) -> Seq<Seq<char>> {
    if pos % k == 0 {
        let end = if pos + k < nodes.len() { pos + k } else { nodes.len() as int };
        nodes.subrange(pos, end) + leaders_of(nodes, k)
    } else {
        leaders_of(nodes, k)
    }
}

/// Relies on `Ord for String`: strings compare by their code points, lexicographically.
#[verifier::external_body]
fn compare_ids(a: &String, b: &String) -> (r: Ordering)
    ensures
        (r == Ordering::Less) == id_lt(a@, b@),
        (r == Ordering::Equal) == (a@ == b@),
        (r == Ordering::Greater) == id_lt(b@, a@),
{
    a.cmp(b)
}

/// Relies on `slice::sort`: the same ids, each no greater than the next.
#[verifier::external_body]
fn sort_ids(v: &mut Vec<String>)
    ensures
        ids(final(v)@).to_multiset() == ids(old(v)@).to_multiset(),
        sorted_ids(ids(final(v)@)),
{
    v.sort();
}

/// Relies on `HashMap::keys`: each key of the map once.
#[verifier::external_body]
fn key_ids(m: &HashMap<String, Vec<String>>) -> (r: Vec<String>)
    ensures
        ids(r@).no_duplicates(),
        ids(r@).to_set() == m@.dom().map(|k: String| k@),
{
    m.keys().cloned().collect()
}

/// `floor(sqrt(n))`.
fn floor_sqrt(n: usize) -> (r: usize)
    ensures
        r * r <= n < (r + 1) * (r + 1),
{
    let mut r: usize = 0;
    while r + 1 <= n / (r + 1)
        invariant
            r * r <= n,
            r < usize::MAX,
            r <= n,
        decreases n - r,
    {
        let d: usize = r + 1;
        assert(d * d <= n) by (nonlinear_arith)
            requires
                d <= (n as int) / (d as int),
                d > 0,
        ;
        assert(d <= n) by (nonlinear_arith)
            requires
                d * d <= n,
                d > 0,
        ;
        assert(d < usize::MAX) by (nonlinear_arith)
            requires
                d * d <= n,
                n <= usize::MAX,
                usize::MAX > 1,
        ;
        r = d;
    }
    let d: usize = r + 1;
    assert(n < d * d) by (nonlinear_arith)
        requires
            (n as int) / (d as int) < d,
            d > 0,
    ;
    r
}

/// The ids `nodes` are distinct and sorted, `k` is their bucket width, and `leaders`
/// holds every `k`-th of them.
pub open spec fn is_partition(nodes: Seq<Seq<char>>, k: int, leaders: Seq<Seq<char>>) -> bool {
    &&& nodes.no_duplicates()
    &&& sorted_ids(nodes)
    &&& is_interval(nodes.len() as int, k)
    &&& leaders == leaders_of(nodes, k)
}

proof fn lemma_permutation_keeps<A>(a: Seq<A>, b: Seq<A>)
    requires
        a.to_multiset() == b.to_multiset(),
        a.no_duplicates(),
    ensures
        b.no_duplicates(),
        b.to_set() == a.to_set(),
{
    broadcast use vstd::seq_lib::to_multiset_contains;

    a.lemma_multiset_has_no_duplicates();
    b.lemma_multiset_has_no_duplicates_conv();
    assert(b.to_set() =~= a.to_set()) by {
        assert forall|x: A| b.to_set().contains(x) == a.to_set().contains(x) by {
            assert(b.contains(x) == (b.to_multiset().count(x) > 0));
            assert(a.contains(x) == (a.to_multiset().count(x) > 0));
        }
    }
}

pub(crate) proof fn lemma_ids_push(v: Seq<String>, s: String)
    ensures
        ids(v.push(s)) == ids(v).push(s@),
{
    assert(ids(v.push(s)) =~= ids(v).push(s@));
}

proof fn lemma_leader_count(n: int, k: int, c: int)
    requires
        k > 0,
        c >= 0,
        c * k >= n >= 0,
        c == 0 || (c - 1) * k < n,
    ensures
        (n + k - 1) / k == c,
{
    if c == 0 {
        assert(n == 0) by (nonlinear_arith)
            requires c == 0, c * k >= n >= 0;
        assert((k - 1) / k == 0) by (nonlinear_arith)
            requires k > 0;
    } else {
        assert(c * k <= n + k - 1 < (c + 1) * k) by (nonlinear_arith)
            requires
                k > 0,
                c * k >= n,
                (c - 1) * k < n,
        ;
        vstd::arithmetic::div_mod::lemma_fundamental_div_mod_converse(n + k - 1, k, c, n + k - 1 - c * k);
    }
}

impl NeighborHood {
    /// The node ids, in sorted order.
    pub closed spec fn node_ids(&self) -> Seq<Seq<char>> {
        ids(self.nodes@)
    }

    /// The width of a bucket.
    pub closed spec fn bucket_width(&self) -> int {
        self.interval as int
    }

    /// The leaders' ids, in sorted order.
    pub closed spec fn leader_ids(&self) -> Seq<Seq<char>> {
        ids(self.leaders@)
    }

    /// The topology this partition was built from.
    pub closed spec fn topology_map(&self) -> Map<String, Vec<String>> {
        self.topology@
    }

    /// The stored node count is that of `node_ids`.
    pub closed spec fn counted(&self) -> bool {
        self.node_count == self.nodes@.len()
    }

    /// The partition is sorted, bucketed and led as `is_partition` says, and its
    /// node count is the number of its nodes.
    pub open spec fn wf(&self) -> bool {
        &&& is_partition(self.node_ids(), self.bucket_width(), self.leader_ids())
        &&& self.counted()
    }

    /// The gossip targets of `source`: none where it is not a node of the partition.
    pub open spec fn neighbours_spec(&self, source: Seq<char>) -> Seq<Seq<char>> {
        if self.node_ids().contains(source) {
            neighbours_of(
                self.node_ids(),
                self.bucket_width(),
                self.node_ids().index_of(source),
            )
        } else {
            Seq::empty()
        }
    }

    /// Builds the partition of the nodes of `topology`: the node ids sorted, the
    /// bucket width `max(1, floor(sqrt(n)))`, and every bucket's first node as leader.
    pub fn create(topology: HashMap<String, Vec<String>>) -> (r: Self)
        ensures
            r.wf(),
            r.node_ids().to_set() == topology@.dom().map(|k: String| k@),
            r.topology_map() == topology@,
    {
        let mut nodes = key_ids(&topology);
        let ghost keys = ids(nodes@);
        sort_ids(&mut nodes);
        proof {
            lemma_permutation_keeps(keys, ids(nodes@));
        }
        let n = nodes.len();
        let root = floor_sqrt(n);
        let interval: usize = if root == 0 { 1 } else { root };
        assert(is_interval(n as int, interval as int)) by (nonlinear_arith)
            requires
                root * root <= n < (root + 1) * (root + 1),
                interval == (if root == 0 { 1 } else { root }),
        ;
        let mut leaders: Vec<String> = Vec::new();
        let mut i: usize = 0;
        assert(leaders@.len() * interval == 0) by (nonlinear_arith)
            requires leaders@.len() == 0;
        while i < n
            invariant
                n == nodes@.len(),
                interval >= 1,
                i <= n,
                i == leaders@.len() * interval || i == n,
                i == n ==> leaders@.len() * interval >= n,
                leaders@.len() == 0 || (leaders@.len() - 1) * interval < n,
                ids(leaders@) == Seq::new(leaders@.len(), |j: int| ids(nodes@)[j * interval]),
            decreases n - i,
        {
            let ghost c = leaders@.len();
            let ghost old_leaders = leaders@;
            assert(i == c * interval);
            leaders.push(nodes[i].clone());
            assert forall|j: int| 0 <= j < leaders@.len() implies #[trigger] ids(leaders@)[j] == ids(nodes@)[j * interval] by {
                assert(j * interval <= c * interval) by (nonlinear_arith)
                    requires j <= c, interval >= 1;
                if j < c {
                    assert(ids(leaders@)[j] == ids(old_leaders)[j]);
                }
            }
            assert(ids(leaders@) =~= Seq::new(leaders@.len(), |j: int| ids(nodes@)[j * interval]));
            assert((c + 1) * interval == c * interval + interval) by (nonlinear_arith);
            if n - i > interval {
                i = i + interval;
            } else {
                i = n;
            }
        }
        proof {
            lemma_leader_count(n as int, interval as int, leaders@.len() as int);
            assert(ids(leaders@) =~= leaders_of(ids(nodes@), interval as int));
        }
        NeighborHood { topology, node_count: n, interval, leaders, nodes }
    }
}

impl NeighborHood {
    /// Where `source` stands among the sorted node ids, by binary search.
    fn position(&self, source: &String) -> (r: Option<usize>)
        requires
            self.wf(),
        ensures
            match r {
                Some(i) => i < self.node_ids().len() && self.node_ids()[i as int] == source@,
                None => !self.node_ids().contains(source@),
            },
    {
        let ghost v = self.node_ids();
        let mut lo: usize = 0;
        let mut hi: usize = self.nodes.len();
        while lo < hi
            invariant
                v == ids(self.nodes@),
                sorted_ids(v),
                hi <= v.len(),
                forall|i: int| 0 <= i < lo ==> v[i] != source@,
                forall|i: int| hi <= i < v.len() ==> v[i] != source@,
            decreases hi - lo,
        {
            let mid = lo + (hi - lo) / 2;
            match compare_ids(&self.nodes[mid], source) {
                Ordering::Less => {
                    assert forall|i: int| 0 <= i <= mid implies v[i] != source@ by {
                        if i < mid {
                            assert(!id_lt(v[mid as int], v[i]));
                        }
                    }
                    lo = mid + 1;
                },
                Ordering::Equal => {
                    return Some(mid);
                },
                Ordering::Greater => {
                    assert forall|i: int| mid <= i < v.len() implies v[i] != source@ by {
                        if mid < i {
                            assert(!id_lt(v[i], v[mid as int]));
                        }
                    }
                    hi = mid;
                },
            }
        }
        None
    }

    /// The nodes that `source` gossips with: where `source` is the leader of its
    /// bucket, the bucket followed by all leaders; else the leaders; and none where
    /// `source` is not a node of the partition.
    pub fn get_neighbours(&self, source: &String) -> (r: Vec<String>)
        requires
            self.wf(),
        ensures
            ids(r@) == self.neighbours_spec(source@),
    {
        let ghost v = self.node_ids();
        let ghost k = self.bucket_width();
        let mut out: Vec<String> = Vec::new();
        match self.position(source) {
            None => {
                assert(ids(out@) =~= self.neighbours_spec(source@));
                out
            },
            Some(position) => {
                proof {
                    assert(v.index_of(source@) == position) by {
                        let c = v.index_of(source@);
                        assert(v[c] == v[position as int]);
                    }
                }
                if position % self.interval == 0 {
                    let start = position;
                    let end = if self.node_count - start > self.interval {
                        start + self.interval
                    } else {
                        self.node_count
                    };
                    let mut i: usize = start;
                    while i < end
                        invariant
                            start <= i <= end <= v.len(),
                            v == ids(self.nodes@),
                            ids(out@) == v.subrange(start as int, i as int),
                        decreases end - i,
                    {
                        proof {
                            lemma_ids_push(out@, self.nodes@[i as int]);
                        }
                        out.push(self.nodes[i].clone());
                        i = i + 1;
                        assert(ids(out@) =~= v.subrange(start as int, i as int));
                    }
                }
                let ghost bucket = ids(out@);
                let mut j: usize = 0;
                while j < self.leaders.len()
                    invariant
                        j <= self.leaders@.len(),
                        ids(out@) == bucket + ids(self.leaders@).subrange(0, j as int),
                    decreases self.leaders@.len() - j,
                {
                    proof {
                        lemma_ids_push(out@, self.leaders@[j as int]);
                    }
                    out.push(self.leaders[j].clone());
                    j = j + 1;
                    assert(ids(out@) =~= bucket + ids(self.leaders@).subrange(0, j as int));
                }
                assert(ids(self.leaders@).subrange(0, j as int) =~= ids(self.leaders@));
                assert(ids(out@) =~= self.neighbours_spec(source@));
                out
            },
        }
    }
}

impl Default for NeighborHood {
    /// The partition before any topology is known: no nodes, so no node has a
    /// neighbour.
    fn default() -> (r: Self)
        ensures
            r.wf(),
            r.node_ids().len() == 0,
    {
        let r = NeighborHood {
            topology: HashMap::new(),
            node_count: 0,
            interval: 1,
            leaders: Vec::new(),
            nodes: Vec::new(),
        };
        assert(ids(r.leaders@) =~= leaders_of(ids(r.nodes@), 1));
        r
    }
}

/// In a partition of `n` nodes with bucket width `k`, no node has more
/// than `k + leaders.len()` neighbours, and there are `ceil(n / k)` leaders.
pub proof fn lemma_fanout_bound(nodes: Seq<Seq<char>>, k: int, leaders: Seq<Seq<char>>, pos: int)
    requires
        is_partition(nodes, k, leaders),
        0 <= pos < nodes.len(),
    ensures
        neighbours_of(nodes, k, pos).len() <= k + leaders.len(),
        leaders.len() == (nodes.len() + k - 1) / k,
{
}

/// For the overlay a node queries: whatever the source, at most
/// `bucket_width() + leader_ids().len()` neighbours.
pub proof fn lemma_overlay_fanout(p: &NeighborHood, source: Seq<char>)
    requires
        p.wf(),
    ensures
        p.neighbours_spec(source).len() <= p.bucket_width() + p.leader_ids().len(),
        p.leader_ids().len() == (p.node_ids().len() + p.bucket_width() - 1) / p.bucket_width(),
{
    if p.node_ids().contains(source) {
        let i = p.node_ids().index_of(source);
        lemma_fanout_bound(p.node_ids(), p.bucket_width(), p.leader_ids(), i);
    }
}

} // verus!
