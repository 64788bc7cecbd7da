//! Fractal-tree peer topology: nodes keyed by their subdivision address,
//! and breadth-first routing along the declared adjacencies.

use vstd::prelude::*;
use crate::subdivision::FractalAddress;
use crate::block::addr_chars;

verus! {

/// A peer: its own address and the addresses it is adjacent to.
#[derive(Debug)]
pub struct NetworkNode {
    pub address: FractalAddress,
    pub peers: Vec<FractalAddress>,
}

/// The peer table: one node per address, the address being the key.
pub struct FractalNetwork {
    pub nodes: Vec<NetworkNode>,
}

/// The table's well-formedness: the addresses are pairwise distinct, so
/// each one keys at most one node.
pub open spec fn nodes_wf(s: Seq<NetworkNode>) -> bool {
    forall|i: int, j: int|
        0 <= i < j < s.len() ==> (#[trigger] s[i]).address@ != (#[trigger] s[j]).address@
}

/// One hop of a peer walk: some node of the table holds the address `u`
/// and lists `v` among its peers.
pub open spec fn is_peer_step(nodes: Seq<NetworkNode>, u: Seq<u8>, v: Seq<u8>) -> bool {
    exists|i: int|
        0 <= i < nodes.len() && (#[trigger] nodes[i]).address@ == u && exists|j: int|
            0 <= j < nodes[i].peers@.len() && (#[trigger] nodes[i].peers@[j])@ == v
}

/// Every consecutive pair of the path is a hop along a declared peer
/// adjacency.
pub open spec fn peer_walk(nodes: Seq<NetworkNode>, path: Seq<FractalAddress>) -> bool {
    forall|k: int|
        0 <= k < path.len() - 1 ==> is_peer_step(nodes, (#[trigger] path[k])@, path[k + 1]@)
}

impl FractalNetwork {
    /// An empty network.
    pub fn new() -> (r: FractalNetwork)
        ensures
            r.nodes@.len() == 0,
            nodes_wf(r.nodes@),
    {
        FractalNetwork { nodes: Vec::new() }
    }

    /// Adds a node. A node already holding the same address is replaced;
    /// otherwise the new node is appended. Distinctness of the stored
    /// addresses is preserved.
    pub fn add_node(&mut self, node: NetworkNode)
        requires
            nodes_wf(old(self).nodes@),
        ensures
            nodes_wf(final(self).nodes@),
            ({
                ||| exists|i: int|
                    {
                        &&& 0 <= i < old(self).nodes@.len()
                        &&& (#[trigger] old(self).nodes@[i]).address@ == node.address@
                        &&& forall|j: int|
                            0 <= j < i ==> (#[trigger] old(self).nodes@[j]).address@
                                != node.address@
                        &&& final(self).nodes@ =~= old(self).nodes@.update(i, node)
                    }
                ||| {
                    &&& (forall|i: int|
                        0 <= i < old(self).nodes@.len() ==> (#[trigger] old(self).nodes@[i]).address@
                            != node.address@)
                    &&& final(self).nodes@ =~= old(self).nodes@.push(node)
                }
            }),
    {
        let mut i: usize = 0;
        while i < self.nodes.len()
            invariant
                i <= self.nodes.len(),
                self.nodes@ == old(self).nodes@,
                nodes_wf(old(self).nodes@),
                forall|j: int| 0 <= j < i ==> (#[trigger] self.nodes@[j]).address@ != node.address@,
            decreases self.nodes.len() - i,
        {
            if FractalAddress::eq(&self.nodes[i].address, &node.address) {
                proof {
                    let w = i as int;
                    assert(0 <= w < old(self).nodes@.len());
                    assert(old(self).nodes@[w].address@ == node.address@);
                }
                self.nodes.set(i, node);
                proof {
                    let w = i as int;
                    let upd = old(self).nodes@.update(w, node);
                    assert forall|k: int, l: int|
                        0 <= k < l < upd.len() implies (#[trigger] upd[k]).address@
                        != (#[trigger] upd[l]).address@ by {
                        assert(old(self).nodes@[k].address@ != old(self).nodes@[l].address@);
                    }
                }
                return ;
            }
            i = i + 1;
        }
        self.nodes.push(node);
        proof {
            let pushed = old(self).nodes@.push(node);
            assert forall|k: int, l: int|
                0 <= k < l < pushed.len() implies (#[trigger] pushed[k]).address@
                != (#[trigger] pushed[l]).address@ by {
                if l < pushed.len() - 1 {
                    assert(old(self).nodes@[k].address@ != old(self).nodes@[l].address@);
                } else {
                    assert(pushed[k] == old(self).nodes@[k]);
                }
            }
        }
    }

    /// The address written as its concatenated decimal digits: the key a
    /// node is stored under.
    pub fn address_to_string(addr: &FractalAddress) -> (r: String)
        ensures
            r@ == addr_chars(addr@),
    {
        crate::block::addr_string(&addr.0)
    }

    /// Breadth-first routing from `source` towards `target` along peer
    /// lists. A returned path starts at `source`, ends at `target`, and
    /// each consecutive pair is a declared peer adjacency; `None` means
    /// the search exhausted every reachable node without finding it.
    pub fn route(&self, source: &FractalAddress, target: &FractalAddress) -> (r: Option<
        Vec<FractalAddress>,
    >)
        ensures
            match r {
                Some(path) => path@.len() >= 1 && path@[0]@ == source@ && path@[path@.len()
                    - 1]@ == target@ && peer_walk(self.nodes@, path@),
                None => true,
            },
    {
        let mut visited: Vec<FractalAddress> = Vec::new();
        let mut queue: Vec<Vec<FractalAddress>> = Vec::new();
        let mut start: Vec<FractalAddress> = Vec::new();
        start.push(source.clone());
        queue.push(start);
        // every enqueue after the first marks one fresh address visited,
        // and each node contributes at most its peer list
        let mut fuel: usize = 1;
        let mut i: usize = 0;
        while i < self.nodes.len()
            invariant
                i <= self.nodes.len(),
            decreases self.nodes.len() - i,
        {
            let extra = self.nodes[i].peers.len();
            if usize::MAX - fuel >= extra {
                fuel = fuel + extra;
            }
            i = i + 1;
        }
        let ghost src = source@;
        while queue.len() > 0 && fuel > 0
            invariant
                src == source@,
                forall|k: int|
                    0 <= k < queue@.len() ==> (#[trigger] queue@[k])@.len() >= 1 && queue@[k]@[0]@
                        == src && peer_walk(self.nodes@, queue@[k]@),
            decreases fuel,
        {
            fuel = fuel - 1;
            let path = queue.remove(0);
            let last = path.len() - 1;
            if FractalAddress::eq(&path[last], target) {
                proof {
                    assert(path@[0]@ == src);
                    assert(peer_walk(self.nodes@, path@));
                }
                return Some(path);
            }
            // look the current head up and fan out over its peers
            let mut n: usize = 0;
            while n < self.nodes.len()
                invariant
                    path@.len() >= 1,
                    path@[0]@ == src,
                    peer_walk(self.nodes@, path@),
                    forall|k: int|
                        0 <= k < queue@.len() ==> (#[trigger] queue@[k])@.len() >= 1
                            && queue@[k]@[0]@ == src && peer_walk(self.nodes@, queue@[k]@),
                    n <= self.nodes.len(),
                decreases self.nodes.len() - n,
            {
                if FractalAddress::eq(&self.nodes[n].address, &path[path.len() - 1]) {
                    let mut p: usize = 0;
                    while p < self.nodes[n].peers.len()
                        invariant
                            n < self.nodes@.len(),
                            path@.len() >= 1,
                            path@[0]@ == src,
                            peer_walk(self.nodes@, path@),
                            self.nodes@[n as int].address@ == path@[path@.len() - 1]@,
                            forall|k: int|
                                0 <= k < queue@.len() ==> (#[trigger] queue@[k])@.len() >= 1
                                    && queue@[k]@[0]@ == src && peer_walk(self.nodes@, queue@[k]@),
                            p <= self.nodes@[n as int].peers@.len(),
                        decreases self.nodes@[n as int].peers@.len() - p,
                    {
                        let peer = &self.nodes[n].peers[p];
                        let mut seen = false;
                        let mut v: usize = 0;
                        while v < visited.len()
                            invariant
                                v <= visited.len(),
                            decreases visited.len() - v,
                        {
                            if FractalAddress::eq(&visited[v], peer) {
                                seen = true;
                            }
                            v = v + 1;
                        }
                        if !seen {
                            let mut new_path = clone_path(&path);
                            new_path.push(peer.clone());
                            proof {
                                assert(new_path@[0]@ == src);
                                lemma_extend_walk(
                                    self.nodes@,
                                    path@,
                                    new_path@,
                                    n as int,
                                    p as int,
                                );
                            }
                            queue.push(new_path);
                            visited.push(peer.clone());
                        }
                        p = p + 1;
                    }
                    n = self.nodes.len();
                } else {
                    n = n + 1;
                }
            }
        }
        None
    }
}

/// A path extended by one declared peer hop is still a peer walk.
proof fn lemma_extend_walk(
    nodes: Seq<NetworkNode>,
    path: Seq<FractalAddress>,
    ext: Seq<FractalAddress>,
    n: int,
    p: int,
)
    requires
        peer_walk(nodes, path),
        path.len() >= 1,
        ext.len() == path.len() + 1,
        forall|k: int| 0 <= k < path.len() ==> (#[trigger] ext[k])@ == path[k]@,
        0 <= n < nodes.len(),
        nodes[n].address@ == path[path.len() - 1]@,
        0 <= p < nodes[n].peers@.len(),
        ext[ext.len() - 1]@ == nodes[n].peers@[p]@,
    ensures
        peer_walk(nodes, ext),
{
    assert forall|k: int|
        0 <= k < ext.len() - 1 implies is_peer_step(nodes, (#[trigger] ext[k])@, ext[k + 1]@) by {
        if k < path.len() - 1 {
            assert(is_peer_step(nodes, path[k]@, path[k + 1]@));
            assert(ext[k]@ == path[k]@ && ext[k + 1]@ == path[k + 1]@);
        } else {
            assert(ext[k]@ == path[k]@ && path[k]@ == nodes[n].address@);
            assert(nodes[n].peers@[p]@ == ext[k + 1]@);
            assert(is_peer_step(nodes, ext[k]@, ext[k + 1]@));
        }
    }
}

/// A copy of a path, address by address.
fn clone_path(path: &Vec<FractalAddress>) -> (r: Vec<FractalAddress>)
    ensures
        r@.len() == path@.len(),
        forall|k: int| 0 <= k < path@.len() ==> (#[trigger] r@[k])@ == path@[k]@,
{
    let mut r: Vec<FractalAddress> = Vec::new();
    let mut i: usize = 0;
    while i < path.len()
        invariant
            i <= path.len(),
            r@.len() == i,
            forall|k: int| 0 <= k < i ==> (#[trigger] r@[k])@ == path@[k]@,
        decreases path.len() - i,
    {
        r.push(path[i].clone());
        i = i + 1;
    }
    r
}

} // verus!
