use vstd::prelude::*;
use vstd::set_lib::{lemma_int_range, set_int_range};

use crate::epoch::{version_epoch, Epoch};
use crate::reconcile::ThirdPartyDep;
use crate::text::chars_of;

verus! {

/// A requires-relationship: the dependency's name as its dependent spells it,
/// and the node it resolved to.
pub struct DepEdge {
    pub name: String,
    pub target: usize,
}

/// A resolved package of the dependency graph.
pub struct DepNode {
    pub name: String,
    /// The exact version, as text.
    pub version: String,
    /// The major and minor numbers of `version`.
    pub major: u64,
    pub minor: u64,
    /// The directory that holds the package's source.
    pub dir: String,
    pub deps: Vec<DepEdge>,
}

/// A resolved dependency graph: nodes in an arena, edges by position.
pub struct DepGraph {
    pub nodes: Vec<DepNode>,
    /// The synthetic package that stands for the consuming project.
    pub root: usize,
}

/// One step of a dependency path: edge `edge` of node `from`, with its name.
#[derive(Clone, Debug)]
pub struct PathEdge {
    pub from: usize,
    pub edge: usize,
    pub name: String,
}

/// The root is a node and every edge leads to a node.
pub open spec fn graph_ok(g: &DepGraph) -> bool {
    &&& g.root < g.nodes@.len()
    &&& forall|u: int, e: int|
        #![trigger g.nodes@[u].deps@[e]]
        0 <= u < g.nodes@.len() && 0 <= e < g.nodes@[u].deps@.len() ==> g.nodes@[u].deps@[e].target
            < g.nodes@.len()
}

pub open spec fn has_edge(g: &DepGraph, u: int, e: int) -> bool {
    0 <= u < g.nodes@.len() && 0 <= e < g.nodes@[u].deps@.len()
}

pub open spec fn edge_target(g: &DepGraph, u: int, e: int) -> int {
    g.nodes@[u].deps@[e].target as int
}

/// `p` is a chain of edges of `g` that starts at `start`.
pub open spec fn walk_from(g: &DepGraph, p: Seq<PathEdge>, start: int) -> bool {
    &&& p.len() > 0 ==> p[0].from == start
    &&& forall|i: int|
        0 <= i < p.len() ==> has_edge(g, #[trigger] p[i].from as int, p[i].edge as int)
            && p[i].name@ == g.nodes@[p[i].from as int].deps@[p[i].edge as int].name@
    &&& forall|i: int|
        0 <= i < p.len() - 1 ==> edge_target(g, #[trigger] p[i].from as int, p[i].edge as int)
            == p[i + 1].from
}

/// The node a path from the root ends at.
pub open spec fn path_end(g: &DepGraph, p: Seq<PathEdge>) -> int {
    if p.len() == 0 {
        g.root as int
    } else {
        edge_target(g, p.last().from as int, p.last().edge as int)
    }
}

/// `p` lies in `dir`: the directory is a prefix of it, ending at a `/`.
pub open spec fn under_dir(p: Seq<char>, dir: Seq<char>) -> bool {
    &&& dir.len() <= p.len()
    &&& p.take(dir.len() as int) == dir
    &&& p.len() == dir.len() || (dir.len() > 0 && dir.last() == '/') || p[dir.len() as int] == '/'
}

/// `d` is the record of the node its path ends at.
pub open spec fn describes(g: &DepGraph, vendor_root: Seq<char>, d: ThirdPartyDep) -> bool {
    let v = path_end(g, d.dependency_path@);
    let node = g.nodes@[v];
    &&& walk_from(g, d.dependency_path@, g.root as int)
    &&& v != g.root
    &&& d.package_name@ == node.name@
    &&& d.version@ == node.version@
    &&& version_epoch(node.major, node.minor) == Some(d.epoch)
    &&& d.is_local == under_dir(node.dir@, vendor_root)
}

/// `v` is the root or the node of one of the records.
pub open spec fn listed(g: &DepGraph, ds: Seq<ThirdPartyDep>, v: int) -> bool {
    v == g.root || exists|k: int| 0 <= k < ds.len() && path_end(g, #[trigger] ds[k].dependency_path@) == v
}

/// What a breadth-first search holds once the first `head` nodes of `order`
/// are expanded.
pub open spec fn reach_ok(
    g: &DepGraph,
    order: Seq<usize>,
    seen: Seq<bool>,
    pos: Seq<usize>,
    parent: Seq<usize>,
    via: Seq<usize>,
    head: int,
) -> bool {
    let n = g.nodes@.len();
    &&& seen.len() == n && pos.len() == n && parent.len() == n && via.len() == n
    &&& 1 <= order.len() <= n
    &&& order[0] == g.root
    &&& 0 <= head <= order.len()
    &&& forall|i: int|
        0 <= i < order.len() ==> #[trigger] order[i] < n && seen[order[i] as int] && pos[order[i] as int]
            == i
    &&& forall|v: int| 0 <= v < n && #[trigger] seen[v] ==> pos[v] < order.len() && order[pos[v] as int] == v
    &&& forall|v: int|
        0 <= v < n && #[trigger] seen[v] && v != g.root ==> parent[v] < n && seen[parent[v] as int]
            && pos[parent[v] as int] < pos[v] && has_edge(g, parent[v] as int, via[v] as int)
            && edge_target(g, parent[v] as int, via[v] as int) == v
    &&& forall|i: int, e: int|
        0 <= i < head && has_edge(g, order[i] as int, e) ==> seen[#[trigger] edge_target(
            g,
            order[i] as int,
            e,
        )]
}

/// The nodes reachable from the root in breadth-first order, with the edge
/// each was first reached by.
struct Reach {
    order: Vec<usize>,
    seen: Vec<bool>,
    pos: Vec<usize>,
    parent: Vec<usize>,
    via: Vec<usize>,
}

#[verifier::rlimit(40)]
fn explore(g: &DepGraph) -> (r: Reach)
    requires
        graph_ok(g),
    ensures
        reach_ok(g, r.order@, r.seen@, r.pos@, r.parent@, r.via@, r.order@.len() as int),
{
    let n = g.nodes.len();
    let mut seen: Vec<bool> = Vec::new();
    let mut pos: Vec<usize> = Vec::new();
    let mut parent: Vec<usize> = Vec::new();
    let mut via: Vec<usize> = Vec::new();
    let mut k: usize = 0;
    while k < n
        invariant
            n == g.nodes@.len(),
            k <= n,
            seen@.len() == k && pos@.len() == k && parent@.len() == k && via@.len() == k,
            forall|v: int| 0 <= v < k ==> !#[trigger] seen@[v],
        decreases n - k,
    {
        seen.push(false);
        pos.push(0);
        parent.push(0);
        via.push(0);
        k += 1;
    }
    let root = g.root;
    seen[root] = true;
    pos[root] = 0;
    let mut order: Vec<usize> = Vec::new();
    order.push(root);
    let ghost mut unseen: Set<int> = Set::new(|v: int| 0 <= v < n && !seen@[v]);
    proof {
        lemma_int_range(0, n as int);
        assert(unseen =~= set_int_range(0, n as int).remove(root as int));
        assert(order@[0] == root);
        assert(forall|v: int| 0 <= v < n && #[trigger] seen@[v] ==> v == root);
    }
    assert(reach_ok(g, order@, seen@, pos@, parent@, via@, 0));
    let mut head: usize = 0;
    while head < order.len()
        invariant
            n == g.nodes@.len(),
            graph_ok(g),
            reach_ok(g, order@, seen@, pos@, parent@, via@, head as int),
            unseen == Set::new(|v: int| 0 <= v < n && !seen@[v]),
            unseen.finite(),
            unseen.len() + order@.len() == n,
        decreases n - head,
    {
        let u = order[head];
        let m = g.nodes[u].deps.len();
        let mut e: usize = 0;
        while e < m
            invariant
                n == g.nodes@.len(),
                graph_ok(g),
                head < order@.len(),
                u == order@[head as int],
                m == g.nodes@[u as int].deps@.len(),
                e <= m,
                reach_ok(g, order@, seen@, pos@, parent@, via@, head as int),
                forall|f: int| 0 <= f < e ==> seen@[#[trigger] edge_target(g, u as int, f)],
                unseen == Set::new(|v: int| 0 <= v < n && !seen@[v]),
                unseen.finite(),
                unseen.len() + order@.len() == n,
            decreases m - e,
        {
            let t = g.nodes[u].deps[e].target;
            assert(has_edge(g, u as int, e as int));
            if !seen[t] {
                proof {
                    assert(unseen.contains(t as int));
                    assert(unseen.remove(t as int).len() + 1 == unseen.len());
                }
                let p = order.len();
                seen[t] = true;
                pos[t] = p;
                parent[t] = u;
                via[t] = e;
                order.push(t);
                proof {
                    assert(Set::new(|v: int| 0 <= v < n && !seen@[v]) =~= unseen.remove(t as int));
                    unseen = unseen.remove(t as int);
                }
            }
            e += 1;
        }
        assert forall|i: int, f: int|
            0 <= i < head + 1 && has_edge(g, order@[i] as int, f) implies seen@[#[trigger] edge_target(
            g,
            order@[i] as int,
            f,
        )] by {
            if i == head {
                assert(0 <= f < m);
            }
        }
        head += 1;
    }
    Reach { order, seen, pos, parent, via }
}

/// The path from the root to `v` along the edges that first reached each node.
fn walk_to(g: &DepGraph, r: &Reach, v: usize) -> (p: Vec<PathEdge>)
    requires
        graph_ok(g),
        reach_ok(g, r.order@, r.seen@, r.pos@, r.parent@, r.via@, r.order@.len() as int),
        v < g.nodes@.len(),
        r.seen@[v as int],
        v != g.root,
    ensures
        p@.len() > 0,
        walk_from(g, p@, g.root as int),
        path_end(g, p@) == v,
{
    let mut path: Vec<PathEdge> = Vec::new();
    let mut cur = v;
    while cur != g.root
        invariant
            graph_ok(g),
            reach_ok(g, r.order@, r.seen@, r.pos@, r.parent@, r.via@, r.order@.len() as int),
            cur < g.nodes@.len(),
            r.seen@[cur as int],
            v < g.nodes@.len(),
            path@.len() == 0 ==> cur == v,
            path@.len() > 0 ==> path_end(g, path@) == v,
            walk_from(g, path@, cur as int),
        decreases r.pos@[cur as int],
    {
        let from = r.parent[cur];
        let edge = r.via[cur];
        let name = g.nodes[from].deps[edge].name.clone();
        let step = PathEdge { from, edge, name };
        let ghost old_path = path@;
        path.insert(0, step);
        proof {
            assert(path@ =~= seq![step] + old_path);
            assert forall|i: int| 0 <= i < old_path.len() implies path@[i + 1] == old_path[i] by {}
            assert forall|i: int|
                0 <= i < path@.len() - 1 implies edge_target(
                g,
                #[trigger] path@[i].from as int,
                path@[i].edge as int,
            ) == path@[i + 1].from by {
                if i > 0 {
                    assert(path@[i] == old_path[i - 1]);
                }
            }
            assert forall|i: int| 0 <= i < path@.len() implies has_edge(
                g,
                #[trigger] path@[i].from as int,
                path@[i].edge as int,
            ) && path@[i].name@ == g.nodes@[path@[i].from as int].deps@[path@[i].edge as int].name@ by {
                if i > 0 {
                    assert(path@[i] == old_path[i - 1]);
                }
            }
            if old_path.len() > 0 {
                assert(path@.last() == old_path.last());
            }
        }
        cur = from;
    }
    path
}

/// Whether the path `p` lies in the directory `dir`.
fn is_under_dir(p: &Vec<char>, dir: &Vec<char>) -> (r: bool)
    ensures
        r == under_dir(p@, dir@),
{
    if dir.len() > p.len() {
        return false;
    }
    let mut i: usize = 0;
    while i < dir.len()
        invariant
            dir@.len() <= p@.len(),
            i <= dir@.len(),
            forall|j: int| 0 <= j < i ==> p@[j] == dir@[j],
        decreases dir@.len() - i,
    {
        if p[i] != dir[i] {
            assert(p@.take(dir@.len() as int)[i as int] != dir@[i as int]);
            return false;
        }
        i += 1;
    }
    assert(p@.take(dir@.len() as int) =~= dir@);
    p.len() == dir.len() || (dir.len() > 0 && dir[dir.len() - 1] == '/') || p[dir.len()] == '/'
}

/// Whether the root is a node and every edge leads to a node, which
/// `collect_dependencies` asks of its graph.
pub fn check_graph(g: &DepGraph) -> (r: bool)
    ensures
        r == graph_ok(g),
{
    let n = g.nodes.len();
    if g.root >= n {
        return false;
    }
    let mut u: usize = 0;
    while u < n
        invariant
            n == g.nodes@.len(),
            u <= n,
            forall|a: int, e: int|
                #![trigger g.nodes@[a].deps@[e]]
                0 <= a < u && 0 <= e < g.nodes@[a].deps@.len() ==> g.nodes@[a].deps@[e].target < n,
        decreases n - u,
    {
        let m = g.nodes[u].deps.len();
        let mut e: usize = 0;
        while e < m
            invariant
                n == g.nodes@.len(),
                u < n,
                m == g.nodes@[u as int].deps@.len(),
                e <= m,
                forall|a: int, f: int|
                    #![trigger g.nodes@[a].deps@[f]]
                    0 <= a < u && 0 <= f < g.nodes@[a].deps@.len() ==> g.nodes@[a].deps@[f].target < n,
                forall|f: int| 0 <= f < e ==> #[trigger] g.nodes@[u as int].deps@[f].target < n,
            decreases m - e,
        {
            if g.nodes[u].deps[e].target >= n {
                return false;
            }
            e += 1;
        }
        u += 1;
    }
    true
}

proof fn lemma_records_closed(
    g: &DepGraph,
    order: Seq<usize>,
    seen: Seq<bool>,
    pos: Seq<usize>,
    parent: Seq<usize>,
    via: Seq<usize>,
    ds: Seq<ThirdPartyDep>,
)
    requires
        graph_ok(g),
        reach_ok(g, order, seen, pos, parent, via, order.len() as int),
        ds.len() == order.len() - 1,
        forall|k: int| 0 <= k < ds.len() ==> path_end(g, #[trigger] ds[k].dependency_path@) == order[k + 1],
    ensures
        forall|k1: int, k2: int|
            0 <= k1 < k2 < ds.len() ==> path_end(g, #[trigger] ds[k1].dependency_path@) != path_end(
                g,
                #[trigger] ds[k2].dependency_path@,
            ),
        forall|u: int, e: int|
            listed(g, ds, u) && has_edge(g, u, e) ==> listed(g, ds, #[trigger] edge_target(g, u, e)),
{
    assert forall|k1: int, k2: int|
        0 <= k1 < k2 < ds.len() implies path_end(g, #[trigger] ds[k1].dependency_path@) != path_end(
        g,
        #[trigger] ds[k2].dependency_path@,
    ) by {
        assert(pos[order[k1 + 1] as int] == k1 + 1);
        assert(pos[order[k2 + 1] as int] == k2 + 1);
    }
    assert forall|u: int, e: int| listed(g, ds, u) && has_edge(g, u, e) implies listed(
        g,
        ds,
        #[trigger] edge_target(g, u, e),
    ) by {
        let j: int = if u == g.root {
            0
        } else {
            let k = choose|k: int|
                0 <= k < ds.len() && path_end(g, #[trigger] ds[k].dependency_path@) == u;
            k + 1
        };
        assert(order[j] == u);
        let t = edge_target(g, order[j] as int, e);
        assert(g.nodes@[u].deps@[e].target < g.nodes@.len());
        assert(seen[t]);
        let q = pos[t] as int;
        if q > 0 {
            assert(path_end(g, ds[q - 1].dependency_path@) == t);
        }
    }
}

/// One record per node that the root reaches, in breadth-first order: its
/// name, version and epoch, whether its source lies in the vendor directory,
/// and a path to it from the root. The nodes of the records, with the root,
/// are closed under the edges of the graph, so every reachable node has its
/// record. A reachable node whose version is `0.0.*` has no epoch: it is
/// returned as the error.
pub fn collect_dependencies(g: &DepGraph, vendor_root: &str) -> (r: Result<
    Vec<ThirdPartyDep>,
    usize,
>)
    requires
        graph_ok(g),
    ensures
        r matches Ok(ds) ==> {
            &&& forall|k: int| 0 <= k < ds@.len() ==> describes(g, vendor_root@, #[trigger] ds@[k])
            &&& forall|k1: int, k2: int|
                0 <= k1 < k2 < ds@.len() ==> path_end(g, #[trigger] ds@[k1].dependency_path@)
                    != path_end(g, #[trigger] ds@[k2].dependency_path@)
            &&& forall|u: int, e: int|
                listed(g, ds@, u) && has_edge(g, u, e) ==> listed(g, ds@, #[trigger] edge_target(g, u, e))
        },
        r matches Err(v) ==> {
            &&& v < g.nodes@.len() && v != g.root
            &&& version_epoch(g.nodes@[v as int].major, g.nodes@[v as int].minor) is None
            &&& exists|p: Seq<PathEdge>| #[trigger] walk_from(g, p, g.root as int) && path_end(g, p) == v
        },
{
    let reach = explore(g);
    let root_chars = chars_of(vendor_root);
    let ghost order = reach.order@;
    let mut deps: Vec<ThirdPartyDep> = Vec::new();
    let mut i: usize = 1;
    while i < reach.order.len()
        invariant
            graph_ok(g),
            order == reach.order@,
            reach_ok(g, order, reach.seen@, reach.pos@, reach.parent@, reach.via@, order.len() as int),
            root_chars@ == vendor_root@,
            1 <= i <= order.len(),
            deps@.len() == i - 1,
            forall|k: int| 0 <= k < deps@.len() ==> describes(g, vendor_root@, #[trigger] deps@[k]),
            forall|k: int| 0 <= k < deps@.len() ==> path_end(g, #[trigger] deps@[k].dependency_path@)
                == order[k + 1],
        decreases order.len() - i,
    {
        let v = reach.order[i];
        assert(reach.pos@[v as int] == i);
        let path = walk_to(g, &reach, v);
        let node = &g.nodes[v];
        match Epoch::from_version(node.major, node.minor) {
            None => {
                return Err(v);
            },
            Some(epoch) => {
                let dir = chars_of(node.dir.as_str());
                let is_local = is_under_dir(&dir, &root_chars);
                deps.push(
                    ThirdPartyDep {
                        package_name: node.name.clone(),
                        epoch,
                        version: node.version.clone(),
                        is_local,
                        dependency_path: path,
                    },
                );
            },
        }
        i += 1;
    }
    proof {
        lemma_records_closed(g, order, reach.seen@, reach.pos@, reach.parent@, reach.via@, deps@);
    }
    Ok(deps)
}

} // verus!
