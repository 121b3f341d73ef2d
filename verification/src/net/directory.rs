//! The AS directory as contracts speak of it: which node is assigned to which autonomous
//! system, what the directory of a graph lists, and the ratios of channels that stay within
//! an AS.

use crate::graph::{ids, EdgeView, GraphView, NodeView};
use vstd::prelude::*;

verus! {

/// The number of an autonomous system.
pub type Asn = u32;

/// The pseudo-AS of nodes that can be reached over the anonymity network only.
pub const TOR_ASN: Asn = 0;

/// The directory that `map` holds: each AS with the identifiers of its members, in order.
pub open spec fn directory(map: Map<Asn, Vec<String>>) -> Map<Asn, Seq<Seq<char>>> {
    Map::new(|asn: Asn| map.contains_key(asn), |asn: Asn| ids(map[asn]@))
}

/// Whether the directory lists the node `id` under `asn`.
pub open spec fn lists(dir: Map<Asn, Seq<Seq<char>>>, asn: Asn, id: Seq<char>) -> bool {
    dir.contains_key(asn) && dir[asn].contains(id)
}

/// No node is listed twice, neither under two ASes nor twice under one.
pub open spec fn disjoint(dir: Map<Asn, Seq<Seq<char>>>) -> bool {
    forall|a: Asn, b: Asn, i: int, j: int|
        #![trigger dir[a][i], dir[b][j]]
        dir.contains_key(a) && dir.contains_key(b) && 0 <= i < dir[a].len() && 0 <= j
            < dir[b].len() && dir[a][i] == dir[b][j] ==> a == b && i == j
}

/// The AS that the node `id` resolves to: the one under which the directory lists it. A
/// node that the directory does not list resolves to no AS.
pub open spec fn asn_of(dir: Map<Asn, Seq<Seq<char>>>, id: Seq<char>) -> Option<Asn> {
    if exists|asn: Asn| lists(dir, asn, id) {
        Some(choose|asn: Asn| lists(dir, asn, id))
    } else {
        None
    }
}

/// In a directory that lists no node twice, a node resolves to an AS exactly where that AS
/// lists it.
pub proof fn lemma_listed_resolves(dir: Map<Asn, Seq<Seq<char>>>, asn: Asn, id: Seq<char>)
    requires
        disjoint(dir),
    ensures
        lists(dir, asn, id) <==> asn_of(dir, id) == Some(asn),
{
    if lists(dir, asn, id) {
        lemma_listed_once(dir, asn, id);
    }
}

/// In a directory that lists no node twice, the AS that lists a node is the one that the
/// node resolves to.
proof fn lemma_listed_once(dir: Map<Asn, Seq<Seq<char>>>, asn: Asn, id: Seq<char>)
    requires
        disjoint(dir),
        lists(dir, asn, id),
    ensures
        asn_of(dir, id) == Some(asn),
{
    let other = choose|other: Asn| lists(dir, other, id);
    let i = choose|i: int| 0 <= i < dir[asn].len() && dir[asn][i] == id;
    let j = choose|j: int| 0 <= j < dir[other].len() && dir[other][j] == id;
    assert(dir[asn][i] == dir[other][j]);
}

/// Whether the node announces one address only, and that one in the anonymity network.
pub open spec fn onion_only(node: NodeView) -> bool {
    node.addresses.len() == 1 && node.addresses[0].is_onion()
}

/// Whether the node's address at `at` lies outside the anonymity network and the address
/// database gives an AS for it.
pub open spec fn resolves_at(node: NodeView, at: int) -> bool {
    &&& 0 <= at < node.addresses.len()
    &&& !node.addresses[at].is_onion()
    &&& node.addresses[at].asn is Some
}

/// Whether `at` is the first position at which an address of the node resolves.
pub open spec fn first_resolves_at(node: NodeView, at: int) -> bool {
    &&& resolves_at(node, at)
    &&& forall|j: int| 0 <= j < at ==> !resolves_at(node, j)
}

/// The AS that a node is assigned to. A node whose only address lies in the anonymity
/// network sits in the pseudo-AS of that network, where `include_tor` asks for it. Any
/// other node sits in the AS of its first address that resolves, and in none where no
/// address does: addresses of the anonymity network are passed over.
pub open spec fn assigned_asn(node: NodeView, include_tor: bool) -> Option<Asn> {
    if include_tor && onion_only(node) {
        Some(TOR_ASN)
    } else if exists|at: int| first_resolves_at(node, at) {
        node.addresses[choose|at: int| first_resolves_at(node, at)].asn
    } else {
        None
    }
}

/// The identifiers of the nodes that are assigned to `asn`, in the order of `nodes`.
pub open spec fn members_of(nodes: Seq<NodeView>, include_tor: bool, asn: Asn) -> Seq<Seq<char>> {
    nodes.filter(|n: NodeView| assigned_asn(n, include_tor) == Some(asn)).map_values(
        |n: NodeView| n.id,
    )
}

/// The directory of `nodes`: every AS that a node is assigned to, with its members.
pub open spec fn directory_of(nodes: Seq<NodeView>, include_tor: bool) -> Map<Asn, Seq<Seq<char>>> {
    Map::new(
        |asn: Asn|
            exists|i: int|
                0 <= i < nodes.len() && assigned_asn(#[trigger] nodes[i], include_tor) == Some(asn),
        |asn: Asn| members_of(nodes, include_tor, asn),
    )
}

/// What one more node adds to the members of an AS.
pub proof fn lemma_members_step(nodes: Seq<NodeView>, include_tor: bool, asn: Asn, done: int)
    requires
        0 <= done < nodes.len(),
    ensures
        members_of(nodes.take(done + 1), include_tor, asn) == if assigned_asn(
            nodes[done],
            include_tor,
        ) == Some(asn) {
            members_of(nodes.take(done), include_tor, asn).push(nodes[done].id)
        } else {
            members_of(nodes.take(done), include_tor, asn)
        },
{
    let test = |n: NodeView| assigned_asn(n, include_tor) == Some(asn);
    assert(nodes.take(done + 1) =~= nodes.take(done).push(nodes[done]));
    nodes.take(done).lemma_filter_push(nodes[done], test);
    if test(nodes[done]) {
        assert(members_of(nodes.take(done + 1), include_tor, asn) =~= members_of(
            nodes.take(done),
            include_tor,
            asn,
        ).push(nodes[done].id));
    }
}

/// What one more node adds to the directory.
pub proof fn lemma_directory_step(nodes: Seq<NodeView>, include_tor: bool, done: int)
    requires
        0 <= done < nodes.len(),
    ensures
        directory_of(nodes.take(done + 1), include_tor) == match assigned_asn(
            nodes[done],
            include_tor,
        ) {
            Some(asn) => directory_of(nodes.take(done), include_tor).insert(
                asn,
                members_of(nodes.take(done), include_tor, asn).push(nodes[done].id),
            ),
            None => directory_of(nodes.take(done), include_tor),
        },
{
    let before = directory_of(nodes.take(done), include_tor);
    let after = directory_of(nodes.take(done + 1), include_tor);
    let goal = match assigned_asn(nodes[done], include_tor) {
        Some(asn) => before.insert(
            asn,
            members_of(nodes.take(done), include_tor, asn).push(nodes[done].id),
        ),
        None => before,
    };
    assert forall|asn: Asn| after.contains_key(asn) <==> goal.contains_key(asn) by {
        if after.contains_key(asn) {
            let i = choose|i: int|
                0 <= i < nodes.take(done + 1).len() && assigned_asn(
                    #[trigger] nodes.take(done + 1)[i],
                    include_tor,
                ) == Some(asn);
            if i < done {
                assert(nodes.take(done)[i] == nodes[i]);
            }
        }
        if goal.contains_key(asn) {
            if before.contains_key(asn) {
                let i = choose|i: int|
                    0 <= i < nodes.take(done).len() && assigned_asn(
                        #[trigger] nodes.take(done)[i],
                        include_tor,
                    ) == Some(asn);
                assert(nodes.take(done + 1)[i] == nodes[i]);
            } else {
                assert(nodes.take(done + 1)[done] == nodes[done]);
            }
        }
    }
    assert forall|asn: Asn| after.contains_key(asn) implies after[asn] == goal[asn] by {
        lemma_members_step(nodes, include_tor, asn, done);
    }
    assert(after =~= goal);
}

/// The directory of no nodes is empty.
pub proof fn lemma_directory_start(nodes: Seq<NodeView>, include_tor: bool)
    ensures
        directory_of(nodes.take(0), include_tor) == Map::<Asn, Seq<Seq<char>>>::empty(),
{
    assert(directory_of(nodes.take(0), include_tor) =~= Map::<Asn, Seq<Seq<char>>>::empty());
}

/// Whether the directory lists identifiers of `nodes` only.
pub open spec fn lists_nodes_only(dir: Map<Asn, Seq<Seq<char>>>, nodes: Seq<NodeView>) -> bool {
    forall|asn: Asn, i: int|
        dir.contains_key(asn) && 0 <= i < dir[asn].len() ==> exists|k: int|
            0 <= k < nodes.len() && (#[trigger] nodes[k]).id == #[trigger] dir[asn][i]
}

/// Each member of an AS is the name of a node that is assigned to it.
pub proof fn lemma_member_is_assigned(nodes: Seq<NodeView>, include_tor: bool, asn: Asn, i: int)
    requires
        0 <= i < members_of(nodes, include_tor, asn).len(),
    ensures
        exists|k: int|
            0 <= k < nodes.len() && (#[trigger] nodes[k]).id == members_of(nodes, include_tor, asn)[i]
                && assigned_asn(nodes[k], include_tor) == Some(asn),
{
    let test = |n: NodeView| assigned_asn(n, include_tor) == Some(asn);
    let chosen = nodes.filter(test);
    nodes.lemma_filter_pred(test, i);
    assert(chosen.contains(chosen[i]));
    nodes.lemma_filter_contains_rev(test, chosen[i]);
    let k = choose|k: int| 0 <= k < nodes.len() && nodes[k] == chosen[i];
    assert(nodes[k].id == members_of(nodes, include_tor, asn)[i]);
}

/// The directory of the first `done` nodes lists none of them twice.
proof fn lemma_directory_disjoint(nodes: Seq<NodeView>, include_tor: bool, done: int)
    requires
        0 <= done <= nodes.len(),
        nodes.map_values(|n: NodeView| n.id).no_duplicates(),
    ensures
        disjoint(directory_of(nodes.take(done), include_tor)),
    decreases done,
{
    let names = nodes.map_values(|n: NodeView| n.id);
    if done == 0 {
        lemma_directory_start(nodes, include_tor);
    } else {
        lemma_directory_disjoint(nodes, include_tor, done - 1);
        lemma_directory_step(nodes, include_tor, done - 1);
        let earlier = nodes.take(done - 1);
        let before = directory_of(earlier, include_tor);
        let after = directory_of(nodes.take(done), include_tor);
        let node = nodes[done - 1];
        // Every name that is listed so far is that of an earlier node, so it is not the new one.
        assert forall|asn: Asn, i: int|
            0 <= i < members_of(earlier, include_tor, asn).len() implies before.contains_key(asn)
            && #[trigger] members_of(earlier, include_tor, asn)[i] != node.id by {
            lemma_member_is_assigned(earlier, include_tor, asn, i);
            let k = choose|k: int|
                0 <= k < earlier.len() && (#[trigger] earlier[k]).id == members_of(
                    earlier,
                    include_tor,
                    asn,
                )[i] && assigned_asn(earlier[k], include_tor) == Some(asn);
            assert(names[k] == nodes[k].id);
            assert(names[done - 1] == node.id);
        }
        match assigned_asn(node, include_tor) {
            Some(target) => {
                let old_members = members_of(earlier, include_tor, target);
                assert(after == before.insert(target, old_members.push(node.id)));
                assert forall|a: Asn, b: Asn, i: int, j: int|
                    after.contains_key(a) && after.contains_key(b) && 0 <= i < after[a].len() && 0
                        <= j < after[b].len() && #[trigger] after[a][i]
                        == #[trigger] after[b][j] implies a == b && i == j by {
                    let new_i = a == target && i == old_members.len();
                    let new_j = b == target && j == old_members.len();
                    if !new_i {
                        assert(members_of(earlier, include_tor, a)[i] == after[a][i]);
                        assert(before.contains_key(a) && before[a][i] == after[a][i]);
                    }
                    if !new_j {
                        assert(members_of(earlier, include_tor, b)[j] == after[b][j]);
                        assert(before.contains_key(b) && before[b][j] == after[b][j]);
                    }
                }
            },
            None => {},
        }
    }
}

/// The law of the directory: in a graph whose nodes have names of their own, the directory
/// lists no node twice, neither under two ASes nor twice under one, and it lists nodes of
/// the graph only.
pub proof fn lemma_directory_is_partition(graph: GraphView, include_tor: bool)
    requires
        graph.wf(),
    ensures
        disjoint(directory_of(graph.nodes, include_tor)),
        lists_nodes_only(directory_of(graph.nodes, include_tor), graph.nodes),
{
    lemma_directory_disjoint(graph.nodes, include_tor, graph.nodes.len() as int);
    assert(graph.nodes.take(graph.nodes.len() as int) =~= graph.nodes);
    let dir = directory_of(graph.nodes, include_tor);
    assert forall|asn: Asn, i: int| dir.contains_key(asn) && 0 <= i < dir[asn].len() implies exists|
        k: int,
    |
        0 <= k < graph.nodes.len() && (#[trigger] graph.nodes[k]).id == #[trigger] dir[asn][i] by {
        lemma_member_is_assigned(graph.nodes, include_tor, asn, i);
    }
}

/// The full ratio: ratios are hundredths.
pub const FULL_RATIO: u32 = 100;

/// Whether a channel ends at a node that the directory lists under `asn`.
pub open spec fn stays_within(dir: Map<Asn, Seq<Seq<char>>>, asn: Asn) -> spec_fn(EdgeView) -> bool {
    |e: EdgeView| asn_of(dir, e.destination) == Some(asn)
}

/// The share of `edges` that stay within `asn`, in hundredths, cut off below the hundredth.
pub open spec fn intra_ratio(edges: Seq<EdgeView>, dir: Map<Asn, Seq<Seq<char>>>, asn: Asn) -> int
    recommends
        edges.len() > 0,
{
    FULL_RATIO * edges.filter(stays_within(dir, asn)).len() / (edges.len() as int)
}

/// The ratios of the nodes `members` of `asn`, in their order: one for each node that has
/// channels at all.
pub open spec fn ratios_of(
    members: Seq<Seq<char>>,
    graph: GraphView,
    dir: Map<Asn, Seq<Seq<char>>>,
    asn: Asn,
) -> Seq<u32> {
    members.filter(|id: Seq<char>| graph.degree(id) > 0).map_values(
        |id: Seq<char>| intra_ratio(graph.edges_of(id).unwrap(), dir, asn) as u32,
    )
}

/// For each AS of the directory, the ratios of its members.
pub open spec fn intra_ratios(dir: Map<Asn, Seq<Seq<char>>>, graph: GraphView) -> Map<Asn, Seq<u32>> {
    Map::new(|asn: Asn| dir.contains_key(asn), |asn: Asn| ratios_of(dir[asn], graph, dir, asn))
}

/// The table that `map` holds: each AS with its ratios.
pub open spec fn ratio_table(map: Map<Asn, Vec<u32>>) -> Map<Asn, Seq<u32>> {
    Map::new(|asn: Asn| map.contains_key(asn), |asn: Asn| map[asn]@)
}

/// The law of the ratios: a ratio lies between 0 and the whole.
pub proof fn lemma_intra_ratio_bounds(edges: Seq<EdgeView>, dir: Map<Asn, Seq<Seq<char>>>, asn: Asn)
    requires
        edges.len() > 0,
    ensures
        0 <= intra_ratio(edges, dir, asn) <= FULL_RATIO,
{
    let same = edges.filter(stays_within(dir, asn)).len() as int;
    let total = edges.len() as int;
    edges.lemma_filter_len(stays_within(dir, asn));
    assert(0 <= 100 * same / total <= 100) by (nonlinear_arith)
        requires
            0 <= same <= total,
            total > 0,
    ;
}

/// What one more member adds to the ratios of an AS.
pub proof fn lemma_ratios_step(
    members: Seq<Seq<char>>,
    graph: GraphView,
    dir: Map<Asn, Seq<Seq<char>>>,
    asn: Asn,
    done: int,
)
    requires
        0 <= done < members.len(),
    ensures
        ratios_of(members.take(done + 1), graph, dir, asn) == if graph.degree(members[done]) > 0 {
            ratios_of(members.take(done), graph, dir, asn).push(
                intra_ratio(graph.edges_of(members[done]).unwrap(), dir, asn) as u32,
            )
        } else {
            ratios_of(members.take(done), graph, dir, asn)
        },
{
    let test = |id: Seq<char>| graph.degree(id) > 0;
    assert(members.take(done + 1) =~= members.take(done).push(members[done]));
    members.take(done).lemma_filter_push(members[done], test);
    if test(members[done]) {
        assert(ratios_of(members.take(done + 1), graph, dir, asn) =~= ratios_of(
            members.take(done),
            graph,
            dir,
            asn,
        ).push(intra_ratio(graph.edges_of(members[done]).unwrap(), dir, asn) as u32));
    }
}

} // verus!
