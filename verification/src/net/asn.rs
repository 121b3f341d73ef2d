//! The AS directory: which nodes of a graph sit in which autonomous system.

use crate::graph::{edges_view, ids, Edge, Graph, Node};
use crate::net::directory::{
    assigned_asn, directory, directory_of, disjoint, first_resolves_at, intra_ratio, intra_ratios,
    lemma_directory_is_partition, lemma_directory_start, lemma_directory_step,
    lemma_intra_ratio_bounds, lemma_member_is_assigned, lemma_ratios_step, lists_nodes_only,
    members_of, onion_only, ratio_table, ratios_of, asn_of, resolves_at, stays_within, Asn,
    FULL_RATIO, TOR_ASN,
};
use crate::net::heap::{outranks, Rank};
use crate::net::ranking::{
    is_best_of, is_sorted_by_degree, is_top_n, ranking_key, ranks_before, select_top,
    sort_by_degree, sum_channels, top_view,
};
use crate::{find_key_for_value, AsSelectionStrategy};
use std::collections::HashMap;
use vstd::prelude::*;
use vstd::std_specs::iter::IteratorSpec;

verus! {

broadcast use vstd::std_specs::hash::group_hash_axioms;

/// Which nodes sit in which AS.
#[derive(Debug)]
pub struct AsIpMap {
    pub as_to_nodes: HashMap<Asn, Vec<String>>,
}

impl View for AsIpMap {
    type V = Map<Asn, Seq<Seq<char>>>;

    open spec fn view(&self) -> Map<Asn, Seq<Seq<char>>> {
        directory(self.as_to_nodes@)
    }
}

impl AsIpMap {
    /// No node is listed twice.
    pub open spec fn wf(&self) -> bool {
        disjoint(self@)
    }

    /// The directory of `graph`: each node under the AS it is assigned to, in the graph's
    /// order. Where the nodes of the graph have names of their own, no node is listed twice.
    pub fn new(graph: &Graph, include_tor: bool) -> (map: AsIpMap)
        ensures
            map@ == directory_of(graph@.nodes, include_tor),
            lists_nodes_only(map@, graph@.nodes),
            graph.wf() ==> map.wf(),
    {
        let mut as_to_nodes: HashMap<Asn, Vec<String>> = HashMap::new();
        let nodes = graph.get_nodes();
        let ghost views = graph@.nodes;
        proof {
            lemma_directory_start(views, include_tor);
            assert(directory(as_to_nodes@) =~= Map::<Asn, Seq<Seq<char>>>::empty());
        }
        let mut i: usize = 0;
        while i < nodes.len()
            invariant
                i <= nodes@.len(),
                views == nodes@.map_values(|n: Node| n@),
                directory(as_to_nodes@) == directory_of(views.take(i as int), include_tor),
            decreases nodes@.len() - i,
        {
            let node = &nodes[i];
            proof {
                lemma_directory_step(views, include_tor, i as int);
            }
            let ghost before = as_to_nodes@;
            if let Some(asn) = Self::lookup_asn_for_node(node, include_tor) {
                let mut members = match as_to_nodes.remove(&asn) {
                    Some(list) => list,
                    None => Vec::new(),
                };
                proof {
                    let listed = members_of(views.take(i as int), include_tor, asn);
                    if before.contains_key(asn) {
                        assert(directory(before)[asn] == listed);
                    } else {
                        assert(!directory(before).contains_key(asn));
                        if listed.len() > 0 {
                            lemma_member_is_assigned(views.take(i as int), include_tor, asn, 0);
                        }
                        assert(ids(members@) =~= listed);
                    }
                    assert(ids(members@) == listed);
                }
                let ghost old_members = members@;
                members.push(node.id.clone());
                assert(ids(members@) =~= ids(old_members).push(node@.id));
                as_to_nodes.insert(asn, members);
                assert(directory(as_to_nodes@) =~= directory(before).insert(asn, ids(members@)));
            }
            i += 1;
        }
        proof {
            assert(views.take(views.len() as int) =~= views);
            let dir = directory(as_to_nodes@);
            assert forall|asn: Asn, j: int|
                dir.contains_key(asn) && 0 <= j < dir[asn].len() implies exists|k: int|
                0 <= k < views.len() && (#[trigger] views[k]).id == #[trigger] dir[asn][j] by {
                lemma_member_is_assigned(views, include_tor, asn, j);
            }
            if graph.wf() {
                lemma_directory_is_partition(graph@, include_tor);
            }
        }
        AsIpMap { as_to_nodes }
    }

    /// The AS that `node` is assigned to.
    pub fn lookup_asn_for_node(node: &Node, include_tor: bool) -> (asn: Option<Asn>)
        ensures
            asn == assigned_asn(node@, include_tor),
    {
        let ghost view = node@;
        let mut i: usize = 0;
        while i < node.addresses.len()
            invariant
                i <= node.addresses@.len(),
                view == node@,
                forall|j: int| 0 <= j < i ==> !resolves_at(view, j),
                include_tor ==> !onion_only(view) || i == 0,
            decreases node.addresses@.len() - i,
        {
            let addr = &node.addresses[i];
            assert(view.addresses[i as int] == addr@);
            if !addr.is_onion() {
                if let Some(asn) = addr.asn {
                    proof {
                        assert(first_resolves_at(view, i as int));
                        assert forall|at: int| first_resolves_at(view, at) implies at == i by {
                            if at < i {
                                assert(!resolves_at(view, at));
                            } else if i < at {
                                assert(resolves_at(view, i as int));
                            }
                        }
                    }
                    return Some(asn);
                }
            } else if include_tor {
                if node.addresses.len() == 1 {
                    return Some(TOR_ASN);
                }
            }
            i += 1;
        }
        proof {
            assert forall|at: int| !first_resolves_at(view, at) by {
                if 0 <= at < view.addresses.len() {
                    assert(!resolves_at(view, at));
                }
            }
        }
        None
    }

    /// The number of `edges` that end at a node listed under `asn`.
    fn count_within(&self, edges: &Vec<Edge>, asn: Asn) -> (same: usize)
        requires
            self.wf(),
        ensures
            same == edges_view(edges@).filter(stays_within(self@, asn)).len(),
            same <= edges@.len(),
    {
        let ghost all = edges_view(edges@);
        let ghost test = stays_within(self@, asn);
        let mut same: usize = 0;
        let mut k: usize = 0;
        proof {
            reveal(Seq::filter);
            assert(all.take(0) =~= Seq::empty());
        }
        while k < edges.len()
            invariant
                k <= edges@.len(),
                self.wf(),
                all == edges_view(edges@),
                test == stays_within(self@, asn),
                same == all.take(k as int).filter(test).len(),
                same <= k,
            decreases edges@.len() - k,
        {
            proof {
                assert(all.take(k + 1) =~= all.take(k as int).push(all[k as int]));
                all.take(k as int).lemma_filter_len_push(test, all[k as int]);
            }
            if let Some(dst_asn) = find_key_for_value(&self.as_to_nodes, &edges[k].destination) {
                if dst_asn == asn {
                    same += 1;
                }
            }
            k += 1;
        }
        assert(all.take(all.len() as int) =~= all);
        same
    }

    /// The ratios of `nodes`, members of `asn`: for each node that has channels, the share
    /// of them that stay within `asn`.
    fn ratios_for(&self, asn: Asn, nodes: &Vec<String>, graph: &Graph) -> (ratios: Vec<u32>)
        requires
            self.wf(),
        ensures
            ratios@ == ratios_of(ids(nodes@), graph@, self@, asn),
            forall|i: int| 0 <= i < ratios@.len() ==> ratios@[i] <= FULL_RATIO,
    {
        let ghost members = ids(nodes@);
        let mut ratios: Vec<u32> = Vec::new();
        let mut j: usize = 0;
        proof {
            reveal(Seq::filter);
            assert(members.take(0) =~= Seq::empty());
            assert(ratios@ =~= ratios_of(members.take(0), graph@, self@, asn));
        }
        while j < nodes.len()
            invariant
                j <= nodes@.len(),
                self.wf(),
                members == ids(nodes@),
                ratios@ == ratios_of(members.take(j as int), graph@, self@, asn),
                forall|i: int| 0 <= i < ratios@.len() ==> ratios@[i] <= FULL_RATIO,
            decreases nodes@.len() - j,
        {
            proof {
                lemma_ratios_step(members, graph@, self@, asn, j as int);
            }
            if let Some(edges) = graph.get_edges_for_node(&nodes[j]) {
                let total = edges.len();
                if total > 0 {
                    let same = self.count_within(edges, asn);
                    proof {
                        lemma_intra_ratio_bounds(edges_view(edges@), self@, asn);
                    }
                    let ratio = ((same as u128) * (FULL_RATIO as u128) / (total as u128)) as u32;
                    assert(ratio as int == intra_ratio(edges_view(edges@), self@, asn));
                    ratios.push(ratio);
                }
            }
            j += 1;
        }
        assert(members.take(members.len() as int) =~= members);
        ratios
    }

    /// For each AS of the directory, the ratios of its members: for each member that has
    /// channels in `graph`, the share of them that end at a member of the same AS, in
    /// hundredths and cut off below the hundredth. A member without channels has no ratio.
    pub fn get_intra_as_channels_ratio(&self, graph: &Graph) -> (per_node_ratio: HashMap<u32, Vec<u32>>)
        requires
            self.wf(),
        ensures
            ratio_table(per_node_ratio@) == intra_ratios(self@, graph@),
            forall|asn: Asn, i: int|
                per_node_ratio@.contains_key(asn) && 0 <= i < per_node_ratio@[asn]@.len()
                    ==> #[trigger] per_node_ratio@[asn]@[i] <= FULL_RATIO,
    {
        let mut per_node_ratio: HashMap<u32, Vec<u32>> = HashMap::new();
        let ghost walked = self.as_to_nodes.iter().remaining();
        for entry in it: self.as_to_nodes.iter()
            invariant
                self.wf(),
                it.seq() == walked,
                walked == self.as_to_nodes.iter().remaining(),
                forall|asn: Asn|
                    per_node_ratio@.contains_key(asn) <==> exists|j: int|
                        0 <= j < it.index() && *(#[trigger] walked[j]).0 == asn,
                forall|asn: Asn|
                    per_node_ratio@.contains_key(asn) ==> self@.contains_key(asn) && (
                    #[trigger] per_node_ratio@[asn])@ == ratios_of(self@[asn], graph@, self@, asn),
                forall|asn: Asn, i: int|
                    per_node_ratio@.contains_key(asn) && 0 <= i < per_node_ratio@[asn]@.len()
                        ==> #[trigger] per_node_ratio@[asn]@[i] <= FULL_RATIO,
        {
            let (asn, nodes) = entry;
            proof {
                assert(walked[it.index()] == entry);
                assert(self.as_to_nodes@.contains_key(*asn) && self.as_to_nodes@[*asn] == *nodes);
            }
            let ratios = self.ratios_for(*asn, nodes, graph);
            let ghost before = per_node_ratio@;
            per_node_ratio.insert(*asn, ratios);
            proof {
                let at = it.index();
                assert forall|a: Asn| per_node_ratio@.contains_key(a) <==> exists|j: int|
                    0 <= j < at + 1 && *(#[trigger] walked[j]).0 == a by {
                    if per_node_ratio@.contains_key(a) {
                        if a == *asn {
                            assert(*walked[at].0 == a);
                        } else {
                            let j = choose|j: int| 0 <= j < at && *(#[trigger] walked[j]).0 == a;
                            assert(*walked[j].0 == a);
                        }
                    }
                    if exists|j: int| 0 <= j < at + 1 && *(#[trigger] walked[j]).0 == a {
                        let j = choose|j: int| 0 <= j < at + 1 && *(#[trigger] walked[j]).0 == a;
                        if j < at {
                            assert(before.contains_key(a));
                        }
                    }
                }
            }
        }
        proof {
            let table = ratio_table(per_node_ratio@);
            let goal = intra_ratios(self@, graph@);
            assert forall|asn: Asn| table.contains_key(asn) <==> goal.contains_key(asn) by {
                if goal.contains_key(asn) {
                    let pair = (&asn, &self.as_to_nodes@[asn]);
                    assert(walked.contains(pair));
                    let j = choose|j: int| 0 <= j < walked.len() && walked[j] == pair;
                    assert(*walked[j].0 == asn);
                }
            }
            assert(table =~= goal);
        }
        per_node_ratio
    }

    /// The ASes of the directory, each once, in no order that can be told beforehand.
    pub fn asns(&self) -> (asns: Vec<Asn>)
        ensures
            asns@.no_duplicates(),
            forall|asn: Asn| asns@.contains(asn) <==> self@.contains_key(asn),
            asns@.len() == self@.dom().len(),
    {
        let mut asns: Vec<Asn> = Vec::new();
        for asn in it: self.as_to_nodes.keys()
            invariant
                asns@ == it.seq().unref().take(it.index()),
                it.seq() == self.as_to_nodes.keys().remaining(),
        {
            asns.push(*asn);
        }
        proof {
            let walked = self.as_to_nodes.keys().remaining();
            assert(asns@ =~= walked.unref());
            assert(self@.dom() =~= self.as_to_nodes@.dom());
            assert forall|asn: Asn| asns@.contains(asn) <==> self@.contains_key(asn) by {
                assert(asns@.to_set().contains(asn) <==> asns@.contains(asn));
            }
            assert forall|i: int, j: int|
                0 <= i < asns@.len() && 0 <= j < asns@.len() && i != j implies asns@[i]
                != asns@[j] by {
                assert(walked[i] != walked[j]);
            }
        }
        asns
    }

    /// The rank of each of `asns`: what `selection` ranks it by, and its number.
    fn rank_all(&self, asns: &Vec<Asn>, graph: &Graph, selection: AsSelectionStrategy) -> (ranks: Vec<
        Rank,
    >)
        requires
            forall|j: int| 0 <= j < asns@.len() ==> self@.contains_key(#[trigger] asns@[j]),
        ensures
            ranks@.len() == asns@.len(),
            forall|j: int|
                0 <= j < asns@.len() ==> (#[trigger] ranks@[j]).1 == asns@[j] && ranks@[j].0
                    == ranking_key(selection, self@[asns@[j]], graph@),
    {
        let mut ranks: Vec<Rank> = Vec::new();
        let mut j: usize = 0;
        while j < asns.len()
            invariant
                j <= asns@.len(),
                ranks@.len() == j,
                forall|k: int| 0 <= k < asns@.len() ==> self@.contains_key(#[trigger] asns@[k]),
                forall|k: int|
                    0 <= k < j ==> (#[trigger] ranks@[k]).1 == asns@[k] && ranks@[k].0
                        == ranking_key(selection, self@[asns@[k]], graph@),
            decreases asns@.len() - j,
        {
            let asn = asns[j];
            let nodes = self.members(asn).unwrap();
            let key: u128 = match selection {
                AsSelectionStrategy::MaxNodes => nodes.len() as u128,
                AsSelectionStrategy::MaxChannels => sum_channels(nodes, graph),
            };
            ranks.push((key, asn));
            j += 1;
        }
        ranks
    }

    /// The `n` first ASes in the ranking that `selection` asks for, from the first rank
    /// down, each with its members ordered by their channels.
    fn top_n(&self, n: usize, graph: &Graph, selection: AsSelectionStrategy) -> (top: Vec<
        (Asn, Vec<String>),
    >)
        ensures
            is_top_n(top_view(top@), self@, graph@, selection, n as nat),
    {
        let asns = self.asns();
        assert forall|j: int| 0 <= j < asns@.len() implies self@.contains_key(
            #[trigger] asns@[j],
        ) by {
            assert(asns@.contains(asns@[j]));
        }
        let ranks = self.rank_all(&asns, graph, selection);
        assert(ranks@.no_duplicates()) by {
            assert forall|i: int, j: int|
                0 <= i < ranks@.len() && 0 <= j < ranks@.len() && i != j implies ranks@[i]
                != ranks@[j] by {
                assert(ranks@[i].1 == asns@[i] && ranks@[j].1 == asns@[j]);
            }
        }
        let best = select_top(&ranks, n);
        let mut top: Vec<(Asn, Vec<String>)> = Vec::new();
        let mut k: usize = 0;
        while k < best.len()
            invariant
                k <= best@.len(),
                top@.len() == k,
                is_best_of(best@, ranks@, n as nat),
                ranks@.len() == asns@.len(),
                forall|j: int| 0 <= j < asns@.len() ==> self@.contains_key(#[trigger] asns@[j]),
                forall|j: int| 0 <= j < asns@.len() ==> (#[trigger] ranks@[j]).1 == asns@[j],
                forall|i: int|
                    0 <= i < k ==> (#[trigger] top_view(top@)[i]).0 == best@[i].1
                        && is_sorted_by_degree(
                        top_view(top@)[i].1,
                        self@[best@[i].1],
                        graph@,
                    ),
            decreases best@.len() - k,
        {
            let asn = best[k].1;
            proof {
                assert(ranks@.contains(best@[k as int]));
                let j = choose|j: int| 0 <= j < ranks@.len() && ranks@[j] == best@[k as int];
                assert(ranks@[j].1 == asns@[j]);
            }
            let nodes = self.members(asn).unwrap();
            let sorted = sort_by_degree(nodes, graph);
            let ghost before = top@;
            top.push((asn, sorted));
            proof {
                assert forall|i: int| 0 <= i < k + 1 implies (#[trigger] top_view(top@)[i]).0
                    == best@[i].1 && is_sorted_by_degree(
                    top_view(top@)[i].1,
                    self@[best@[i].1],
                    graph@,
                ) by {
                    if i < k {
                        assert(top@[i] == before[i]);
                        assert(top_view(top@)[i] == top_view(before)[i]);
                    }
                }
            }
            k += 1;
        }
        proof {
            let view = top_view(top@);
            let dir = self@;
            assert forall|i: int| 0 <= i < view.len() implies dir.contains_key(
                (#[trigger] view[i]).0,
            ) by {
                assert(ranks@.contains(best@[i]));
                let j = choose|j: int| 0 <= j < ranks@.len() && ranks@[j] == best@[i];
                assert(ranks@[j].1 == asns@[j]);
            }
            assert forall|i: int, j: int| 0 <= i < j < view.len() implies ranks_before(
                dir,
                graph@,
                selection,
                (#[trigger] view[i]).0,
                (#[trigger] view[j]).0,
            ) by {
                assert(outranks(best@[i], best@[j]));
                assert(ranks@.contains(best@[i]));
                assert(ranks@.contains(best@[j]));
                let a = choose|a: int| 0 <= a < ranks@.len() && ranks@[a] == best@[i];
                let b = choose|b: int| 0 <= b < ranks@.len() && ranks@[b] == best@[j];
                assert(ranks@[a].1 == asns@[a] && ranks@[b].1 == asns@[b]);
            }
            assert forall|asn: Asn, i: int|
                #![trigger dir.contains_key(asn), view[i]]
                dir.contains_key(asn) && 0 <= i < view.len() implies (exists|k: int|
                0 <= k < view.len() && (#[trigger] view[k]).0 == asn)
                || ranks_before(dir, graph@, selection, view[i].0, asn) by {
                assert(asns@.contains(asn));
                let j = choose|j: int| 0 <= j < asns@.len() && asns@[j] == asn;
                assert(ranks@[j].1 == asn);
                if best@.contains(ranks@[j]) {
                    let k = choose|k: int| 0 <= k < best@.len() && best@[k] == ranks@[j];
                    assert(view[k].0 == asn);
                } else {
                    assert(outranks(best@[i], ranks@[j]));
                    assert(ranks@.contains(best@[i]));
                    let a = choose|a: int| 0 <= a < ranks@.len() && ranks@[a] == best@[i];
                    assert(ranks@[a].1 == asns@[a]);
                }
            }
        }
        top
    }

    /// The `n` ASes with the most nodes, from the one with the most down; all the ASes where
    /// the directory has fewer. Between ASes with equally many nodes the larger number comes
    /// first. The members of each AS are ordered by their channels, most first.
    pub fn top_n_asns_nodes(&self, n: usize, graph: &Graph) -> (top: Vec<(Asn, Vec<String>)>)
        ensures
            is_top_n(top_view(top@), self@, graph@, AsSelectionStrategy::MaxNodes, n as nat),
            top@.len() <= n,
    {
        self.top_n(n, graph, AsSelectionStrategy::MaxNodes)
    }

    /// The `n` ASes whose nodes have the most channels together, from the one with the most
    /// down; all the ASes where the directory has fewer. Between ASes with equally many
    /// channels the larger number comes first. The members of each AS are ordered by their
    /// channels, most first.
    pub fn top_n_asns_channels(&self, n: usize, graph: &Graph) -> (top: Vec<(Asn, Vec<String>)>)
        ensures
            is_top_n(top_view(top@), self@, graph@, AsSelectionStrategy::MaxChannels, n as nat),
            top@.len() <= n,
    {
        self.top_n(n, graph, AsSelectionStrategy::MaxChannels)
    }

    /// The members of `asn`, where the directory knows the AS.
    pub fn members(&self, asn: Asn) -> (members: Option<&Vec<String>>)
        ensures
            match members {
                Some(list) => self@.contains_key(asn) && ids(list@) == self@[asn],
                None => !self@.contains_key(asn),
            },
    {
        self.as_to_nodes.get(&asn)
    }

    /// The AS that the node `id` resolves to: the one that lists it, `None` where none does.
    pub fn resolve(&self, id: &String) -> (asn: Option<Asn>)
        requires
            self.wf(),
        ensures
            asn == asn_of(self@, id@),
    {
        find_key_for_value(&self.as_to_nodes, id)
    }
}

} // verus!
