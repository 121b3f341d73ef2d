use simulator::graph::{Address, Adjacency, Edge, Graph, Node};
use simulator::net::asn::AsIpMap;
use simulator::net::heap::{ranks_above, LowestFirst};
use simulator::net::ranking::{select_top, sort_by_degree, sum_channels};

fn node(id: &str, asn: Option<u32>) -> Node {
    Node::new(
        id.to_owned(),
        vec![Address::new("tcp".to_owned(), "192.0.2.1".to_owned(), asn)],
    )
}

fn channels(from: &str, to: &[&str]) -> Adjacency {
    Adjacency::new(
        from.to_owned(),
        to.iter()
            .map(|dest| Edge::new(from.to_owned(), (*dest).to_owned()))
            .collect(),
    )
}

fn names(list: &[&str]) -> Vec<String> {
    list.iter().map(|name| (*name).to_owned()).collect()
}

/// A hub with four channels, two nodes with two, two with one and one with none, in four
/// ASes: AS 1 has three nodes and 3 channels, AS 2 two nodes and 6 channels, AS 3 one node
/// and one channel, AS 9 one node and one channel.
fn star() -> Graph {
    Graph::new(
        vec![
            node("a1", Some(1)),
            node("a2", Some(1)),
            node("a3", Some(1)),
            node("hub", Some(2)),
            node("b2", Some(2)),
            node("c1", Some(3)),
            node("d1", Some(9)),
            node("lost", None),
        ],
        vec![
            channels("a1", &["hub"]),
            channels("a2", &["hub", "b2"]),
            channels("hub", &["a1", "a2", "b2", "c1"]),
            channels("b2", &["hub", "a2"]),
            channels("c1", &["hub"]),
            channels("d1", &["lost"]),
        ],
    )
}

#[test]
fn ranking_by_nodes_and_by_channels_differ() {
    let graph = star();
    let directory = AsIpMap::new(&graph, false);
    assert_eq!(
        directory.top_n_asns_nodes(2, &graph),
        vec![
            (1, names(&["a2", "a1", "a3"])),
            (2, names(&["hub", "b2"])),
        ]
    );
    assert_eq!(
        directory.top_n_asns_channels(2, &graph),
        vec![
            (2, names(&["hub", "b2"])),
            (1, names(&["a2", "a1", "a3"])),
        ]
    );
}

#[test]
fn equal_keys_rank_by_the_larger_number() {
    let graph = star();
    let directory = AsIpMap::new(&graph, false);
    let by_nodes = directory.top_n_asns_nodes(4, &graph);
    assert_eq!(
        by_nodes.iter().map(|entry| entry.0).collect::<Vec<_>>(),
        vec![1, 2, 9, 3]
    );
    let by_channels = directory.top_n_asns_channels(10, &graph);
    assert_eq!(
        by_channels.iter().map(|entry| entry.0).collect::<Vec<_>>(),
        vec![2, 1, 9, 3]
    );
}

#[test]
fn the_ranking_is_never_longer_than_asked_for() {
    let graph = star();
    let directory = AsIpMap::new(&graph, false);
    for n in 0..7 {
        let expected = if n < 4 { n } else { 4 };
        assert_eq!(directory.top_n_asns_nodes(n, &graph).len(), expected);
        assert_eq!(directory.top_n_asns_channels(n, &graph).len(), expected);
    }
    assert_eq!(directory.top_n_asns_nodes(usize::MAX, &graph).len(), 4);
    let top = directory.top_n_asns_channels(3, &graph);
    for entry in top.iter() {
        assert!(directory.as_to_nodes.contains_key(&entry.0));
    }
}

#[test]
fn an_empty_directory_ranks_nothing() {
    let graph = Graph::new(vec![], vec![]);
    let directory = AsIpMap::new(&graph, true);
    assert!(directory.as_to_nodes.is_empty());
    assert!(directory.top_n_asns_nodes(3, &graph).is_empty());
    assert!(directory.top_n_asns_channels(3, &graph).is_empty());
    assert!(directory.get_intra_as_channels_ratio(&graph).is_empty());
}

#[test]
fn members_are_ordered_by_channels_and_ties_keep_their_order() {
    let graph = star();
    let members = names(&["a3", "c1", "a1", "hub", "b2", "a2", "unknown"]);
    assert_eq!(
        sort_by_degree(&members, &graph),
        names(&["hub", "b2", "a2", "c1", "a1", "a3", "unknown"])
    );
    assert_eq!(sort_by_degree(&vec![], &graph), Vec::<String>::new());
}

#[test]
fn channels_add_up_over_the_members() {
    let graph = star();
    assert_eq!(sum_channels(&names(&["hub", "b2"]), &graph), 6);
    assert_eq!(sum_channels(&names(&["a1", "a2", "a3"]), &graph), 3);
    assert_eq!(sum_channels(&names(&["unknown"]), &graph), 0);
    assert_eq!(sum_channels(&vec![], &graph), 0);
}

#[test]
fn the_queue_hands_out_the_lowest_first() {
    let mut queue = LowestFirst::new();
    assert_eq!(queue.len(), 0);
    assert_eq!(queue.pop(), None);
    for item in [(5, 1), (3, 7), (9, 2), (3, 8), (1, 1), (9, 1), (4, 4)] {
        queue.push(item);
    }
    assert_eq!(queue.len(), 7);
    assert_eq!(queue.pop(), Some((1, 1)));
    assert_eq!(queue.pop(), Some((3, 7)));
    assert_eq!(queue.pop(), Some((3, 8)));
    assert_eq!(queue.len(), 4);
    queue.push((0, 0));
    assert_eq!(queue.pop(), Some((0, 0)));
    assert_eq!(
        queue.into_sorted_vec(),
        vec![(9, 2), (9, 1), (5, 1), (4, 4)]
    );
}

#[test]
fn the_queue_sorts_many_items() {
    let mut queue = LowestFirst::new();
    let mut expected = Vec::new();
    let mut key: u128 = 17;
    for asn in 0..500u32 {
        key = (key * 7919 + 13) % 1009;
        queue.push((key, asn));
        expected.push((key, asn));
    }
    expected.sort();
    expected.reverse();
    assert_eq!(queue.into_sorted_vec(), expected);
}

#[test]
fn ranks_compare_by_key_and_then_by_number() {
    assert!(ranks_above((2, 0), (1, 9)));
    assert!(ranks_above((2, 5), (2, 4)));
    assert!(!ranks_above((2, 4), (2, 4)));
    assert!(!ranks_above((1, 9), (2, 0)));
}

#[test]
fn the_highest_ranks_are_selected_from_the_top_down() {
    let ranks = vec![(5, 1), (3, 7), (9, 2), (3, 8), (1, 1), (9, 1), (4, 4)];
    assert_eq!(select_top(&ranks, 3), vec![(9, 2), (9, 1), (5, 1)]);
    assert_eq!(select_top(&ranks, 0), vec![]);
    assert_eq!(
        select_top(&ranks, 100),
        vec![(9, 2), (9, 1), (5, 1), (4, 4), (3, 8), (3, 7), (1, 1)]
    );
    assert_eq!(select_top(&vec![], 3), vec![]);
}

/// A graph of `count` nodes whose ASes and channels follow from `seed`.
fn scattered(count: usize, seed: u64) -> Graph {
    let mut state = seed;
    let mut next = move |bound: u64| {
        state = state
            .wrapping_mul(6364136223846793005)
            .wrapping_add(1442695040888963407);
        (state >> 33) % bound
    };
    let ids: Vec<String> = (0..count).map(|i| format!("n{i}")).collect();
    let mut nodes = Vec::new();
    let mut edges = Vec::new();
    for id in ids.iter() {
        let asn = match next(8) {
            0 => None,
            k => Some(k as u32 * 100),
        };
        nodes.push(node(id, asn));
        let degree = next(6) as usize;
        let targets: Vec<&str> = (0..degree)
            .map(|_| ids[next(count as u64) as usize].as_str())
            .collect();
        if next(5) != 0 {
            edges.push(channels(id, &targets));
        }
    }
    Graph::new(nodes, edges)
}

#[test]
fn rankings_agree_with_a_full_sort() {
    for seed in 0..20u64 {
        let graph = scattered(60, seed);
        let directory = AsIpMap::new(&graph, false);
        let degree = |id: &String| graph.edge_count(id);
        let mut by_nodes = Vec::new();
        let mut by_channels = Vec::new();
        for (asn, members) in directory.as_to_nodes.iter() {
            let mut sorted = members.clone();
            sorted.sort_by(|a, b| degree(b).cmp(&degree(a)));
            let total: usize = members.iter().map(degree).sum();
            by_nodes.push((members.len(), *asn, sorted.clone()));
            by_channels.push((total, *asn, sorted));
        }
        by_nodes.sort();
        by_nodes.reverse();
        by_channels.sort();
        by_channels.reverse();
        for n in [0, 1, 2, 3, 5, 7, 8, 100] {
            let expected: Vec<(u32, Vec<String>)> = by_nodes
                .iter()
                .take(n)
                .map(|entry| (entry.1, entry.2.clone()))
                .collect();
            assert_eq!(directory.top_n_asns_nodes(n, &graph), expected);
            let expected: Vec<(u32, Vec<String>)> = by_channels
                .iter()
                .take(n)
                .map(|entry| (entry.1, entry.2.clone()))
                .collect();
            assert_eq!(directory.top_n_asns_channels(n, &graph), expected);
        }
    }
}

#[test]
fn ratios_agree_with_a_count_by_hand() {
    for seed in 0..20u64 {
        let graph = scattered(40, seed);
        let directory = AsIpMap::new(&graph, false);
        let ratios = directory.get_intra_as_channels_ratio(&graph);
        assert_eq!(ratios.len(), directory.as_to_nodes.len());
        for (asn, members) in directory.as_to_nodes.iter() {
            let mut expected = Vec::new();
            for member in members {
                let targets = match graph.get_edges_for_node(member) {
                    Some(targets) if !targets.is_empty() => targets,
                    _ => continue,
                };
                let within = targets
                    .iter()
                    .filter(|e| members.contains(&e.destination))
                    .count();
                expected.push((within * 100 / targets.len()) as u32);
            }
            assert_eq!(ratios[asn], expected);
        }
    }
}
