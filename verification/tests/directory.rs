use simulator::graph::{Address, Adjacency, Edge, Graph, Node};
use simulator::net::asn::AsIpMap;
use std::collections::HashMap;

fn node(id: &str, addr: &str, asn: Option<u32>) -> Node {
    Node::new(
        id.to_owned(),
        vec![Address::new("tcp".to_owned(), addr.to_owned(), asn)],
    )
}

fn channels(from: &str, to: &[&str]) -> Adjacency {
    Adjacency::new(
        from.to_owned(),
        to.iter()
            .map(|dest| Edge::new(from.to_owned(), (*dest).to_owned()))
            .collect(),
    )
}

/// Three nodes that are all connected: two in AS 24940, one in AS 797.
fn trivial_connected() -> Graph {
    Graph::new(
        vec![
            node("025", "88.99.209.230", Some(24940)),
            node("034", "144.76.235.20", Some(24940)),
            node("036", "12.0.1.28", Some(797)),
        ],
        vec![
            channels("025", &["034", "036"]),
            channels("034", &["025", "036"]),
            channels("036", &["034", "025"]),
        ],
    )
}

/// alice - bob - chan - dina: alice and bob in AS 24940, chan and dina in AS 797.
fn lnbook_example() -> Graph {
    Graph::new(
        vec![
            node("alice", "88.99.209.230", Some(24940)),
            node("bob", "144.76.235.20", Some(24940)),
            node("chan", "12.0.1.28", Some(797)),
            node("dina", "12.10.0.2", Some(797)),
        ],
        vec![
            channels("alice", &["bob"]),
            channels("bob", &["alice", "chan"]),
            channels("chan", &["bob", "dina"]),
            channels("dina", &["chan"]),
        ],
    )
}

fn as_fractions(hundredths: &[u32]) -> Vec<f32> {
    hundredths.iter().map(|h| *h as f32 / 100.0).collect()
}

#[test]
fn asn_init() {
    let graph = trivial_connected();
    let include_tor = false;
    let as_ip_map = AsIpMap::new(&graph, include_tor);
    let actual = as_ip_map.as_to_nodes;
    let expected = HashMap::from([
        (797, vec!["036".to_owned()]),
        (24940, vec!["025".to_owned(), "034".to_owned()]),
    ]);
    assert_eq!(actual.len(), expected.len());
    for a in actual {
        let expected_nodes = expected.get(&a.0).unwrap();
        assert_eq!(expected_nodes.len(), a.1.len());
    }
}

#[test]
fn asn_lookup() {
    let node = Node::default();
    let include_tor = false;
    let actual = AsIpMap::lookup_asn_for_node(&node, include_tor);
    let expected = None;
    assert_eq!(expected, actual);
    let node = Node::new(
        String::new(),
        vec![
            Address::new(
                "tcp".to_string(),
                "archiveiya74codqgiixo33q62qlrqtkgmcitqx5u2oeqnmn5bpcbiyd.onion".to_string(),
                None,
            ),
            Address::new("tcp".to_string(), "8.8.8.8".to_string(), Some(15169)),
        ],
    );
    let actual = AsIpMap::lookup_asn_for_node(&node, include_tor);
    let expected = Some(15169);
    assert_eq!(expected, actual);
}

#[test]
fn top_k_asns_nodes() {
    let graph = lnbook_example();
    let n = 2;
    let include_tor = false;
    let as_ip_map = AsIpMap::new(&graph, include_tor);
    let actual = as_ip_map.top_n_asns_nodes(n, &graph);
    let expected = vec![
        (24940, vec!["bob".to_owned(), "alice".to_owned()]),
        (797, vec!["chan".to_owned(), "dina".to_owned()]),
    ];
    assert_eq!(actual, expected);
    let graph = trivial_connected();
    let n = 1;
    let as_ip_map = AsIpMap::new(&graph, include_tor);
    let actual = as_ip_map.top_n_asns_nodes(n, &graph);
    let expected = vec![(24940, vec!["025".to_owned(), "034".to_owned()])];
    assert_eq!(actual.len(), expected.len());
    assert_eq!(actual[0].0, expected[0].0);
    for a in actual[0].1.iter() {
        assert!(expected[0].1.contains(&a));
    }
}

#[test]
fn top_k_asns_channels() {
    let graph = lnbook_example();
    let n = 2;
    let include_tor = false;
    let as_ip_map = AsIpMap::new(&graph, include_tor);
    let actual = as_ip_map.top_n_asns_channels(n, &graph);
    let expected = vec![
        (24940, vec!["bob".to_owned(), "alice".to_owned()]),
        (797, vec!["chan".to_owned(), "dina".to_owned()]),
    ];
    assert_eq!(actual, expected);
    let graph = trivial_connected();
    let n = 1;
    let as_ip_map = AsIpMap::new(&graph, include_tor);
    let actual = as_ip_map.top_n_asns_channels(n, &graph);
    let expected = vec![(24940, vec!["025".to_owned(), "034".to_owned()])];
    assert_eq!(actual.len(), expected.len());
    assert_eq!(actual[0].0, expected[0].0);
    for a in actual[0].1.iter() {
        assert!(expected[0].1.contains(&a));
    }
}

#[test]
fn intra_channels_rate() {
    let graph = lnbook_example();
    let include_tor = true;
    let as_ip_map = AsIpMap::new(&graph, include_tor);
    let actual = as_ip_map.get_intra_as_channels_ratio(&graph);
    let expected = HashMap::from([(24940, vec![0.5, 1.0]), (797, vec![0.5, 1.0])]);
    assert_eq!(actual.len(), expected.len());
    for a in actual {
        let e = expected.get(&a.0).unwrap();
        let fractions = as_fractions(&a.1);
        assert_eq!(fractions.len(), e.len());
        for expected_ratio in e {
            assert!(fractions.contains(expected_ratio));
        }
    }
    let graph = trivial_connected();
    let as_ip_map = AsIpMap::new(&graph, include_tor);
    let actual = as_ip_map.get_intra_as_channels_ratio(&graph);
    let expected = HashMap::from([(24940, vec![0.5, 0.5]), (797, vec![0.])]);
    assert_eq!(actual.len(), expected.len());
    for a in actual {
        let e = expected.get(&a.0).unwrap();
        let fractions = as_fractions(&a.1);
        assert_eq!(fractions.len(), e.len());
        for expected_ratio in e {
            assert!(fractions.contains(expected_ratio));
        }
    }
}
