use simulator::decimal::to_decimal;
use simulator::graph::{chars_of, holds_onion_marker, Address, Adjacency, Edge, Graph, Node};
use simulator::net::asn::AsIpMap;
use simulator::net::directory::TOR_ASN;
use simulator::routing::{Payment, RoutingResult};
use simulator::{contains_id, find_key_for_value};
use std::collections::HashMap;

fn address(addr: &str, asn: Option<u32>) -> Address {
    Address::new("tcp".to_owned(), addr.to_owned(), asn)
}

fn channels(from: &str, to: &[&str]) -> Adjacency {
    Adjacency::new(
        from.to_owned(),
        to.iter()
            .map(|dest| Edge::new(from.to_owned(), (*dest).to_owned()))
            .collect(),
    )
}

const ONION: &str = "archiveiya74codqgiixo33q62qlrqtkgmcitqx5u2oeqnmn5bpcbiyd.onion";

#[test]
fn onion_addresses_are_told_by_their_marker() {
    assert!(address(ONION, None).is_onion());
    assert!(address("onion", None).is_onion());
    assert!(address("xonionx", None).is_onion());
    assert!(address("ononion", None).is_onion());
    assert!(!address("8.8.8.8", None).is_onion());
    assert!(!address("", None).is_onion());
    assert!(!address("onio", None).is_onion());
    assert!(!address("on ion", None).is_onion());
    assert!(!address("ONION", None).is_onion());
    assert!(holds_onion_marker(&chars_of("é.onion")));
    assert_eq!(chars_of("añb"), vec!['a', 'ñ', 'b']);
}

#[test]
fn the_first_address_that_resolves_decides() {
    let node = Node::new(
        "n".to_owned(),
        vec![
            address("not an address", None),
            address(ONION, Some(5)),
            address("192.0.2.1", Some(64500)),
            address("192.0.2.2", Some(64501)),
        ],
    );
    assert_eq!(AsIpMap::lookup_asn_for_node(&node, false), Some(64500));
    assert_eq!(AsIpMap::lookup_asn_for_node(&node, true), Some(64500));
}

#[test]
fn onion_only_nodes_sit_in_the_anonymity_network_when_asked_for() {
    let hidden = Node::new("h".to_owned(), vec![address(ONION, None)]);
    assert_eq!(AsIpMap::lookup_asn_for_node(&hidden, true), Some(TOR_ASN));
    assert_eq!(AsIpMap::lookup_asn_for_node(&hidden, false), None);
    let two_onions = Node::new(
        "t".to_owned(),
        vec![address(ONION, None), address(ONION, None)],
    );
    assert_eq!(AsIpMap::lookup_asn_for_node(&two_onions, true), None);
    let mixed = Node::new(
        "m".to_owned(),
        vec![address(ONION, None), address("192.0.2.1", None)],
    );
    assert_eq!(AsIpMap::lookup_asn_for_node(&mixed, true), None);
    let unknown = Node::new("u".to_owned(), vec![address("192.0.2.1", None)]);
    assert_eq!(AsIpMap::lookup_asn_for_node(&unknown, true), None);
}

#[test]
fn the_directory_lists_each_node_once_and_only_nodes_of_the_graph() {
    let graph = Graph::new(
        vec![
            Node::new("a".to_owned(), vec![address("192.0.2.1", Some(1))]),
            Node::new("b".to_owned(), vec![address(ONION, None)]),
            Node::new("c".to_owned(), vec![address("192.0.2.3", Some(2))]),
            Node::new("d".to_owned(), vec![]),
            Node::new(
                "e".to_owned(),
                vec![address("192.0.2.5", None), address("192.0.2.6", Some(1))],
            ),
            Node::new("f".to_owned(), vec![address(ONION, None)]),
        ],
        vec![],
    );
    assert!(graph.has_distinct_nodes());
    let directory = AsIpMap::new(&graph, true);
    let expected = HashMap::from([
        (0, vec!["b".to_owned(), "f".to_owned()]),
        (1, vec!["a".to_owned(), "e".to_owned()]),
        (2, vec!["c".to_owned()]),
    ]);
    assert_eq!(directory.as_to_nodes, expected);
    let mut listed: Vec<&String> = directory.as_to_nodes.values().flatten().collect();
    let count = listed.len();
    listed.sort();
    listed.dedup();
    assert_eq!(listed.len(), count);
    for id in listed {
        assert!(graph.nodes.iter().any(|n| &n.id == id));
    }
    let without = AsIpMap::new(&graph, false);
    assert_eq!(without.as_to_nodes.len(), 2);
    assert!(!without.as_to_nodes.contains_key(&0));
}

#[test]
fn a_listed_node_is_found_under_its_as() {
    let map = HashMap::from([
        (797, vec!["chan".to_owned(), "dina".to_owned()]),
        (24940, vec!["alice".to_owned(), "bob".to_owned()]),
    ]);
    assert_eq!(find_key_for_value(&map, &"dina".to_owned()), Some(797));
    assert_eq!(find_key_for_value(&map, &"alice".to_owned()), Some(24940));
    assert_eq!(find_key_for_value(&map, &"erin".to_owned()), None);
    assert_eq!(find_key_for_value(&HashMap::new(), &"erin".to_owned()), None);
    assert!(contains_id(&map[&797], &"chan".to_owned()));
    assert!(!contains_id(&map[&797], &"cha".to_owned()));
    assert!(!contains_id(&[], &"chan".to_owned()));
}

#[test]
fn the_channels_of_a_node_are_those_of_its_first_entry() {
    let graph = Graph::new(
        vec![],
        vec![
            channels("a", &["b", "c"]),
            channels("b", &[]),
            channels("a", &["d"]),
        ],
    );
    assert_eq!(graph.edge_count(&"a".to_owned()), 2);
    assert_eq!(graph.edge_count(&"b".to_owned()), 0);
    assert_eq!(graph.edge_count(&"c".to_owned()), 0);
    assert_eq!(
        graph.get_edges_for_node(&"a".to_owned()),
        Some(&vec![
            Edge::new("a".to_owned(), "b".to_owned()),
            Edge::new("a".to_owned(), "c".to_owned()),
        ])
    );
    assert_eq!(graph.get_edges_for_node(&"b".to_owned()), Some(&vec![]));
    assert_eq!(graph.get_edges_for_node(&"c".to_owned()), None);
    assert_eq!(graph.node_count(), 0);
}

#[test]
fn nodes_that_share_a_name_are_found() {
    let twice = Graph::new(
        vec![
            Node::new("a".to_owned(), vec![]),
            Node::new("b".to_owned(), vec![]),
            Node::new("a".to_owned(), vec![]),
        ],
        vec![],
    );
    assert!(!twice.has_distinct_nodes());
    assert!(Graph::new(vec![], vec![]).has_distinct_nodes());
}

#[test]
fn ratios_are_hundredths_cut_off_below_the_hundredth() {
    // one of three, two of three, three of three and none of one channel stay within AS 1
    let graph = Graph::new(
        vec![
            Node::new("a".to_owned(), vec![address("192.0.2.1", Some(1))]),
            Node::new("b".to_owned(), vec![address("192.0.2.2", Some(1))]),
            Node::new("c".to_owned(), vec![address("192.0.2.3", Some(1))]),
            Node::new("d".to_owned(), vec![address("192.0.2.4", Some(1))]),
            Node::new("e".to_owned(), vec![address("192.0.2.5", Some(1))]),
            Node::new("x".to_owned(), vec![address("192.0.2.9", Some(2))]),
            Node::new("y".to_owned(), vec![address("192.0.2.8", None)]),
        ],
        vec![
            channels("a", &["b", "x", "y"]),
            channels("b", &["a", "c", "x"]),
            channels("c", &["a", "b", "d"]),
            channels("d", &["x"]),
            channels("e", &[]),
        ],
    );
    let directory = AsIpMap::new(&graph, false);
    let ratios = directory.get_intra_as_channels_ratio(&graph);
    assert_eq!(
        ratios,
        HashMap::from([(1, vec![33, 66, 100, 0]), (2, vec![])])
    );
    for list in ratios.values() {
        for ratio in list {
            assert!(*ratio <= 100);
            let fraction = *ratio as f32 / 100.0;
            assert!((0.0..=1.0).contains(&fraction));
        }
    }
}

#[test]
fn numbers_are_written_in_decimal() {
    assert_eq!(to_decimal(0), "0");
    assert_eq!(to_decimal(7), "7");
    assert_eq!(to_decimal(10), "10");
    assert_eq!(to_decimal(797), "797");
    assert_eq!(to_decimal(24940), "24940");
    assert_eq!(to_decimal(1234567890), "1234567890");
    assert_eq!(to_decimal(u32::MAX), "4294967295");
    for n in [1u32, 9, 99, 100, 101, 65535, 65536, 999999999] {
        assert_eq!(to_decimal(n), n.to_string());
    }
}

#[test]
fn consistent_outcomes_are_told_from_others() {
    let mut outcome = RoutingResult {
        num_succesful: 1,
        num_failed: 1,
        total_num: 2,
        successful_payments: vec![Payment::new(0, "a".to_owned(), "b".to_owned(), 1)],
        failed_payments: vec![Payment::new(1, "a".to_owned(), "c".to_owned(), 1)],
    };
    assert!(outcome.is_consistent());
    outcome.total_num = 3;
    assert!(!outcome.is_consistent());
    outcome.total_num = 2;
    outcome.num_failed = 2;
    assert!(!outcome.is_consistent());
    outcome.num_failed = 1;
    outcome.num_succesful = 0;
    assert!(!outcome.is_consistent());
    outcome.total_num = 0;
    assert!(!outcome.is_consistent());
}
