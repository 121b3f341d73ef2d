use simulator::graph::{Address, Adjacency, Edge, Graph, Node};
use simulator::net::asn::AsIpMap;
use simulator::routing::{Path, Payment};
use simulator::sim::builder::SimBuilder;
use simulator::{AsSelectionStrategy, PacketDropStrategy};

fn node(id: &str, addr: &str, asn: Option<u32>) -> Node {
    Node::new(
        id.to_owned(),
        vec![Address::new("tcp".to_owned(), addr.to_owned(), asn)],
    )
}

fn channels(from: &str, to: &[&str]) -> Adjacency {
    Adjacency::new(
        from.to_owned(),
        to.iter()
            .map(|dest| Edge::new(from.to_owned(), (*dest).to_owned()))
            .collect(),
    )
}

/// Three nodes that are all connected: two in AS 24940, one in AS 797.
fn trivial_connected() -> Graph {
    Graph::new(
        vec![
            node("025", "88.99.209.230", Some(24940)),
            node("034", "144.76.235.20", Some(24940)),
            node("036", "12.0.1.28", Some(797)),
        ],
        vec![
            channels("025", &["034", "036"]),
            channels("034", &["025", "036"]),
            channels("036", &["034", "025"]),
        ],
    )
}

/// alice - bob - chan - dina: alice and bob in AS 24940, chan and dina in AS 797.
fn lnbook_example() -> Graph {
    Graph::new(
        vec![
            node("alice", "88.99.209.230", Some(24940)),
            node("bob", "144.76.235.20", Some(24940)),
            node("chan", "12.0.1.28", Some(797)),
            node("dina", "12.10.0.2", Some(797)),
        ],
        vec![
            channels("alice", &["bob"]),
            channels("bob", &["alice", "chan"]),
            channels("chan", &["bob", "dina"]),
            channels("dina", &["chan"]),
        ],
    )
}

fn path(hops: &[&str]) -> Path {
    Path::new(hops.iter().map(|hop| (*hop).to_owned()).collect())
}

#[test]
fn builder_init() {
    let graph = trivial_connected();
    let amt_msat = 1000;
    let num_pairs = 3;
    let num_adv_as = 1;
    let run = 0;
    let actual = SimBuilder::new(
        run,
        &graph,
        amt_msat,
        num_pairs,
        num_adv_as,
        AsSelectionStrategy::MaxChannels,
        PacketDropStrategy::All,
    );
    let expected = SimBuilder {
        run,
        graph: graph.clone(),
        amt_msat: 1000,
        num_payments: 3,
        num_adv_as: 1,
        as_selection: AsSelectionStrategy::MaxChannels,
        drop_strategy: PacketDropStrategy::All,
    };
    assert_eq!(actual.graph.node_count(), expected.graph.node_count());
    assert_eq!(actual.num_payments, expected.num_payments);
    assert_eq!(actual.amt_msat, expected.amt_msat);
    assert_eq!(actual.num_adv_as, expected.num_adv_as);
    assert_eq!(actual.as_selection, expected.as_selection);
}

#[test]
fn adversarial_asns() {
    let graph = lnbook_example();
    let amt_msat = 1000;
    let num_pairs = 3;
    let num_adv_as = 1;
    let run = 0;
    let sim_builder = SimBuilder::new(
        run,
        &graph,
        amt_msat,
        num_pairs,
        num_adv_as,
        AsSelectionStrategy::MaxNodes,
        PacketDropStrategy::All,
    );
    let actual = sim_builder.get_adverserial_asns(&AsIpMap::new(&graph, true));
    let expected = vec![(24940, vec!["bob".to_owned(), "alice".to_owned()])];
    assert_eq!(actual, expected);
}

#[test]
fn involved_adversaries() {
    let asn_nodes = vec!["alice".to_owned()];
    let mut payment = Payment::new(0, String::from("dina"), String::from("bob"), 1);
    payment.used_paths = vec![path(&["dina", "chan", "bob"])];
    let actual = SimBuilder::payment_involves_asn(&payment, &asn_nodes);
    assert!(!actual);
    payment
        .used_paths
        .push(path(&["dina", "chan", "alice", "bob"]));
    let actual = SimBuilder::payment_involves_asn(&payment, &asn_nodes);
    assert!(actual);
    payment.used_paths = vec![path(&["dina", "alice"])];
    let actual = SimBuilder::payment_involves_asn(&payment, &asn_nodes);
    assert!(actual);
}

#[test]
fn the_builder_keeps_a_copy_of_the_graph() {
    let graph = lnbook_example();
    let builder = SimBuilder::new(
        7,
        &graph,
        1000,
        3,
        2,
        AsSelectionStrategy::MaxNodes,
        PacketDropStrategy::InterAs,
    );
    assert_eq!(builder.graph, graph);
    assert_eq!(builder.run, 7);
    assert_eq!(builder.drop_strategy, PacketDropStrategy::InterAs);
}

#[test]
fn more_adversaries_than_ases_gives_all_ases() {
    let graph = lnbook_example();
    let builder = SimBuilder::new(
        0,
        &graph,
        1000,
        3,
        10,
        AsSelectionStrategy::MaxChannels,
        PacketDropStrategy::All,
    );
    let actual = builder.get_adverserial_asns(&AsIpMap::new(&graph, false));
    let expected = vec![
        (24940, vec!["bob".to_owned(), "alice".to_owned()]),
        (797, vec!["chan".to_owned(), "dina".to_owned()]),
    ];
    assert_eq!(actual, expected);
}

#[test]
fn no_adversaries_asked_for_gives_none() {
    let graph = lnbook_example();
    let builder = SimBuilder::new(
        0,
        &graph,
        1000,
        3,
        0,
        AsSelectionStrategy::MaxNodes,
        PacketDropStrategy::All,
    );
    assert!(builder
        .get_adverserial_asns(&AsIpMap::new(&graph, false))
        .is_empty());
}

#[test]
fn the_default_strategy_drops_all() {
    assert_eq!(PacketDropStrategy::default(), PacketDropStrategy::All);
}
