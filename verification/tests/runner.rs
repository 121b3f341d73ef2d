use simulator::graph::{Address, Adjacency, Edge, Graph, Node};
use simulator::net::asn::AsIpMap;
use simulator::routing::{Path, Payment, RoutingResult};
use simulator::sim::builder::SimBuilder;
use simulator::sim::output::{PerSimAccuracy, SimResult};
use simulator::sim::runner::asn_simulation;
use simulator::{AsSelectionStrategy, PacketDropStrategy};

fn node(id: &str, addr: &str, asn: Option<u32>) -> Node {
    Node::new(
        id.to_owned(),
        vec![Address::new("tcp".to_owned(), addr.to_owned(), asn)],
    )
}

fn channels(from: &str, to: &[&str]) -> Adjacency {
    Adjacency::new(
        from.to_owned(),
        to.iter()
            .map(|dest| Edge::new(from.to_owned(), (*dest).to_owned()))
            .collect(),
    )
}

/// Three nodes that are all connected: two in AS 24940, one in AS 797.
fn trivial_connected() -> Graph {
    Graph::new(
        vec![
            node("025", "88.99.209.230", Some(24940)),
            node("034", "144.76.235.20", Some(24940)),
            node("036", "12.0.1.28", Some(797)),
        ],
        vec![
            channels("025", &["034", "036"]),
            channels("034", &["025", "036"]),
            channels("036", &["034", "025"]),
        ],
    )
}

/// alice - bob - chan - dina: alice and bob in AS 24940, chan and dina in AS 797.
fn lnbook_example() -> Graph {
    Graph::new(
        vec![
            node("alice", "88.99.209.230", Some(24940)),
            node("bob", "144.76.235.20", Some(24940)),
            node("chan", "12.0.1.28", Some(797)),
            node("dina", "12.10.0.2", Some(797)),
        ],
        vec![
            channels("alice", &["bob"]),
            channels("bob", &["alice", "chan"]),
            channels("chan", &["bob", "dina"]),
            channels("dina", &["chan"]),
        ],
    )
}

fn routed(id: usize, hops: &[&str]) -> Payment {
    let mut payment = Payment::new(
        id,
        hops[0].to_owned(),
        hops[hops.len() - 1].to_owned(),
        1,
    );
    payment.succeeded = true;
    payment.used_paths = vec![Path::new(
        hops.iter().map(|hop| (*hop).to_owned()).collect(),
    )];
    payment
}

/// Three payments between the three connected nodes, all routed directly.
fn trivial_baseline() -> RoutingResult {
    RoutingResult {
        num_succesful: 3,
        num_failed: 0,
        total_num: 3,
        successful_payments: vec![
            routed(0, &["025", "034"]),
            routed(1, &["036", "025"]),
            routed(2, &["034", "036"]),
        ],
        failed_payments: vec![],
    }
}

/// Three successful payments and one that had failed, on the chain of four nodes.
fn chain_baseline() -> RoutingResult {
    RoutingResult {
        num_succesful: 3,
        num_failed: 1,
        total_num: 4,
        successful_payments: vec![
            routed(0, &["dina", "chan", "bob"]),
            routed(1, &["dina", "chan"]),
            routed(2, &["bob", "alice"]),
        ],
        failed_payments: vec![Payment::new(3, "chan".to_owned(), "alice".to_owned(), 1)],
    }
}

#[test]
fn baseline_to_as_results() {
    let graph = trivial_connected();
    let amt_msat = 1000;
    let num_adv_as = 1;
    let run = 0;
    let num_pairs = 3;
    let sim_builder = SimBuilder::new(
        run,
        &graph,
        amt_msat,
        num_pairs,
        num_adv_as,
        AsSelectionStrategy::MaxNodes,
        PacketDropStrategy::All,
    );
    let baseline_result = trivial_baseline();
    let actual = asn_simulation(&sim_builder, baseline_result);
    assert_eq!(actual.len(), 3);
}

#[test]
fn a_simulation_reports_each_strategy_for_each_adversary() {
    let graph = lnbook_example();
    let sim_builder = SimBuilder::new(
        0,
        &graph,
        1000,
        4,
        2,
        AsSelectionStrategy::MaxChannels,
        PacketDropStrategy::All,
    );
    let baseline = chain_baseline();
    let actual = asn_simulation(&sim_builder, baseline.clone());
    assert_eq!(
        actual.iter().map(|r| r.strategy).collect::<Vec<_>>(),
        vec![
            PacketDropStrategy::All,
            PacketDropStrategy::IntraProbability,
            PacketDropStrategy::IntraAs,
        ]
    );
    let unharmed = SimResult::from_simlib_results(baseline.clone(), 0);
    for per_strategy in actual.iter() {
        assert_eq!(
            per_strategy
                .attack_results
                .iter()
                .map(|a| a.asn.clone())
                .collect::<Vec<_>>(),
            vec!["24940".to_owned(), "797".to_owned()]
        );
        for attack in per_strategy.attack_results.iter() {
            assert_eq!(attack.sim_results.len(), 2);
            assert_eq!(attack.sim_results[0], unharmed);
            assert_eq!(attack.sim_results[1].payments.len(), 4);
            assert_eq!(
                attack.sim_results[1].num_successful + attack.sim_results[1].num_failed,
                4
            );
        }
    }
    // dropping all: AS 24940 sees dina -> bob and bob -> alice, AS 797 sees both of dina's
    let all = &actual[0].attack_results;
    assert_eq!(all[0].sim_results[1].num_failed, 3);
    assert_eq!(all[0].sim_results[1].num_nodes_under_attack, 2);
    assert_eq!(all[1].sim_results[1].num_failed, 3);
    assert!(all[0].per_sim_accuracy.is_none());
    // guessing keeps an accuracy
    let guessed = &actual[1].attack_results;
    assert!(guessed[0].per_sim_accuracy.is_some());
    assert_eq!(guessed[0].sim_results[1].num_nodes_under_attack, usize::MAX);
    // within the AS: bob -> alice for AS 24940, dina -> chan for AS 797
    let intra = &actual[2].attack_results;
    assert_eq!(intra[0].sim_results[1].num_failed, 2);
    assert_eq!(intra[1].sim_results[1].num_failed, 2);
    assert_eq!(intra[0].sim_results[1].num_nodes_under_attack, usize::MAX);
    assert!(intra[0].per_sim_accuracy.is_none());
}

#[test]
fn one_adversary_under_each_strategy() {
    let graph = lnbook_example();
    let as_ip_map = AsIpMap::new(&graph, false);
    let baseline = chain_baseline();
    let nodes = vec!["chan".to_owned(), "dina".to_owned()];

    let report = SimBuilder::per_asn_simulation(
        baseline.clone(),
        797,
        &nodes,
        PacketDropStrategy::All,
        None,
        &as_ip_map,
    );
    assert_eq!(report.asn, "797");
    assert_eq!(report.sim_results.len(), 1);
    assert_eq!(report.sim_results[0].num_nodes_under_attack, 2);
    assert_eq!(report.sim_results[0].num_successful, 1);
    assert_eq!(report.sim_results[0].num_failed, 3);
    assert!(report.per_sim_accuracy.is_none());

    let report = SimBuilder::per_asn_simulation(
        baseline.clone(),
        797,
        &nodes,
        PacketDropStrategy::IntraAs,
        None,
        &as_ip_map,
    );
    assert_eq!(report.sim_results[0].num_nodes_under_attack, usize::MAX);
    assert_eq!(report.sim_results[0].num_successful, 2);
    assert_eq!(report.sim_results[0].num_failed, 2);
    assert!(report.per_sim_accuracy.is_none());

    let report = SimBuilder::per_asn_simulation(
        baseline.clone(),
        797,
        &nodes,
        PacketDropStrategy::InterAs,
        None,
        &as_ip_map,
    );
    assert_eq!(report.sim_results[0].num_nodes_under_attack, usize::MAX);
    assert_eq!(report.sim_results[0].num_successful, 2);
    assert_eq!(report.sim_results[0].num_failed, 2);
    assert!(report.per_sim_accuracy.is_none());

    let report = SimBuilder::per_asn_simulation(
        baseline.clone(),
        797,
        &nodes,
        PacketDropStrategy::IntraProbability,
        Some(&vec![100]),
        &as_ip_map,
    );
    assert_eq!(report.sim_results[0].num_nodes_under_attack, usize::MAX);
    assert_eq!(report.sim_results[0].num_failed, 3);
    assert_eq!(
        report.per_sim_accuracy,
        Some(PerSimAccuracy { tpos: 1, fpos: 1, fneg: 0 })
    );
}

#[test]
fn a_guessing_adversary_without_ratios_changes_nothing() {
    let graph = lnbook_example();
    let as_ip_map = AsIpMap::new(&graph, false);
    let baseline = chain_baseline();
    let nodes = vec!["chan".to_owned(), "dina".to_owned()];
    let report = SimBuilder::per_asn_simulation(
        baseline.clone(),
        797,
        &nodes,
        PacketDropStrategy::IntraProbability,
        None,
        &as_ip_map,
    );
    assert_eq!(
        report.sim_results,
        vec![SimResult::from_simlib_results(baseline, 2)]
    );
    assert!(report.per_sim_accuracy.is_none());
}

#[test]
fn one_strategy_against_the_given_adversaries() {
    let graph = lnbook_example();
    let as_ip_map = AsIpMap::new(&graph, false);
    let sim_builder = SimBuilder::new(
        0,
        &graph,
        1000,
        4,
        1,
        AsSelectionStrategy::MaxNodes,
        PacketDropStrategy::InterAs,
    );
    let adversaries = sim_builder.get_adverserial_asns(&as_ip_map);
    let results = sim_builder.strategy_simulation(
        &chain_baseline(),
        &adversaries,
        PacketDropStrategy::InterAs,
        &as_ip_map,
    );
    assert_eq!(results.strategy, PacketDropStrategy::InterAs);
    assert_eq!(results.attack_results.len(), 1);
    assert_eq!(results.attack_results[0].asn, "24940");
    // dina -> bob crosses AS 24940 and starts outside; bob -> alice stays within
    assert_eq!(results.attack_results[0].sim_results[1].num_failed, 2);
    assert_eq!(results.attack_results[0].sim_results[1].num_successful, 2);
}

#[test]
fn the_example_from_end_to_end() {
    let graph = trivial_connected();
    let as_ip_map = AsIpMap::new(&graph, false);
    let top = as_ip_map.top_n_asns_nodes(1, &graph);
    assert_eq!(
        top,
        vec![(24940, vec!["025".to_owned(), "034".to_owned()])]
    );
    let baseline = RoutingResult {
        num_succesful: 1,
        num_failed: 0,
        total_num: 1,
        successful_payments: vec![routed(0, &["036", "034"])],
        failed_payments: vec![],
    };
    let (attacked, accuracy) = SimBuilder::apply_all_dropped_strategy(baseline.clone(), &top[0].1);
    assert_eq!(attacked.num_failed, baseline.num_failed + 1);
    assert_eq!(attacked.num_succesful, baseline.num_succesful - 1);
    assert_eq!(attacked.total_num, baseline.total_num);
    assert!(!attacked.failed_payments[0].succeeded);
    assert!(attacked.failed_payments[0].used_paths.is_empty());
    assert!(accuracy.is_none());
}

#[test]
fn the_configured_strategy_against_the_configured_adversaries() {
    let graph = lnbook_example();
    let as_ip_map = AsIpMap::new(&graph, false);
    let baseline = chain_baseline();
    let sim_builder = SimBuilder::new(
        0,
        &graph,
        1000,
        4,
        5,
        AsSelectionStrategy::MaxNodes,
        PacketDropStrategy::InterAs,
    );
    let results = sim_builder.simulate_attacks(&baseline, &as_ip_map);
    assert_eq!(results.strategy, PacketDropStrategy::InterAs);
    assert_eq!(
        results
            .attack_results
            .iter()
            .map(|a| a.asn.clone())
            .collect::<Vec<_>>(),
        vec!["24940".to_owned(), "797".to_owned()]
    );
    let unharmed = SimResult::from_simlib_results(baseline.clone(), 0);
    for attack in results.attack_results.iter() {
        assert_eq!(attack.sim_results.len(), 2);
        assert_eq!(attack.sim_results[0], unharmed);
        assert!(attack.per_sim_accuracy.is_none());
    }
    // AS 24940 drops dina -> bob, AS 797 drops dina -> bob as well; both keep what stays within
    assert_eq!(results.attack_results[0].sim_results[1].num_failed, 2);
    assert_eq!(results.attack_results[1].sim_results[1].num_failed, 2);

    let guessing = SimBuilder::new(
        0,
        &graph,
        1000,
        4,
        1,
        AsSelectionStrategy::MaxChannels,
        PacketDropStrategy::IntraProbability,
    );
    let results = guessing.simulate_attacks(&baseline, &as_ip_map);
    assert_eq!(results.attack_results.len(), 1);
    assert!(results.attack_results[0].per_sim_accuracy.is_some());
    assert_eq!(
        results.attack_results[0].sim_results[1].num_successful
            + results.attack_results[0].sim_results[1].num_failed,
        4
    );
}
