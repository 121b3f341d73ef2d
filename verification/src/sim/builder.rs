//! The settings of one simulation, and how it picks its adversaries.

use crate::contains_id;
use crate::graph::{ids, Graph};
use crate::net::asn::AsIpMap;
use crate::net::directory::{Asn};
use crate::net::ranking::{is_top_n, top_view};
use crate::routing::Payment;
use crate::{AsSelectionStrategy, PacketDropStrategy};
use vstd::prelude::*;

verus! {

broadcast use vstd::std_specs::hash::group_hash_axioms;

/// The settings of one simulation.
#[derive(Debug)]
pub struct SimBuilder {
    /// The number of the run.
    pub run: u64,
    pub graph: Graph,
    /// The amount to route, in millisatoshi.
    pub amt_msat: usize,
    /// The number of payments to simulate.
    pub num_payments: usize,
    /// The number of adversary ASes.
    pub num_adv_as: usize,
    pub as_selection: AsSelectionStrategy,
    pub drop_strategy: PacketDropStrategy,
}

impl SimBuilder {
    /// The settings as given, with a copy of `graph`.
    pub fn new(
        run: u64,
        graph: &Graph,
        amt_msat: usize,
        num_payments: usize,
        num_adv_as: usize,
        as_selection: AsSelectionStrategy,
        drop_strategy: PacketDropStrategy,
    ) -> (builder: SimBuilder)
        ensures
            builder.run == run,
            builder.graph@ == graph@,
            builder.amt_msat == amt_msat,
            builder.num_payments == num_payments,
            builder.num_adv_as == num_adv_as,
            builder.as_selection == as_selection,
            builder.drop_strategy == drop_strategy,
    {
        SimBuilder {
            run,
            graph: graph.clone(),
            amt_msat,
            num_payments,
            num_adv_as,
            as_selection,
            drop_strategy,
        }
    }

    /// The adversaries of the simulation: as many ASes as the settings ask for, or all where
    /// the directory has fewer, from the first rank of the chosen ranking down, each with its
    /// members ordered by their channels.
    pub fn get_adverserial_asns(&self, as_ip_map: &AsIpMap) -> (adversaries: Vec<(Asn, Vec<String>)>)
        ensures
            is_top_n(
                top_view(adversaries@),
                as_ip_map@,
                self.graph@,
                self.as_selection,
                self.num_adv_as as nat,
            ),
            adversaries@.len() <= self.num_adv_as,
    {
        let known = as_ip_map.as_to_nodes.len();
        assert(as_ip_map@.dom() =~= as_ip_map.as_to_nodes@.dom());
        let num_adv_as = if self.num_adv_as < known {
            self.num_adv_as
        } else {
            known
        };
        match self.as_selection {
            AsSelectionStrategy::MaxNodes => as_ip_map.top_n_asns_nodes(num_adv_as, &self.graph),
            AsSelectionStrategy::MaxChannels => as_ip_map.top_n_asns_channels(
                num_adv_as,
                &self.graph,
            ),
        }
    }

    /// Tells whether one of the payment's routes passes a node of `asn_nodes`.
    pub fn payment_involves_asn(payment: &Payment, asn_nodes: &[String]) -> (involved: bool)
        ensures
            involved == payment@.involves(ids(asn_nodes@)),
    {
        let ghost nodes = ids(asn_nodes@);
        let ghost paths = payment@.used_paths;
        let mut i: usize = 0;
        while i < payment.used_paths.len()
            invariant
                i <= payment.used_paths@.len(),
                nodes == ids(asn_nodes@),
                paths == payment@.used_paths,
                forall|a: int, b: int|
                    0 <= a < i && 0 <= b < paths[a].len() ==> !nodes.contains(#[trigger] paths[a][b]),
            decreases payment.used_paths@.len() - i,
        {
            let involved_nodes = payment.used_paths[i].get_involved_nodes();
            assert(ids(involved_nodes@) == paths[i as int]);
            let mut j: usize = 0;
            while j < involved_nodes.len()
                invariant
                    j <= involved_nodes@.len(),
                    i < paths.len(),
                    nodes == ids(asn_nodes@),
                    paths == payment@.used_paths,
                    ids(involved_nodes@) == paths[i as int],
                    forall|b: int| 0 <= b < j ==> !nodes.contains(#[trigger] paths[i as int][b]),
                decreases involved_nodes@.len() - j,
            {
                if contains_id(asn_nodes, &involved_nodes[j]) {
                    assert(paths[i as int][j as int] == involved_nodes@[j as int]@);
                    assert(nodes.contains(payment@.used_paths[i as int][j as int]));
                    return true;
                }
                assert(paths[i as int][j as int] == involved_nodes@[j as int]@);
                j += 1;
            }
            i += 1;
        }
        false
    }
}

} // verus!
