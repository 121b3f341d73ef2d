//! How much of the payments in a payment network can an adversary disrupt that controls an
//! autonomous system (AS)?
//!
//! The crate maps the nodes of a network to their AS ([`AsIpMap`]), ranks the ASes by their
//! nodes or their channels, and rewrites the outcome of a run without an adversary under one
//! of four drop policies ([`PacketDropStrategy`]). [`SimBuilder`] holds the settings of a
//! simulation and runs the adversaries against an outcome.

pub mod decimal;
pub mod graph;
pub mod net;
pub mod routing;
pub mod sim;

pub use net::asn::AsIpMap;
pub use net::directory::{Asn, TOR_ASN};
pub use sim::builder::SimBuilder;
pub use sim::output::{
    AttackSim, PaymentInfo, PerSimAccuracy, PerStrategyResults, Report, SimOutput, SimResult,
};

use crate::graph::ids;
use crate::net::directory::{asn_of, directory, disjoint, lemma_listed_resolves, lists};
use std::collections::HashMap;
use vstd::prelude::*;
use vstd::std_specs::iter::IteratorSpec;

verus! {

broadcast use vstd::std_specs::hash::group_hash_axioms;

/// How the adversary ASes are picked.
#[derive(Copy, Clone, Debug, PartialEq, Eq, Structural)]
pub enum AsSelectionStrategy {
    /// The ASes with the most nodes.
    MaxNodes,
    /// The ASes whose nodes have the most channels.
    MaxChannels,
}

/// What an adversary AS does to the payments it sees.
#[derive(Copy, Clone, Debug, PartialEq, Eq, Structural)]
pub enum PacketDropStrategy {
    /// Every payment that crosses the AS is dropped.
    All,
    /// A payment that crosses the AS is dropped with the probability that it stays within
    /// the AS.
    IntraProbability,
    /// A payment is dropped where both its sender and its receiver sit in the AS.
    IntraAs,
    /// A payment that crosses the AS is dropped unless both its sender and its receiver sit
    /// in the AS.
    InterAs,
}

impl Default for PacketDropStrategy {
    fn default() -> (strategy: PacketDropStrategy)
        ensures
            strategy == PacketDropStrategy::All,
    {
        PacketDropStrategy::All
    }
}

/// Tells whether `id` is among `list`.
pub fn contains_id(list: &[String], id: &String) -> (found: bool)
    ensures
        found == ids(list@).contains(id@),
{
    let mut i: usize = 0;
    while i < list.len()
        invariant
            i <= list@.len(),
            forall|j: int| 0 <= j < i ==> ids(list@)[j] != id@,
        decreases list@.len() - i,
    {
        if list[i] == *id {
            assert(ids(list@)[i as int] == id@);
            return true;
        }
        i += 1;
    }
    false
}

/// An AS whose member list in `map` holds `value`, `None` where no list holds it. Where no
/// node is listed twice, that is the AS of `value`.
pub fn find_key_for_value(map: &HashMap<u32, Vec<String>>, value: &String) -> (key: Option<u32>)
    ensures
        match key {
            Some(asn) => lists(directory(map@), asn, value@),
            None => forall|asn: u32| !lists(directory(map@), asn, value@),
        },
        disjoint(directory(map@)) ==> key == asn_of(directory(map@), value@),
{
    let ghost dir = directory(map@);
    for entry in it: map.iter()
        invariant
            dir == directory(map@),
            it.seq() == map.iter().remaining(),
            forall|j: int|
                0 <= j < it.index() ==> !ids((*(#[trigger] map.iter().remaining()[j]).1)@).contains(
                    value@,
                ),
    {
        let (asn, members) = entry;
        if contains_id(members.as_slice(), value) {
            proof {
                let at = it.index();
                assert(it.seq()[at] == entry);
                assert(map@.contains_key(*it.seq()[at].0));
                assert(lists(dir, *asn, value@));
                if disjoint(dir) {
                    lemma_listed_resolves(dir, *asn, value@);
                }
            }
            return Some(*asn);
        }
    }
    proof {
        let walked = map.iter().remaining();
        assert forall|asn: u32| !lists(dir, asn, value@) by {
            if map@.contains_key(asn) {
                let pair = (&asn, &map@[asn]);
                assert(walked.contains(pair));
                let j = choose|j: int| 0 <= j < walked.len() && walked[j] == pair;
                assert(!ids((*walked[j].1)@).contains(value@));
            }
        }
    }
    None
}

} // verus!
