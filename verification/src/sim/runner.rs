//! Running the adversaries against the outcome of a run without one.

use crate::decimal::{decimal, to_decimal};
use crate::graph::{ids, GraphView};
use crate::net::asn::AsIpMap;
use crate::net::directory::{directory_of, intra_ratios, ratio_table, Asn, FULL_RATIO};
use crate::net::ranking::{is_top_n, top_view};
use crate::routing::{RoutingResult, RoutingResultView};
use crate::sim::builder::SimBuilder;
use crate::sim::policy::{are_ratios, censored, crosses, is_guessed, leaves, within};
use crate::sim::output::{
    summarized, AttackSim, AttackSimView, PerStrategyResults, PerStrategyResultsView, SimResult,
};
use crate::PacketDropStrategy;
use std::collections::HashMap;
use vstd::prelude::*;

verus! {

broadcast use vstd::std_specs::hash::group_hash_axioms;

/// Whether `report` is what the adversary `asn` with the nodes `nodes` makes of `baseline`
/// under `strategy`: its number in decimal, the summary of the outcome under attack, and
/// the accuracy where the strategy guesses. `ratios` are the ratios that a guessing
/// adversary draws from; without them it leaves the baseline as it is.
pub open spec fn is_attack_report(
    report: AttackSimView,
    baseline: RoutingResultView,
    asn: Asn,
    nodes: Seq<Seq<char>>,
    strategy: PacketDropStrategy,
    ratios: Option<Seq<u32>>,
    dir: Map<Asn, Seq<Seq<char>>>,
) -> bool {
    &&& report.asn == decimal(asn as nat)
    &&& report.sim_results.len() == 1
    &&& match strategy {
        PacketDropStrategy::All => {
            &&& report.sim_results[0] == summarized(
                censored(baseline, crosses(nodes)),
                nodes.len() as int,
            )
            &&& report.per_sim_accuracy is None
        },
        PacketDropStrategy::IntraAs => {
            &&& report.sim_results[0] == summarized(
                censored(baseline, within(dir, asn)),
                usize::MAX as int,
            )
            &&& report.per_sim_accuracy is None
        },
        PacketDropStrategy::InterAs => {
            &&& report.sim_results[0] == summarized(
                censored(baseline, leaves(dir, asn)),
                usize::MAX as int,
            )
            &&& report.per_sim_accuracy is None
        },
        PacketDropStrategy::IntraProbability => match ratios {
            Some(ratios) => exists|outcome: RoutingResultView|
                {
                    &&& report.per_sim_accuracy matches Some(accuracy)
                    &&& is_guessed(outcome, accuracy, baseline, ratios, nodes, dir, asn)
                    &&& report.sim_results[0] == #[trigger] summarized(outcome, usize::MAX as int)
                },
            None => {
                &&& report.sim_results[0] == summarized(baseline, nodes.len() as int)
                &&& report.per_sim_accuracy is None
            },
        },
    }
}

/// Whether `report` holds the summary of `baseline` first and then what the adversary
/// `asn` made of it.
pub open spec fn is_compared_report(
    report: AttackSimView,
    baseline: RoutingResultView,
    asn: Asn,
    nodes: Seq<Seq<char>>,
    strategy: PacketDropStrategy,
    ratios: Option<Seq<u32>>,
    dir: Map<Asn, Seq<Seq<char>>>,
) -> bool {
    &&& report.sim_results.len() == 2
    &&& report.sim_results[0] == summarized(baseline, 0)
    &&& is_attack_report(
        AttackSimView { sim_results: report.sim_results.drop_first(), ..report },
        baseline,
        asn,
        nodes,
        strategy,
        ratios,
        dir,
    )
}

/// The ratios that the adversary `asn` draws from under `strategy`: those of its members
/// where the strategy guesses, none where it does not.
pub open spec fn ratios_for(
    strategy: PacketDropStrategy,
    table: Map<Asn, Seq<u32>>,
    asn: Asn,
) -> Option<Seq<u32>> {
    if strategy == PacketDropStrategy::IntraProbability && table.contains_key(asn) {
        Some(table[asn])
    } else {
        None
    }
}

/// Whether `results` holds, for each of the adversaries `top` in their order, what it made
/// of `baseline` under `strategy`, after the summary of the baseline.
pub open spec fn is_strategy_report(
    results: PerStrategyResultsView,
    baseline: RoutingResultView,
    top: Seq<(Asn, Seq<Seq<char>>)>,
    strategy: PacketDropStrategy,
    table: Map<Asn, Seq<u32>>,
    dir: Map<Asn, Seq<Seq<char>>>,
) -> bool {
    &&& results.strategy == strategy
    &&& results.attack_results.len() == top.len()
    &&& forall|i: int|
        0 <= i < top.len() ==> is_compared_report(
            #[trigger] results.attack_results[i],
            baseline,
            top[i].0,
            top[i].1,
            strategy,
            ratios_for(strategy, table, top[i].0),
            dir,
        )
}

/// The strategies that a simulation runs, in the order of its report.
pub open spec fn simulated_strategies() -> Seq<PacketDropStrategy> {
    seq![PacketDropStrategy::All, PacketDropStrategy::IntraProbability, PacketDropStrategy::IntraAs]
}

/// The table of ratios that a strategy uses: that of the graph where it guesses, an empty
/// one where it does not.
pub open spec fn table_for(
    strategy: PacketDropStrategy,
    dir: Map<Asn, Seq<Seq<char>>>,
    graph: GraphView,
) -> Map<Asn, Seq<u32>> {
    if strategy == PacketDropStrategy::IntraProbability {
        intra_ratios(dir, graph)
    } else {
        Map::empty()
    }
}

impl SimBuilder {
    /// What the adversary `asn` with the nodes `nodes` makes of `baseline_result` under
    /// `strategy`. An adversary that guesses draws from `ratios`, which are hundredths;
    /// without ratios it leaves the baseline as it is. An adversary that drops what leaves
    /// it has to be an AS of the directory.
    pub fn per_asn_simulation(
        baseline_result: RoutingResult,
        asn: Asn,
        nodes: &[String],
        strategy: PacketDropStrategy,
        ratios: Option<&Vec<u32>>,
        as_ip_map: &AsIpMap,
    ) -> (summary: AttackSim)
        requires
            baseline_result.has_room(),
            as_ip_map.wf(),
            strategy == PacketDropStrategy::InterAs ==> as_ip_map@.contains_key(asn),
            strategy == PacketDropStrategy::IntraProbability ==> (ratios matches Some(list)
                ==> are_ratios(list@)),
        ensures
            is_attack_report(
                summary@,
                baseline_result@,
                asn,
                ids(nodes@),
                strategy,
                match ratios {
                    Some(list) => Some(list@),
                    None => None,
                },
                as_ip_map@,
            ),
    {
        let ((updated_results, per_sim_accuracy), num_nodes) = match strategy {
            PacketDropStrategy::IntraProbability => {
                if let Some(ratios) = ratios {
                    (
                        Self::apply_prob_drop_strategy(
                            baseline_result,
                            ratios,
                            nodes,
                            asn,
                            as_ip_map,
                        ),
                        usize::MAX,
                    )
                } else {
                    ((baseline_result, None), nodes.len())
                }
            },
            PacketDropStrategy::All => (
                Self::apply_all_dropped_strategy(baseline_result, nodes),
                nodes.len(),
            ),
            PacketDropStrategy::IntraAs => (
                Self::apply_intra_as_drop_strategy(baseline_result, asn, as_ip_map),
                usize::MAX,
            ),
            PacketDropStrategy::InterAs => (
                Self::apply_inter_as_drop_strategy(baseline_result, asn, as_ip_map),
                usize::MAX,
            ),
        };
        let ghost outcome = updated_results@;
        let mut sim_results: Vec<SimResult> = Vec::new();
        sim_results.push(SimResult::from_simlib_results(updated_results, num_nodes));
        let summary = AttackSim { asn: to_decimal(asn), sim_results, per_sim_accuracy };
        proof {
            assert(summary@.sim_results.len() == 1);
            assert(summary@.sim_results[0] == summarized(outcome, num_nodes as int));
        }
        summary
    }

    /// What each of the adversaries `attack_asns` makes of `baseline` under `strategy`, in
    /// their order, each after the summary of the baseline. A strategy that guesses draws
    /// from the ratios of the adversary's members in `graph`.
    pub fn strategy_simulation(
        &self,
        baseline: &RoutingResult,
        attack_asns: &Vec<(Asn, Vec<String>)>,
        strategy: PacketDropStrategy,
        as_ip_map: &AsIpMap,
    ) -> (results: PerStrategyResults)
        requires
            baseline.has_room(),
            as_ip_map.wf(),
            forall|i: int|
                0 <= i < attack_asns@.len() ==> as_ip_map@.contains_key((#[trigger] attack_asns@[i]).0),
        ensures
            is_strategy_report(
                results@,
                baseline@,
                top_view(attack_asns@),
                strategy,
                table_for(strategy, as_ip_map@, self.graph@),
                as_ip_map@,
            ),
    {
        let intra_as_channel_ratios: HashMap<u32, Vec<u32>> = match strategy {
            PacketDropStrategy::IntraProbability => as_ip_map.get_intra_as_channels_ratio(
                &self.graph,
            ),
            _ => HashMap::new(),
        };
        let ghost table = table_for(strategy, as_ip_map@, self.graph@);
        assert(ratio_table(intra_as_channel_ratios@) =~= table);
        let ghost top = top_view(attack_asns@);
        let mut attack_results: Vec<AttackSim> = Vec::new();
        let mut i: usize = 0;
        while i < attack_asns.len()
            invariant
                i <= attack_asns@.len(),
                baseline.has_room(),
                as_ip_map.wf(),
                top == top_view(attack_asns@),
                table == table_for(strategy, as_ip_map@, self.graph@),
                ratio_table(intra_as_channel_ratios@) == table,
                forall|asn: Asn, k: int|
                    intra_as_channel_ratios@.contains_key(asn) && 0 <= k
                        < intra_as_channel_ratios@[asn]@.len()
                        ==> #[trigger] intra_as_channel_ratios@[asn]@[k] <= FULL_RATIO,
                forall|k: int|
                    0 <= k < attack_asns@.len() ==> as_ip_map@.contains_key(
                        (#[trigger] attack_asns@[k]).0,
                    ),
                attack_results@.len() == i,
                forall|k: int|
                    0 <= k < i ==> is_compared_report(
                        (#[trigger] attack_results@[k])@,
                        baseline@,
                        top[k].0,
                        top[k].1,
                        strategy,
                        ratios_for(strategy, table, top[k].0),
                        as_ip_map@,
                    ),
            decreases attack_asns@.len() - i,
        {
            let asn = attack_asns[i].0;
            let nodes = &attack_asns[i].1;
            let ratios = intra_as_channel_ratios.get(&asn);
            proof {
                assert(top[i as int] == (asn, ids(nodes@)));
                assert(as_ip_map@.contains_key(attack_asns@[i as int].0));
                match ratios {
                    Some(list) => {
                        assert(table.contains_key(asn) && table[asn] == list@);
                        assert(strategy == PacketDropStrategy::IntraProbability);
                        assert forall|k: int| 0 <= k < list@.len() implies #[trigger] list@[k]
                            <= FULL_RATIO by {
                            assert(intra_as_channel_ratios@[asn]@[k] <= FULL_RATIO);
                        }
                    },
                    None => {
                        assert(!table.contains_key(asn));
                    },
                }
            }
            let mut attack_sim = Self::per_asn_simulation(
                baseline.clone(),
                asn,
                nodes.as_slice(),
                strategy,
                ratios,
                as_ip_map,
            );
            let ghost attacked = attack_sim@;
            attack_sim.sim_results.insert(0, SimResult::from_simlib_results(baseline.clone(), 0));
            proof {
                let compared = attack_sim@;
                assert(compared.sim_results.drop_first() =~= attacked.sim_results);
                assert((AttackSimView { sim_results: compared.sim_results.drop_first(), ..compared })
                    == attacked);
            }
            let ghost before = attack_results@;
            attack_results.push(attack_sim);
            proof {
                assert forall|k: int| 0 <= k < i + 1 implies is_compared_report(
                    (#[trigger] attack_results@[k])@,
                    baseline@,
                    top[k].0,
                    top[k].1,
                    strategy,
                    ratios_for(strategy, table, top[k].0),
                    as_ip_map@,
                ) by {
                    if k < i {
                        assert(attack_results@[k] == before[k]);
                    }
                }
            }
            i += 1;
        }
        let results = PerStrategyResults { strategy, attack_results };
        proof {
            assert forall|k: int| 0 <= k < top.len() implies is_compared_report(
                #[trigger] results@.attack_results[k],
                baseline@,
                top[k].0,
                top[k].1,
                strategy,
                ratios_for(strategy, table, top[k].0),
                as_ip_map@,
            ) by {
                assert(results@.attack_results[k] == attack_results@[k]@);
            }
        }
        results
    }

    /// What the adversaries of these settings make of `baseline` under the strategy of
    /// these settings: the first ASes of the directory in the ranking that the settings ask
    /// for, each with the summary of the baseline and then of the outcome under its attack.
    pub fn simulate_attacks(&self, baseline: &RoutingResult, as_ip_map: &AsIpMap) -> (results:
        PerStrategyResults)
        requires
            baseline.has_room(),
            as_ip_map.wf(),
        ensures
            is_configured_report(results@, self, baseline@, as_ip_map@),
    {
        let attack_asns = self.get_adverserial_asns(as_ip_map);
        let ghost top = top_view(attack_asns@);
        assert forall|i: int| 0 <= i < attack_asns@.len() implies as_ip_map@.contains_key(
            (#[trigger] attack_asns@[i]).0,
        ) by {
            assert(top[i].0 == attack_asns@[i].0);
        }
        let results = self.strategy_simulation(baseline, &attack_asns, self.drop_strategy, as_ip_map);
        assert(is_top_n(top, as_ip_map@, self.graph@, self.as_selection, self.num_adv_as as nat));
        results
    }
}

/// Whether `results` is what the adversaries of the settings `builder`, picked from the
/// directory `dir`, make of `baseline` under the strategy of the settings.
pub open spec fn is_configured_report(
    results: PerStrategyResultsView,
    builder: &SimBuilder,
    baseline: RoutingResultView,
    dir: Map<Asn, Seq<Seq<char>>>,
) -> bool {
    exists|top: Seq<(Asn, Seq<Seq<char>>)>|
        {
            &&& #[trigger] is_top_n(
                top,
                dir,
                builder.graph@,
                builder.as_selection,
                builder.num_adv_as as nat,
            )
            &&& is_strategy_report(
                results,
                baseline,
                top,
                builder.drop_strategy,
                table_for(builder.drop_strategy, dir, builder.graph@),
                dir,
            )
        }
}

/// Whether `results` is the report of a simulation with the settings `builder` on
/// `baseline`: for each of the strategies that a simulation runs, in their order, what each
/// adversary made of the baseline. The adversaries are the first ASes in the ranking that
/// the settings ask for, of the directory of the graph without the anonymity network.
pub open spec fn is_simulation_report(
    results: Seq<PerStrategyResultsView>,
    builder: &SimBuilder,
    baseline: RoutingResultView,
) -> bool {
    let dir = directory_of(builder.graph@.nodes, false);
    exists|top: Seq<(Asn, Seq<Seq<char>>)>|
        {
            &&& #[trigger] is_top_n(
                top,
                dir,
                builder.graph@,
                builder.as_selection,
                builder.num_adv_as as nat,
            )
            &&& results.len() == simulated_strategies().len()
            &&& forall|s: int|
                0 <= s < results.len() ==> is_strategy_report(
                    #[trigger] results[s],
                    baseline,
                    top,
                    simulated_strategies()[s],
                    table_for(simulated_strategies()[s], dir, builder.graph@),
                    dir,
                )
        }
}

/// The report of a simulation on `baseline_result`: what each of the adversaries of
/// `sim_builder` makes of it, for each of the strategies that drop all, that guess, and
/// that drop what stays within the AS.
pub fn asn_simulation(sim_builder: &SimBuilder, baseline_result: RoutingResult) -> (per_strategy_results:
    Vec<PerStrategyResults>)
    requires
        baseline_result.has_room(),
        sim_builder.graph.wf(),
    ensures
        is_simulation_report(
            per_strategy_results@.map_values(|r: PerStrategyResults| r@),
            sim_builder,
            baseline_result@,
        ),
{
    let mut per_strategy_results: Vec<PerStrategyResults> = Vec::new();
    let as_ip_map = AsIpMap::new(&sim_builder.graph, false);
    let attack_asns = sim_builder.get_adverserial_asns(&as_ip_map);
    let ghost top = top_view(attack_asns@);
    let ghost dir = as_ip_map@;
    assert forall|i: int| 0 <= i < attack_asns@.len() implies as_ip_map@.contains_key(
        (#[trigger] attack_asns@[i]).0,
    ) by {
        assert(top[i].0 == attack_asns@[i].0);
    }
    let drop_strategies: [PacketDropStrategy; 3] = [
        PacketDropStrategy::All,
        PacketDropStrategy::IntraProbability,
        PacketDropStrategy::IntraAs,
    ];
    assert(drop_strategies@ =~= simulated_strategies());
    let mut s: usize = 0;
    while s < 3
        invariant
            s <= 3,
            baseline_result.has_room(),
            as_ip_map.wf(),
            dir == as_ip_map@,
            top == top_view(attack_asns@),
            drop_strategies@ == simulated_strategies(),
            forall|i: int|
                0 <= i < attack_asns@.len() ==> as_ip_map@.contains_key((#[trigger] attack_asns@[i]).0),
            per_strategy_results@.len() == s,
            forall|k: int|
                0 <= k < s ==> is_strategy_report(
                    (#[trigger] per_strategy_results@[k])@,
                    baseline_result@,
                    top,
                    simulated_strategies()[k],
                    table_for(simulated_strategies()[k], dir, sim_builder.graph@),
                    dir,
                ),
        decreases 3 - s,
    {
        let strategy = drop_strategies[s];
        let results = sim_builder.strategy_simulation(
            &baseline_result,
            &attack_asns,
            strategy,
            &as_ip_map,
        );
        let ghost before = per_strategy_results@;
        per_strategy_results.push(results);
        proof {
            assert forall|k: int| 0 <= k < s + 1 implies is_strategy_report(
                (#[trigger] per_strategy_results@[k])@,
                baseline_result@,
                top,
                simulated_strategies()[k],
                table_for(simulated_strategies()[k], dir, sim_builder.graph@),
                dir,
            ) by {
                if k < s {
                    assert(per_strategy_results@[k] == before[k]);
                }
            }
        }
        s += 1;
    }
    proof {
        let views = per_strategy_results@.map_values(|r: PerStrategyResults| r@);
        assert forall|k: int| 0 <= k < views.len() implies is_strategy_report(
            #[trigger] views[k],
            baseline_result@,
            top,
            simulated_strategies()[k],
            table_for(simulated_strategies()[k], dir, sim_builder.graph@),
            dir,
        ) by {
            assert(views[k] == per_strategy_results@[k]@);
        }
        assert(is_top_n(
            top,
            dir,
            sim_builder.graph@,
            sim_builder.as_selection,
            sim_builder.num_adv_as as nat,
        ));
    }
    per_strategy_results
}

} // verus!
