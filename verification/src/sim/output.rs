//! The result tree that a run produces.

use crate::routing::{paths_view, Path, Payment, PaymentView, RoutingResult, RoutingResultView};
use crate::PacketDropStrategy;
use vstd::prelude::*;

verus! {

/// All the results of one run: its number, and one output for each amount.
#[derive(Debug, Default)]
pub struct Report(pub u64, pub Vec<SimOutput>);

/// The results for one amount.
#[derive(Debug, Default)]
pub struct SimOutput {
    pub amt_sat: usize,
    pub total_num_payments: usize,
    pub per_strategy_results: Vec<PerStrategyResults>,
}

/// The results of one drop strategy: one entry for each adversary AS.
#[derive(Debug, Default)]
pub struct PerStrategyResults {
    pub strategy: PacketDropStrategy,
    pub attack_results: Vec<AttackSim>,
}

/// What one adversary AS did to the payments.
#[derive(Debug, Default)]
pub struct AttackSim {
    pub asn: String,
    /// The outcome without an adversary first, where it is kept, then the outcome under attack.
    pub sim_results: Vec<SimResult>,
    /// How well the drops matched the payments that stayed within the AS; only kept for
    /// strategies that guess.
    pub per_sim_accuracy: Option<PerSimAccuracy>,
}

/// What is reported of one payment.
#[derive(Debug, Default, PartialEq)]
pub struct PaymentInfo {
    pub id: usize,
    pub source: String,
    pub dest: String,
    pub amount_msat: usize,
    pub succeeded: bool,
    pub used_paths: Vec<Path>,
}

/// The summary of one routing outcome.
#[derive(Debug, Default, PartialEq)]
pub struct SimResult {
    pub num_nodes_under_attack: usize,
    pub num_successful: usize,
    pub num_failed: usize,
    /// The successful payments, then the failed ones.
    pub payments: Vec<PaymentInfo>,
}

/// How many of the payments that stayed within the adversary AS a guessing strategy
/// dropped, wrongly dropped, and missed.
#[derive(Copy, Clone, Debug, Default, PartialEq, Eq, Structural)]
pub struct PerSimAccuracy {
    pub tpos: usize,
    pub fpos: usize,
    pub fneg: usize,
}

/// The summary of a routing outcome as contracts speak of it.
pub struct SimResultView {
    pub num_nodes_under_attack: int,
    pub num_successful: int,
    pub num_failed: int,
    pub payments: Seq<PaymentView>,
}

/// The record of one adversary as contracts speak of it.
pub struct AttackSimView {
    pub asn: Seq<char>,
    pub sim_results: Seq<SimResultView>,
    pub per_sim_accuracy: Option<PerSimAccuracy>,
}

/// The results of one strategy as contracts speak of them.
pub struct PerStrategyResultsView {
    pub strategy: PacketDropStrategy,
    pub attack_results: Seq<AttackSimView>,
}

impl View for AttackSim {
    type V = AttackSimView;

    open spec fn view(&self) -> AttackSimView {
        AttackSimView {
            asn: self.asn@,
            sim_results: self.sim_results@.map_values(|r: SimResult| r@),
            per_sim_accuracy: self.per_sim_accuracy,
        }
    }
}

impl View for PerStrategyResults {
    type V = PerStrategyResultsView;

    open spec fn view(&self) -> PerStrategyResultsView {
        PerStrategyResultsView {
            strategy: self.strategy,
            attack_results: self.attack_results@.map_values(|a: AttackSim| a@),
        }
    }
}

/// The results for one amount as contracts speak of them.
pub struct SimOutputView {
    pub amt_sat: usize,
    pub total_num_payments: usize,
    pub per_strategy_results: Seq<PerStrategyResultsView>,
}

impl View for SimOutput {
    type V = SimOutputView;

    open spec fn view(&self) -> SimOutputView {
        SimOutputView {
            amt_sat: self.amt_sat,
            total_num_payments: self.total_num_payments,
            per_strategy_results: self.per_strategy_results@.map_values(
                |r: PerStrategyResults| r@,
            ),
        }
    }
}

impl View for Report {
    type V = (u64, Seq<SimOutputView>);

    open spec fn view(&self) -> (u64, Seq<SimOutputView>) {
        (self.0, self.1@.map_values(|o: SimOutput| o@))
    }
}

/// The summary of `outcome`, with `num_nodes` as the number of nodes under attack: the
/// counts as they stand, and the successful payments followed by the failed ones.
pub open spec fn summarized(outcome: RoutingResultView, num_nodes: int) -> SimResultView {
    SimResultView {
        num_nodes_under_attack: num_nodes,
        num_successful: outcome.num_succesful,
        num_failed: outcome.num_failed,
        payments: outcome.successful_payments + outcome.failed_payments,
    }
}

impl View for PaymentInfo {
    type V = PaymentView;

    open spec fn view(&self) -> PaymentView {
        PaymentView {
            payment_id: self.id,
            source: self.source@,
            dest: self.dest@,
            amount_msat: self.amount_msat,
            succeeded: self.succeeded,
            used_paths: paths_view(self.used_paths@),
        }
    }
}

impl View for SimResult {
    type V = SimResultView;

    open spec fn view(&self) -> SimResultView {
        SimResultView {
            num_nodes_under_attack: self.num_nodes_under_attack as int,
            num_successful: self.num_successful as int,
            num_failed: self.num_failed as int,
            payments: self.payments@.map_values(|p: PaymentInfo| p@),
        }
    }
}

impl PaymentInfo {
    /// What is reported of `payment`.
    pub fn from_payment(payment: &Payment) -> (info: PaymentInfo)
        ensures
            info@ == payment@,
    {
        let used_paths = payment.used_paths.clone();
        assert(paths_view(used_paths@) =~= paths_view(
            payment.used_paths@,
        ));
        PaymentInfo {
            id: payment.payment_id,
            source: payment.source.clone(),
            dest: payment.dest.clone(),
            amount_msat: payment.amount_msat,
            succeeded: payment.succeeded,
            used_paths,
        }
    }
}

impl Clone for PaymentInfo {
    fn clone(&self) -> (copy: PaymentInfo)
        ensures
            copy@ == self@,
    {
        let used_paths = self.used_paths.clone();
        assert(paths_view(used_paths@) =~= paths_view(
            self.used_paths@,
        ));
        PaymentInfo {
            id: self.id,
            source: self.source.clone(),
            dest: self.dest.clone(),
            amount_msat: self.amount_msat,
            succeeded: self.succeeded,
            used_paths,
        }
    }
}

impl Clone for SimResult {
    fn clone(&self) -> (copy: SimResult)
        ensures
            copy@ == self@,
    {
        let payments = self.payments.clone();
        assert(payments@.map_values(|p: PaymentInfo| p@) =~= self.payments@.map_values(
            |p: PaymentInfo| p@,
        ));
        SimResult {
            num_nodes_under_attack: self.num_nodes_under_attack,
            num_successful: self.num_successful,
            num_failed: self.num_failed,
            payments,
        }
    }
}

impl Clone for AttackSim {
    fn clone(&self) -> (copy: AttackSim)
        ensures
            copy@ == self@,
    {
        let sim_results = self.sim_results.clone();
        assert(sim_results@.map_values(|r: SimResult| r@) =~= self.sim_results@.map_values(
            |r: SimResult| r@,
        ));
        AttackSim {
            asn: self.asn.clone(),
            sim_results,
            per_sim_accuracy: self.per_sim_accuracy,
        }
    }
}

impl Clone for PerStrategyResults {
    fn clone(&self) -> (copy: PerStrategyResults)
        ensures
            copy@ == self@,
    {
        let attack_results = self.attack_results.clone();
        assert(attack_results@.map_values(|a: AttackSim| a@) =~= self.attack_results@.map_values(
            |a: AttackSim| a@,
        ));
        PerStrategyResults { strategy: self.strategy, attack_results }
    }
}

impl Clone for SimOutput {
    fn clone(&self) -> (copy: SimOutput)
        ensures
            copy@ == self@,
    {
        let per_strategy_results = self.per_strategy_results.clone();
        assert(per_strategy_results@.map_values(|r: PerStrategyResults| r@)
            =~= self.per_strategy_results@.map_values(|r: PerStrategyResults| r@));
        SimOutput {
            amt_sat: self.amt_sat,
            total_num_payments: self.total_num_payments,
            per_strategy_results,
        }
    }
}

impl Clone for Report {
    fn clone(&self) -> (copy: Report)
        ensures
            copy@ == self@,
    {
        let outputs = self.1.clone();
        assert(outputs@.map_values(|o: SimOutput| o@) =~= self.1@.map_values(|o: SimOutput| o@));
        Report(self.0, outputs)
    }
}

impl SimResult {
    /// The summary of `sim_results`, with `num_nodes` as the number of nodes under attack:
    /// the counts as they stand, and the successful payments followed by the failed ones.
    pub fn from_simlib_results(sim_results: RoutingResult, num_nodes: usize) -> (summary: SimResult)
        ensures
            summary@ == summarized(sim_results@, num_nodes as int),
    {
        let mut payments: Vec<PaymentInfo> = Vec::new();
        let ghost successful = sim_results@.successful_payments;
        let ghost failed = sim_results@.failed_payments;
        let mut i: usize = 0;
        while i < sim_results.successful_payments.len()
            invariant
                i <= successful.len(),
                successful == sim_results@.successful_payments,
                payments@.len() == i,
                payments@.map_values(|p: PaymentInfo| p@) == successful.take(i as int),
            decreases successful.len() - i,
        {
            let info = PaymentInfo::from_payment(&sim_results.successful_payments[i]);
            proof {
                let before = payments@.map_values(|p: PaymentInfo| p@);
                let after = payments@.push(info).map_values(|p: PaymentInfo| p@);
                assert(successful[i as int] == info@);
                assert forall|k: int| 0 <= k < after.len() implies after[k] == successful.take(
                    i + 1,
                )[k] by {
                    if k < i {
                        assert(after[k] == before[k]);
                    }
                }
                assert(after =~= successful.take(i + 1));
            }
            payments.push(info);
            i += 1;
        }
        assert(successful.take(successful.len() as int) =~= successful);
        let mut j: usize = 0;
        while j < sim_results.failed_payments.len()
            invariant
                j <= failed.len(),
                failed == sim_results@.failed_payments,
                payments@.len() == successful.len() + j,
                payments@.map_values(|p: PaymentInfo| p@) == successful + failed.take(j as int),
            decreases failed.len() - j,
        {
            let info = PaymentInfo::from_payment(&sim_results.failed_payments[j]);
            proof {
                let before = payments@.map_values(|p: PaymentInfo| p@);
                let after = payments@.push(info).map_values(|p: PaymentInfo| p@);
                let goal = successful + failed.take(j + 1);
                assert(failed[j as int] == info@);
                assert forall|k: int| 0 <= k < after.len() implies after[k] == goal[k] by {
                    if k < before.len() {
                        assert(after[k] == before[k]);
                    }
                }
                assert(after =~= goal);
            }
            payments.push(info);
            j += 1;
        }
        assert(failed.take(failed.len() as int) =~= failed);
        SimResult {
            num_nodes_under_attack: num_nodes,
            num_successful: sim_results.num_succesful,
            num_failed: sim_results.num_failed,
            payments,
        }
    }
}

} // verus!
