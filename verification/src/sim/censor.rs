//! The drop policies at work on the outcome of a run without an adversary.

use crate::graph::ids;
use crate::net::asn::AsIpMap;
use crate::net::directory::{Asn, FULL_RATIO};
use crate::routing::{payments_view, Payment, RoutingResult, RoutingResultView};
use crate::sim::builder::SimBuilder;
use crate::sim::output::PerSimAccuracy;
use crate::sim::policy::{
    are_ratios, censored, crosses, decided, false_negatives, false_positives, is_guessed, leaves,
    lemma_censored_keeps_counts, lemma_censored_start, lemma_censored_step, lemma_counts_start,
    lemma_counts_step, lemma_decided_keeps_counts, lemma_decided_start, lemma_decided_step,
    lemma_full_ratios_drop_all, lemma_up_to_all, lemma_zero_ratios_drop_none, may_befall,
    may_befall_all, never, scores, true_positives, up_to, within, Fate,
};
use rand::seq::SliceRandom;
use rand::Rng;
use vstd::prelude::*;

verus! {

/// One of `ratios`, picked at random by `rand`'s `SliceRandom::choose` with the generator
/// that `rand::thread_rng` hands out: `None` for an empty list, else the value that the
/// list holds at the position that was drawn. Nothing is claimed of which position that is.
#[verifier::external_body]
fn choose_ratio(ratios: &Vec<u32>) -> (chosen: Option<u32>)
    ensures
        chosen is None <==> ratios@.len() == 0,
        chosen matches Some(ratio) ==> ratios@.contains(ratio),
{
    ratios.choose(&mut rand::thread_rng()).copied()
}

/// A coin flipped by `rand`'s `Rng::gen_ratio` with the generator that `rand::thread_rng`
/// hands out: heads with a chance of `numerator` in `denominator`. Of the result only the
/// two certain cases are claimed: heads where the two numbers are equal, tails where
/// `numerator` is 0. `gen_ratio` panics on a `denominator` of 0 and on a `numerator` above
/// it, so these are left out.
#[verifier::external_body]
fn flip_coin(numerator: u32, denominator: u32) -> (heads: bool)
    requires
        0 < denominator,
        numerator <= denominator,
    ensures
        numerator == denominator ==> heads,
        numerator == 0 ==> !heads,
{
    rand::thread_rng().gen_ratio(numerator, denominator)
}

/// Parts a baseline into the outcome under attack as it stands before any successful
/// payment was looked at, and the successful payments that are still to be looked at.
fn set_out(sim_result: RoutingResult) -> (parts: (RoutingResult, Vec<Payment>))
    ensures
        parts.0@ == (RoutingResultView {
            num_succesful: 0,
            successful_payments: Seq::empty(),
            ..sim_result@
        }),
        payments_view(parts.1@) == sim_result@.successful_payments,
{
    let RoutingResult { num_succesful: _, num_failed, total_num, successful_payments, failed_payments } =
        sim_result;
    let updated = RoutingResult {
        num_succesful: 0,
        num_failed,
        total_num,
        successful_payments: Vec::new(),
        failed_payments,
    };
    assert(updated@.successful_payments =~= Seq::empty());
    (updated, successful_payments)
}

/// Moves one payment of the baseline into the outcome under attack: among the failed
/// payments, without its routes, where the adversary drops it, and among the successful
/// ones as it is where not.
fn settle(updated: &mut RoutingResult, payment: Payment, doomed: bool)
    requires
        old(updated).num_failed < usize::MAX,
        old(updated).num_succesful < usize::MAX,
    ensures
        doomed ==> final(updated)@ == (RoutingResultView {
            num_failed: old(updated)@.num_failed + 1,
            failed_payments: old(updated)@.failed_payments.push(payment@.dropped()),
            ..old(updated)@
        }),
        !doomed ==> final(updated)@ == (RoutingResultView {
            num_succesful: old(updated)@.num_succesful + 1,
            successful_payments: old(updated)@.successful_payments.push(payment@),
            ..old(updated)@
        }),
{
    let ghost before = updated@;
    if doomed {
        let mut payment = payment;
        payment.succeeded = false;
        payment.used_paths = Vec::new();
        assert(payment@.used_paths =~= Seq::empty());
        updated.num_failed += 1;
        updated.failed_payments.push(payment);
        assert(updated@.failed_payments =~= before.failed_payments.push(payment@));
        assert(updated@.successful_payments =~= before.successful_payments);
    } else {
        updated.num_succesful += 1;
        updated.successful_payments.push(payment);
        assert(updated@.successful_payments =~= before.successful_payments.push(payment@));
        assert(updated@.failed_payments =~= before.failed_payments);
    }
}

/// The fate of `payment` under an adversary with the nodes `asn_nodes` that draws from
/// `ratios`: without a draw where the payment crosses none of the nodes or there is no
/// ratio, else by the flip of a coin that is weighted with a ratio drawn from the list.
fn draw_fate(payment: &Payment, ratios: &Vec<u32>, asn_nodes: &[String]) -> (fate: Fate)
    requires
        are_ratios(ratios@),
    ensures
        may_befall(fate, payment@, ratios@, ids(asn_nodes@)),
{
    if !SimBuilder::payment_involves_asn(payment, asn_nodes) {
        return Fate::Untouched;
    }
    match choose_ratio(ratios) {
        Some(prob) => {
            let ghost k = choose|k: int| 0 <= k < ratios@.len() && ratios@[k] == prob;
            assert(ratios@[k] == prob);
            if flip_coin(prob, FULL_RATIO) {
                Fate::Dropped
            } else {
                Fate::Spared
            }
        },
        None => Fate::Untouched,
    }
}

impl SimBuilder {
    /// Draws the fate of each of `payments` under an adversary with the nodes `asn_nodes`
    /// that drops a payment crossing it with a probability drawn from `ratios`, which are
    /// hundredths. Whatever the draws give, each fate is one that can befall its payment.
    pub fn draw_fates(payments: &Vec<Payment>, ratios: &Vec<u32>, asn_nodes: &[String]) -> (fates: Vec<Fate>)
        requires
            are_ratios(ratios@),
        ensures
            may_befall_all(fates@, payments_view(payments@), ratios@, ids(asn_nodes@)),
    {
        let mut fates: Vec<Fate> = Vec::new();
        let ghost views = payments_view(payments@);
        let mut i: usize = 0;
        while i < payments.len()
            invariant
                i <= payments@.len(),
                fates@.len() == i,
                views == payments_view(payments@),
                are_ratios(ratios@),
                forall|j: int|
                    0 <= j < i ==> may_befall(#[trigger] fates@[j], views[j], ratios@, ids(asn_nodes@)),
            decreases payments@.len() - i,
        {
            let fate = draw_fate(&payments[i], ratios, asn_nodes);
            fates.push(fate);
            i += 1;
        }
        fates
    }

    /// The outcome that the fates in `fates`, one for each successful payment of
    /// `sim_result`, make of it, with the accuracy of the adversary `asn`: how many of the
    /// dropped payments had a receiver that resolves to `asn`, how many had not, and how many
    /// of the payments that a coin spared had one.
    pub fn apply_fates(sim_result: RoutingResult, fates: &Vec<Fate>, asn: Asn, as_ip_map: &AsIpMap) -> (outcome:
        (RoutingResult, PerSimAccuracy))
        requires
            sim_result.has_room(),
            as_ip_map.wf(),
            fates@.len() == sim_result@.successful_payments.len(),
        ensures
            outcome.0@ == decided(sim_result@, fates@),
            sim_result.wf() ==> outcome.0.wf(),
            scores(outcome.1, sim_result@.successful_payments, fates@, as_ip_map@, asn),
    {
        let ghost baseline = sim_result@;
        let ghost all = sim_result@.successful_payments;
        let (mut updated, successful_payments) = set_out(sim_result);
        let mut tpos: usize = 0;
        let mut fpos: usize = 0;
        let mut fneg: usize = 0;
        let mut at: usize = 0;
        proof {
            lemma_decided_start(baseline, fates@);
            lemma_counts_start(fates@, as_ip_map@, asn);
            assert(all.take(0) =~= Seq::empty());
        }
        for p in it: successful_payments
            invariant
                baseline.has_room(),
                as_ip_map.wf(),
                all == baseline.successful_payments,
                fates@.len() == all.len(),
                payments_view(it.seq()) == all,
                updated@ == decided(up_to(baseline, it.index()), fates@),
                updated@.num_succesful + updated@.num_failed == baseline.num_failed + it.index(),
                0 <= updated@.num_succesful,
                it.seq().len() == baseline.successful_payments.len(),
                tpos == true_positives(all.take(it.index()), fates@, as_ip_map@, asn),
                fpos == false_positives(all.take(it.index()), fates@, as_ip_map@, asn),
                fneg == false_negatives(all.take(it.index()), fates@, as_ip_map@, asn),
                tpos + fpos + fneg <= it.index(),
                at == it.index(),
                0 <= baseline.num_failed,
        {
            proof {
                lemma_decided_step(baseline, fates@, it.index());
                lemma_counts_step(all, fates@, as_ip_map@, asn, it.index());
            }
            let fate = fates[at];
            let dest_asn = as_ip_map.resolve(&p.dest);
            match fate {
                Fate::Dropped => {
                    if dest_asn == Some(asn) {
                        tpos += 1;
                    } else {
                        fpos += 1;
                    }
                },
                Fate::Spared => {
                    if dest_asn == Some(asn) {
                        fneg += 1;
                    }
                },
                Fate::Untouched => {},
            }
            settle(&mut updated, p, fate == Fate::Dropped);
            at += 1;
        }
        proof {
            lemma_up_to_all(baseline);
            assert(all.take(all.len() as int) =~= all);
            if baseline.wf() {
                lemma_decided_keeps_counts(baseline, fates@);
            }
        }
        (updated, PerSimAccuracy { tpos, fpos, fneg })
    }

    /// The outcome where the AS `asn`, with the nodes `asn_nodes`, guesses: for each
    /// successful payment that crosses one of its nodes it draws one of `ratios`, which are
    /// hundredths, and drops the payment with that probability. The draws are random, so the
    /// outcome is that of some fates that can befall the payments, with their accuracy. It
    /// is known where the ratios leave no chance: full ratios drop every payment that
    /// crosses the AS, and ratios of 0, or none at all, leave the baseline as it is.
    pub fn apply_prob_drop_strategy(
        sim_result: RoutingResult,
        ratios: &Vec<u32>,
        asn_nodes: &[String],
        asn: Asn,
        as_ip_map: &AsIpMap,
    ) -> (outcome: (RoutingResult, Option<PerSimAccuracy>))
        requires
            sim_result.has_room(),
            as_ip_map.wf(),
            are_ratios(ratios@),
        ensures
            outcome.1 matches Some(accuracy) && is_guessed(
                outcome.0@,
                accuracy,
                sim_result@,
                ratios@,
                ids(asn_nodes@),
                as_ip_map@,
                asn,
            ),
            sim_result.wf() ==> outcome.0.wf(),
            ratios@.len() > 0 && (forall|k: int| 0 <= k < ratios@.len() ==> ratios@[k] == FULL_RATIO)
                ==> outcome.0@ == censored(sim_result@, crosses(ids(asn_nodes@))),
            (forall|k: int| 0 <= k < ratios@.len() ==> ratios@[k] == 0) ==> outcome.0@ == censored(
                sim_result@,
                never(),
            ),
            (forall|k: int| 0 <= k < ratios@.len() ==> ratios@[k] == 0) && sim_result.wf()
                ==> outcome.0@ == sim_result@,
    {
        let ghost baseline = sim_result@;
        let fates = Self::draw_fates(&sim_result.successful_payments, ratios, asn_nodes);
        let (updated, accuracy) = Self::apply_fates(sim_result, &fates, asn, as_ip_map);
        proof {
            assert(decided(baseline, fates@) == updated@);
            if ratios@.len() > 0 && (forall|k: int|
                0 <= k < ratios@.len() ==> ratios@[k] == FULL_RATIO) {
                lemma_full_ratios_drop_all(baseline, fates@, ratios@, ids(asn_nodes@));
            }
            if forall|k: int| 0 <= k < ratios@.len() ==> ratios@[k] == 0 {
                lemma_zero_ratios_drop_none(baseline, fates@, ratios@, ids(asn_nodes@));
            }
        }
        (updated, Some(accuracy))
    }

    /// The outcome where the AS with the nodes `asn_nodes` drops every payment that crosses
    /// one of them. No accuracy is kept: the AS does not guess.
    pub fn apply_all_dropped_strategy(sim_result: RoutingResult, asn_nodes: &[String]) -> (outcome: (
        RoutingResult,
        Option<PerSimAccuracy>,
    ))
        requires
            sim_result.has_room(),
        ensures
            outcome.0@ == censored(sim_result@, crosses(ids(asn_nodes@))),
            sim_result.wf() ==> outcome.0.wf(),
            outcome.1 is None,
    {
        let ghost baseline = sim_result@;
        let ghost rule = crosses(ids(asn_nodes@));
        let (mut updated, successful_payments) = set_out(sim_result);
        proof {
            lemma_censored_start(baseline, rule);
        }
        for p in it: successful_payments
            invariant
                baseline.has_room(),
                rule == crosses(ids(asn_nodes@)),
                payments_view(it.seq()) == baseline.successful_payments,
                updated@ == censored(up_to(baseline, it.index()), rule),
                updated@.num_succesful + updated@.num_failed == baseline.num_failed + it.index(),
                0 <= updated@.num_succesful,
                it.seq().len() == baseline.successful_payments.len(),
        {
            proof {
                lemma_censored_step(baseline, rule, it.index());
            }
            let doomed = Self::payment_involves_asn(&p, asn_nodes);
            settle(&mut updated, p, doomed);
        }
        proof {
            lemma_up_to_all(baseline);
            if baseline.wf() {
                lemma_censored_keeps_counts(baseline, rule);
            }
        }
        (updated, None)
    }

    /// The outcome where the AS `asn` drops every payment whose sender and receiver both
    /// resolve to it. No accuracy is kept: the AS does not guess.
    pub fn apply_intra_as_drop_strategy(sim_result: RoutingResult, asn: u32, as_ip_map: &AsIpMap) -> (outcome:
        (RoutingResult, Option<PerSimAccuracy>))
        requires
            sim_result.has_room(),
            as_ip_map.wf(),
        ensures
            outcome.0@ == censored(sim_result@, within(as_ip_map@, asn)),
            sim_result.wf() ==> outcome.0.wf(),
            outcome.1 is None,
    {
        let ghost baseline = sim_result@;
        let ghost rule = within(as_ip_map@, asn);
        let (mut updated, successful_payments) = set_out(sim_result);
        proof {
            lemma_censored_start(baseline, rule);
        }
        for p in it: successful_payments
            invariant
                baseline.has_room(),
                as_ip_map.wf(),
                rule == within(as_ip_map@, asn),
                payments_view(it.seq()) == baseline.successful_payments,
                updated@ == censored(up_to(baseline, it.index()), rule),
                updated@.num_succesful + updated@.num_failed == baseline.num_failed + it.index(),
                0 <= updated@.num_succesful,
                it.seq().len() == baseline.successful_payments.len(),
        {
            proof {
                lemma_censored_step(baseline, rule, it.index());
            }
            let src_asn = as_ip_map.resolve(&p.source);
            let dest_asn = as_ip_map.resolve(&p.dest);
            let doomed = src_asn == Some(asn) && dest_asn == Some(asn);
            settle(&mut updated, p, doomed);
        }
        proof {
            lemma_up_to_all(baseline);
            if baseline.wf() {
                lemma_censored_keeps_counts(baseline, rule);
            }
        }
        (updated, None)
    }

    /// The outcome where the AS `asn` drops every payment that crosses one of its members,
    /// unless both the sender and the receiver resolve to it. No accuracy is kept: the AS
    /// does not guess.
    pub fn apply_inter_as_drop_strategy(sim_result: RoutingResult, asn: u32, as_ip_map: &AsIpMap) -> (outcome:
        (RoutingResult, Option<PerSimAccuracy>))
        requires
            sim_result.has_room(),
            as_ip_map.wf(),
            as_ip_map@.contains_key(asn),
        ensures
            outcome.0@ == censored(sim_result@, leaves(as_ip_map@, asn)),
            sim_result.wf() ==> outcome.0.wf(),
            outcome.1 is None,
    {
        let ghost baseline = sim_result@;
        let ghost rule = leaves(as_ip_map@, asn);
        let (mut updated, successful_payments) = set_out(sim_result);
        proof {
            lemma_censored_start(baseline, rule);
        }
        let as_nodes = as_ip_map.members(asn).unwrap();
        for p in it: successful_payments
            invariant
                baseline.has_room(),
                as_ip_map.wf(),
                rule == leaves(as_ip_map@, asn),
                ids(as_nodes@) == as_ip_map@[asn],
                payments_view(it.seq()) == baseline.successful_payments,
                updated@ == censored(up_to(baseline, it.index()), rule),
                updated@.num_succesful + updated@.num_failed == baseline.num_failed + it.index(),
                0 <= updated@.num_succesful,
                it.seq().len() == baseline.successful_payments.len(),
        {
            proof {
                lemma_censored_step(baseline, rule, it.index());
            }
            let doomed = if Self::payment_involves_asn(&p, as_nodes.as_slice()) {
                let src_asn = as_ip_map.resolve(&p.source);
                let dest_asn = as_ip_map.resolve(&p.dest);
                src_asn != Some(asn) || dest_asn != Some(asn)
            } else {
                false
            };
            settle(&mut updated, p, doomed);
        }
        proof {
            lemma_up_to_all(baseline);
            if baseline.wf() {
                lemma_censored_keeps_counts(baseline, rule);
            }
        }
        (updated, None)
    }
}

} // verus!
