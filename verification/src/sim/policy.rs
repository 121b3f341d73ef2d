//! The drop policies as rules: what an adversary AS makes of the outcome of a run without
//! an adversary, and the laws that hold of it.

use crate::net::directory::{asn_of, disjoint, lemma_listed_resolves, lists, Asn, FULL_RATIO};
use crate::routing::{PaymentView, RoutingResultView};
use crate::sim::output::PerSimAccuracy;
use vstd::prelude::*;

verus! {

/// What the guessing adversary did to one successful payment.
#[derive(Copy, Clone, Debug, PartialEq, Eq, Structural)]
pub enum Fate {
    /// No coin was flipped for the payment: it stays as it is.
    Untouched,
    /// The coin was flipped and the payment stays.
    Spared,
    /// The coin was flipped and the payment is dropped.
    Dropped,
}

/// The rule of the policy that drops all: the payment crosses one of `nodes`.
pub open spec fn crosses(nodes: Seq<Seq<char>>) -> spec_fn(PaymentView) -> bool {
    |p: PaymentView| p.involves(nodes)
}

/// The rule of the policy against payments within the AS: both the sender and the receiver
/// resolve to `asn`.
pub open spec fn within(dir: Map<Asn, Seq<Seq<char>>>, asn: Asn) -> spec_fn(PaymentView) -> bool {
    |p: PaymentView| asn_of(dir, p.source) == Some(asn) && asn_of(dir, p.dest) == Some(asn)
}

/// The rule of the policy against payments that leave the AS: the payment crosses a member
/// of `asn`, and its sender and receiver do not both resolve to `asn`.
pub open spec fn leaves(dir: Map<Asn, Seq<Seq<char>>>, asn: Asn) -> spec_fn(PaymentView) -> bool {
    |p: PaymentView|
        p.involves(dir[asn]) && !(asn_of(dir, p.source) == Some(asn) && asn_of(dir, p.dest)
            == Some(asn))
}

/// The law of membership: in a directory that lists no node twice, the rule against
/// payments within the AS dooms a payment exactly where the AS lists both its sender and
/// its receiver, and the rule against payments that leave the AS dooms one exactly where it
/// crosses a member of the AS and the AS does not list both.
pub proof fn lemma_rules_go_by_membership(dir: Map<Asn, Seq<Seq<char>>>, asn: Asn, p: PaymentView)
    requires
        disjoint(dir),
    ensures
        within(dir, asn)(p) <==> lists(dir, asn, p.source) && lists(dir, asn, p.dest),
        leaves(dir, asn)(p) <==> p.involves(dir[asn]) && !(lists(dir, asn, p.source) && lists(
            dir,
            asn,
            p.dest,
        )),
{
    lemma_listed_resolves(dir, asn, p.source);
    lemma_listed_resolves(dir, asn, p.dest);
}

/// The law of the three rules: for one adversary, the rule against payments that leave the
/// AS and the rule against payments within it never doom the same payment, and what the
/// first dooms the rule that drops all dooms too, with the members of the AS as its nodes.
/// So does it what the second dooms, where a route of the payment passes its sender: of
/// such payments the rule that drops all dooms exactly those that one of the other two dooms.
pub proof fn lemma_rules_part_crossing(dir: Map<Asn, Seq<Seq<char>>>, asn: Asn, p: PaymentView)
    ensures
        !(leaves(dir, asn)(p) && within(dir, asn)(p)),
        leaves(dir, asn)(p) ==> crosses(dir[asn])(p),
        within(dir, asn)(p) && p.passes(p.source) ==> crosses(dir[asn])(p),
        p.passes(p.source) ==> (crosses(dir[asn])(p) <==> leaves(dir, asn)(p) || within(dir, asn)(p)),
{
    if within(dir, asn)(p) && p.passes(p.source) {
        // the sender resolves to the AS, so the AS lists it, and a route passes it
        assert(lists(dir, asn, p.source));
        let (i, j) = choose|i: int, j: int|
            0 <= i < p.used_paths.len() && 0 <= j < p.used_paths[i].len()
                && #[trigger] p.used_paths[i][j] == p.source;
        assert(dir[asn].contains(p.used_paths[i][j]));
    }
}

/// The rule that dooms no payment.
pub open spec fn never() -> spec_fn(PaymentView) -> bool {
    |p: PaymentView| false
}

/// The outcome that a rule makes of `baseline`: the successful payments that `doomed`
/// holds of fail, each without its routes, and are counted and listed after the payments
/// that had failed before; all other payments stay as they are, in their order.
pub open spec fn censored(
    baseline: RoutingResultView,
    doomed: spec_fn(PaymentView) -> bool,
) -> RoutingResultView {
    let kept = baseline.successful_payments.filter(|p: PaymentView| !doomed(p));
    let lost = baseline.successful_payments.filter(doomed).map_values(
        |p: PaymentView| p.dropped(),
    );
    RoutingResultView {
        num_succesful: kept.len() as int,
        num_failed: baseline.num_failed + lost.len(),
        total_num: baseline.total_num,
        successful_payments: kept,
        failed_payments: baseline.failed_payments + lost,
    }
}

/// `baseline` with only the first `done` of its successful payments.
pub open spec fn up_to(baseline: RoutingResultView, done: int) -> RoutingResultView {
    RoutingResultView { successful_payments: baseline.successful_payments.take(done), ..baseline }
}

/// Before any successful payment is looked at, the outcome holds the failed payments only.
pub proof fn lemma_censored_start(baseline: RoutingResultView, doomed: spec_fn(PaymentView) -> bool)
    ensures
        censored(up_to(baseline, 0), doomed) == (RoutingResultView {
            num_succesful: 0,
            successful_payments: Seq::empty(),
            ..baseline
        }),
{
    reveal(Seq::filter);
    let start = censored(up_to(baseline, 0), doomed);
    assert(baseline.successful_payments.take(0) =~= Seq::empty());
    assert(start.successful_payments =~= Seq::empty());
    assert(start.failed_payments =~= baseline.failed_payments);
}

/// With all the successful payments looked at, the whole baseline has been.
pub proof fn lemma_up_to_all(baseline: RoutingResultView)
    ensures
        up_to(baseline, baseline.successful_payments.len() as int) == baseline,
{
    assert(baseline.successful_payments.take(baseline.successful_payments.len() as int)
        =~= baseline.successful_payments);
}

/// What one more successful payment adds to the outcome of a rule.
pub proof fn lemma_censored_step(
    baseline: RoutingResultView,
    doomed: spec_fn(PaymentView) -> bool,
    done: int,
)
    requires
        0 <= done < baseline.successful_payments.len(),
    ensures
        ({
            let before = censored(up_to(baseline, done), doomed);
            let after = censored(up_to(baseline, done + 1), doomed);
            let p = baseline.successful_payments[done];
            if doomed(p) {
                after == (RoutingResultView {
                    num_failed: before.num_failed + 1,
                    failed_payments: before.failed_payments.push(p.dropped()),
                    ..before
                })
            } else {
                after == (RoutingResultView {
                    num_succesful: before.num_succesful + 1,
                    successful_payments: before.successful_payments.push(p),
                    ..before
                })
            }
        }),
{
    let all = baseline.successful_payments;
    let p = all[done];
    let spared = |p: PaymentView| !doomed(p);
    assert(all.take(done + 1) =~= all.take(done).push(p));
    all.take(done).lemma_filter_push(p, doomed);
    all.take(done).lemma_filter_push(p, spared);
    let before = censored(up_to(baseline, done), doomed);
    let after = censored(up_to(baseline, done + 1), doomed);
    if doomed(p) {
        assert(after.failed_payments =~= before.failed_payments.push(p.dropped()));
    } else {
        assert(after.failed_payments =~= before.failed_payments);
    }
}

/// The counts and lists of the outcome of a rule, for the first `done` successful payments.
proof fn lemma_censored_counts(
    baseline: RoutingResultView,
    doomed: spec_fn(PaymentView) -> bool,
    done: int,
)
    requires
        0 <= done <= baseline.successful_payments.len(),
    ensures
        ({
            let outcome = censored(up_to(baseline, done), doomed);
            &&& outcome.num_succesful == outcome.successful_payments.len()
            &&& outcome.num_failed - baseline.num_failed == outcome.failed_payments.len()
                - baseline.failed_payments.len()
            &&& outcome.successful_payments.len() + outcome.failed_payments.len() == done
                + baseline.failed_payments.len()
            &&& doomed == never() ==> outcome.successful_payments
                == baseline.successful_payments.take(done) && outcome.failed_payments
                == baseline.failed_payments
        }),
    decreases done,
{
    if done == 0 {
        lemma_censored_start(baseline, doomed);
        assert(baseline.successful_payments.take(0) =~= Seq::empty());
    } else {
        lemma_censored_counts(baseline, doomed, done - 1);
        lemma_censored_step(baseline, doomed, done - 1);
        assert(baseline.successful_payments.take(done) =~= baseline.successful_payments.take(
            done - 1,
        ).push(baseline.successful_payments[done - 1]));
    }
}

/// The law of the counts: whatever the rule, the outcome it makes of a baseline whose
/// counts agree with its lists has counts that agree with its lists, and the same total.
pub proof fn lemma_censored_keeps_counts(
    baseline: RoutingResultView,
    doomed: spec_fn(PaymentView) -> bool,
)
    requires
        baseline.wf(),
    ensures
        censored(baseline, doomed).wf(),
        censored(baseline, doomed).total_num == baseline.total_num,
{
    lemma_censored_counts(baseline, doomed, baseline.successful_payments.len() as int);
    lemma_up_to_all(baseline);
}

/// A rule that dooms no payment leaves a baseline as it is.
pub proof fn lemma_censored_by_never(baseline: RoutingResultView)
    requires
        baseline.wf(),
    ensures
        censored(baseline, never()) == baseline,
{
    lemma_censored_counts(baseline, never(), baseline.successful_payments.len() as int);
    lemma_up_to_all(baseline);
}

/// A filter keeps a sequence whole where its test holds of every element.
pub proof fn lemma_filter_all<A>(s: Seq<A>, test: spec_fn(A) -> bool)
    requires
        forall|i: int| 0 <= i < s.len() ==> test(#[trigger] s[i]),
    ensures
        s.filter(test) == s,
    decreases s.len(),
{
    reveal(Seq::filter);
    if s.len() > 0 {
        lemma_filter_all(s.drop_last(), test);
        assert(s.drop_last().push(s.last()) =~= s);
    }
}

/// A filter keeps nothing of a sequence where its test holds of no element.
pub proof fn lemma_filter_none<A>(s: Seq<A>, test: spec_fn(A) -> bool)
    requires
        forall|i: int| 0 <= i < s.len() ==> !test(#[trigger] s[i]),
    ensures
        s.filter(test) == Seq::<A>::empty(),
    decreases s.len(),
{
    reveal(Seq::filter);
    if s.len() > 0 {
        lemma_filter_none(s.drop_last(), test);
    }
}

/// The law of the second pass: a rule finds nothing left to drop in its own outcome, so
/// applying it again changes nothing, whatever the rule and the baseline. The policy that
/// drops all, the one against payments within the AS and the one against payments that
/// leave it each give the outcome of a rule; for each of them a second pass with the same
/// adversary is idle.
pub proof fn lemma_censored_twice(baseline: RoutingResultView, doomed: spec_fn(PaymentView) -> bool)
    ensures
        censored(censored(baseline, doomed), doomed) == censored(baseline, doomed),
{
    let once = censored(baseline, doomed);
    let spared = |p: PaymentView| !doomed(p);
    let kept = baseline.successful_payments.filter(spared);
    assert forall|i: int| 0 <= i < kept.len() implies spared(#[trigger] kept[i]) by {
        baseline.successful_payments.lemma_filter_pred(spared, i);
    }
    lemma_filter_all(kept, spared);
    lemma_filter_none(kept, doomed);
    let twice = censored(once, doomed);
    assert(twice.failed_payments =~= once.failed_payments);
}

/// Each payment with the fate at its position.
pub open spec fn paired(payments: Seq<PaymentView>, fates: Seq<Fate>) -> Seq<(PaymentView, Fate)> {
    Seq::new(payments.len(), |i: int| (payments[i], fates[i]))
}

/// The outcome that the fates make of `baseline`: the successful payments whose fate is
/// to be dropped fail, each without its routes, and are counted and listed after the
/// payments that had failed before; all other payments stay as they are, in their order.
pub open spec fn decided(baseline: RoutingResultView, fates: Seq<Fate>) -> RoutingResultView {
    let pairs = paired(baseline.successful_payments, fates);
    let kept = pairs.filter(|c: (PaymentView, Fate)| c.1 != Fate::Dropped).map_values(
        |c: (PaymentView, Fate)| c.0,
    );
    let lost = pairs.filter(|c: (PaymentView, Fate)| c.1 == Fate::Dropped).map_values(
        |c: (PaymentView, Fate)| c.0.dropped(),
    );
    RoutingResultView {
        num_succesful: kept.len() as int,
        num_failed: baseline.num_failed + lost.len(),
        total_num: baseline.total_num,
        successful_payments: kept,
        failed_payments: baseline.failed_payments + lost,
    }
}

/// Before any successful payment is looked at, the fates have decided nothing.
pub proof fn lemma_decided_start(baseline: RoutingResultView, fates: Seq<Fate>)
    ensures
        decided(up_to(baseline, 0), fates) == (RoutingResultView {
            num_succesful: 0,
            successful_payments: Seq::empty(),
            ..baseline
        }),
{
    reveal(Seq::filter);
    let start = decided(up_to(baseline, 0), fates);
    assert(baseline.successful_payments.take(0) =~= Seq::empty());
    assert(paired(Seq::empty(), fates) =~= Seq::empty());
    assert(start.successful_payments =~= Seq::empty());
    assert(start.failed_payments =~= baseline.failed_payments);
}

/// The first `done + 1` payments with their fates are the first `done` with theirs, and
/// the next payment with its fate.
pub proof fn lemma_paired_step(payments: Seq<PaymentView>, fates: Seq<Fate>, done: int)
    requires
        0 <= done < payments.len(),
    ensures
        paired(payments.take(done + 1), fates) == paired(payments.take(done), fates).push(
            (payments[done], fates[done]),
        ),
{
    assert(paired(payments.take(done + 1), fates) =~= paired(payments.take(done), fates).push(
        (payments[done], fates[done]),
    ));
}

/// What the fate of one more successful payment adds to the outcome.
pub proof fn lemma_decided_step(baseline: RoutingResultView, fates: Seq<Fate>, done: int)
    requires
        0 <= done < baseline.successful_payments.len(),
    ensures
        ({
            let before = decided(up_to(baseline, done), fates);
            let after = decided(up_to(baseline, done + 1), fates);
            let p = baseline.successful_payments[done];
            if fates[done] == Fate::Dropped {
                after == (RoutingResultView {
                    num_failed: before.num_failed + 1,
                    failed_payments: before.failed_payments.push(p.dropped()),
                    ..before
                })
            } else {
                after == (RoutingResultView {
                    num_succesful: before.num_succesful + 1,
                    successful_payments: before.successful_payments.push(p),
                    ..before
                })
            }
        }),
{
    let all = baseline.successful_payments;
    let case = (all[done], fates[done]);
    let pairs = paired(all.take(done), fates);
    lemma_paired_step(all, fates, done);
    pairs.lemma_filter_push(case, |c: (PaymentView, Fate)| c.1 != Fate::Dropped);
    pairs.lemma_filter_push(case, |c: (PaymentView, Fate)| c.1 == Fate::Dropped);
    let before = decided(up_to(baseline, done), fates);
    let after = decided(up_to(baseline, done + 1), fates);
    if fates[done] == Fate::Dropped {
        assert(after.failed_payments =~= before.failed_payments.push(all[done].dropped()));
        assert(after.successful_payments =~= before.successful_payments);
    } else {
        assert(after.failed_payments =~= before.failed_payments);
        assert(after.successful_payments =~= before.successful_payments.push(all[done]));
    }
}

/// The counts and lists of the outcome of fates, for the first `done` successful payments.
proof fn lemma_decided_counts(baseline: RoutingResultView, fates: Seq<Fate>, done: int)
    requires
        0 <= done <= baseline.successful_payments.len(),
    ensures
        ({
            let outcome = decided(up_to(baseline, done), fates);
            &&& outcome.num_succesful == outcome.successful_payments.len()
            &&& outcome.num_failed - baseline.num_failed == outcome.failed_payments.len()
                - baseline.failed_payments.len()
            &&& outcome.successful_payments.len() + outcome.failed_payments.len() == done
                + baseline.failed_payments.len()
        }),
    decreases done,
{
    if done == 0 {
        lemma_decided_start(baseline, fates);
    } else {
        lemma_decided_counts(baseline, fates, done - 1);
        lemma_decided_step(baseline, fates, done - 1);
    }
}

/// The law of the counts for fates: whatever the fates, the outcome they make of a
/// baseline whose counts agree with its lists has counts that agree with its lists, and
/// the same total.
pub proof fn lemma_decided_keeps_counts(baseline: RoutingResultView, fates: Seq<Fate>)
    requires
        baseline.wf(),
    ensures
        decided(baseline, fates).wf(),
        decided(baseline, fates).total_num == baseline.total_num,
{
    lemma_decided_counts(baseline, fates, baseline.successful_payments.len() as int);
    lemma_up_to_all(baseline);
}

/// Fates that drop exactly the payments that a rule dooms give the outcome of that rule,
/// for the first `done` successful payments.
proof fn lemma_decided_follows_rule(
    baseline: RoutingResultView,
    fates: Seq<Fate>,
    doomed: spec_fn(PaymentView) -> bool,
    done: int,
)
    requires
        0 <= done <= baseline.successful_payments.len(),
        forall|i: int|
            0 <= i < done ==> ((#[trigger] fates[i] == Fate::Dropped) <==> doomed(
                baseline.successful_payments[i],
            )),
    ensures
        decided(up_to(baseline, done), fates) == censored(up_to(baseline, done), doomed),
    decreases done,
{
    if done == 0 {
        lemma_decided_start(baseline, fates);
        lemma_censored_start(baseline, doomed);
    } else {
        lemma_decided_follows_rule(baseline, fates, doomed, done - 1);
        lemma_decided_step(baseline, fates, done - 1);
        lemma_censored_step(baseline, doomed, done - 1);
    }
}

/// Fates that drop exactly the payments that a rule dooms give the outcome of that rule.
pub proof fn lemma_decided_as_censored(
    baseline: RoutingResultView,
    fates: Seq<Fate>,
    doomed: spec_fn(PaymentView) -> bool,
)
    requires
        forall|i: int|
            0 <= i < baseline.successful_payments.len() ==> ((#[trigger] fates[i] == Fate::Dropped)
                <==> doomed(baseline.successful_payments[i])),
    ensures
        decided(baseline, fates) == censored(baseline, doomed),
{
    lemma_decided_follows_rule(baseline, fates, doomed, baseline.successful_payments.len() as int);
    lemma_up_to_all(baseline);
}

/// Whether every ratio of the list is at most the full ratio.
pub open spec fn are_ratios(ratios: Seq<u32>) -> bool {
    forall|k: int| 0 <= k < ratios.len() ==> #[trigger] ratios[k] <= FULL_RATIO
}

/// Whether `fate` can befall the payment `p` under an adversary with the nodes `nodes`
/// that draws from `ratios`. A payment that crosses none of the nodes is left untouched,
/// and so is every payment where there is no ratio to draw. For any other payment one of
/// the ratios is drawn and a coin is flipped: it drops the payment for certain where the
/// ratio is full, and spares it for certain where the ratio is 0.
pub open spec fn may_befall(
    fate: Fate,
    p: PaymentView,
    ratios: Seq<u32>,
    nodes: Seq<Seq<char>>,
) -> bool {
    if !p.involves(nodes) || ratios.len() == 0 {
        fate == Fate::Untouched
    } else {
        exists|k: int|
            0 <= k < ratios.len() && fate != Fate::Untouched && (#[trigger] ratios[k] == FULL_RATIO
                ==> fate == Fate::Dropped) && (ratios[k] == 0 ==> fate == Fate::Spared)
    }
}

/// Whether `fates` holds, for each of `payments`, a fate that can befall it.
pub open spec fn may_befall_all(
    fates: Seq<Fate>,
    payments: Seq<PaymentView>,
    ratios: Seq<u32>,
    nodes: Seq<Seq<char>>,
) -> bool {
    &&& fates.len() == payments.len()
    &&& forall|i: int|
        0 <= i < payments.len() ==> may_befall(#[trigger] fates[i], payments[i], ratios, nodes)
}

/// The dropped payments whose receiver resolves to `asn`: the adversary guessed right.
pub open spec fn true_positives(
    payments: Seq<PaymentView>,
    fates: Seq<Fate>,
    dir: Map<Asn, Seq<Seq<char>>>,
    asn: Asn,
) -> nat {
    paired(payments, fates).filter(
        |c: (PaymentView, Fate)| c.1 == Fate::Dropped && asn_of(dir, c.0.dest) == Some(asn),
    ).len()
}

/// The dropped payments whose receiver resolves elsewhere: the adversary guessed wrong.
pub open spec fn false_positives(
    payments: Seq<PaymentView>,
    fates: Seq<Fate>,
    dir: Map<Asn, Seq<Seq<char>>>,
    asn: Asn,
) -> nat {
    paired(payments, fates).filter(
        |c: (PaymentView, Fate)| c.1 == Fate::Dropped && asn_of(dir, c.0.dest) != Some(asn),
    ).len()
}

/// The payments spared by the coin whose receiver resolves to `asn`: the adversary missed them.
pub open spec fn false_negatives(
    payments: Seq<PaymentView>,
    fates: Seq<Fate>,
    dir: Map<Asn, Seq<Seq<char>>>,
    asn: Asn,
) -> nat {
    paired(payments, fates).filter(
        |c: (PaymentView, Fate)| c.1 == Fate::Spared && asn_of(dir, c.0.dest) == Some(asn),
    ).len()
}

/// Before any payment is looked at, every accuracy count is 0.
pub proof fn lemma_counts_start(fates: Seq<Fate>, dir: Map<Asn, Seq<Seq<char>>>, asn: Asn)
    ensures
        true_positives(Seq::empty(), fates, dir, asn) == 0,
        false_positives(Seq::empty(), fates, dir, asn) == 0,
        false_negatives(Seq::empty(), fates, dir, asn) == 0,
{
    reveal(Seq::filter);
    assert(paired(Seq::empty(), fates) =~= Seq::empty());
}

/// What the fate of one more successful payment adds to the accuracy counts.
pub proof fn lemma_counts_step(
    payments: Seq<PaymentView>,
    fates: Seq<Fate>,
    dir: Map<Asn, Seq<Seq<char>>>,
    asn: Asn,
    done: int,
)
    requires
        0 <= done < payments.len(),
    ensures
        ({
            let hit = asn_of(dir, payments[done].dest) == Some(asn);
            let fate = fates[done];
            &&& true_positives(payments.take(done + 1), fates, dir, asn) == true_positives(
                payments.take(done),
                fates,
                dir,
                asn,
            ) + if fate == Fate::Dropped && hit {
                1nat
            } else {
                0nat
            }
            &&& false_positives(payments.take(done + 1), fates, dir, asn) == false_positives(
                payments.take(done),
                fates,
                dir,
                asn,
            ) + if fate == Fate::Dropped && !hit {
                1nat
            } else {
                0nat
            }
            &&& false_negatives(payments.take(done + 1), fates, dir, asn) == false_negatives(
                payments.take(done),
                fates,
                dir,
                asn,
            ) + if fate == Fate::Spared && hit {
                1nat
            } else {
                0nat
            }
        }),
{
    let case = (payments[done], fates[done]);
    let pairs = paired(payments.take(done), fates);
    lemma_paired_step(payments, fates, done);
    pairs.lemma_filter_len_push(
        |c: (PaymentView, Fate)| c.1 == Fate::Dropped && asn_of(dir, c.0.dest) == Some(asn),
        case,
    );
    pairs.lemma_filter_len_push(
        |c: (PaymentView, Fate)| c.1 == Fate::Dropped && asn_of(dir, c.0.dest) != Some(asn),
        case,
    );
    pairs.lemma_filter_len_push(
        |c: (PaymentView, Fate)| c.1 == Fate::Spared && asn_of(dir, c.0.dest) == Some(asn),
        case,
    );
}

/// Whether `accuracy` counts, for the adversary `asn`, what the fates did: the dropped
/// payments whose receiver resolves to `asn`, those whose receiver resolves elsewhere, and
/// the payments spared by the coin whose receiver resolves to `asn`.
pub open spec fn scores(
    accuracy: PerSimAccuracy,
    payments: Seq<PaymentView>,
    fates: Seq<Fate>,
    dir: Map<Asn, Seq<Seq<char>>>,
    asn: Asn,
) -> bool {
    &&& accuracy.tpos == true_positives(payments, fates, dir, asn)
    &&& accuracy.fpos == false_positives(payments, fates, dir, asn)
    &&& accuracy.fneg == false_negatives(payments, fates, dir, asn)
}

/// Whether `outcome` and `accuracy` are what a guessing adversary `asn` with the nodes
/// `nodes` can make of `baseline` when it draws from `ratios`: there are fates that can
/// befall the successful payments, and these give the outcome and the accuracy.
pub open spec fn is_guessed(
    outcome: RoutingResultView,
    accuracy: PerSimAccuracy,
    baseline: RoutingResultView,
    ratios: Seq<u32>,
    nodes: Seq<Seq<char>>,
    dir: Map<Asn, Seq<Seq<char>>>,
    asn: Asn,
) -> bool {
    exists|fates: Seq<Fate>|
        {
            &&& may_befall_all(fates, baseline.successful_payments, ratios, nodes)
            &&& #[trigger] decided(baseline, fates) == outcome
            &&& scores(accuracy, baseline.successful_payments, fates, dir, asn)
        }
}

/// The law of the certain drop: where every ratio is full and there is at least one, the
/// fates that can befall the payments drop exactly those that cross the adversary, so the
/// outcome is that of the policy that drops all.
pub proof fn lemma_full_ratios_drop_all(
    baseline: RoutingResultView,
    fates: Seq<Fate>,
    ratios: Seq<u32>,
    nodes: Seq<Seq<char>>,
)
    requires
        may_befall_all(fates, baseline.successful_payments, ratios, nodes),
        ratios.len() > 0,
        forall|k: int| 0 <= k < ratios.len() ==> ratios[k] == FULL_RATIO,
    ensures
        decided(baseline, fates) == censored(baseline, crosses(nodes)),
{
    let rule = crosses(nodes);
    assert forall|i: int| 0 <= i < baseline.successful_payments.len() implies ((
    #[trigger] fates[i] == Fate::Dropped) <==> rule(baseline.successful_payments[i])) by {
        assert(may_befall(fates[i], baseline.successful_payments[i], ratios, nodes));
    }
    lemma_decided_as_censored(baseline, fates, rule);
}

/// The law of the certain sparing: where every ratio is 0, or there is none, the fates
/// that can befall the payments drop none of them, so the outcome is the baseline.
pub proof fn lemma_zero_ratios_drop_none(
    baseline: RoutingResultView,
    fates: Seq<Fate>,
    ratios: Seq<u32>,
    nodes: Seq<Seq<char>>,
)
    requires
        may_befall_all(fates, baseline.successful_payments, ratios, nodes),
        forall|k: int| 0 <= k < ratios.len() ==> ratios[k] == 0,
    ensures
        decided(baseline, fates) == censored(baseline, never()),
        baseline.wf() ==> decided(baseline, fates) == baseline,
{
    let rule = never();
    assert forall|i: int| 0 <= i < baseline.successful_payments.len() implies ((
    #[trigger] fates[i] == Fate::Dropped) <==> rule(baseline.successful_payments[i])) by {
        assert(may_befall(fates[i], baseline.successful_payments[i], ratios, nodes));
    }
    lemma_decided_as_censored(baseline, fates, rule);
    if baseline.wf() {
        lemma_censored_by_never(baseline);
    }
}

} // verus!
