//! Payments and the outcome of routing a set of them, as the routing engine reports it.

use crate::graph::ids;
use vstd::prelude::*;

verus! {

/// One route that a payment took.
#[derive(Debug, Default, PartialEq)]
pub struct Path {
    /// The nodes on the route, from the sender to the receiver.
    pub hops: Vec<String>,
}

/// One payment, with what became of it.
#[derive(Debug, PartialEq)]
pub struct Payment {
    pub payment_id: usize,
    pub source: String,
    pub dest: String,
    pub amount_msat: usize,
    pub succeeded: bool,
    /// The routes the payment was sent over; empty for a payment that failed.
    pub used_paths: Vec<Path>,
}

/// A payment as contracts speak of it.
pub struct PaymentView {
    pub payment_id: usize,
    pub source: Seq<char>,
    pub dest: Seq<char>,
    pub amount_msat: usize,
    pub succeeded: bool,
    pub used_paths: Seq<Seq<Seq<char>>>,
}

/// The outcome of routing a set of payments.
#[derive(Debug, Default, PartialEq)]
pub struct RoutingResult {
    pub num_succesful: usize,
    pub num_failed: usize,
    pub total_num: usize,
    pub successful_payments: Vec<Payment>,
    pub failed_payments: Vec<Payment>,
}

/// A routing outcome as contracts speak of it.
pub struct RoutingResultView {
    pub num_succesful: int,
    pub num_failed: int,
    pub total_num: int,
    pub successful_payments: Seq<PaymentView>,
    pub failed_payments: Seq<PaymentView>,
}

/// The routes in `paths`, each as the identifiers of its nodes.
pub open spec fn paths_view(paths: Seq<Path>) -> Seq<Seq<Seq<char>>> {
    paths.map_values(|p: Path| p@)
}

/// The payments in `payments`, each by its view.
pub open spec fn payments_view(payments: Seq<Payment>) -> Seq<PaymentView> {
    payments.map_values(|p: Payment| p@)
}

impl View for Path {
    type V = Seq<Seq<char>>;

    open spec fn view(&self) -> Seq<Seq<char>> {
        ids(self.hops@)
    }
}

impl View for Payment {
    type V = PaymentView;

    open spec fn view(&self) -> PaymentView {
        PaymentView {
            payment_id: self.payment_id,
            source: self.source@,
            dest: self.dest@,
            amount_msat: self.amount_msat,
            succeeded: self.succeeded,
            used_paths: paths_view(self.used_paths@),
        }
    }
}

impl View for RoutingResult {
    type V = RoutingResultView;

    open spec fn view(&self) -> RoutingResultView {
        RoutingResultView {
            num_succesful: self.num_succesful as int,
            num_failed: self.num_failed as int,
            total_num: self.total_num as int,
            successful_payments: payments_view(self.successful_payments@),
            failed_payments: payments_view(self.failed_payments@),
        }
    }
}

impl PaymentView {
    /// Whether one of the payment's routes passes a node of `nodes`.
    pub open spec fn involves(self, nodes: Seq<Seq<char>>) -> bool {
        exists|i: int, j: int|
            0 <= i < self.used_paths.len() && 0 <= j < self.used_paths[i].len() && nodes.contains(
                #[trigger] self.used_paths[i][j],
            )
    }

    /// Whether one of the payment's routes passes the node `id`.
    pub open spec fn passes(self, id: Seq<char>) -> bool {
        exists|i: int, j: int|
            0 <= i < self.used_paths.len() && 0 <= j < self.used_paths[i].len()
                && #[trigger] self.used_paths[i][j] == id
    }

    /// The payment after an adversary dropped it: it has failed, and its routes are gone.
    pub open spec fn dropped(self) -> PaymentView {
        PaymentView { succeeded: false, used_paths: Seq::empty(), ..self }
    }
}

impl RoutingResultView {
    /// The counts agree with the lists, and every payment is in one of them.
    pub open spec fn wf(self) -> bool {
        &&& self.num_succesful == self.successful_payments.len()
        &&& self.num_failed == self.failed_payments.len()
        &&& self.total_num == self.num_succesful + self.num_failed
    }

    /// The count of failed payments can still be kept if every successful payment fails.
    pub open spec fn has_room(self) -> bool {
        self.num_failed + self.successful_payments.len() <= usize::MAX
    }
}

impl Path {
    pub fn new(hops: Vec<String>) -> (path: Path)
        ensures
            path@ == ids(hops@),
    {
        Path { hops }
    }

    /// The nodes that the route involves, in order.
    pub fn get_involved_nodes(&self) -> (nodes: &Vec<String>)
        ensures
            ids(nodes@) == self@,
    {
        &self.hops
    }
}

impl Clone for Path {
    fn clone(&self) -> (copy: Path)
        ensures
            copy@ == self@,
    {
        let hops = self.hops.clone();
        assert(ids(hops@) =~= ids(self.hops@));
        Path { hops }
    }
}

impl Payment {
    /// A payment that has not been routed yet.
    pub fn new(payment_id: usize, source: String, dest: String, amount_msat: usize) -> (payment:
        Payment)
        ensures
            payment@ == (PaymentView {
                payment_id,
                source: source@,
                dest: dest@,
                amount_msat,
                succeeded: false,
                used_paths: Seq::empty(),
            }),
    {
        let payment = Payment {
            payment_id,
            source,
            dest,
            amount_msat,
            succeeded: false,
            used_paths: Vec::new(),
        };
        assert(paths_view(payment.used_paths@) =~= Seq::empty());
        payment
    }
}

impl Clone for Payment {
    fn clone(&self) -> (copy: Payment)
        ensures
            copy@ == self@,
    {
        let used_paths = self.used_paths.clone();
        assert(paths_view(used_paths@) =~= paths_view(self.used_paths@));
        Payment {
            payment_id: self.payment_id,
            source: self.source.clone(),
            dest: self.dest.clone(),
            amount_msat: self.amount_msat,
            succeeded: self.succeeded,
            used_paths,
        }
    }
}

impl RoutingResult {
    /// The counts agree with the lists, and every payment is in one of them.
    pub open spec fn wf(&self) -> bool {
        self@.wf()
    }

    /// The count of failed payments can still be kept if every successful payment fails.
    /// An outcome whose counts agree with its lists has that room.
    pub open spec fn has_room(&self) -> bool {
        self@.has_room()
    }

    /// Tells whether the count of failed payments can still be kept if every successful
    /// payment fails.
    pub fn can_fail_all(&self) -> (room: bool)
        ensures
            room == self.has_room(),
            self.wf() ==> room,
    {
        self.successful_payments.len() <= usize::MAX - self.num_failed
    }

    /// Tells whether the counts agree with the lists and add up to the total.
    pub fn is_consistent(&self) -> (consistent: bool)
        ensures
            consistent == self.wf(),
    {
        self.num_succesful == self.successful_payments.len() && self.num_failed
            == self.failed_payments.len() && self.num_failed <= self.total_num && self.total_num
            - self.num_failed == self.num_succesful
    }
}

impl Clone for RoutingResult {
    fn clone(&self) -> (copy: RoutingResult)
        ensures
            copy@ == self@,
    {
        let successful_payments = self.successful_payments.clone();
        let failed_payments = self.failed_payments.clone();
        assert(payments_view(successful_payments@) =~= payments_view(self.successful_payments@));
        assert(payments_view(failed_payments@) =~= payments_view(self.failed_payments@));
        RoutingResult {
            num_succesful: self.num_succesful,
            num_failed: self.num_failed,
            total_num: self.total_num,
            successful_payments,
            failed_payments,
        }
    }
}

} // verus!
