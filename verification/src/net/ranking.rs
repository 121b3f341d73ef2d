//! Ranking the ASes of a directory, and ordering the members of an AS.

use crate::graph::{ids, Graph, GraphView};
use crate::net::directory::Asn;
use crate::net::heap::{outranks, LowestFirst, Rank};
use crate::AsSelectionStrategy;
use vstd::prelude::*;

verus! {

broadcast use vstd::seq_lib::group_to_multiset_ensures;

/// Whether `top` holds the `n` highest of `ranks`, or all of them where there are fewer:
/// ranks of the list, from the highest down, and none that is left out ranks above one
/// that is in.
pub open spec fn is_best_of(top: Seq<Rank>, ranks: Seq<Rank>, n: nat) -> bool {
    &&& top.len() == if n <= ranks.len() {
        n
    } else {
        ranks.len()
    }
    &&& forall|k: int| 0 <= k < top.len() ==> ranks.contains(#[trigger] top[k])
    &&& forall|k: int, l: int|
        0 <= k < l < top.len() ==> outranks(#[trigger] top[k], #[trigger] top[l])
    &&& forall|j: int, k: int|
        0 <= j < ranks.len() && 0 <= k < top.len() ==> top.contains(#[trigger] ranks[j])
            || outranks(#[trigger] top[k], ranks[j])
}

/// The `n` highest of `ranks`, from the highest down; all of them where there are fewer.
/// The ranks pass through a queue that never holds more than `n + 1` of them: whenever it
/// holds more than `n`, the lowest leaves.
pub fn select_top(ranks: &Vec<Rank>, n: usize) -> (top: Vec<Rank>)
    requires
        ranks@.no_duplicates(),
    ensures
        is_best_of(top@, ranks@, n as nat),
{
    let mut queue = LowestFirst::new();
    let mut i: usize = 0;
    while i < ranks.len()
        invariant
            i <= ranks@.len(),
            ranks@.no_duplicates(),
            queue.wf(),
            queue.spec_len() == if n <= i {
                n
            } else {
                i
            },
            forall|item: Rank|
                queue@.count(item) > 0 ==> exists|j: int| 0 <= j < i && #[trigger] ranks@[j] == item,
            forall|item: Rank| #[trigger] queue@.count(item) <= 1,
            i <= n ==> forall|j: int| 0 <= j < i ==> queue@.count(#[trigger] ranks@[j]) > 0,
            forall|j: int, item: Rank|
                #![trigger ranks@[j], queue@.count(item)]
                0 <= j < i && queue@.count(item) > 0 ==> queue@.count(ranks@[j]) > 0 || outranks(
                    item,
                    ranks@[j],
                ),
        decreases ranks@.len() - i,
    {
        let ghost before = queue@;
        let rank = ranks[i];
        assert(before.count(rank) == 0) by {
            if before.count(rank) > 0 {
                let j = choose|j: int| 0 <= j < i && #[trigger] ranks@[j] == rank;
                assert(ranks@[j] == ranks@[i as int]);
            }
        }
        queue.push(rank);
        let ghost pushed = queue@;
        if queue.len() > n {
            let lowest = queue.pop().unwrap();
            proof {
                assert forall|j: int, item: Rank|
                    #![trigger ranks@[j], queue@.count(item)]
                    0 <= j < i + 1 && queue@.count(item) > 0 implies queue@.count(ranks@[j]) > 0
                    || outranks(item, ranks@[j]) by {
                    assert(pushed.count(item) > 0);
                    assert(!outranks(lowest, item));
                    if ranks@[j] == lowest {
                        // what has just left ranks above nothing that stays
                    } else if j == i {
                        // the new rank did not leave, so it is in the queue
                    } else if before.count(ranks@[j]) > 0 {
                        // a rank that was in the queue and did not leave is still in it
                    } else if item == rank {
                        // a rank that had left before is below what was in the queue then,
                        // and so below the new rank, which is not the lowest
                        assert(before.count(lowest) > 0);
                        assert(outranks(lowest, ranks@[j]));
                    } else {
                        assert(before.count(item) > 0);
                    }
                }
                assert forall|item: Rank| queue@.count(item) > 0 implies exists|j: int|
                    0 <= j < i + 1 && #[trigger] ranks@[j] == item by {
                    assert(pushed.count(item) > 0);
                    if item == rank {
                        assert(ranks@[i as int] == item);
                    } else {
                        assert(before.count(item) > 0);
                        let j = choose|j: int| 0 <= j < i && #[trigger] ranks@[j] == item;
                        assert(ranks@[j] == item);
                    }
                }
            }
        } else {
            proof {
                assert forall|item: Rank| queue@.count(item) > 0 implies exists|j: int|
                    0 <= j < i + 1 && #[trigger] ranks@[j] == item by {
                    if item == rank {
                        assert(ranks@[i as int] == item);
                    } else {
                        assert(before.count(item) > 0);
                        let j = choose|j: int| 0 <= j < i && #[trigger] ranks@[j] == item;
                        assert(ranks@[j] == item);
                    }
                }
            }
        }
        i += 1;
    }
    let ghost held = queue@;
    let ghost held_len = queue.spec_len();
    let top = queue.into_sorted_vec();
    proof {
        vstd::seq_lib::to_multiset_len(top@);
        assert(top@.len() == held_len);
        assert forall|k: int| 0 <= k < top@.len() implies ranks@.contains(#[trigger] top@[k]) by {
            assert(top@.contains(top@[k]));
            assert(held.count(top@[k]) > 0);
        }
        top@.lemma_multiset_has_no_duplicates_conv();
        assert forall|k: int, l: int| 0 <= k < l < top@.len() implies outranks(
            #[trigger] top@[k],
            #[trigger] top@[l],
        ) by {
            assert(top@[k] != top@[l]);
            assert(!outranks(top@[l], top@[k]));
        }
        assert forall|j: int, k: int| 0 <= j < ranks@.len() && 0 <= k < top@.len() implies top@.contains(
        #[trigger] ranks@[j]) || outranks(#[trigger] top@[k], ranks@[j]) by {
            assert(top@.contains(top@[k]));
            assert(held.count(top@[k]) > 0);
            if held.count(ranks@[j]) > 0 {
                assert(top@.contains(ranks@[j]));
            }
        }
    }
    top
}

/// Whether the member at `i` comes before the member at `j` in the order by channels: it
/// has more channels, or as many and stands before `j` in the list.
pub open spec fn precedes(members: Seq<Seq<char>>, graph: GraphView, i: int, j: int) -> bool {
    graph.degree(members[i]) > graph.degree(members[j]) || (graph.degree(members[i])
        == graph.degree(members[j]) && i < j)
}

/// Whether `order` names the positions of `members`, each once, from the member with the
/// most channels down, members with equally many in the order of the list.
pub open spec fn orders_by_degree(order: Seq<int>, members: Seq<Seq<char>>, graph: GraphView) -> bool {
    &&& order.len() == members.len()
    &&& forall|k: int| 0 <= k < order.len() ==> 0 <= #[trigger] order[k] < members.len()
    &&& forall|k: int, l: int|
        0 <= k < l < order.len() ==> precedes(members, graph, #[trigger] order[k], #[trigger] order[l])
}

/// The members at the positions that `order` names, in that order.
pub open spec fn arranged(members: Seq<Seq<char>>, order: Seq<int>) -> Seq<Seq<char>> {
    Seq::new(order.len(), |k: int| members[order[k]])
}

/// Whether `sorted` holds the members from the one with the most channels down, members
/// with equally many in the order in which `members` lists them.
pub open spec fn is_sorted_by_degree(
    sorted: Seq<Seq<char>>,
    members: Seq<Seq<char>>,
    graph: GraphView,
) -> bool {
    exists|order: Seq<int>|
        orders_by_degree(order, members, graph) && sorted == #[trigger] arranged(members, order)
}

/// The channels of all the members together.
pub open spec fn total_degree(members: Seq<Seq<char>>, graph: GraphView) -> nat
    decreases members.len(),
{
    if members.len() == 0 {
        0
    } else {
        total_degree(members.drop_last(), graph) + graph.degree(members.last())
    }
}

/// What an AS with the given members is ranked by: the number of its members, or the
/// channels of all its members together.
pub open spec fn ranking_key(
    selection: AsSelectionStrategy,
    members: Seq<Seq<char>>,
    graph: GraphView,
) -> nat {
    match selection {
        AsSelectionStrategy::MaxNodes => members.len(),
        AsSelectionStrategy::MaxChannels => total_degree(members, graph),
    }
}

/// Whether the AS `a` ranks before the AS `b`: by the larger key, and between equal keys
/// by the larger number.
pub open spec fn ranks_before(
    dir: Map<Asn, Seq<Seq<char>>>,
    graph: GraphView,
    selection: AsSelectionStrategy,
    a: Asn,
    b: Asn,
) -> bool {
    let key_a = ranking_key(selection, dir[a], graph);
    let key_b = ranking_key(selection, dir[b], graph);
    key_a > key_b || (key_a == key_b && a > b)
}

/// Whether `top` holds the `n` first ASes of the directory in their ranking, or all of
/// them where there are fewer: ASes of the directory, each with its members ordered by
/// channels, from the first rank down, and no AS that is left out ranks before one that is in.
pub open spec fn is_top_n(
    top: Seq<(Asn, Seq<Seq<char>>)>,
    dir: Map<Asn, Seq<Seq<char>>>,
    graph: GraphView,
    selection: AsSelectionStrategy,
    n: nat,
) -> bool {
    &&& top.len() == if n <= dir.dom().len() {
        n
    } else {
        dir.dom().len()
    }
    &&& forall|i: int|
        0 <= i < top.len() ==> dir.contains_key((#[trigger] top[i]).0) && is_sorted_by_degree(
            top[i].1,
            dir[top[i].0],
            graph,
        )
    &&& forall|i: int, j: int|
        0 <= i < j < top.len() ==> ranks_before(
            dir,
            graph,
            selection,
            (#[trigger] top[i]).0,
            (#[trigger] top[j]).0,
        )
    &&& forall|asn: Asn, i: int|
        #![trigger dir.contains_key(asn), top[i]]
        dir.contains_key(asn) && 0 <= i < top.len() ==> (exists|k: int|
            0 <= k < top.len() && (#[trigger] top[k]).0 == asn) || ranks_before(
            dir,
            graph,
            selection,
            top[i].0,
            asn,
        )
}

/// An order of the positions of `members` names every position.
pub proof fn lemma_order_names_all(
    order: Seq<int>,
    members: Seq<Seq<char>>,
    graph: GraphView,
    position: int,
)
    requires
        orders_by_degree(order, members, graph),
        0 <= position < members.len(),
    ensures
        order.contains(position),
{
    let n = members.len() as int;
    assert forall|k: int, l: int| 0 <= k < order.len() && 0 <= l < order.len() && k != l implies order[k]
        != order[l] by {
        if k < l {
            assert(precedes(members, graph, order[k], order[l]));
        } else {
            assert(precedes(members, graph, order[l], order[k]));
        }
    }
    order.unique_seq_to_set();
    vstd::set_lib::lemma_int_range(0, n);
    assert(order.to_set().subset_of(vstd::set_lib::set_int_range(0, n))) by {
        assert forall|x: int| order.to_set().contains(x) implies vstd::set_lib::set_int_range(
            0,
            n,
        ).contains(x) by {
            let k = choose|k: int| 0 <= k < order.len() && order[k] == x;
            assert(0 <= order[k] < n);
        }
    }
    vstd::set_lib::lemma_len_subset(order.to_set(), vstd::set_lib::set_int_range(0, n));
    vstd::set_lib::lemma_subset_equality(order.to_set(), vstd::set_lib::set_int_range(0, n));
    assert(vstd::set_lib::set_int_range(0, n).contains(position));
    assert(order.to_set().contains(position));
}

/// Two orders of the positions of `members` agree up to `upto`.
proof fn lemma_orders_agree(
    first: Seq<int>,
    second: Seq<int>,
    members: Seq<Seq<char>>,
    graph: GraphView,
    at: int,
)
    requires
        orders_by_degree(first, members, graph),
        orders_by_degree(second, members, graph),
        0 <= at < members.len(),
    ensures
        first[at] == second[at],
    decreases at,
{
    let a = first[at];
    let b = second[at];
    if a != b {
        // whichever of the two comes first in the order by channels stands before `at` in
        // the order that has the other at `at`, where the two orders agree
        if precedes(members, graph, a, b) {
            lemma_order_names_all(second, members, graph, a);
            let k = choose|k: int| 0 <= k < second.len() && second[k] == a;
            if k < at {
                lemma_orders_agree(first, second, members, graph, k);
                assert(precedes(members, graph, first[k], first[at]));
            } else {
                assert(precedes(members, graph, second[at], second[k]));
            }
        } else {
            lemma_order_names_all(first, members, graph, b);
            let k = choose|k: int| 0 <= k < first.len() && first[k] == b;
            if k < at {
                lemma_orders_agree(first, second, members, graph, k);
                assert(precedes(members, graph, second[k], second[at]));
            } else {
                assert(precedes(members, graph, first[at], first[k]));
            }
        }
    }
}

/// The law of the one order: only one list holds the members ordered by their channels.
pub proof fn lemma_sorted_by_degree_is_unique(
    first: Seq<Seq<char>>,
    second: Seq<Seq<char>>,
    members: Seq<Seq<char>>,
    graph: GraphView,
)
    requires
        is_sorted_by_degree(first, members, graph),
        is_sorted_by_degree(second, members, graph),
    ensures
        first == second,
{
    let one = choose|order: Seq<int>|
        orders_by_degree(order, members, graph) && first == #[trigger] arranged(members, order);
    let other = choose|order: Seq<int>|
        orders_by_degree(order, members, graph) && second == #[trigger] arranged(members, order);
    assert forall|k: int| 0 <= k < members.len() implies one[k] == other[k] by {
        lemma_orders_agree(one, other, members, graph, k);
    }
    assert(first =~= second);
}

/// Two rankings of the same directory name the same AS at each rank.
proof fn lemma_rankings_agree(
    first: Seq<(Asn, Seq<Seq<char>>)>,
    second: Seq<(Asn, Seq<Seq<char>>)>,
    dir: Map<Asn, Seq<Seq<char>>>,
    graph: GraphView,
    selection: AsSelectionStrategy,
    n: nat,
    at: int,
)
    requires
        is_top_n(first, dir, graph, selection, n),
        is_top_n(second, dir, graph, selection, n),
        0 <= at < first.len(),
    ensures
        first[at].0 == second[at].0,
    decreases at,
{
    let a = first[at].0;
    let b = second[at].0;
    if a != b {
        assert(dir.contains_key(first[at].0) && dir.contains_key(second[at].0));
        if ranks_before(dir, graph, selection, a, b) {
            // `a` ranks before the AS at `at` in the second ranking, so it is in that
            // ranking, and before `at`, where the rankings agree
            assert(dir.contains_key(a) && 0 <= at < second.len());
            assert(exists|k: int| 0 <= k < second.len() && (#[trigger] second[k]).0 == a);
            let k = choose|k: int| 0 <= k < second.len() && (#[trigger] second[k]).0 == a;
            if k < at {
                lemma_rankings_agree(first, second, dir, graph, selection, n, k);
                assert(ranks_before(dir, graph, selection, first[k].0, first[at].0));
            } else {
                assert(ranks_before(dir, graph, selection, second[at].0, second[k].0));
            }
        } else {
            assert(dir.contains_key(b) && 0 <= at < first.len());
            assert(exists|k: int| 0 <= k < first.len() && (#[trigger] first[k]).0 == b);
            let k = choose|k: int| 0 <= k < first.len() && (#[trigger] first[k]).0 == b;
            if k < at {
                lemma_rankings_agree(first, second, dir, graph, selection, n, k);
                assert(ranks_before(dir, graph, selection, second[k].0, second[at].0));
            } else {
                assert(ranks_before(dir, graph, selection, first[at].0, first[k].0));
            }
        }
    }
}

/// The law of the one ranking: a directory has only one list of its `n` first ASes.
pub proof fn lemma_top_n_is_unique(
    first: Seq<(Asn, Seq<Seq<char>>)>,
    second: Seq<(Asn, Seq<Seq<char>>)>,
    dir: Map<Asn, Seq<Seq<char>>>,
    graph: GraphView,
    selection: AsSelectionStrategy,
    n: nat,
)
    requires
        is_top_n(first, dir, graph, selection, n),
        is_top_n(second, dir, graph, selection, n),
    ensures
        first == second,
{
    assert forall|i: int| 0 <= i < first.len() implies first[i] == second[i] by {
        lemma_rankings_agree(first, second, dir, graph, selection, n, i);
        lemma_sorted_by_degree_is_unique(first[i].1, second[i].1, dir[first[i].0], graph);
    }
    assert(first =~= second);
}

/// The ranked ASes in `top`, each with the identifiers of its members.
pub open spec fn top_view(top: Seq<(Asn, Vec<String>)>) -> Seq<(Asn, Seq<Seq<char>>)> {
    top.map_values(|entry: (Asn, Vec<String>)| (entry.0, ids(entry.1@)))
}

/// The members in `nodes` from the one with the most channels in `graph` down; members
/// with equally many channels keep the order they have in `nodes`.
pub fn sort_by_degree(nodes: &Vec<String>, graph: &Graph) -> (sorted: Vec<String>)
    ensures
        is_sorted_by_degree(ids(sorted@), ids(nodes@), graph@),
{
    let ghost members = ids(nodes@);
    let mut sorted: Vec<String> = Vec::new();
    let mut degrees: Vec<usize> = Vec::new();
    let ghost mut order: Seq<int> = Seq::empty();
    let mut m: usize = 0;
    while m < nodes.len()
        invariant
            m <= nodes@.len(),
            members == ids(nodes@),
            order.len() == m,
            sorted@.len() == m,
            degrees@.len() == m,
            forall|k: int| 0 <= k < m ==> 0 <= #[trigger] order[k] < m,
            forall|k: int| 0 <= k < m ==> (#[trigger] sorted@[k])@ == members[order[k]],
            forall|k: int| 0 <= k < m ==> #[trigger] degrees@[k] == graph@.degree(members[order[k]]),
            forall|k: int, l: int|
                0 <= k < l < m ==> precedes(members, graph@, #[trigger] order[k], #[trigger] order[l]),
        decreases nodes@.len() - m,
    {
        let degree = graph.edge_count(&nodes[m]);
        let mut at: usize = 0;
        while at < sorted.len() && degrees[at] >= degree
            invariant
                at <= sorted@.len(),
                sorted@.len() == degrees@.len(),
                forall|k: int| 0 <= k < at ==> #[trigger] degrees@[k] >= degree,
            decreases sorted@.len() - at,
        {
            at += 1;
        }
        let ghost old_order = order;
        let ghost old_sorted = sorted@;
        let ghost old_degrees = degrees@;
        sorted.insert(at, nodes[m].clone());
        degrees.insert(at, degree);
        proof {
            order = old_order.insert(at as int, m as int);
            assert forall|k: int, l: int| 0 <= k < l < m + 1 implies precedes(
                members,
                graph@,
                #[trigger] order[k],
                #[trigger] order[l],
            ) by {
                if l < at {
                    assert(order[k] == old_order[k] && order[l] == old_order[l]);
                } else if l == at {
                    assert(order[k] == old_order[k]);
                    assert(old_degrees[k] >= degree);
                } else if k < at {
                    assert(order[k] == old_order[k] && order[l] == old_order[l - 1]);
                } else if k == at {
                    assert(order[l] == old_order[l - 1]);
                    assert(old_degrees[at as int] < degree);
                    if l - 1 > at {
                        assert(precedes(members, graph@, old_order[at as int], old_order[l - 1]));
                    }
                    assert(old_degrees[l - 1] == graph@.degree(members[old_order[l - 1]]));
                } else {
                    assert(order[k] == old_order[k - 1] && order[l] == old_order[l - 1]);
                }
            }
            assert forall|k: int| 0 <= k < m + 1 implies (#[trigger] sorted@[k])@
                == members[order[k]] by {
                if k < at {
                    assert(sorted@[k] == old_sorted[k]);
                } else if k > at {
                    assert(sorted@[k] == old_sorted[k - 1]);
                }
            }
            assert forall|k: int| 0 <= k < m + 1 implies #[trigger] degrees@[k] == graph@.degree(
                members[order[k]],
            ) by {
                if k < at {
                    assert(degrees@[k] == old_degrees[k]);
                } else if k > at {
                    assert(degrees@[k] == old_degrees[k - 1]);
                }
            }
            assert forall|k: int| 0 <= k < m + 1 implies 0 <= #[trigger] order[k] < m + 1 by {
                if k < at {
                    assert(order[k] == old_order[k]);
                } else if k > at {
                    assert(order[k] == old_order[k - 1]);
                }
            }
        }
        m += 1;
    }
    proof {
        assert(orders_by_degree(order, members, graph@));
        assert(ids(sorted@) =~= arranged(members, order));
    }
    sorted
}

/// The channels of all of `nodes` together.
pub fn sum_channels(nodes: &Vec<String>, graph: &Graph) -> (sum: u128)
    ensures
        sum == total_degree(ids(nodes@), graph@),
{
    let ghost members = ids(nodes@);
    let mut sum: u128 = 0;
    let mut j: usize = 0;
    assert(members.take(0) =~= Seq::empty());
    while j < nodes.len()
        invariant
            j <= nodes@.len(),
            members == ids(nodes@),
            sum == total_degree(members.take(j as int), graph@),
            sum <= j * usize::MAX,
        decreases nodes@.len() - j,
    {
        let degree = graph.edge_count(&nodes[j]);
        proof {
            assert(members.take(j + 1).drop_last() =~= members.take(j as int));
            assert(j * usize::MAX + usize::MAX == (j + 1) * usize::MAX) by (nonlinear_arith);
            assert((j + 1) * usize::MAX <= usize::MAX * usize::MAX) by (nonlinear_arith)
                requires
                    j + 1 <= usize::MAX,
            ;
            assert(usize::MAX * usize::MAX <= u128::MAX) by (nonlinear_arith)
                requires
                    usize::MAX <= u64::MAX,
            ;
        }
        sum = sum + degree as u128;
        j += 1;
    }
    assert(members.take(members.len() as int) =~= members);
    sum
}

} // verus!
