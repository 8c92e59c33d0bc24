//! A whole run of an agent graph: once the start node is triggered, each node that stops sends
//! `StartWork` to its successors, which stop in turn once they have heard from all their
//! predecessors.
use vstd::prelude::*;

use crate::agent_actor::{spec_control_step, spec_internal_step, ActorMessage};
use crate::agent_system::{
    edges_consistent, end_name, leaves, spec_add_entry_after, spec_add_entry_before,
    spec_build_after, spec_build_before, start_name,
};

verus! {

/// The state of a run: for each node, the predecessors it still waits for; and the nodes that
/// have stopped.
pub struct GraphRun {
    pub waiting: Map<Seq<char>, Set<Seq<char>>>,
    pub stopped: Set<Seq<char>>,
}

/// The run just after the start node was triggered: it has stopped (having started its
/// successors), and every other node waits for all its predecessors.
pub open spec fn initial_run(before: Map<Seq<char>, Set<Seq<char>>>) -> GraphRun {
    GraphRun { waiting: before, stopped: Set::empty().insert(start_name()) }
}

/// Node `p` sends `StartWork(p)` to each of `succs`: each drops `p` from the predecessors it
/// waits for, and stops when it waits for nobody any more (the reaction of the handlers, see
/// `lemma_reaction_to_start_work`).
pub open spec fn deliver(run: GraphRun, p: Seq<char>, succs: Set<Seq<char>>) -> GraphRun {
    GraphRun {
        waiting: Map::new(
            |k: Seq<char>| run.waiting.contains_key(k),
            |k: Seq<char>|
                if succs.contains(k) {
                    run.waiting[k].remove(p)
                } else {
                    run.waiting[k]
                },
        ),
        stopped: run.stopped.union(
            Set::new(
                |k: Seq<char>|
                    succs.contains(k) && run.waiting.contains_key(k) && run.waiting[k].remove(p)
                        == Set::<Seq<char>>::empty(),
            ),
        ),
    }
}

/// The run after the nodes `order[0..k]` had their turn: a node that has stopped starts its
/// successors; one that has not does nothing.
pub open spec fn run_prefix(
    after: Map<Seq<char>, Set<Seq<char>>>,
    before: Map<Seq<char>, Set<Seq<char>>>,
    order: Seq<Seq<char>>,
    k: nat,
) -> GraphRun
    decreases k,
{
    if k == 0 || k > order.len() {
        initial_run(before)
    } else {
        let r = run_prefix(after, before, order, (k - 1) as nat);
        let p = order[k - 1];
        if r.stopped.contains(p) && after.contains_key(p) {
            deliver(r, p, after[p])
        } else {
            r
        }
    }
}

/// The nodes among the first `k` of `order`.
pub open spec fn processed(order: Seq<Seq<char>>, k: int) -> Set<Seq<char>> {
    Set::new(|x: Seq<char>| exists|j: int| 0 <= j < k && #[trigger] order[j] == x)
}

/// `order` lists every node of the graph once, the start node first and every node after all
/// its predecessors; every node but the start node waits for some predecessor.
pub open spec fn is_run_order(
    after: Map<Seq<char>, Set<Seq<char>>>,
    before: Map<Seq<char>, Set<Seq<char>>>,
    order: Seq<Seq<char>>,
) -> bool {
    &&& order.len() > 0
    &&& order[0] == start_name()
    &&& order.no_duplicates()
    &&& forall|i: int| 0 <= i < order.len() ==> after.contains_key(#[trigger] order[i])
    &&& forall|k: Seq<char>| #[trigger] after.contains_key(k) ==> order.contains(k)
    &&& forall|p: Seq<char>, c: Seq<char>|
        after.contains_key(p) && #[trigger] after[p].contains(c) ==> exists|i: int, j: int|
            0 <= i < j < order.len() && #[trigger] order[i] == p && #[trigger] order[j] == c
    &&& forall|i: int|
        1 <= i < order.len() ==> before.contains_key(#[trigger] order[i]) && before[order[i]]
            != Set::<Seq<char>>::empty()
}

proof fn lemma_run_prefix(
    after: Map<Seq<char>, Set<Seq<char>>>,
    before: Map<Seq<char>, Set<Seq<char>>>,
    order: Seq<Seq<char>>,
    k: nat,
)
    requires
        edges_consistent(after, before),
        is_run_order(after, before, order),
        k <= order.len(),
    ensures
        run_prefix(after, before, order, k).waiting.dom() == before.dom(),
        forall|c: Seq<char>| #[trigger]
            before.contains_key(c) ==> run_prefix(after, before, order, k).waiting[c]
                == before[c].difference(processed(order, k as int)),
        forall|c: Seq<char>|
            before.contains_key(c) && before[c] != Set::<Seq<char>>::empty() && before[c].subset_of(
                processed(order, k as int),
            ) ==> #[trigger] run_prefix(after, before, order, k).stopped.contains(c),
        run_prefix(after, before, order, k).stopped.contains(start_name()),
        forall|j: int|
            0 <= j < k ==> run_prefix(after, before, order, k).stopped.contains(#[trigger] order[j]),
    decreases k,
{
    if k == 0 {
        let r = initial_run(before);
        assert forall|c: Seq<char>| #[trigger] before.contains_key(c) implies r.waiting[c]
            == before[c].difference(processed(order, 0)) by {
            assert(before[c].difference(processed(order, 0)) =~= before[c]);
        }
        assert forall|c: Seq<char>|
            before.contains_key(c) && before[c] != Set::<Seq<char>>::empty() && before[c].subset_of(
                processed(order, 0),
            ) implies #[trigger] r.stopped.contains(c) by {
            assert(before[c] =~= Set::<Seq<char>>::empty());
        }
    } else {
        let k1 = (k - 1) as nat;
        lemma_run_prefix(after, before, order, k1);
        let r = run_prefix(after, before, order, k1);
        let p = order[k1 as int];
        let pk = processed(order, k1 as int);
        let pk1 = processed(order, k as int);
        assert forall|x: Seq<char>| #[trigger] pk1.contains(x) <==> (pk.contains(x) || x == p) by {
            if pk1.contains(x) {
                let j = choose|j: int| 0 <= j < k && #[trigger] order[j] == x;
                if j < k1 {
                    assert(pk.contains(x));
                }
            }
            if pk.contains(x) {
                let j = choose|j: int| 0 <= j < k1 && #[trigger] order[j] == x;
                assert(pk1.contains(order[j]));
            }
            if x == p {
                assert(pk1.contains(order[k1 as int]));
            }
        }
        // the node whose turn it is has stopped
        assert(r.stopped.contains(p)) by {
            if k1 > 0 {
                assert(p != start_name()) by {
                    assert(order[0] != order[k1 as int]);
                }
                assert(before.contains_key(p) && before[p] != Set::<Seq<char>>::empty());
                assert forall|q: Seq<char>| #[trigger] before[p].contains(q) implies pk.contains(
                    q,
                ) by {
                    assert(after.contains_key(q) && after[q].contains(p));
                    let (i, j) = choose|i: int, j: int|
                        0 <= i < j < order.len() && #[trigger] order[i] == q && #[trigger] order[j]
                            == p;
                    if j != k1 {
                        assert(order[j] == order[k1 as int]);
                    }
                    assert(pk.contains(order[i]));
                }
                assert(before[p].subset_of(pk));
            }
        }
        assert(after.contains_key(p));
        let succs = after[p];
        let r1 = deliver(r, p, succs);
        assert(run_prefix(after, before, order, k) == r1);
        assert(r1.waiting.dom() =~= before.dom());
        assert forall|c: Seq<char>| #[trigger] before.contains_key(c) implies r1.waiting[c]
            == before[c].difference(pk1) by {
            if succs.contains(c) {
                assert(r1.waiting[c] =~= before[c].difference(pk1));
            } else {
                assert(!before[c].contains(p));
                assert(r1.waiting[c] =~= before[c].difference(pk1));
            }
        }
        assert forall|c: Seq<char>|
            before.contains_key(c) && before[c] != Set::<Seq<char>>::empty() && before[c].subset_of(
                pk1,
            ) implies #[trigger] r1.stopped.contains(c) by {
            if before[c].subset_of(pk) {
                assert(r.stopped.contains(c));
            } else {
                let q = choose|q: Seq<char>| before[c].contains(q) && !pk.contains(q);
                assert(q == p);
                assert(succs.contains(c));
                assert(r.waiting[c].remove(p) =~= Set::<Seq<char>>::empty());
            }
        }
    }
}

/// Law: in a graph whose edge sets agree, run in an order that lists every node once, the
/// start node first and each node after its predecessors, where every other node waits for
/// someone: once the start node is triggered, every node of the graph stops, the end node
/// among them, and nobody is left waiting.
pub proof fn lemma_every_node_stops(
    after: Map<Seq<char>, Set<Seq<char>>>,
    before: Map<Seq<char>, Set<Seq<char>>>,
    order: Seq<Seq<char>>,
)
    requires
        edges_consistent(after, before),
        is_run_order(after, before, order),
    ensures
        forall|k: Seq<char>| #[trigger]
            after.contains_key(k) ==> run_prefix(
                after,
                before,
                order,
                order.len(),
            ).stopped.contains(k),
        after.contains_key(end_name()) ==> run_prefix(
            after,
            before,
            order,
            order.len(),
        ).stopped.contains(end_name()),
        forall|c: Seq<char>| #[trigger]
            before.contains_key(c) ==> run_prefix(after, before, order, order.len()).waiting[c]
                == Set::<Seq<char>>::empty(),
{
    let n = order.len();
    lemma_run_prefix(after, before, order, n);
    let r = run_prefix(after, before, order, n);
    assert forall|k: Seq<char>| #[trigger] after.contains_key(k) implies r.stopped.contains(k) by {
        assert(order.contains(k));
        let j = choose|j: int| 0 <= j < order.len() && order[j] == k;
        assert(r.stopped.contains(order[j]));
    }
    assert forall|c: Seq<char>| #[trigger] before.contains_key(c) implies r.waiting[c]
        == Set::<Seq<char>>::empty() by {
        assert forall|q: Seq<char>| #[trigger] before[c].contains(q) implies processed(
            order,
            n as int,
        ).contains(q) by {
            assert(after.contains_key(q) && after[q].contains(c));
            let (i, j) = choose|i: int, j: int|
                0 <= i < j < order.len() && #[trigger] order[i] == q && #[trigger] order[j] == c;
            assert(processed(order, n as int).contains(order[i]));
        }
        assert(r.waiting[c] =~= Set::<Seq<char>>::empty());
    }
}

/// Law: on `StartWork(from)`, an agent and the end node drop `from` from the predecessors they
/// wait for, and stop exactly when they then wait for nobody (the reaction `deliver` models).
pub proof fn lemma_reaction_to_start_work(
    before: Set<Seq<char>>,
    after: Seq<Seq<char>>,
    name: Seq<char>,
    m: ActorMessage,
)
    requires
        m is StartWork,
    ensures
        spec_internal_step(before, after, name, m).0 == before.remove(m->StartWork_0@),
        (spec_internal_step(before, after, name, m).1.len() > 0) == (before.remove(
            m->StartWork_0@,
        ) == Set::<Seq<char>>::empty()),
        spec_control_step(end_name(), before, after, name, m).0 == before.remove(m->StartWork_0@),
        (spec_control_step(end_name(), before, after, name, m).1.len() > 0) == (before.remove(
            m->StartWork_0@,
        ) == Set::<Seq<char>>::empty()),
{
    reveal_strlit("start");
    reveal_strlit("end");
    assert(end_name() != start_name()) by {
        assert(end_name().len() != start_name().len());
    }
}

/// Some order runs the graph (see `is_run_order`).
pub open spec fn runnable(
    after: Map<Seq<char>, Set<Seq<char>>>,
    before: Map<Seq<char>, Set<Seq<char>>>,
) -> bool {
    exists|order: Seq<Seq<char>>| is_run_order(after, before, order)
}

/// Law: the graph that holds only the start and the end node is runnable.
pub proof fn lemma_new_runnable()
    ensures
        runnable(
            Map::<Seq<char>, Set<Seq<char>>>::empty().insert(start_name(), Set::empty()),
            Map::<Seq<char>, Set<Seq<char>>>::empty().insert(end_name(), Set::empty()),
        ),
{
    let after = Map::<Seq<char>, Set<Seq<char>>>::empty().insert(start_name(), Set::empty());
    let before = Map::<Seq<char>, Set<Seq<char>>>::empty().insert(end_name(), Set::empty());
    let order = seq![start_name()];
    assert forall|k: Seq<char>| #[trigger] after.contains_key(k) implies order.contains(k) by {
        assert(order[0] == k);
    }
    assert(is_run_order(after, before, order));
}

/// Where the `j`-th item of a sequence stands in the sequence it was taken from by removing
/// the item at `idx`.
pub open spec fn shift(j: int, idx: int) -> int {
    if j >= idx {
        j + 1
    } else {
        j
    }
}

/// Law: adding an edge from a node of a runnable graph to a node other than the start node
/// that has no successors yet keeps the graph runnable.
pub proof fn lemma_add_entry_runnable(
    after: Map<Seq<char>, Set<Seq<char>>>,
    before: Map<Seq<char>, Set<Seq<char>>>,
    parent: Seq<char>,
    child: Seq<char>,
)
    requires
        runnable(after, before),
        after.contains_key(parent),
        parent != child,
        child != start_name(),
        !after.contains_key(child) || after[child] == Set::<Seq<char>>::empty(),
    ensures
        runnable(
            spec_add_entry_after(after, parent, child),
            spec_add_entry_before(before, parent, child),
        ),
{
    let order = choose|order: Seq<Seq<char>>| is_run_order(after, before, order);
    let a2 = spec_add_entry_after(after, parent, child);
    let b2 = spec_add_entry_before(before, parent, child);
    // the order without the child, then the child last
    let idx: int = if order.contains(child) {
        choose|idx: int| 0 <= idx < order.len() && order[idx] == child
    } else {
        order.len() as int
    };
    let o1 = if order.contains(child) {
        order.remove(idx)
    } else {
        order
    };
    assert(o1.len() == if order.contains(child) { order.len() - 1 } else { order.len() as int });
    assert forall|j: int| 0 <= j < o1.len() implies 0 <= #[trigger] shift(j, idx) < order.len()
        && o1[j] == order[shift(j, idx)] by {}
    assert forall|j: int| #![trigger order[j]] 0 <= j < order.len() && j != idx implies exists|t: int|
        0 <= t < o1.len() && #[trigger] shift(t, idx) == j by {
        if j < idx {
            assert(shift(j, idx) == j);
        } else {
            assert(shift(j - 1, idx) == j);
        }
    }
    assert(forall|x: Seq<char>| x != child ==> (o1.contains(x) <==> order.contains(x))) by {
        assert forall|x: Seq<char>| x != child implies (o1.contains(x) <==> order.contains(x)) by {
            if order.contains(x) {
                let j = choose|j: int| 0 <= j < order.len() && order[j] == x;
                assert(j != idx);
                let t = choose|t: int| 0 <= t < o1.len() && #[trigger] shift(t, idx) == j;
                assert(o1[t] == x);
            }
            if o1.contains(x) {
                let t = choose|t: int| 0 <= t < o1.len() && o1[t] == x;
                assert(order[shift(t, idx)] == x);
            }
        }
    }
    assert(!o1.contains(child)) by {
        if o1.contains(child) {
            let t = choose|t: int| 0 <= t < o1.len() && o1[t] == child;
            assert(order[shift(t, idx)] == child);
            assert(order.contains(child));
            assert(order[shift(t, idx)] == order[idx]);
        }
    }
    assert(o1.len() > 0 && o1[0] == start_name()) by {
        if order.contains(child) {
            assert(idx != 0);
            assert(order.len() > 1);
        }
    }
    assert(o1.no_duplicates()) by {
        assert forall|i: int, j: int| 0 <= i < o1.len() && 0 <= j < o1.len() && i != j implies o1[i]
            != o1[j] by {
            assert(shift(i, idx) != shift(j, idx));
            assert(order[shift(i, idx)] != order[shift(j, idx)]);
        }
    }
    let o2 = o1.push(child);
    let n1 = o1.len() as int;
    assert forall|j: int| 0 <= j < o1.len() implies #[trigger] o2[j] == o1[j] by {}
    assert(o2[n1] == child);
    assert(o2.len() > 0 && o2[0] == start_name());
    assert(o2.no_duplicates()) by {
        assert forall|i: int, j: int| 0 <= i < o2.len() && 0 <= j < o2.len() && i != j implies o2[i] != o2[j] by {
            if i < n1 && j < n1 {
            } else if i < n1 {
                assert(o1.contains(o2[i]));
            } else {
                assert(o1.contains(o2[j]));
            }
        }
    }
    assert forall|i: int| 0 <= i < o2.len() implies a2.contains_key(#[trigger] o2[i]) by {
        if i < n1 {
            assert(order.contains(o1[i]) || o1[i] == child) by {
                assert(order[shift(i, idx)] == o1[i]);
            }
        }
    }
    assert forall|k: Seq<char>| #[trigger] a2.contains_key(k) implies o2.contains(k) by {
        if k == child {
            assert(o2[n1] == k);
        } else {
            assert(order.contains(k));
            assert(o1.contains(k));
            let j = choose|j: int| 0 <= j < o1.len() && o1[j] == k;
            assert(o2[j] == k);
        }
    }
    assert forall|x: Seq<char>, y: Seq<char>| a2.contains_key(x) && #[trigger] a2[x].contains(y) implies exists|
        i: int,
        j: int,
    | 0 <= i < j < o2.len() && #[trigger] o2[i] == x && #[trigger] o2[j] == y by {
        assert(x != child);
        assert(o1.contains(x)) by {
            assert(order.contains(x));
        }
        let i = choose|i: int| 0 <= i < o1.len() && o1[i] == x;
        assert(o2[i] == x);
        if y == child {
            assert(o2[n1] == y);
        } else {
            assert(after[x].contains(y));
            let (oi, oj) = choose|oi: int, oj: int|
                0 <= oi < oj < order.len() && #[trigger] order[oi] == x && #[trigger] order[oj] == y;
            assert(o1.contains(y)) by {
                assert(order.contains(y));
            }
            let j = choose|j: int| 0 <= j < o1.len() && o1[j] == y;
            assert(order[shift(i, idx)] == x && order[shift(j, idx)] == y);
            assert(shift(i, idx) == oi) by {
                if shift(i, idx) != oi {
                    assert(order[shift(i, idx)] == order[oi]);
                }
            }
            assert(shift(j, idx) == oj) by {
                if shift(j, idx) != oj {
                    assert(order[shift(j, idx)] == order[oj]);
                }
            }
            assert(i < j);
            assert(o2[j] == y);
        }
    }
    assert forall|i: int| 1 <= i < o2.len() implies b2.contains_key(#[trigger] o2[i]) && b2[o2[i]]
        != Set::<Seq<char>>::empty() by {
        if i == n1 {
            assert(b2[child].contains(parent));
        } else {
            assert(o2[i] == order[shift(i, idx)]);
            assert(shift(i, idx) >= 1);
            assert(o2[i] != child);
        }
    }
    assert(is_run_order(a2, b2, o2));
}

/// Law: closing a runnable graph that has no end node yet keeps it runnable.
pub proof fn lemma_build_runnable(
    after: Map<Seq<char>, Set<Seq<char>>>,
    before: Map<Seq<char>, Set<Seq<char>>>,
)
    requires
        runnable(after, before),
        !after.contains_key(end_name()),
        before.contains_key(end_name()),
    ensures
        runnable(spec_build_after(after), spec_build_before(after, before)),
{
    let order = choose|order: Seq<Seq<char>>| is_run_order(after, before, order);
    let a2 = spec_build_after(after);
    let b2 = spec_build_before(after, before);
    let l = leaves(after);
    if l == Set::<Seq<char>>::empty() {
        assert(b2 =~= before) by {
            assert(before[end_name()].union(l) =~= before[end_name()]);
        }
        assert(is_run_order(a2, b2, order));
    } else {
        let o2 = order.push(end_name());
        let n = order.len() as int;
        assert forall|j: int| 0 <= j < n implies #[trigger] o2[j] == order[j] by {}
        assert(o2[n] == end_name());
        assert(!order.contains(end_name())) by {
            if order.contains(end_name()) {
                let j = choose|j: int| 0 <= j < order.len() && order[j] == end_name();
                assert(after.contains_key(order[j]));
            }
        }
        assert(o2.no_duplicates()) by {
            assert forall|i: int, j: int| 0 <= i < o2.len() && 0 <= j < o2.len() && i != j implies o2[i] != o2[j] by {
                if i < n && j < n {
                } else if i < n {
                    assert(order.contains(o2[i]));
                } else {
                    assert(order.contains(o2[j]));
                }
            }
        }
        assert forall|i: int| 0 <= i < o2.len() implies a2.contains_key(#[trigger] o2[i]) by {
            if i < n {
                assert(after.contains_key(order[i]));
            }
        }
        assert forall|k: Seq<char>| #[trigger] a2.contains_key(k) implies o2.contains(k) by {
            if k == end_name() {
                assert(o2[n] == k);
            } else {
                assert(order.contains(k));
                let j = choose|j: int| 0 <= j < order.len() && order[j] == k;
                assert(o2[j] == k);
            }
        }
        assert forall|x: Seq<char>, y: Seq<char>| a2.contains_key(x) && #[trigger] a2[x].contains(y) implies exists|
            i: int,
            j: int,
        | 0 <= i < j < o2.len() && #[trigger] o2[i] == x && #[trigger] o2[j] == y by {
            assert(x != end_name());
            assert(order.contains(x));
            let i = choose|i: int| 0 <= i < order.len() && order[i] == x;
            assert(o2[i] == x);
            if l.contains(x) {
                assert(y == end_name());
                assert(o2[n] == y);
            } else {
                assert(after[x].contains(y));
                let (oi, oj) = choose|oi: int, oj: int|
                    0 <= oi < oj < order.len() && #[trigger] order[oi] == x && #[trigger] order[oj] == y;
                assert(o2[oi] == x && o2[oj] == y);
            }
        }
        assert forall|i: int| 1 <= i < o2.len() implies b2.contains_key(#[trigger] o2[i]) && b2[o2[i]]
            != Set::<Seq<char>>::empty() by {
            if i == n {
                assert(exists|x: Seq<char>| l.contains(x)) by {
                    if !exists|x: Seq<char>| l.contains(x) {
                        assert(l =~= Set::<Seq<char>>::empty());
                    }
                }
                let x = choose|x: Seq<char>| l.contains(x);
                assert(b2[end_name()].contains(x));
            } else {
                assert(o2[i] == order[i]);
                assert(order[i] != end_name());
            }
        }
        assert(is_run_order(a2, b2, o2));
    }
}

/// Law: in a graph whose edge sets agree and that some order runs, triggering the start node
/// makes every node stop, the end node among them, with nobody left waiting.
pub proof fn lemma_runnable_graph_stops(
    after: Map<Seq<char>, Set<Seq<char>>>,
    before: Map<Seq<char>, Set<Seq<char>>>,
)
    requires
        edges_consistent(after, before),
        runnable(after, before),
    ensures
        exists|order: Seq<Seq<char>>|
            #![trigger is_run_order(after, before, order)]
            is_run_order(after, before, order) && (forall|k: Seq<char>| #[trigger]
                after.contains_key(k) ==> run_prefix(
                    after,
                    before,
                    order,
                    order.len(),
                ).stopped.contains(k)) && (forall|c: Seq<char>| #[trigger]
                before.contains_key(c) ==> run_prefix(after, before, order, order.len()).waiting[c]
                    == Set::<Seq<char>>::empty()),
{
    let order = choose|order: Seq<Seq<char>>| is_run_order(after, before, order);
    lemma_every_node_stops(after, before, order);
}

} // verus!
