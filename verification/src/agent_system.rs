//! The graph of agents: who runs after whom, with a start node and an end node that bracket
//! the whole run, and the plan of actors to spawn for it.
use vstd::prelude::*;

use crate::agent_run::{lemma_add_entry_runnable, lemma_build_runnable, lemma_new_runnable, runnable};
use crate::name_set::NameSet;
use crate::string_map::StringMap;

verus! {

/// Name of the control node that every top-level agent follows.
pub open spec fn start_name() -> Seq<char> {
    "start"@
}

/// Name of the control node that follows every agent without successors.
pub open spec fn end_name() -> Seq<char> {
    "end"@
}

pub fn start_node() -> (r: String)
    ensures
        r@ == start_name(),
{
    String::from_str("start")
}

pub fn end_node() -> (r: String)
    ensures
        r@ == end_name(),
{
    String::from_str("end")
}

/// The sets that a map of name sets stands for.
pub open spec fn sets_view(m: Map<Seq<char>, NameSet>) -> Map<Seq<char>, Set<Seq<char>>> {
    m.map_values(|s: NameSet| s@)
}

/// Every set in the map is well formed.
pub open spec fn sets_wf(m: Map<Seq<char>, NameSet>) -> bool {
    forall|k: Seq<char>| #[trigger] m.contains_key(k) ==> m[k].wf()
}

/// Successor sets after recording the edge `parent -> child`: the child gets a fresh, empty
/// successor set, and the parent, where it has a set, gains the child.
pub open spec fn spec_add_entry_after(
    after: Map<Seq<char>, Set<Seq<char>>>,
    parent: Seq<char>,
    child: Seq<char>,
) -> Map<Seq<char>, Set<Seq<char>>> {
    let a1 = after.insert(child, Set::empty());
    if a1.contains_key(parent) {
        a1.insert(parent, a1[parent].insert(child))
    } else {
        a1
    }
}

/// Predecessor sets after recording the edge `parent -> child`: the child's set, created
/// empty where it is missing, gains the parent.
pub open spec fn spec_add_entry_before(
    before: Map<Seq<char>, Set<Seq<char>>>,
    parent: Seq<char>,
    child: Seq<char>,
) -> Map<Seq<char>, Set<Seq<char>>> {
    before.insert(
        child,
        (if before.contains_key(child) {
            before[child]
        } else {
            Set::empty()
        }).insert(parent),
    )
}

/// The nodes that have an empty successor set.
pub open spec fn leaves(after: Map<Seq<char>, Set<Seq<char>>>) -> Set<Seq<char>> {
    Set::new(
        |k: Seq<char>| after.contains_key(k) && after[k] == Set::<Seq<char>>::empty(),
    )
}

/// Successor sets once every leaf has been connected to the end node. The end node's own set
/// is created empty; only where the end node was itself a leaf does it end up holding itself.
pub open spec fn spec_build_after(after: Map<Seq<char>, Set<Seq<char>>>) -> Map<
    Seq<char>,
    Set<Seq<char>>,
> {
    let l = leaves(after);
    if l == Set::<Seq<char>>::empty() {
        after
    } else {
        Map::new(
            |k: Seq<char>| after.contains_key(k) || k == end_name(),
            |k: Seq<char>|
                if k == end_name() {
                    if l.contains(end_name()) {
                        Set::empty().insert(end_name())
                    } else {
                        Set::empty()
                    }
                } else if l.contains(k) {
                    Set::empty().insert(end_name())
                } else {
                    after[k]
                },
        )
    }
}

/// Predecessor sets once every leaf has been connected to the end node.
pub open spec fn spec_build_before(
    after: Map<Seq<char>, Set<Seq<char>>>,
    before: Map<Seq<char>, Set<Seq<char>>>,
) -> Map<Seq<char>, Set<Seq<char>>> {
    before.insert(end_name(), before[end_name()].union(leaves(after)))
}

/// Successor sets after connecting the first `j` of the names `e` to the end node.
pub open spec fn build_after_partial(
    after: Map<Seq<char>, Set<Seq<char>>>,
    e: Seq<Seq<char>>,
    j: int,
) -> Map<Seq<char>, Set<Seq<char>>> {
    if j == 0 {
        after
    } else {
        Map::new(
            |k: Seq<char>| after.contains_key(k) || k == end_name(),
            |k: Seq<char>|
                if k == end_name() {
                    if e[j - 1] == end_name() {
                        Set::empty().insert(end_name())
                    } else {
                        Set::empty()
                    }
                } else if e.take(j).contains(k) {
                    Set::empty().insert(end_name())
                } else {
                    after[k]
                },
        )
    }
}

/// Predecessor sets after connecting the first `j` of the names `e` to the end node.
pub open spec fn build_before_partial(
    before: Map<Seq<char>, Set<Seq<char>>>,
    e: Seq<Seq<char>>,
    j: int,
) -> Map<Seq<char>, Set<Seq<char>>> {
    before.insert(end_name(), before[end_name()].union(e.take(j).to_set()))
}

/// The names to connect to the end node: distinct leaves, the end node at most last.
pub open spec fn leaf_order_ok(after: Map<Seq<char>, Set<Seq<char>>>, e: Seq<Seq<char>>) -> bool {
    &&& e.no_duplicates()
    &&& forall|t: int| 0 <= t < e.len() ==> #[trigger] leaves(after).contains(e[t])
    &&& forall|t: int| 0 <= t < e.len() - 1 ==> #[trigger] e[t] != end_name()
}

proof fn lemma_build_step(
    after: Map<Seq<char>, Set<Seq<char>>>,
    before: Map<Seq<char>, Set<Seq<char>>>,
    e: Seq<Seq<char>>,
    j: int,
)
    requires
        leaf_order_ok(after, e),
        0 <= j < e.len(),
        before.contains_key(end_name()),
    ensures
        spec_add_entry_after(build_after_partial(after, e, j), e[j], end_name())
            == build_after_partial(after, e, j + 1),
        spec_add_entry_before(build_before_partial(before, e, j), e[j], end_name())
            == build_before_partial(before, e, j + 1),
{
    let p = build_after_partial(after, e, j);
    let q = build_after_partial(after, e, j + 1);
    let r = spec_add_entry_after(p, e[j], end_name());
    assert(leaves(after).contains(e[j]));
    let t0 = e.take(j);
    let t1 = e.take(j + 1);
    assert(t1 =~= t0.push(e[j]));
    assert(!t0.contains(e[j])) by {
        if t0.contains(e[j]) {
            let t = choose|t: int| 0 <= t < t0.len() && #[trigger] t0[t] == e[j];
            assert(e[t] == e[j]);
        }
    }
    assert forall|k: Seq<char>| k != end_name() implies (#[trigger] t1.contains(k) <==> (
    t0.contains(k) || k == e[j])) by {
        if t1.contains(k) {
            let t = choose|t: int| 0 <= t < t1.len() && #[trigger] t1[t] == k;
            if t < j {
                assert(t0[t] == k);
            }
        }
        if t0.contains(k) {
            let t = choose|t: int| 0 <= t < t0.len() && #[trigger] t0[t] == k;
            assert(t1[t] == k);
        }
        if k == e[j] {
            assert(t1[j] == k);
        }
    }
    if j > 0 {
        assert(e[j - 1] != end_name());
    }
    assert(r =~= q);
    let b = build_before_partial(before, e, j);
    assert(b.contains_key(end_name()));
    assert forall|x: Seq<char>| #[trigger] t1.contains(x) <==> (t0.contains(x) || x == e[j]) by {
        if t1.contains(x) {
            let t = choose|t: int| 0 <= t < t1.len() && #[trigger] t1[t] == x;
            if t < j {
                assert(t0[t] == x);
            }
        }
        if t0.contains(x) {
            let t = choose|t: int| 0 <= t < t0.len() && #[trigger] t0[t] == x;
            assert(t1[t] == x);
        }
        if x == e[j] {
            assert(t1[j] == x);
        }
    }
    assert(t1.to_set() =~= t0.to_set().insert(e[j]));
    assert(b[end_name()].insert(e[j]) =~= before[end_name()].union(t1.to_set()));
    assert(spec_add_entry_before(b, e[j], end_name()) =~= build_before_partial(before, e, j + 1));
}

proof fn lemma_build_done(
    after: Map<Seq<char>, Set<Seq<char>>>,
    before: Map<Seq<char>, Set<Seq<char>>>,
    e: Seq<Seq<char>>,
)
    requires
        leaf_order_ok(after, e),
        forall|k: Seq<char>| #[trigger] leaves(after).contains(k) ==> e.contains(k),
    ensures
        build_after_partial(after, e, e.len() as int) == spec_build_after(after),
        build_before_partial(before, e, e.len() as int) == spec_build_before(after, before),
{
    let n = e.len() as int;
    assert(e.take(n) =~= e);
    assert(e.to_set() =~= leaves(after));
    if n == 0 {
        assert(leaves(after) =~= Set::<Seq<char>>::empty());
    } else {
        assert(leaves(after).contains(e[0]));
        assert(leaves(after) != Set::<Seq<char>>::empty());
        assert(leaves(after).contains(end_name()) <==> e[n - 1] == end_name()) by {
            if leaves(after).contains(end_name()) {
                let t = choose|t: int| 0 <= t < e.len() && e[t] == end_name();
                if t < n - 1 {
                    assert(e[t] != end_name());
                }
            }
        }
        assert(build_after_partial(after, e, n) =~= spec_build_after(after));
    }
    assert(build_before_partial(before, e, n) =~= spec_build_before(after, before));
}

/// The successor sets and the predecessor sets describe the same edges.
pub open spec fn edges_consistent(
    after: Map<Seq<char>, Set<Seq<char>>>,
    before: Map<Seq<char>, Set<Seq<char>>>,
) -> bool {
    &&& forall|p: Seq<char>, c: Seq<char>|
        after.contains_key(p) && #[trigger] after[p].contains(c) ==> before.contains_key(c)
            && before[c].contains(p)
    &&& forall|p: Seq<char>, c: Seq<char>|
        before.contains_key(c) && #[trigger] before[c].contains(p) ==> after.contains_key(p)
            && after[p].contains(c)
}

/// What an actor is started with: its name, whom it waits for, whom it starts, and the agent
/// it runs (none for the two control nodes).
pub struct AgentArguments<A> {
    pub agent_name: String,
    pub before_name: NameSet,
    pub after_name: NameSet,
    pub agent: Option<A>,
}

/// The actors to spawn for a run: one per agent, then the start and the end control nodes.
pub struct StartPlan<A> {
    pub agents: Vec<AgentArguments<A>>,
    pub start: AgentArguments<A>,
    pub end: AgentArguments<A>,
}

/// A graph of named agents between a start node and an end node.
pub struct AgentSystem<A> {
    nodes_after: StringMap<NameSet>,
    nodes_before: StringMap<NameSet>,
    agent_map: StringMap<A>,
}

impl<A> AgentSystem<A> {
    /// For each node, the nodes that run after it.
    pub closed spec fn after(&self) -> Map<Seq<char>, Set<Seq<char>>> {
        sets_view(self.nodes_after@)
    }

    /// For each node, the nodes it waits for.
    pub closed spec fn before(&self) -> Map<Seq<char>, Set<Seq<char>>> {
        sets_view(self.nodes_before@)
    }

    /// The agents not yet handed out to actors, by name.
    pub closed spec fn agents(&self) -> Map<Seq<char>, A> {
        self.agent_map@
    }

    pub closed spec fn wf(&self) -> bool {
        &&& self.nodes_after.wf()
        &&& self.nodes_before.wf()
        &&& self.agent_map.wf()
        &&& sets_wf(self.nodes_after@)
        &&& sets_wf(self.nodes_before@)
        &&& forall|k: Seq<char>| #[trigger]
            self.agent_map@.contains_key(k) ==> self.nodes_after@.contains_key(k)
                && self.nodes_before@.contains_key(k)
        &&& self.nodes_after@.contains_key(start_name())
        &&& self.nodes_before@.contains_key(end_name())
    }

    /// What well-formedness gives callers: the start node has a successor set, the end node
    /// has a predecessor set, and every agent has both.
    pub proof fn lemma_wf(&self)
        requires
            self.wf(),
        ensures
            self.after().contains_key(start_name()),
            self.before().contains_key(end_name()),
            forall|k: Seq<char>| #[trigger]
                self.agents().contains_key(k) ==> self.after().contains_key(k)
                    && self.before().contains_key(k),
    {
    }

    /// A graph with the start node, which has no successors yet, and the end node, which
    /// waits for nobody yet.
    pub fn new() -> (r: Self)
        ensures
            r.wf(),
            r.after() == Map::<Seq<char>, Set<Seq<char>>>::empty().insert(
                start_name(),
                Set::empty(),
            ),
            r.before() == Map::<Seq<char>, Set<Seq<char>>>::empty().insert(
                end_name(),
                Set::empty(),
            ),
            r.agents() == Map::<Seq<char>, A>::empty(),
            edges_consistent(r.after(), r.before()),
            runnable(r.after(), r.before()),
    {
        proof {
            lemma_new_runnable();
        }
        let mut nodes_after: StringMap<NameSet> = StringMap::new();
        nodes_after.insert(start_node(), NameSet::new());
        let mut nodes_before: StringMap<NameSet> = StringMap::new();
        nodes_before.insert(end_node(), NameSet::new());
        let r = AgentSystem { nodes_after, nodes_before, agent_map: StringMap::new() };
        assert(r.after() =~= Map::<Seq<char>, Set<Seq<char>>>::empty().insert(
            start_name(),
            Set::empty(),
        ));
        assert(r.before() =~= Map::<Seq<char>, Set<Seq<char>>>::empty().insert(
            end_name(),
            Set::empty(),
        ));
        r
    }

    /// Records the edge `parent -> child` in both directions.
    fn add_entry(&mut self, parent: &str, child: &str)
        requires
            old(self).wf(),
        ensures
            final(self).wf(),
            final(self).after() == spec_add_entry_after(old(self).after(), parent@, child@),
            final(self).before() == spec_add_entry_before(old(self).before(), parent@, child@),
            final(self).agents() == old(self).agents(),
    {
        let ghost a0 = self.nodes_after@;
        let ghost b0 = self.nodes_before@;
        // the child starts with no successors
        self.nodes_after.insert(String::from_str(child), NameSet::new());
        let ghost a1 = self.nodes_after@;
        assert(sets_view(a1) =~= sets_view(a0).insert(child@, Set::empty()));
        // the child waits for the parent
        let mut preds = match self.nodes_before.take(child) {
            Some(s) => s,
            None => NameSet::new(),
        };
        preds.insert(String::from_str(parent));
        self.nodes_before.insert(String::from_str(child), preds);
        assert(sets_view(self.nodes_before@) =~= spec_add_entry_before(
            sets_view(b0),
            parent@,
            child@,
        ));
        // the parent, where it is known, runs before the child
        match self.nodes_after.take(parent) {
            Some(mut succs) => {
                succs.insert(String::from_str(child));
                self.nodes_after.insert(String::from_str(parent), succs);
                assert(sets_view(self.nodes_after@) =~= spec_add_entry_after(
                    sets_view(a0),
                    parent@,
                    child@,
                ));
            },
            None => {
                assert(sets_view(self.nodes_after@) =~= spec_add_entry_after(
                    sets_view(a0),
                    parent@,
                    child@,
                ));
            },
        }
    }

    /// Adds a top-level agent: it runs after the start node.
    pub fn add_agent(&mut self, name: &str, agent: A)
        requires
            old(self).wf(),
            !old(self).after().contains_key(name@),
        ensures
            final(self).wf(),
            final(self).after() == spec_add_entry_after(old(self).after(), start_name(), name@),
            final(self).before() == spec_add_entry_before(
                old(self).before(),
                start_name(),
                name@,
            ),
            final(self).agents() == old(self).agents().insert(name@, agent),
            edges_consistent(old(self).after(), old(self).before()) ==> edges_consistent(
                final(self).after(),
                final(self).before(),
            ),
            runnable(old(self).after(), old(self).before()) ==> runnable(
                final(self).after(),
                final(self).before(),
            ),
    {
        proof {
            self.lemma_wf();
            if runnable(self.after(), self.before()) {
                lemma_add_entry_runnable(self.after(), self.before(), start_name(), name@);
            }
            if edges_consistent(self.after(), self.before()) {
                lemma_add_entry_keeps_edges_consistent(
                    self.after(),
                    self.before(),
                    start_name(),
                    name@,
                );
            }
        }
        let start = start_node();
        self.add_entry(start.as_str(), name);
        assert(self.after().contains_key(name@) && self.before().contains_key(name@));
        assert(self.nodes_after@.contains_key(name@) && self.nodes_before@.contains_key(name@));
        self.agent_map.insert(String::from_str(name), agent);
    }

    /// Adds an agent that runs after `parent_name`, which must already be in the graph.
    /// An agent already known under `child_name` is replaced.
    pub fn add_child(&mut self, parent_name: &str, child_name: &str, agent: A)
        requires
            old(self).wf(),
            old(self).after().contains_key(parent_name@),
        ensures
            final(self).wf(),
            final(self).after() == spec_add_entry_after(
                old(self).after(),
                parent_name@,
                child_name@,
            ),
            final(self).before() == spec_add_entry_before(
                old(self).before(),
                parent_name@,
                child_name@,
            ),
            final(self).agents() == old(self).agents().insert(child_name@, agent),
            edges_consistent(old(self).after(), old(self).before()) && (!old(
                self,
            ).after().contains_key(child_name@) || old(self).after()[child_name@] == Set::<
                Seq<char>,
            >::empty()) ==> edges_consistent(final(self).after(), final(self).before()),
            runnable(old(self).after(), old(self).before()) && parent_name@ != child_name@
                && child_name@ != start_name() && (!old(self).after().contains_key(child_name@)
                || old(self).after()[child_name@] == Set::<Seq<char>>::empty()) ==> runnable(
                final(self).after(),
                final(self).before(),
            ),
    {
        proof {
            if runnable(self.after(), self.before()) && parent_name@ != child_name@ && child_name@
                != start_name() && (!self.after().contains_key(child_name@)
                || self.after()[child_name@] == Set::<Seq<char>>::empty()) {
                lemma_add_entry_runnable(self.after(), self.before(), parent_name@, child_name@);
            }
            if edges_consistent(self.after(), self.before()) && (!self.after().contains_key(
                child_name@,
            ) || self.after()[child_name@] == Set::<Seq<char>>::empty()) {
                lemma_add_entry_keeps_edges_consistent(
                    self.after(),
                    self.before(),
                    parent_name@,
                    child_name@,
                );
            }
        }
        self.add_entry(parent_name, child_name);
        assert(self.after().contains_key(child_name@) && self.before().contains_key(child_name@));
        assert(self.nodes_after@.contains_key(child_name@) && self.nodes_before@.contains_key(
            child_name@,
        ));
        self.agent_map.insert(String::from_str(child_name), agent);
    }

    /// Connects every node without successors to the end node.
    fn add_end_entry(&mut self)
        requires
            old(self).wf(),
        ensures
            final(self).wf(),
            final(self).after() == spec_build_after(old(self).after()),
            final(self).before() == spec_build_before(old(self).after(), old(self).before()),
            final(self).agents() == old(self).agents(),
    {
        let ghost a0 = self.after();
        let ghost b0 = self.before();
        let end = end_node();
        proof {
            self.nodes_after.lemma_view();
        }
        // collect the leaves, keeping the end node (if it is a leaf) for last
        let mut end_nodes: Vec<String> = Vec::new();
        let mut end_is_leaf = false;
        let n = self.nodes_after.len();
        for i in 0..n
            invariant
                n == self.nodes_after.entries().len(),
                self.wf(),
                a0 == self.after(),
                end@ == end_name(),
                forall|k: Seq<char>| #[trigger]
                    self.nodes_after@.contains_key(k) <==> crate::string_map::has_key(
                        self.nodes_after.entries(),
                        k,
                    ),
                forall|t: int|
                    0 <= t < self.nodes_after.entries().len() ==> #[trigger] self.nodes_after@[self.nodes_after.entries()[t].0@]
                        == self.nodes_after.entries()[t].1,
                end_nodes@.map_values(|s: String| s@).no_duplicates(),
                forall|t: int|
                    0 <= t < end_nodes@.len() ==> #[trigger] end_nodes@[t]@ != end_name(),
                forall|t: int|
                    0 <= t < end_nodes@.len() ==> leaves(a0).contains(#[trigger] end_nodes@[t]@),
                forall|j: int|
                    0 <= j < i && #[trigger] self.nodes_after.entries()[j].0@ != end_name()
                        && self.nodes_after.entries()[j].1@ == Set::<Seq<char>>::empty() ==> exists|
                        t: int,
                    |
                        0 <= t < end_nodes@.len() && #[trigger] end_nodes@[t]@
                            == self.nodes_after.entries()[j].0@,
                forall|t: int|
                    0 <= t < end_nodes@.len() ==> exists|j: int|
                        0 <= j < i && #[trigger] self.nodes_after.entries()[j].0@
                            == #[trigger] end_nodes@[t]@,
                end_is_leaf ==> leaves(a0).contains(end_name()),
                (exists|j: int|
                    0 <= j < i && #[trigger] self.nodes_after.entries()[j].0@ == end_name()
                        && self.nodes_after.entries()[j].1@ == Set::<Seq<char>>::empty())
                    ==> end_is_leaf,
        {
            let ghost key = self.nodes_after.entries()[i as int].0@;
            let ghost prev = end_nodes@;
            assert(self.nodes_after@.contains_key(key));
            assert(a0.contains_key(key) && a0[key] == self.nodes_after.entries()[i as int].1@);
            if self.nodes_after.value_at(i).is_empty() {
                let k = self.nodes_after.key_at(i);
                if *k == end {
                    end_is_leaf = true;
                } else {
                    let ghost old_nodes = end_nodes@;
                    assert forall|t: int| 0 <= t < old_nodes.len() implies #[trigger] old_nodes[t]@
                        != key by {
                        let j = choose|j: int|
                            0 <= j < i && #[trigger] self.nodes_after.entries()[j].0@
                                == #[trigger] old_nodes[t]@;
                        assert(self.nodes_after.entries()[j].0@ != self.nodes_after.entries()[i as int].0@);
                    }
                    end_nodes.push(k.clone());
                    assert(end_nodes@[old_nodes.len() as int]@ == key);
                    assert(end_nodes@.map_values(|s: String| s@) =~= old_nodes.map_values(
                        |s: String| s@,
                    ).push(key));
                    assert forall|t: int| 0 <= t < end_nodes@.len() implies exists|j: int|
                        0 <= j < i + 1 && #[trigger] self.nodes_after.entries()[j].0@
                            == #[trigger] end_nodes@[t]@ by {
                        if t < old_nodes.len() {
                            assert(end_nodes@[t] == old_nodes[t]);
                        } else {
                            assert(self.nodes_after.entries()[i as int].0@ == end_nodes@[t]@);
                        }
                    }
                }
            }
            assert(self.nodes_after.entries()[i as int].1@ == Set::<Seq<char>>::empty() && key
                != end_name() ==> end_nodes@.len() > 0 && end_nodes@[end_nodes@.len() - 1]@ == key);
            assert(end_nodes@.len() >= prev.len());
            assert(forall|t: int| 0 <= t < prev.len() ==> end_nodes@[t] == prev[t]);
            assert forall|j: int|
                0 <= j < i + 1 && #[trigger] self.nodes_after.entries()[j].0@ != end_name()
                    && self.nodes_after.entries()[j].1@ == Set::<Seq<char>>::empty() implies exists|
                t: int,
            |
                0 <= t < end_nodes@.len() && #[trigger] end_nodes@[t]@
                    == self.nodes_after.entries()[j].0@ by {
                if j == i {
                    assert(end_nodes@[end_nodes@.len() - 1]@ == key);
                } else {
                    let t = choose|t: int|
                        0 <= t < prev.len() && #[trigger] prev[t]@
                            == self.nodes_after.entries()[j].0@;
                    assert(end_nodes@[t] == prev[t]);
                }
            }
        }
        let ghost pre = end_nodes@;
        if end_is_leaf {
            let ghost old_nodes = end_nodes@;
            end_nodes.push(end_node());
            assert(end_nodes@.map_values(|s: String| s@) =~= old_nodes.map_values(|s: String| s@).push(
                end_name(),
            ));
        }
        let ghost ev = end_nodes@.map_values(|s: String| s@);
        assert(leaf_order_ok(a0, ev));
        assert forall|k: Seq<char>| #[trigger] leaves(a0).contains(k) implies ev.contains(k) by {
            assert(self.nodes_after@.contains_key(k));
            let j = choose|j: int|
                0 <= j < self.nodes_after.entries().len() && #[trigger] self.nodes_after.entries()[j].0@
                    == k;
            assert(self.nodes_after.entries()[j].1@ == Set::<Seq<char>>::empty());
            if k == end_name() {
                assert(ev[ev.len() - 1] == k);
            } else {
                assert(self.nodes_after.entries()[j].0@ != end_name());
                let t = choose|t: int|
                    0 <= t < pre.len() && #[trigger] pre[t]@ == self.nodes_after.entries()[j].0@;
                assert(ev[t] == pre[t]@);
                assert(ev[t] == k);
            }
        }
        assert(build_after_partial(a0, ev, 0) == a0);
        assert(build_before_partial(b0, ev, 0) =~= b0) by {
            assert(ev.take(0).to_set() =~= Set::<Seq<char>>::empty());
            assert(b0[end_name()].union(Set::<Seq<char>>::empty()) =~= b0[end_name()]);
        }
        // connect them, one by one
        let m = end_nodes.len();
        for j in 0..m
            invariant
                m == end_nodes@.len(),
                ev == end_nodes@.map_values(|s: String| s@),
                leaf_order_ok(a0, ev),
                b0.contains_key(end_name()),
                end@ == end_name(),
                self.wf(),
                self.after() == build_after_partial(a0, ev, j as int),
                self.before() == build_before_partial(b0, ev, j as int),
                self.agents() == old(self).agents(),
        {
            proof {
                lemma_build_step(a0, b0, ev, j as int);
            }
            self.add_entry(end_nodes[j].as_str(), end.as_str());
        }
        proof {
            lemma_build_done(a0, b0, ev);
        }
    }

    /// Closes the graph: every agent without successors is followed by the end node.
    pub fn build(&mut self)
        requires
            old(self).wf(),
        ensures
            final(self).wf(),
            final(self).after() == spec_build_after(old(self).after()),
            final(self).before() == spec_build_before(old(self).after(), old(self).before()),
            final(self).agents() == old(self).agents(),
            edges_consistent(old(self).after(), old(self).before()) && (!old(
                self,
            ).after().contains_key(end_name()) || old(self).after()[end_name()] == Set::<
                Seq<char>,
            >::empty()) ==> edges_consistent(final(self).after(), final(self).before()),
            forall|k: Seq<char>| #[trigger]
                leaves(final(self).after()).contains(k) ==> k == end_name(),
            runnable(old(self).after(), old(self).before()) && !old(self).after().contains_key(
                end_name(),
            ) ==> runnable(final(self).after(), final(self).before()),
    {
        proof {
            self.lemma_wf();
            if runnable(self.after(), self.before()) && !self.after().contains_key(end_name()) {
                lemma_build_runnable(self.after(), self.before());
            }
            lemma_build_leaves_only_end(self.after());
            if edges_consistent(self.after(), self.before()) && (!self.after().contains_key(
                end_name(),
            ) || self.after()[end_name()] == Set::<Seq<char>>::empty()) {
                lemma_build_keeps_edges_consistent(self.after(), self.before());
            }
        }
        self.add_end_entry();
    }

    /// Hands every agent to the actor that will run it: its arguments carry the agent's
    /// successors and predecessors. The start and the end control nodes follow. The graph is
    /// left as it was, without agents.
    pub fn start_plan(&mut self) -> (r: StartPlan<A>)
        requires
            old(self).wf(),
            old(self).after().contains_key(end_name()),
        ensures
            final(self).wf(),
            final(self).after() == old(self).after(),
            final(self).before() == old(self).before(),
            final(self).agents() == Map::<Seq<char>, A>::empty(),
            forall|i: int|
                0 <= i < r.agents@.len() ==> {
                    let a = #[trigger] r.agents@[i];
                    &&& old(self).agents().contains_key(a.agent_name@)
                    &&& a.agent == Some(old(self).agents()[a.agent_name@])
                    &&& a.after_name@ == old(self).after()[a.agent_name@]
                    &&& a.before_name@ == old(self).before()[a.agent_name@]
                    &&& a.after_name.wf()
                    &&& a.before_name.wf()
                },
            forall|i: int, j: int|
                0 <= i < r.agents@.len() && 0 <= j < r.agents@.len() && i != j
                    ==> #[trigger] r.agents@[i].agent_name@ != #[trigger] r.agents@[j].agent_name@,
            forall|k: Seq<char>| #[trigger]
                old(self).agents().contains_key(k) ==> exists|i: int|
                    0 <= i < r.agents@.len() && #[trigger] r.agents@[i].agent_name@ == k,
            r.start.agent_name@ == start_name(),
            r.start.after_name@ == old(self).after()[start_name()],
            r.start.before_name@ == Set::<Seq<char>>::empty(),
            r.start.agent is None,
            r.start.after_name.wf() && r.start.before_name.wf(),
            r.end.agent_name@ == end_name(),
            r.end.after_name@ == old(self).after()[end_name()],
            r.end.before_name@ == old(self).before()[end_name()],
            r.end.agent is None,
            r.end.after_name.wf() && r.end.before_name.wf(),
    {
        let mut agents: Vec<AgentArguments<A>> = Vec::new();
        let n = self.agent_map.len();
        for i in 0..n
            invariant
                self.wf(),
                self.after() == old(self).after(),
                self.before() == old(self).before(),
                self.agent_map.entries().len() == n - i,
                forall|k: Seq<char>| #[trigger]
                    old(self).agents().contains_key(k) <==> (self.agents().contains_key(k)
                        || exists|t: int|
                        0 <= t < agents@.len() && #[trigger] agents@[t].agent_name@ == k),
                forall|k: Seq<char>| #[trigger]
                    self.agents().contains_key(k) ==> old(self).agents().contains_key(k)
                        && self.agents()[k] == old(self).agents()[k],
                forall|t: int|
                    0 <= t < agents@.len() ==> !self.agents().contains_key(
                        #[trigger] agents@[t].agent_name@,
                    ),
                forall|t: int|
                    0 <= t < agents@.len() ==> {
                        let a = #[trigger] agents@[t];
                        &&& old(self).agents().contains_key(a.agent_name@)
                        &&& a.agent == Some(old(self).agents()[a.agent_name@])
                        &&& a.after_name@ == old(self).after()[a.agent_name@]
                        &&& a.before_name@ == old(self).before()[a.agent_name@]
                        &&& a.after_name.wf()
                        &&& a.before_name.wf()
                    },
                forall|t: int, u: int|
                    0 <= t < agents@.len() && 0 <= u < agents@.len() && t != u
                        ==> #[trigger] agents@[t].agent_name@ != #[trigger] agents@[u].agent_name@,
        {
            let popped = self.agent_map.pop();
            if let Some(kv) = popped {
            let (name, agent) = kv;
            assert(self.nodes_after@.contains_key(name@));
            assert(self.nodes_before@.contains_key(name@));
            let after_name = match self.nodes_after.get(name.as_str()) {
                Some(s) => s.copy(),
                None => NameSet::new(),
            };
            let before_name = match self.nodes_before.get(name.as_str()) {
                Some(s) => s.copy(),
                None => NameSet::new(),
            };
            let ghost prev = agents@;
            agents.push(
                AgentArguments { agent_name: name, before_name, after_name, agent: Some(agent) },
            );
            assert(forall|t: int| 0 <= t < prev.len() ==> agents@[t] == prev[t]);
            let ghost a = agents@[prev.len() as int];
            assert(old(self).agents().contains_key(a.agent_name@));
            assert(a.agent == Some(old(self).agents()[a.agent_name@]));
            assert(a.after_name@ == old(self).after()[a.agent_name@]);
            assert(a.before_name@ == old(self).before()[a.agent_name@]);
            assert(a.after_name.wf());
            assert(a.before_name.wf());
            assert forall|k: Seq<char>| #[trigger]
                old(self).agents().contains_key(k) implies (self.agents().contains_key(k)
                || exists|t: int| 0 <= t < agents@.len() && #[trigger] agents@[t].agent_name@ == k) by {
                if !self.agents().contains_key(k) && k != agents@[prev.len() as int].agent_name@ {
                    let t = choose|t: int| 0 <= t < prev.len() && #[trigger] prev[t].agent_name@ == k;
                    assert(agents@[t] == prev[t]);
                }
            }
            assert forall|k: Seq<char>|
                (self.agents().contains_key(k) || exists|t: int|
                    0 <= t < agents@.len() && #[trigger] agents@[t].agent_name@
                        == k) implies #[trigger] old(self).agents().contains_key(k) by {
                if !self.agents().contains_key(k) {
                    let t = choose|t: int| 0 <= t < agents@.len() && #[trigger] agents@[t].agent_name@ == k;
                    if t < prev.len() {
                        assert(agents@[t] == prev[t]);
                    }
                }
            }
            assert forall|t: int|
                0 <= t < agents@.len() implies !self.agents().contains_key(
                #[trigger] agents@[t].agent_name@,
            ) by {
                if t < prev.len() {
                    assert(agents@[t] == prev[t]);
                }
            }
            assert forall|t: int, u: int|
                0 <= t < agents@.len() && 0 <= u < agents@.len() && t != u
                    implies #[trigger] agents@[t].agent_name@ != #[trigger] agents@[u].agent_name@ by {
                if t < prev.len() && u < prev.len() {
                    assert(agents@[t] == prev[t] && agents@[u] == prev[u]);
                } else if t < prev.len() {
                    assert(agents@[t] == prev[t]);
                } else {
                    assert(agents@[u] == prev[u]);
                }
            }
            }
        }
        proof {
            self.agent_map.lemma_view();
            assert forall|k: Seq<char>| !#[trigger] self.agent_map@.contains_key(k) by {
                assert(!crate::string_map::has_key(self.agent_map.entries(), k));
            }
            assert(self.agents() =~= Map::<Seq<char>, A>::empty());
        }
        let start_after = match self.nodes_after.get("start") {
            Some(s) => s.copy(),
            None => NameSet::new(),
        };
        let end_after = match self.nodes_after.get("end") {
            Some(s) => s.copy(),
            None => NameSet::new(),
        };
        let end_before = match self.nodes_before.get("end") {
            Some(s) => s.copy(),
            None => NameSet::new(),
        };
        proof {
            reveal_strlit("start");
            reveal_strlit("end");
        }
        let start = AgentArguments {
            agent_name: start_node(),
            before_name: NameSet::new(),
            after_name: start_after,
            agent: None,
        };
        let end = AgentArguments {
            agent_name: end_node(),
            before_name: end_before,
            after_name: end_after,
            agent: None,
        };
        StartPlan { agents, start, end }
    }

    /// Whether `name` is a node of the graph.
    pub fn contains_node(&self, name: &str) -> (r: bool)
        requires
            self.wf(),
        ensures
            r == self.after().contains_key(name@),
    {
        self.nodes_after.contains_key(name)
    }

    /// The successors of `name`, if it is a node.
    pub fn successors(&self, name: &str) -> (r: Option<&NameSet>)
        requires
            self.wf(),
        ensures
            r matches Some(s) ==> self.after().contains_key(name@) && s@ == self.after()[name@]
                && s.wf(),
            r is None ==> !self.after().contains_key(name@),
    {
        self.nodes_after.get(name)
    }

    /// The nodes that `name` waits for, if it has such a set.
    pub fn predecessors(&self, name: &str) -> (r: Option<&NameSet>)
        requires
            self.wf(),
        ensures
            r matches Some(s) ==> self.before().contains_key(name@) && s@ == self.before()[name@]
                && s.wf(),
            r is None ==> !self.before().contains_key(name@),
    {
        self.nodes_before.get(name)
    }

    /// All nodes that have a successor set, in the order in which they are kept.
    pub fn node_names(&self) -> (r: Vec<String>)
        requires
            self.wf(),
        ensures
            forall|k: Seq<char>|
                self.after().contains_key(k) <==> exists|i: int|
                    0 <= i < r@.len() && #[trigger] r@[i]@ == k,
    {
        proof {
            self.nodes_after.lemma_view();
        }
        let mut r: Vec<String> = Vec::new();
        let n = self.nodes_after.len();
        for i in 0..n
            invariant
                n == self.nodes_after.entries().len(),
                r@.len() == i,
                forall|j: int| 0 <= j < i ==> #[trigger] r@[j]@ == self.nodes_after.entries()[j].0@,
        {
            r.push(self.nodes_after.key_at(i).clone());
        }
        assert forall|k: Seq<char>| self.after().contains_key(k) implies exists|i: int|
            0 <= i < r@.len() && #[trigger] r@[i]@ == k by {
            let i = choose|i: int|
                0 <= i < self.nodes_after.entries().len() && #[trigger] self.nodes_after.entries()[i].0@
                    == k;
            assert(r@[i]@ == k);
        }
        assert forall|k: Seq<char>|
            (exists|i: int| 0 <= i < r@.len() && #[trigger] r@[i]@ == k) implies self.after().contains_key(
            k,
        ) by {
            let i = choose|i: int| 0 <= i < r@.len() && #[trigger] r@[i]@ == k;
            assert(self.nodes_after.entries()[i].0@ == k);
        }
        r
    }

    /// All nodes that have a predecessor set, in the order in which they are kept.
    pub fn waiting_node_names(&self) -> (r: Vec<String>)
        requires
            self.wf(),
        ensures
            forall|k: Seq<char>|
                self.before().contains_key(k) <==> exists|i: int|
                    0 <= i < r@.len() && #[trigger] r@[i]@ == k,
    {
        proof {
            self.nodes_before.lemma_view();
        }
        let mut r: Vec<String> = Vec::new();
        let n = self.nodes_before.len();
        for i in 0..n
            invariant
                n == self.nodes_before.entries().len(),
                r@.len() == i,
                forall|j: int| 0 <= j < i ==> #[trigger] r@[j]@ == self.nodes_before.entries()[j].0@,
        {
            r.push(self.nodes_before.key_at(i).clone());
        }
        assert forall|k: Seq<char>| self.before().contains_key(k) implies exists|i: int|
            0 <= i < r@.len() && #[trigger] r@[i]@ == k by {
            let i = choose|i: int|
                0 <= i < self.nodes_before.entries().len() && #[trigger] self.nodes_before.entries()[i].0@
                    == k;
            assert(r@[i]@ == k);
        }
        assert forall|k: Seq<char>|
            (exists|i: int| 0 <= i < r@.len() && #[trigger] r@[i]@ == k) implies self.before().contains_key(
            k,
        ) by {
            let i = choose|i: int| 0 <= i < r@.len() && #[trigger] r@[i]@ == k;
            assert(self.nodes_before.entries()[i].0@ == k);
        }
        r
    }
}

/// Law: recording an edge from a node of the graph to a node that has no successors yet keeps
/// the successor sets and the predecessor sets in agreement.
pub proof fn lemma_add_entry_keeps_edges_consistent(
    after: Map<Seq<char>, Set<Seq<char>>>,
    before: Map<Seq<char>, Set<Seq<char>>>,
    parent: Seq<char>,
    child: Seq<char>,
)
    requires
        edges_consistent(after, before),
        after.contains_key(parent),
        !after.contains_key(child) || after[child] == Set::<Seq<char>>::empty(),
    ensures
        edges_consistent(
            spec_add_entry_after(after, parent, child),
            spec_add_entry_before(before, parent, child),
        ),
{
    let a2 = spec_add_entry_after(after, parent, child);
    let b2 = spec_add_entry_before(before, parent, child);
    assert forall|p: Seq<char>, c: Seq<char>| a2.contains_key(p) && #[trigger] a2[p].contains(c)
        implies b2.contains_key(c) && b2[c].contains(p) by {
        if p == child {
            assert(c == child && parent == child);
        } else if p == parent {
            if c != child {
                assert(after[p].contains(c));
            }
        } else {
            assert(after[p].contains(c));
        }
    }
    assert forall|p: Seq<char>, c: Seq<char>| b2.contains_key(c) && #[trigger] b2[c].contains(p)
        implies a2.contains_key(p) && a2[p].contains(c) by {
        if c == child && p == parent {
        } else {
            assert(before.contains_key(c) && before[c].contains(p));
            assert(after.contains_key(p) && after[p].contains(c));
            if p == child {
                assert(after[child].contains(c));
            }
        }
    }
}

/// Law: closing a graph whose edge sets agree, and whose end node has no successors,
/// keeps them in agreement.
pub proof fn lemma_build_keeps_edges_consistent(
    after: Map<Seq<char>, Set<Seq<char>>>,
    before: Map<Seq<char>, Set<Seq<char>>>,
)
    requires
        edges_consistent(after, before),
        before.contains_key(end_name()),
        !after.contains_key(end_name()) || after[end_name()] == Set::<Seq<char>>::empty(),
    ensures
        edges_consistent(spec_build_after(after), spec_build_before(after, before)),
{
    let a2 = spec_build_after(after);
    let b2 = spec_build_before(after, before);
    let l = leaves(after);
    assert forall|p: Seq<char>, c: Seq<char>| a2.contains_key(p) && #[trigger] a2[p].contains(c)
        implies b2.contains_key(c) && b2[c].contains(p) by {
        if l == Set::<Seq<char>>::empty() {
            assert(after[p].contains(c));
        } else if p == end_name() || l.contains(p) {
            assert(c == end_name());
            assert(l.contains(p));
        } else {
            assert(after[p].contains(c));
        }
    }
    assert forall|p: Seq<char>, c: Seq<char>| b2.contains_key(c) && #[trigger] b2[c].contains(p)
        implies a2.contains_key(p) && a2[p].contains(c) by {
        if c == end_name() && l.contains(p) {
            assert(l != Set::<Seq<char>>::empty());
            if p == end_name() {
                assert(a2[p] == Set::<Seq<char>>::empty().insert(end_name()));
            }
        } else {
            assert(before.contains_key(c) && before[c].contains(p));
            assert(after.contains_key(p) && after[p].contains(c));
            assert(!l.contains(p));
            if p == end_name() {
                assert(after[end_name()].contains(c));
            }
        }
    }
}

/// Law: once the graph is closed, every node other than the end node has a successor.
pub proof fn lemma_build_leaves_only_end(after: Map<Seq<char>, Set<Seq<char>>>)
    ensures
        forall|k: Seq<char>| #[trigger] leaves(spec_build_after(after)).contains(k) ==> k == end_name(),
{
    let a2 = spec_build_after(after);
    let l = leaves(after);
    assert forall|k: Seq<char>| #[trigger] leaves(a2).contains(k) implies k == end_name() by {
        if k != end_name() {
            if l == Set::<Seq<char>>::empty() {
                assert(!l.contains(k));
            } else if l.contains(k) {
                assert(a2[k].contains(end_name()));
            } else {
                assert(a2[k] == after[k]);
            }
        }
    }
}

} // verus!
