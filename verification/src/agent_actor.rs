//! How an agent actor and the two control actors react to their messages. Each handler takes
//! the actor's state and a message, updates the state, and lists what the runtime has to do.
use vstd::prelude::*;

use crate::agent_system::{end_name, start_name, AgentArguments};
use crate::name_set::NameSet;

verus! {

/// The messages exchanged between agent actors.
pub enum ActorMessage {
    /// The named predecessor has finished; start when all have.
    StartWork(String),
    EndWork(String),
    RestartWork(String),
    GetStatus(String),
    CurrentStatus(String),
    /// The actor has not started.
    Idle(String),
    /// The actor is running.
    Running(String),
    /// The actor completed successfully.
    Success(String),
    /// The actor failed with an error.
    Failed(String),
    /// A request for the actor's metrics (the reply port stays with the runtime).
    SendMetrics,
    /// A question whether the actor has completed (the asking actor stays with the runtime).
    IsComplete,
    Completed(String),
    NotCompleted(String),
}

/// What a handler asks the runtime to do.
pub enum AgentAction {
    /// Look up the actor named `to` and, where it exists, send it `StartWork(from)`.
    SendStartWork { to: String, from: String },
    /// Send `StartWork` with the given name to the actor itself.
    CastStartWork(String),
    /// Stop the actor, with an optional reason.
    Stop(Option<String>),
}

/// An [AgentAction] as plain values.
pub enum ActionView {
    SendStartWork(Seq<char>, Seq<char>),
    CastStartWork(Seq<char>),
    Stop(Option<Seq<char>>),
}

impl View for AgentAction {
    type V = ActionView;

    open spec fn view(&self) -> ActionView {
        match self {
            AgentAction::SendStartWork { to, from } => ActionView::SendStartWork(to@, from@),
            AgentAction::CastStartWork(n) => ActionView::CastStartWork(n@),
            AgentAction::Stop(reason) => ActionView::Stop(
                match reason {
                    Some(r) => Some(r@),
                    None => None,
                },
            ),
        }
    }
}

/// The actions of a sequence of [AgentAction] values.
pub open spec fn actions_view(a: Seq<AgentAction>) -> Seq<ActionView> {
    a.map_values(|x: AgentAction| x@)
}

/// Metrics of an actor.
pub struct AgentMetrics {
    /// The number of state changes that have occurred.
    pub state_change_count: u16,
}

/// The state of an agent actor (and of a control actor).
pub struct AgentState {
    pub agent_name: String,
    pub completed: bool,
    pub backlog: Vec<ActorMessage>,
    pub before_name: NameSet,
    pub after_name: NameSet,
    pub metrics: AgentMetrics,
}

impl AgentState {
    /// The state an actor starts with: nothing pending, not completed, no state changes yet.
    pub fn from_arguments<A>(args: AgentArguments<A>) -> (r: AgentState)
        ensures
            r.agent_name == args.agent_name,
            r.before_name == args.before_name,
            r.after_name == args.after_name,
            !r.completed,
            r.backlog@.len() == 0,
            r.metrics.state_change_count == 0,
    {
        AgentState {
            agent_name: args.agent_name,
            completed: false,
            backlog: Vec::new(),
            before_name: args.before_name,
            after_name: args.after_name,
            metrics: AgentMetrics { state_change_count: 0 },
        }
    }
}

/// The reason an actor gives when it stops at the end of its part of the pipeline.
pub open spec fn completed_reason() -> Seq<char> {
    "pipeline completed"@
}

/// `StartWork(name)` for every successor, in order.
pub open spec fn start_next_actions(after: Seq<Seq<char>>, name: Seq<char>) -> Seq<ActionView> {
    after.map_values(|to: Seq<char>| ActionView::SendStartWork(to, name))
}

/// An agent actor's reaction to one message: the predecessors it still waits for, and the
/// actions. On `StartWork(from)` it stops waiting for `from`; once it waits for nobody it
/// starts its successors and stops. On `RestartWork` it sends itself `StartWork` with its
/// own name. Other messages change nothing.
pub open spec fn spec_internal_step(
    before: Set<Seq<char>>,
    after: Seq<Seq<char>>,
    name: Seq<char>,
    m: ActorMessage,
) -> (Set<Seq<char>>, Seq<ActionView>) {
    match m {
        ActorMessage::StartWork(from) => {
            let b = before.remove(from@);
            if b == Set::<Seq<char>>::empty() {
                (
                    b,
                    start_next_actions(after, name).push(
                        ActionView::Stop(Some(completed_reason())),
                    ),
                )
            } else {
                (b, Seq::empty())
            }
        },
        ActorMessage::RestartWork(_) => (before, seq![ActionView::CastStartWork(name)]),
        _ => (before, Seq::empty()),
    }
}

/// The reaction to the messages `msgs`, handled in order.
pub open spec fn spec_process(
    before: Set<Seq<char>>,
    after: Seq<Seq<char>>,
    name: Seq<char>,
    msgs: Seq<ActorMessage>,
) -> (Set<Seq<char>>, Seq<ActionView>)
    decreases msgs.len(),
{
    if msgs.len() == 0 {
        (before, Seq::empty())
    } else {
        let (b1, a1) = spec_internal_step(before, after, name, msgs[0]);
        let (b2, a2) = spec_process(b1, after, name, msgs.drop_first());
        (b2, a1 + a2)
    }
}

/// A control actor's reaction to one message. The start node, on `StartWork`, starts its
/// successors and stops. The end node, on `StartWork(from)`, stops waiting for `from` and
/// stops once it waits for nobody. Other messages change nothing.
pub open spec fn spec_control_step(
    node: Seq<char>,
    before: Set<Seq<char>>,
    after: Seq<Seq<char>>,
    name: Seq<char>,
    m: ActorMessage,
) -> (Set<Seq<char>>, Seq<ActionView>) {
    if node == start_name() {
        match m {
            ActorMessage::StartWork(_) => (
                before,
                start_next_actions(after, name).push(ActionView::Stop(None)),
            ),
            _ => (before, Seq::empty()),
        }
    } else {
        match m {
            ActorMessage::StartWork(from) => {
                let b = before.remove(from@);
                if b == Set::<Seq<char>>::empty() {
                    (b, seq![ActionView::Stop(Some(completed_reason()))])
                } else {
                    (b, Seq::empty())
                }
            },
            _ => (before, Seq::empty()),
        }
    }
}

/// Appends `StartWork(name)` for every successor in `after`.
fn start_next_actors(name: &str, after: &NameSet, actions: &mut Vec<AgentAction>)
    ensures
        actions_view(final(actions)@) == actions_view(old(actions)@) + start_next_actions(
            after.seq_view(),
            name@,
        ),
{
    let ghost a0 = actions_view(actions@);
    let n = after.len();
    for i in 0..n
        invariant
            n == after.seq_view().len(),
            actions_view(actions@) == a0 + start_next_actions(after.seq_view().take(i as int), name@),
    {
        let to = after.item(i).clone();
        let ghost prev = actions@;
        actions.push(AgentAction::SendStartWork { to, from: String::from_str(name) });
        proof {
            assert(after.seq_view().take(i + 1) =~= after.seq_view().take(i as int).push(
                after.seq_view()[i as int],
            ));
            assert(actions_view(actions@) =~= actions_view(prev).push(
                ActionView::SendStartWork(after.seq_view()[i as int], name@),
            ));
            assert(start_next_actions(after.seq_view().take(i + 1), name@) =~= start_next_actions(
                after.seq_view().take(i as int),
                name@,
            ).push(ActionView::SendStartWork(after.seq_view()[i as int], name@)));
            assert(actions_view(actions@) =~= a0 + start_next_actions(
                after.seq_view().take(i + 1),
                name@,
            ));
        }
    }
    proof {
        assert(after.seq_view().take(n as int) =~= after.seq_view());
    }
}

fn push_action(actions: &mut Vec<AgentAction>, a: AgentAction)
    ensures
        actions_view(final(actions)@) == actions_view(old(actions)@).push(a@),
{
    actions.push(a);
    assert(actions_view(actions@) =~= actions_view(old(actions)@).push(a@));
}

/// The actor that runs one agent of the graph.
pub struct AgentActor {}

impl AgentActor {
    /// Handles one message, appending the resulting actions. Every message is handled, so
    /// nothing is ever handed back.
    pub fn handle_internal(
        &self,
        name: &str,
        message: ActorMessage,
        state: &mut AgentState,
        actions: &mut Vec<AgentAction>,
    ) -> (r: Option<ActorMessage>)
        requires
            old(state).before_name.wf(),
        ensures
            r is None,
            final(state).before_name.wf(),
            (final(state).before_name@, actions_view(final(actions)@)) == ({
                let (b, a) = spec_internal_step(
                    old(state).before_name@,
                    old(state).after_name.seq_view(),
                    name@,
                    message,
                );
                (b, actions_view(old(actions)@) + a)
            }),
            final(state).after_name == old(state).after_name,
            final(state).agent_name == old(state).agent_name,
            final(state).backlog == old(state).backlog,
            final(state).completed == old(state).completed,
            final(state).metrics == old(state).metrics,
    {
        let ghost a0 = actions_view(actions@);
        match &message {
            ActorMessage::StartWork(from) => {
                // a predecessor that was already removed is ignored
                let _ = state.before_name.remove(from.as_str());
                if state.before_name.is_empty() {
                    start_next_actors(name, &state.after_name, actions);
                    push_action(
                        actions,
                        AgentAction::Stop(Some(String::from_str("pipeline completed"))),
                    );
                } else {
                    assert(actions_view(actions@) =~= a0 + Seq::<ActionView>::empty());
                }
            },
            ActorMessage::RestartWork(_) => {
                push_action(actions, AgentAction::CastStartWork(String::from_str(name)));
                assert(a0.push(ActionView::CastStartWork(name@)) =~= a0 + seq![
                    ActionView::CastStartWork(name@),
                ]);
            },
            _ => {
                assert(actions_view(actions@) =~= a0 + Seq::<ActionView>::empty());
            },
        }
        None
    }

    /// Handles a message, then the messages waiting in the backlog, in order, for as long as
    /// each is handled.
    pub fn handle(&self, name: &str, message: ActorMessage, state: &mut AgentState) -> (r: Vec<
        AgentAction,
    >)
        requires
            old(state).before_name.wf(),
        ensures
            final(state).before_name.wf(),
            (final(state).before_name@, actions_view(r@)) == spec_process(
                old(state).before_name@,
                old(state).after_name.seq_view(),
                name@,
                seq![message] + old(state).backlog@,
            ),
            final(state).backlog@.len() == 0,
            final(state).after_name == old(state).after_name,
            final(state).agent_name == old(state).agent_name,
            final(state).completed == old(state).completed,
            final(state).metrics == old(state).metrics,
    {
        let ghost after = state.after_name.seq_view();
        let ghost total = spec_process(
            state.before_name@,
            after,
            name@,
            seq![message] + state.backlog@,
        );
        let ghost all = seq![message] + state.backlog@;
        let mut actions: Vec<AgentAction> = Vec::new();
        proof {
            assert(all.drop_first() =~= state.backlog@);
        }
        let mut maybe_unhandled = self.handle_internal(name, message, state, &mut actions);
        proof {
            assert(actions_view(actions@) =~= Seq::<ActionView>::empty() + spec_internal_step(
                old(state).before_name@,
                after,
                name@,
                all[0],
            ).1);
        }
        match maybe_unhandled {
            Some(m) => {
                state.backlog.push(m);
            },
            None => {
                while state.backlog.len() > 0 && maybe_unhandled.is_none()
                    invariant
                        maybe_unhandled is None,
                        state.before_name.wf(),
                        state.after_name.seq_view() == after,
                        state.after_name == old(state).after_name,
                        state.agent_name == old(state).agent_name,
                        state.completed == old(state).completed,
                        state.metrics == old(state).metrics,
                        total.0 == spec_process(state.before_name@, after, name@, state.backlog@).0,
                        total.1 == actions_view(actions@) + spec_process(
                            state.before_name@,
                            after,
                            name@,
                            state.backlog@,
                        ).1,
                    decreases state.backlog@.len(),
                {
                    let ghost b = state.before_name@;
                    let ghost rest = state.backlog@;
                    let ghost acts = actions_view(actions@);
                    let head = state.backlog.remove(0);
                    proof {
                        assert(rest.drop_first() =~= state.backlog@);
                    }
                    maybe_unhandled = self.handle_internal(name, head, state, &mut actions);
                    proof {
                        let (b1, a1) = spec_internal_step(b, after, name@, rest[0]);
                        let (b2, a2) = spec_process(b1, after, name@, rest.drop_first());
                        assert(acts + (a1 + a2) =~= (acts + a1) + a2);
                    }
                }
                match maybe_unhandled {
                    Some(m) => {
                        state.backlog.insert(0, m);
                    },
                    None => {},
                }
                proof {
                    assert(spec_process(state.before_name@, after, name@, state.backlog@).1
                        =~= Seq::<ActionView>::empty());
                    assert(actions_view(actions@) + Seq::<ActionView>::empty() =~= actions_view(
                        actions@,
                    ));
                }
            },
        }
        actions
    }
}

/// The actor that plays the start node or the end node.
pub struct ControlAgent {}

impl ControlAgent {
    /// Handles one message for the start or the end node.
    pub fn handle(&self, name: &str, message: ActorMessage, state: &mut AgentState) -> (r: Vec<
        AgentAction,
    >)
        requires
            old(state).before_name.wf(),
            old(state).agent_name@ == start_name() || old(state).agent_name@ == end_name(),
        ensures
            final(state).before_name.wf(),
            (final(state).before_name@, actions_view(r@)) == spec_control_step(
                old(state).agent_name@,
                old(state).before_name@,
                old(state).after_name.seq_view(),
                name@,
                message,
            ),
            final(state).after_name == old(state).after_name,
            final(state).agent_name == old(state).agent_name,
            final(state).backlog == old(state).backlog,
            final(state).completed == old(state).completed,
            final(state).metrics == old(state).metrics,
    {
        let mut actions: Vec<AgentAction> = Vec::new();
        let start = String::from_str("start");
        proof {
            reveal_strlit("start");
            assert(actions_view(actions@) =~= Seq::<ActionView>::empty());
        }
        if state.agent_name == start {
            match &message {
                ActorMessage::StartWork(_) => {
                    start_next_actors(name, &state.after_name, &mut actions);
                    push_action(&mut actions, AgentAction::Stop(None));
                    assert(Seq::<ActionView>::empty() + start_next_actions(
                        state.after_name.seq_view(),
                        name@,
                    ) =~= start_next_actions(state.after_name.seq_view(), name@));
                },
                _ => {},
            }
        } else {
            match &message {
                ActorMessage::StartWork(from) => {
                    let _ = state.before_name.remove(from.as_str());
                    if state.before_name.is_empty() {
                        push_action(
                            &mut actions,
                            AgentAction::Stop(Some(String::from_str("pipeline completed"))),
                        );
                        assert(actions_view(actions@) =~= seq![
                            ActionView::Stop(Some(completed_reason())),
                        ]);
                    }
                },
                _ => {},
            }
        }
        actions
    }
}

/// The senders of a sequence of `StartWork` messages.
pub open spec fn senders(msgs: Seq<ActorMessage>) -> Seq<Seq<char>> {
    msgs.map_values(
        |m: ActorMessage|
            match m {
                ActorMessage::StartWork(from) => from@,
                _ => Seq::empty(),
            },
    )
}

/// Every message is a `StartWork`.
pub open spec fn all_start_work(msgs: Seq<ActorMessage>) -> bool {
    forall|i: int| 0 <= i < msgs.len() ==> #[trigger] msgs[i] is StartWork
}

/// Law: an agent that receives `StartWork` once from each of its predecessors, in any order,
/// does nothing until the last one arrives; then it starts all its successors and stops.
pub proof fn lemma_starts_after_all_predecessors(
    before: Set<Seq<char>>,
    after: Seq<Seq<char>>,
    name: Seq<char>,
    msgs: Seq<ActorMessage>,
)
    requires
        msgs.len() > 0,
        all_start_work(msgs),
        senders(msgs).no_duplicates(),
        senders(msgs).to_set() == before,
    ensures
        spec_process(before, after, name, msgs) == (
            Set::<Seq<char>>::empty(),
            start_next_actions(after, name).push(ActionView::Stop(Some(completed_reason()))),
        ),
        forall|k: int|
            0 <= k < msgs.len() ==> #[trigger] spec_process(before, after, name, msgs.take(k)).1
                == Seq::<ActionView>::empty(),
    decreases msgs.len(),
{
    let s = senders(msgs);
    let f = s[0];
    assert(msgs[0] is StartWork);
    let from0 = msgs[0]->StartWork_0;
    assert(f == from0@);
    let b1 = before.remove(f);
    let rest = msgs.drop_first();
    assert(senders(rest) =~= s.drop_first());
    assert(all_start_work(rest)) by {
        assert forall|i: int| 0 <= i < rest.len() implies #[trigger] rest[i] is StartWork by {
            assert(msgs[i + 1] is StartWork);
        }
    }
    assert(senders(rest).to_set() =~= b1) by {
        assert forall|x: Seq<char>| #[trigger] senders(rest).to_set().contains(x) <==> b1.contains(x) by {
            if senders(rest).contains(x) {
                let i = choose|i: int| 0 <= i < senders(rest).len() && senders(rest)[i] == x;
                assert(s[i + 1] == x);
                assert(s.contains(x));
            }
            if b1.contains(x) {
                assert(s.to_set().contains(x));
                let i = choose|i: int| 0 <= i < s.len() && s[i] == x;
                assert(i != 0);
                assert(senders(rest)[i - 1] == x);
            }
        }
    }
    let done = start_next_actions(after, name).push(ActionView::Stop(Some(completed_reason())));
    if msgs.len() == 1 {
        assert(b1 =~= Set::<Seq<char>>::empty()) by {
            assert forall|x: Seq<char>| !b1.contains(x) by {
                if before.contains(x) {
                    assert(s.to_set().contains(x));
                    let i = choose|i: int| 0 <= i < s.len() && s[i] == x;
                    assert(i == 0);
                }
            }
        }
        assert(spec_internal_step(before, after, name, msgs[0]) == (b1, done));
        assert(rest.len() == 0);
        assert(spec_process(b1, after, name, rest) == (b1, Seq::<ActionView>::empty()));
        assert(done + Seq::<ActionView>::empty() =~= done);
        assert forall|k: int| 0 <= k < msgs.len() implies #[trigger] spec_process(
            before,
            after,
            name,
            msgs.take(k),
        ).1 == Seq::<ActionView>::empty() by {
            assert(k == 0);
            assert(msgs.take(0).len() == 0);
        }
    } else {
        assert(s[1] != f);
        assert(b1.contains(s[1])) by {
            assert(s.to_set().contains(s[1]));
        }
        assert(b1 != Set::<Seq<char>>::empty());
        assert(spec_internal_step(before, after, name, msgs[0]) == (
            b1,
            Seq::<ActionView>::empty(),
        ));
        lemma_starts_after_all_predecessors(b1, after, name, rest);
        assert(Seq::<ActionView>::empty() + done =~= done);
        assert forall|k: int| 0 <= k < msgs.len() implies #[trigger] spec_process(
            before,
            after,
            name,
            msgs.take(k),
        ).1 == Seq::<ActionView>::empty() by {
            if k == 0 {
                assert(msgs.take(0).len() == 0);
            } else {
                let t = msgs.take(k);
                assert(t[0] == msgs[0]);
                assert(t.drop_first() =~= rest.take(k - 1));
                assert(spec_process(b1, after, name, rest.take(k - 1)).1
                    == Seq::<ActionView>::empty());
                assert(Seq::<ActionView>::empty() + Seq::<ActionView>::empty() =~= Seq::<
                    ActionView,
                >::empty());
            }
        }
    }
}

/// Law: the start node on `StartWork`, and an agent on the `StartWork` that ends its wait,
/// send `StartWork` with their own name to the same successors in the same order; they differ
/// only in the reason they stop with.
pub proof fn lemma_start_steps_agree(
    before: Set<Seq<char>>,
    after: Seq<Seq<char>>,
    name: Seq<char>,
    m: ActorMessage,
)
    requires
        m is StartWork,
        before.remove(m->StartWork_0@) == Set::<Seq<char>>::empty(),
    ensures
        spec_control_step(start_name(), before, after, name, m).1 == start_next_actions(
            after,
            name,
        ).push(ActionView::Stop(None)),
        spec_internal_step(before, after, name, m).1 == start_next_actions(after, name).push(
            ActionView::Stop(Some(completed_reason())),
        ),
{
}

/// Law: the start node, on `StartWork`, keeps its (empty) wait and sends `StartWork` with its
/// name to every successor exactly once, in order, then stops without a reason; the number of
/// such sends is the number of its successors.
pub proof fn lemma_start_node_starts_every_successor(
    before: Set<Seq<char>>,
    after: Seq<Seq<char>>,
    name: Seq<char>,
    m: ActorMessage,
)
    requires
        m is StartWork,
    ensures
        ({
            let (b, acts) = spec_control_step(start_name(), before, after, name, m);
            &&& b == before
            &&& acts.len() == after.len() + 1
            &&& forall|i: int|
                0 <= i < after.len() ==> #[trigger] acts[i] == ActionView::SendStartWork(
                    after[i],
                    name,
                )
            &&& acts[after.len() as int] == ActionView::Stop(None)
            &&& forall|x: Seq<char>|
                after.contains(x) ==> exists|i: int|
                    0 <= i < after.len() && #[trigger] acts[i] == ActionView::SendStartWork(x, name)
            &&& after.no_duplicates() ==> acts.len() - 1 == after.to_set().len()
        }),
{
    let acts = spec_control_step(start_name(), before, after, name, m).1;
    assert forall|x: Seq<char>| after.contains(x) implies exists|i: int|
        0 <= i < after.len() && #[trigger] acts[i] == ActionView::SendStartWork(x, name) by {
        let i = choose|i: int| 0 <= i < after.len() && after[i] == x;
        assert(acts[i] == ActionView::SendStartWork(x, name));
    }
    if after.no_duplicates() {
        after.unique_seq_to_set();
    }
}

/// Law: an agent whose last awaited predecessor reports sends `StartWork` with its name to
/// every successor exactly once, in order, then stops with the completion reason; the number
/// of such sends is the number of its successors.
pub proof fn lemma_agent_starts_every_successor(
    before: Set<Seq<char>>,
    after: Seq<Seq<char>>,
    name: Seq<char>,
    m: ActorMessage,
)
    requires
        m is StartWork,
        before.remove(m->StartWork_0@) == Set::<Seq<char>>::empty(),
    ensures
        ({
            let (b, acts) = spec_internal_step(before, after, name, m);
            &&& b == Set::<Seq<char>>::empty()
            &&& acts.len() == after.len() + 1
            &&& forall|i: int|
                0 <= i < after.len() ==> #[trigger] acts[i] == ActionView::SendStartWork(
                    after[i],
                    name,
                )
            &&& acts[after.len() as int] == ActionView::Stop(Some("pipeline completed"@))
            &&& forall|x: Seq<char>|
                after.contains(x) ==> exists|i: int|
                    0 <= i < after.len() && #[trigger] acts[i] == ActionView::SendStartWork(x, name)
            &&& after.no_duplicates() ==> acts.len() - 1 == after.to_set().len()
        }),
{
    let acts = spec_internal_step(before, after, name, m).1;
    assert forall|x: Seq<char>| after.contains(x) implies exists|i: int|
        0 <= i < after.len() && #[trigger] acts[i] == ActionView::SendStartWork(x, name) by {
        let i = choose|i: int| 0 <= i < after.len() && after[i] == x;
        assert(acts[i] == ActionView::SendStartWork(x, name));
    }
    if after.no_duplicates() {
        after.unique_seq_to_set();
    }
}

/// Law: an agent that still waits for someone after a `StartWork` only drops the sender from
/// its wait and does nothing else.
pub proof fn lemma_agent_still_waiting(
    before: Set<Seq<char>>,
    after: Seq<Seq<char>>,
    name: Seq<char>,
    m: ActorMessage,
)
    requires
        m is StartWork,
        before.remove(m->StartWork_0@) != Set::<Seq<char>>::empty(),
    ensures
        spec_internal_step(before, after, name, m) == (
            before.remove(m->StartWork_0@),
            Seq::<ActionView>::empty(),
        ),
{
}

/// Law: an agent leaves the predecessors it waits for as they are, and does nothing, on every
/// message but `StartWork` and `RestartWork`; on `RestartWork` it only sends itself
/// `StartWork` with its name.
pub proof fn lemma_agent_ignores_other_messages(
    before: Set<Seq<char>>,
    after: Seq<Seq<char>>,
    name: Seq<char>,
    m: ActorMessage,
)
    ensures
        !(m is StartWork) && !(m is RestartWork) ==> spec_internal_step(before, after, name, m) == (
            before,
            Seq::<ActionView>::empty(),
        ),
        m is RestartWork ==> spec_internal_step(before, after, name, m) == (
            before,
            seq![ActionView::CastStartWork(name)],
        ),
{
}

/// Law: the end node, on `StartWork` from a predecessor, drops it from its wait; it stops,
/// with the completion reason and sending nothing, exactly when no predecessor is left to wait
/// for, and otherwise does nothing.
pub proof fn lemma_end_node_waits_for_all(
    before: Set<Seq<char>>,
    after: Seq<Seq<char>>,
    name: Seq<char>,
    m: ActorMessage,
)
    requires
        m is StartWork,
    ensures
        ({
            let (b, acts) = spec_control_step(end_name(), before, after, name, m);
            &&& b == before.remove(m->StartWork_0@)
            &&& b == Set::<Seq<char>>::empty() ==> acts == seq![
                ActionView::Stop(Some("pipeline completed"@)),
            ]
            &&& b != Set::<Seq<char>>::empty() ==> acts == Seq::<ActionView>::empty()
        }),
{
    reveal_strlit("start");
    reveal_strlit("end");
    assert(end_name().len() != start_name().len());
}

/// Law: the start and the end node leave the predecessors they wait for as they are, and do
/// nothing, on every message but `StartWork`.
pub proof fn lemma_control_ignores_other_messages(
    node: Seq<char>,
    before: Set<Seq<char>>,
    after: Seq<Seq<char>>,
    name: Seq<char>,
    m: ActorMessage,
)
    requires
        !(m is StartWork),
    ensures
        spec_control_step(node, before, after, name, m) == (before, Seq::<ActionView>::empty()),
{
}

} // verus!
