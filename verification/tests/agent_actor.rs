use std::collections::{HashMap, VecDeque};

use leap_chain::agent_system::AgentSystem;
use leap_chain::agent_actor::{ActorMessage, AgentAction, AgentActor, AgentState, ControlAgent};
use leap_chain::agent_system::AgentArguments;
use leap_chain::name_set::NameSet;

fn names(v: &[&str]) -> NameSet {
    let mut s = NameSet::new();
    for n in v {
        s.insert(n.to_string());
    }
    s
}

fn state(name: &str, before: &[&str], after: &[&str]) -> AgentState {
    AgentState::from_arguments::<()>(AgentArguments {
        agent_name: name.to_string(),
        before_name: names(before),
        after_name: names(after),
        agent: None,
    })
}

fn show(actions: &[AgentAction]) -> Vec<String> {
    actions
        .iter()
        .map(|a| match a {
            AgentAction::SendStartWork { to, from } => format!("send {to} <- {from}"),
            AgentAction::CastStartWork(n) => format!("cast {n}"),
            AgentAction::Stop(Some(r)) => format!("stop: {r}"),
            AgentAction::Stop(None) => "stop".to_string(),
        })
        .collect()
}

#[test]
fn agent_waits_for_all_predecessors() {
    let actor = AgentActor {};
    let mut st = state("D", &["B", "C"], &["end"]);
    let a = actor.handle("D", ActorMessage::StartWork("C".into()), &mut st);
    assert!(a.is_empty());
    assert_eq!(st.before_name.to_vec(), vec!["B".to_string()]);
    let a = actor.handle("D", ActorMessage::StartWork("B".into()), &mut st);
    assert_eq!(show(&a), vec!["send end <- D", "stop: pipeline completed"]);
    assert!(st.before_name.is_empty());
    assert!(st.backlog.is_empty());
}

#[test]
fn agent_ignores_unknown_sender_while_waiting() {
    let actor = AgentActor {};
    let mut st = state("A", &["start"], &["B", "C"]);
    let a = actor.handle("A", ActorMessage::StartWork("stranger".into()), &mut st);
    assert!(a.is_empty());
    assert_eq!(st.before_name.len(), 1);
    let a = actor.handle("A", ActorMessage::StartWork("start".into()), &mut st);
    assert_eq!(show(&a), vec!["send B <- A", "send C <- A", "stop: pipeline completed"]);
}

#[test]
fn agent_with_no_predecessors_starts_on_any_start_work() {
    let actor = AgentActor {};
    let mut st = state("agentA", &[], &[]);
    let a = actor.handle("agentA", ActorMessage::StartWork("test".into()), &mut st);
    assert_eq!(show(&a), vec!["stop: pipeline completed"]);
    let a = actor.handle("agentA", ActorMessage::EndWork("test".into()), &mut st);
    assert!(a.is_empty());
}

#[test]
fn agent_restart_sends_itself_start_work() {
    let actor = AgentActor {};
    let mut st = state("A", &["start"], &["B"]);
    let a = actor.handle("A", ActorMessage::RestartWork("x".into()), &mut st);
    assert_eq!(show(&a), vec!["cast A"]);
    assert_eq!(st.before_name.len(), 1);
}

#[test]
fn agent_drains_its_backlog_in_order() {
    let actor = AgentActor {};
    let mut st = state("D", &["B", "C"], &["E"]);
    st.backlog.push(ActorMessage::StartWork("B".into()));
    st.backlog.push(ActorMessage::RestartWork("D".into()));
    let a = actor.handle("D", ActorMessage::StartWork("C".into()), &mut st);
    assert_eq!(show(&a), vec!["send E <- D", "stop: pipeline completed", "cast D"]);
    assert!(st.backlog.is_empty());
}

#[test]
fn control_start_starts_its_successors() {
    let ctl = ControlAgent {};
    let mut st = state("start", &[], &["A", "X"]);
    let a = ctl.handle("start", ActorMessage::Idle("x".into()), &mut st);
    assert!(a.is_empty());
    let a = ctl.handle("start", ActorMessage::StartWork("start".into()), &mut st);
    assert_eq!(show(&a), vec!["send A <- start", "send X <- start", "stop"]);
}

#[test]
fn control_end_stops_after_last_predecessor() {
    let ctl = ControlAgent {};
    let mut st = state("end", &["B", "D"], &[]);
    let a = ctl.handle("end", ActorMessage::StartWork("D".into()), &mut st);
    assert!(a.is_empty());
    let a = ctl.handle("end", ActorMessage::Success("B".into()), &mut st);
    assert!(a.is_empty());
    let a = ctl.handle("end", ActorMessage::StartWork("B".into()), &mut st);
    assert_eq!(show(&a), vec!["stop: pipeline completed"]);
}

#[test]
fn from_arguments_starts_fresh() {
    let st = state("A", &["start"], &["B"]);
    assert_eq!(st.agent_name, "A");
    assert!(!st.completed);
    assert!(st.backlog.is_empty());
    assert_eq!(st.metrics.state_change_count, 0);
}

#[test]
fn handlers_leave_completed_and_metrics_alone() {
    let actor = AgentActor {};
    let mut st = state("A", &["start", "X"], &["B"]);
    for m in [
        ActorMessage::StartWork("start".into()),
        ActorMessage::RestartWork("A".into()),
        ActorMessage::EndWork("A".into()),
    ] {
        actor.handle("A", m, &mut st);
        assert!(!st.completed);
        assert_eq!(st.metrics.state_change_count, 0);
    }
    let ctl = ControlAgent {};
    let mut end = state("end", &["A"], &[]);
    ctl.handle("end", ActorMessage::StartWork("A".into()), &mut end);
    assert!(!end.completed);
    assert_eq!(end.metrics.state_change_count, 0);
}

#[test]
fn whole_run_of_a_built_graph_stops_every_node() {
    let mut sys: AgentSystem<u8> = AgentSystem::new();
    sys.add_agent("A", 1);
    sys.add_child("A", "B", 2);
    sys.add_child("A", "C", 3);
    sys.add_child("B", "D", 4);
    sys.add_child("C", "D", 5);
    sys.build();
    let plan = sys.start_plan();
    let mut states: HashMap<String, AgentState> = HashMap::new();
    for args in plan.agents {
        states.insert(args.agent_name.clone(), AgentState::from_arguments(args));
    }
    let start = AgentState::from_arguments(plan.start);
    let end = AgentState::from_arguments(plan.end);
    states.insert("start".into(), start);
    states.insert("end".into(), end);
    let mut mailbox: VecDeque<(String, ActorMessage)> = VecDeque::new();
    mailbox.push_back(("start".into(), ActorMessage::StartWork("start".into())));
    let mut stopped: Vec<String> = Vec::new();
    while let Some((to, msg)) = mailbox.pop_front() {
        if stopped.contains(&to) {
            continue;
        }
        let st = states.get_mut(&to).unwrap();
        let actions = if to == "start" || to == "end" {
            ControlAgent {}.handle(&to, msg, st)
        } else {
            AgentActor {}.handle(&to, msg, st)
        };
        for a in actions {
            match a {
                AgentAction::SendStartWork { to: next, from } => {
                    mailbox.push_back((next, ActorMessage::StartWork(from)))
                }
                AgentAction::CastStartWork(n) => {
                    mailbox.push_back((to.clone(), ActorMessage::StartWork(n)))
                }
                AgentAction::Stop(_) => stopped.push(to.clone()),
            }
        }
    }
    stopped.sort();
    assert_eq!(stopped, vec!["A", "B", "C", "D", "end", "start"]);
}
