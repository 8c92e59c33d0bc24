use std::collections::{HashMap, HashSet};

use leap_chain::agent_system::AgentSystem;
use leap_chain::name_set::NameSet;

const START_NODE: &str = "start";
const END_NODE: &str = "end";

fn set_of(s: &NameSet) -> HashSet<String> {
    s.to_vec().into_iter().collect()
}

fn after_map<A>(sys: &AgentSystem<A>) -> HashMap<String, HashSet<String>> {
    let mut m = HashMap::new();
    for name in sys.node_names() {
        let succ = sys.successors(&name).expect("listed node has successors");
        m.insert(name, set_of(succ));
    }
    m
}

fn before_map<A>(sys: &AgentSystem<A>) -> HashMap<String, HashSet<String>> {
    let mut m = HashMap::new();
    for name in sys.waiting_node_names() {
        let pred = sys.predecessors(&name).expect("listed node has predecessors");
        m.insert(name, set_of(pred));
    }
    m
}

fn create_agent() -> &'static str {
    "agent"
}

#[test]
fn test_agent_system_dag1() {
    let mut agent_system = AgentSystem::new();
    agent_system.add_agent("A", create_agent());
    agent_system.add_child("A", "B", create_agent());
    agent_system.add_child("A", "C", create_agent());
    agent_system.add_child("B", "D", create_agent());
    agent_system.add_child("C", "D", create_agent());
    agent_system.build();

    let mut exp_nodes_after: HashMap<String, HashSet<String>> = HashMap::new();
    exp_nodes_after.insert("D".into(), HashSet::from([END_NODE.into()]));
    exp_nodes_after.insert("A".into(), HashSet::from(["B".into(), "C".into()]));
    exp_nodes_after.insert("C".into(), HashSet::from(["D".into()]));
    exp_nodes_after.insert(END_NODE.into(), HashSet::from([]));
    exp_nodes_after.insert("B".into(), HashSet::from(["D".into()]));
    exp_nodes_after.insert(START_NODE.into(), HashSet::from(["A".into()]));

    let mut exp_nodes_before: HashMap<String, HashSet<String>> = HashMap::new();
    exp_nodes_before.insert(END_NODE.into(), HashSet::from(["D".into()]));
    exp_nodes_before.insert("D".into(), HashSet::from(["B".into(), "C".into()]));
    exp_nodes_before.insert("C".into(), HashSet::from(["A".into()]));
    exp_nodes_before.insert("A".into(), HashSet::from([START_NODE.into()]));
    exp_nodes_before.insert("B".into(), HashSet::from(["A".into()]));

    assert_eq!(after_map(&agent_system), exp_nodes_after);
    assert_eq!(before_map(&agent_system), exp_nodes_before);
}

#[test]
fn new_system_has_only_start_and_end() {
    let sys: AgentSystem<u8> = AgentSystem::new();
    let mut exp_after = HashMap::new();
    exp_after.insert(START_NODE.to_string(), HashSet::new());
    let mut exp_before = HashMap::new();
    exp_before.insert(END_NODE.to_string(), HashSet::new());
    assert_eq!(after_map(&sys), exp_after);
    assert_eq!(before_map(&sys), exp_before);
    assert!(sys.contains_node(START_NODE));
    assert!(!sys.contains_node(END_NODE));
}

#[test]
fn build_of_empty_system_links_start_to_end() {
    let mut sys: AgentSystem<u8> = AgentSystem::new();
    sys.build();
    let after = after_map(&sys);
    assert_eq!(after[START_NODE], HashSet::from([END_NODE.to_string()]));
    assert_eq!(after[END_NODE], HashSet::new());
    assert_eq!(before_map(&sys)[END_NODE], HashSet::from([START_NODE.to_string()]));
}

#[test]
fn build_twice_gives_end_a_self_edge() {
    let mut sys: AgentSystem<u8> = AgentSystem::new();
    sys.add_agent("A", 1);
    sys.build();
    sys.build();
    let after = after_map(&sys);
    assert_eq!(after["A"], HashSet::from([END_NODE.to_string()]));
    assert_eq!(after[END_NODE], HashSet::from([END_NODE.to_string()]));
    assert_eq!(
        before_map(&sys)[END_NODE],
        HashSet::from(["A".to_string(), END_NODE.to_string()])
    );
}

#[test]
fn edges_agree_in_both_directions_after_build() {
    let mut sys: AgentSystem<u8> = AgentSystem::new();
    sys.add_agent("A", 1);
    sys.add_agent("X", 2);
    sys.add_child("A", "B", 3);
    sys.add_child("X", "B", 4);
    sys.add_child("B", "C", 5);
    sys.build();
    let after = after_map(&sys);
    let before = before_map(&sys);
    for (p, succs) in &after {
        for c in succs {
            assert!(before[c].contains(p), "{p} -> {c} missing from before");
        }
    }
    for (c, preds) in &before {
        for p in preds {
            assert!(after[p].contains(c), "{p} -> {c} missing from after");
        }
    }
    // every node other than the end node has a successor
    for (k, succs) in &after {
        if k != END_NODE {
            assert!(!succs.is_empty(), "{k} has no successor");
        }
    }
}

#[test]
fn re_adding_a_child_resets_its_successors() {
    let mut sys: AgentSystem<u8> = AgentSystem::new();
    sys.add_agent("A", 1);
    sys.add_child("A", "B", 2);
    sys.add_child("B", "C", 3);
    sys.add_child("A", "B", 4);
    let after = after_map(&sys);
    assert_eq!(after["B"], HashSet::new());
    assert_eq!(before_map(&sys)["C"], HashSet::from(["B".to_string()]));
}

#[test]
fn start_plan_hands_out_every_agent() {
    let mut sys: AgentSystem<u8> = AgentSystem::new();
    sys.add_agent("A", 1);
    sys.add_child("A", "B", 2);
    sys.add_child("A", "C", 3);
    sys.add_child("B", "D", 4);
    sys.add_child("C", "D", 5);
    sys.build();
    let plan = sys.start_plan();
    let mut seen = HashMap::new();
    for a in &plan.agents {
        seen.insert(
            a.agent_name.clone(),
            (a.agent.unwrap(), set_of(&a.before_name), set_of(&a.after_name)),
        );
    }
    assert_eq!(seen.len(), 4);
    assert_eq!(seen["A"], (1, HashSet::from(["start".to_string()]), HashSet::from(["B".to_string(), "C".to_string()])));
    assert_eq!(seen["D"], (5, HashSet::from(["B".to_string(), "C".to_string()]), HashSet::from(["end".to_string()])));
    assert_eq!(plan.start.agent_name, "start");
    assert_eq!(set_of(&plan.start.after_name), HashSet::from(["A".to_string()]));
    assert!(set_of(&plan.start.before_name).is_empty());
    assert!(plan.start.agent.is_none());
    assert_eq!(plan.end.agent_name, "end");
    assert_eq!(set_of(&plan.end.before_name), HashSet::from(["D".to_string()]));
    assert!(set_of(&plan.end.after_name).is_empty());
    // the graph stays, the agents are gone
    let again = sys.start_plan();
    assert!(again.agents.is_empty());
    assert!(sys.contains_node("D"));
}

#[test]
fn name_set_behaves_like_a_set() {
    let mut s = NameSet::new();
    assert!(s.is_empty());
    assert!(s.insert("a".to_string()));
    assert!(!s.insert("a".to_string()));
    assert!(s.insert("b".to_string()));
    assert_eq!(s.len(), 2);
    assert!(s.contains("b"));
    assert!(s.remove("a"));
    assert!(!s.remove("a"));
    assert_eq!(s.to_vec(), vec!["b".to_string()]);
}
