use leap_chain::chat_agent::{
    AgentAction, ConversationalAgent, ToolInfo, FORMAT_INSTRUCTIONS, TEMPLATE_TOOL_RESPONSE,
};
use leap_chain::prompt::{
    MessageOrTemplate, MessageType, PromptError, PromptTemplate, TemplateFormat,
};
use leap_chain::text::{join, replace_all};

fn tools() -> Vec<ToolInfo> {
    vec![
        ToolInfo {
            name: "Calculator".to_string(),
            description: "Usefull to make calculations".to_string(),
        },
        ToolInfo {
            name: "Date".to_string(),
            description: "Useful when you need to get the date,input is  a query".to_string(),
        },
    ]
}

#[test]
fn create_prompt_builds_four_parts() {
    let suffix = "TOOLS\n{{tools}}\n\n{{format_instructions}}\n\nINPUT: {{input}}";
    let f = ConversationalAgent::<(), ()>::create_prompt(&tools(), suffix, "You are helpful")
        .ok()
        .expect("prompt");
    assert_eq!(f.items.len(), 4);
    match &f.items[0] {
        MessageOrTemplate::Message(m) => {
            assert_eq!(m.content, "You are helpful");
            assert_eq!(m.message_type, MessageType::SystemMessage);
            assert!(m.id.is_none());
        }
        _ => panic!("first part is not a message"),
    }
    match &f.items[1] {
        MessageOrTemplate::MessagesPlaceholder(p) => assert_eq!(p, "chat_history"),
        _ => panic!("second part is not a placeholder"),
    }
    match &f.items[2] {
        MessageOrTemplate::Template(h) => {
            let instructions = FORMAT_INSTRUCTIONS.replace("{{tool_names}}", "Calculator, Date");
            let expected = format!(
                "TOOLS\n> Calculator: Usefull to make calculations\n> Date: Useful when you need to get the date,input is  a query\n\n{}\n\nINPUT: {{{{input}}}}",
                instructions
            );
            assert_eq!(h.prompt.template, expected);
            assert_eq!(h.prompt.variables, vec!["input".to_string()]);
            assert_eq!(h.prompt.format, TemplateFormat::Jinja2);
        }
        _ => panic!("third part is not a template"),
    }
    match &f.items[3] {
        MessageOrTemplate::MessagesPlaceholder(p) => assert_eq!(p, "agent_scratchpad"),
        _ => panic!("fourth part is not a placeholder"),
    }
}

#[test]
fn create_prompt_without_tools() {
    let f = ConversationalAgent::<(), ()>::create_prompt(&[], "[{{tools}}][{{tool_names}}]", "p")
        .ok()
        .expect("prompt");
    match &f.items[2] {
        MessageOrTemplate::Template(h) => assert_eq!(h.prompt.template, "[][]"),
        _ => panic!("third part is not a template"),
    }
}

#[test]
fn scratchpad_alternates_ai_and_tool_response() {
    let agent = ConversationalAgent::new((), Vec::<()>::new());
    let steps = vec![
        (
            AgentAction {
                tool: "Calculator".into(),
                tool_input: "10+15".into(),
                log: "I will add".into(),
            },
            "25".to_string(),
        ),
        (
            AgentAction { tool: "Date".into(), tool_input: "".into(), log: "today?".into() },
            "25  of november of 2025".to_string(),
        ),
    ];
    let v = agent.construct_scratchpad(&steps).ok().expect("scratchpad");
    assert_eq!(v.len(), 4);
    assert_eq!(v[0].content, "I will add");
    assert_eq!(v[0].message_type, MessageType::AIMessage);
    assert_eq!(v[1].content, TEMPLATE_TOOL_RESPONSE.replace("{{observation}}", "25"));
    assert_eq!(v[1].message_type, MessageType::HumanMessage);
    assert_eq!(v[2].content, "today?");
    assert_eq!(
        v[3].content,
        TEMPLATE_TOOL_RESPONSE.replace("{{observation}}", "25  of november of 2025")
    );
    let empty = agent.construct_scratchpad(&[]).ok().expect("scratchpad");
    assert!(empty.is_empty());
}

#[test]
fn template_reports_first_missing_variable() {
    let t = PromptTemplate::new(
        "{a} and {b}".to_string(),
        vec!["a".to_string(), "b".to_string(), "c".to_string()],
        TemplateFormat::FString,
    );
    let args = vec![("a".to_string(), "1".to_string())];
    match t.format(&args) {
        Err(PromptError::MissingVariable(v)) => assert_eq!(v, "b"),
        Ok(_) => panic!("expected a missing variable"),
    }
}

#[test]
fn template_fills_in_order() {
    let t = PromptTemplate::new("{a}-{b}-{a}".to_string(), vec!["a".to_string()], TemplateFormat::FString);
    let args = vec![
        ("a".to_string(), "{b}".to_string()),
        ("b".to_string(), "x".to_string()),
    ];
    match t.format(&args) {
        Ok(s) => assert_eq!(s, "x-x-x"),
        Err(_) => panic!("no variable is missing"),
    }
    let j = PromptTemplate::new("{{a}} {a}".to_string(), vec![], TemplateFormat::Jinja2);
    match j.format(&vec![("a".to_string(), "1".to_string())]) {
        Ok(s) => assert_eq!(s, "1 {a}"),
        Err(_) => panic!("no variable is missing"),
    }
}

#[test]
fn replace_matches_std() {
    for (s, p, r) in [
        ("aaaa", "aa", "b"),
        ("abcabc", "bc", "XY"),
        ("no match here", "zz", "q"),
        ("héllo wörld", "ö", "o"),
        ("", "a", "b"),
        ("a", "ab", "c"),
        ("abc", "", "x"),
        ("", "", "x"),
        ("héllo", "", "-"),
    ] {
        assert_eq!(replace_all(s, p, r), s.replace(p, r));
    }
}

#[test]
fn join_matches_std() {
    let v = vec!["a".to_string(), "b".to_string(), "c".to_string()];
    assert_eq!(join(&v, ", "), "a, b, c");
    assert_eq!(join(&Vec::new(), ", "), "");
    assert_eq!(join(&vec!["x".to_string()], "\n"), "x");
}

#[test]
fn scratchpad_of_joined_steps_is_joined_scratchpads() {
    let agent = ConversationalAgent::new((), Vec::<()>::new());
    let step = |log: &str, obs: &str| {
        (
            AgentAction { tool: "t".into(), tool_input: "i".into(), log: log.into() },
            obs.to_string(),
        )
    };
    let xs = vec![step("a", "1")];
    let ys = vec![step("b", "2"), step("c", "3")];
    let all: Vec<_> = xs.iter().chain(ys.iter()).map(|(a, o)| {
        (AgentAction { tool: a.tool.clone(), tool_input: a.tool_input.clone(), log: a.log.clone() }, o.clone())
    }).collect();
    let flat = |v: Vec<leap_chain::prompt::Message>| -> Vec<(MessageType, String)> {
        v.into_iter().map(|m| (m.message_type, m.content)).collect()
    };
    let joined = flat(agent.construct_scratchpad(&all).ok().unwrap());
    let mut parts = flat(agent.construct_scratchpad(&xs).ok().unwrap());
    parts.extend(flat(agent.construct_scratchpad(&ys).ok().unwrap()));
    assert_eq!(joined, parts);
}

#[test]
fn get_tools_clones_the_tools() {
    let agent = ConversationalAgent::new((), vec!["Calculator".to_string(), "Date".to_string()]);
    assert_eq!(agent.get_tools(), vec!["Calculator".to_string(), "Date".to_string()]);
}
