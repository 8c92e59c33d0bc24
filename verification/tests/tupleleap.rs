use leap_chain::text::decimal_i64;
use leap_chain::tupleleap::stream_metadata;
use leap_chain::prompt::{Message, MessageType};
use leap_chain::tupleleap::{
    generate_result, stream_content, stream_data, ChatMessage, LLMError, MessageRole, Tupleleap,
};

#[test]
fn roles_follow_message_types() {
    assert_eq!(MessageRole::from_message_type(MessageType::AIMessage), MessageRole::Assistant);
    assert_eq!(MessageRole::from_message_type(MessageType::ToolMessage), MessageRole::Assistant);
    assert_eq!(MessageRole::from_message_type(MessageType::SystemMessage), MessageRole::System);
    assert_eq!(MessageRole::from_message_type(MessageType::HumanMessage), MessageRole::User);
}

#[test]
fn request_carries_model_and_messages() {
    let llm = Tupleleap::new(7u8, "mistral".into());
    let llm = llm.with_model("llama3".into());
    assert_eq!(llm.client, 7);
    assert_eq!(llm.model, "llama3");
    let mut m = Message::new_human_message("Hey bro whatsup");
    m.id = Some("luis".into());
    let msgs = vec![Message::new_system_message("be brief"), m];
    let req = llm.generate_request(&msgs);
    assert_eq!(req.model, "llama3");
    assert_eq!(req.messages.len(), 2);
    assert_eq!(req.messages[0].content, "be brief");
    assert_eq!(req.messages[0].role, MessageRole::System);
    assert!(req.messages[0].name.is_none());
    assert_eq!(req.messages[1].role, MessageRole::User);
    assert_eq!(req.messages[1].name.as_deref(), Some("luis"));
    let cm = ChatMessage::from_message(&Message::new_ai_message("hi"));
    assert_eq!(cm.role, MessageRole::Assistant);
}

#[test]
fn generate_result_cases() {
    match generate_result(&vec![], 1, 2, 3) {
        Err(LLMError::ApiError(m)) => assert_eq!(m, "zero choices returned"),
        _ => panic!("expected an error"),
    }
    match generate_result(&vec![None, Some("x".into())], 1, 2, 3) {
        Err(LLMError::ApiError(m)) => assert_eq!(m, "No message in response"),
        _ => panic!("expected an error"),
    }
    match generate_result(&vec![Some("Bitcoin is".into())], 12, 30, (1i64 << 32) + 42) {
        Ok(g) => {
            assert_eq!(g.generation, "Bitcoin is");
            let t = g.tokens.expect("tokens");
            assert_eq!((t.prompt_tokens, t.completion_tokens, t.total_tokens), (12, 30, 42));
        }
        Err(_) => panic!("expected a result"),
    }
    match generate_result(&vec![Some("x".into())], -1, 0, 0) {
        Ok(g) => assert_eq!(g.tokens.expect("tokens").prompt_tokens, u32::MAX),
        Err(_) => panic!("expected a result"),
    }
}

#[test]
fn stream_content_cases() {
    match stream_content(&vec![Some("Water".into())]) {
        Ok(s) => assert_eq!(s, "Water"),
        Err(_) => panic!("expected content"),
    }
    match stream_content(&vec![None]) {
        Err(LLMError::ContentNotFound(m)) => assert_eq!(m, "No message in response"),
        _ => panic!("expected an error"),
    }
}

#[test]
fn stream_data_carries_content_and_metadata() {
    match stream_data(&vec![Some("boil".into()), None], 1700000000, "mistral".into()) {
        Ok(d) => {
            assert_eq!(d.content, "boil");
            assert_eq!(d.value["created"], serde_json::Value::String("1700000000".into()));
            assert_eq!(d.value["model"], serde_json::Value::String("mistral".into()));
        }
        Err(_) => panic!("expected content"),
    }
    match stream_data(&vec![None], 1, "m".into()) {
        Err(LLMError::ContentNotFound(m)) => assert_eq!(m, "No message in response"),
        _ => panic!("expected an error"),
    }
}

#[test]
fn stream_metadata_renders_created_in_decimal() {
    for x in [0i64, 7, 10, 1700000000, -1, -45, i64::MIN, i64::MAX] {
        assert_eq!(decimal_i64(x), x.to_string());
    }
    let pairs = stream_metadata(-12, "mistral".into());
    assert_eq!(
        pairs,
        vec![("created".to_string(), "-12".to_string()), ("model".to_string(), "mistral".to_string())]
    );
    match stream_data(&vec![Some("x".into())], i64::MIN, "m".into()) {
        Ok(d) => assert_eq!(d.value["created"], serde_json::Value::String(i64::MIN.to_string())),
        Err(_) => panic!("expected content"),
    }
}
