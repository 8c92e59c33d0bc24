//! Verified building blocks of an agent runtime: name maps and sets, a ping-pong actor,
//! agent-graph construction, per-actor message handling, prompt formatting and the
//! processing of chat-completion replies.
pub mod string_map;
pub mod name_set;
pub mod agent_system;
pub mod ping_pong;
pub mod agent_actor;
pub mod text;
pub mod prompt;
pub mod chat_agent;
pub mod tupleleap;
pub mod agent_run;
