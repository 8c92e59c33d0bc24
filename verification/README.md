# leap_chain

Verified core of an LLM agent runtime, written in Verus.

- `src/` — the library, verified; its one call into `serde_json` (turning string pairs into a
  JSON value) stands behind a trusted wrapper:
  - `string_map`, `name_set`: maps and sets keyed by names, with their mathematical views.
  - `agent_system`: the graph of agents between a start and an end node, how it is
    closed, and the plan of actors to spawn; laws on the agreement of its edge sets.
  - `agent_actor`: how agent actors and the start/end control actors react to messages;
    the law that an agent starts its successors once all its predecessors are done.
  - `agent_run`: a whole run of a graph; the law that once the start node is triggered every
    node stops, and that the graphs the agent system builds can be run.
  - `ping_pong`: a small actor that prints ten alternating messages and stops.
  - `text`, `prompt`, `chat_agent`: pattern replacement, prompt templates, the agent's
    conversation prompt and its scratchpad.
  - `tupleleap`: the chat-completion request and the processing of replies.
- `app/` — the runtime around it (ractor actors, spawning and waiting, the network client).
- `tests/` — tests on concrete values.
