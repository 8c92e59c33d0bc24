//! The conversational agent: the prompt it is built from, and the scratchpad of the steps it
//! has taken so far.
use vstd::prelude::*;

use crate::prompt::{
    args_view, placeholder, spec_fill, HumanMessagePromptTemplate, Message, MessageFormatterStruct,
    MessageOrTemplate, MessageType, PromptError, PromptTemplate, TemplateFormat,
};
use crate::text::{
    join, lacks_char, lemma_concat_lacks, lemma_join_items, lemma_join_lacks,
    lemma_replace_absent, lemma_replace_after_prefix, lemma_replace_at_front,
    lemma_replace_untouched, occurs_in, spec_join, spec_replace, string_views,
};

verus! {

/// How the model is asked to shape its answer.
pub const FORMAT_INSTRUCTIONS: &'static str = r#"RESPONSE FORMAT INSTRUCTIONS
----------------------------

When responding to me, please output a response in one of two formats:

**Option 1:**
Use this if you want the human to use a tool.
Markdown code snippet formatted in the following schema:

```json
{
    "action": string, \\ The action to take. Must be one of {{tool_names}}
    "action_input": string \\ The input to the action
}
```

**Option #2:**
Use this if you want to respond directly to the human. Markdown code snippet formatted in the following schema:

```json
{
    "action": "Final Answer",
    "action_input": string \\ You should put what you want to return to use here
}
```"#;

/// How the result of a tool is handed back to the model.
pub const TEMPLATE_TOOL_RESPONSE: &'static str = r#"TOOL RESPONSE:
---------------------
{{observation}}

USER'S INPUT
--------------------

Okay, so what is the response to my last comment? If using information obtained from the tools you must mention it explicitly without apologizing for the previous conversations and what tools you used. Remember to respond with a markdown code snippet of a json blob with a single action, and NOTHING else."#;

/// What the agent knows of a tool: its name and what it is for.
pub struct ToolInfo {
    pub name: String,
    pub description: String,
}

/// A tool call the model asked for, with the text it produced along the way.
pub struct AgentAction {
    pub tool: String,
    pub tool_input: String,
    pub log: String,
}

/// Why the agent could not go on.
pub enum AgentError {
    PromptError(PromptError),
}

/// One line per tool: `> name: description`.
pub open spec fn tool_lines(tools: Seq<ToolInfo>) -> Seq<Seq<char>> {
    tools.map_values(|t: ToolInfo| "> "@ + t.name@ + ": "@ + t.description@)
}

/// The names of the tools.
pub open spec fn tool_names(tools: Seq<ToolInfo>) -> Seq<Seq<char>> {
    tools.map_values(|t: ToolInfo| t.name@)
}

/// The values filled into the suffix template: the tool lines, the format instructions and
/// the tool names, in this order.
pub open spec fn suffix_args(tools: Seq<ToolInfo>) -> Seq<(Seq<char>, Seq<char>)> {
    seq![
        ("tools"@, spec_join(tool_lines(tools), "\n"@)),
        ("format_instructions"@, FORMAT_INSTRUCTIONS@),
        ("tool_names"@, spec_join(tool_names(tools), ", "@)),
    ]
}

/// The suffix with the tools and the format instructions filled in.
pub open spec fn spec_suffix_prompt(tools: Seq<ToolInfo>, suffix: Seq<char>) -> Seq<char> {
    spec_fill(suffix, suffix_args(tools), TemplateFormat::Jinja2)
}

/// The conversation prompt of the agent: the system message `prefix`, the chat history, the
/// human message built from the filled-in suffix (which still takes the variable `input`),
/// and the agent's scratchpad.
pub open spec fn is_agent_prompt(
    f: MessageFormatterStruct,
    tools: Seq<ToolInfo>,
    suffix: Seq<char>,
    prefix: Seq<char>,
) -> bool {
    &&& f.items@.len() == 4
    &&& f.items@[0] matches MessageOrTemplate::Message(m) && m.content@ == prefix
        && m.message_type == MessageType::SystemMessage && m.id is None
    &&& f.items@[1] matches MessageOrTemplate::MessagesPlaceholder(p) && p@ == "chat_history"@
    &&& f.items@[2] matches MessageOrTemplate::Template(h) && h.prompt.template@
        == spec_suffix_prompt(tools, suffix) && h.prompt.variables_view() == seq!["input"@]
        && h.prompt.format == TemplateFormat::Jinja2
    &&& f.items@[3] matches MessageOrTemplate::MessagesPlaceholder(p) && p@
        == "agent_scratchpad"@
}

/// The tool response message for `observation`.
pub open spec fn spec_tool_response(observation: Seq<char>) -> Seq<char> {
    spec_fill(
        TEMPLATE_TOOL_RESPONSE@,
        seq![("observation"@, observation)],
        TemplateFormat::Jinja2,
    )
}

/// The kind and the text of each message.
pub open spec fn message_views(v: Seq<Message>) -> Seq<(MessageType, Seq<char>)> {
    v.map_values(|m: Message| (m.message_type, m.content@))
}

/// The scratchpad for `steps`: for each step, the model's text as an AI message, then the
/// tool response for its observation as a human message.
pub open spec fn spec_scratchpad(steps: Seq<(AgentAction, String)>) -> Seq<
    (MessageType, Seq<char>),
>
    decreases steps.len(),
{
    if steps.len() == 0 {
        Seq::empty()
    } else {
        spec_scratchpad(steps.drop_last()) + seq![
            (MessageType::AIMessage, steps.last().0.log@),
            (MessageType::HumanMessage, spec_tool_response(steps.last().1@)),
        ]
    }
}

/// Law: the scratchpad of no steps is empty, and the scratchpad of two runs of steps one
/// after the other is the first run's scratchpad followed by the second's.
pub proof fn lemma_scratchpad_concat(
    xs: Seq<(AgentAction, String)>,
    ys: Seq<(AgentAction, String)>,
)
    ensures
        spec_scratchpad(Seq::empty()) == Seq::<(MessageType, Seq<char>)>::empty(),
        spec_scratchpad(xs + ys) == spec_scratchpad(xs) + spec_scratchpad(ys),
    decreases ys.len(),
{
    if ys.len() == 0 {
        assert(xs + ys =~= xs);
        assert(spec_scratchpad(xs) + spec_scratchpad(ys) =~= spec_scratchpad(xs));
    } else {
        lemma_scratchpad_concat(xs, ys.drop_last());
        assert((xs + ys).drop_last() =~= xs + ys.drop_last());
        assert((xs + ys).last() == ys.last());
        let tail = seq![
            (MessageType::AIMessage, ys.last().0.log@),
            (MessageType::HumanMessage, spec_tool_response(ys.last().1@)),
        ];
        assert(spec_scratchpad(xs) + spec_scratchpad(ys.drop_last()) + tail =~= spec_scratchpad(
            xs,
        ) + (spec_scratchpad(ys.drop_last()) + tail));
    }
}

/// The tool response template's text before the mark of the observation.
pub open spec fn tool_response_head() -> Seq<char> {
    r#"TOOL RESPONSE:
---------------------
"#@
}

/// The tool response template's text after the mark of the observation.
pub open spec fn tool_response_tail() -> Seq<char> {
    r#"

USER'S INPUT
--------------------

Okay, so what is the response to my last comment? If using information obtained from the tools you must mention it explicitly without apologizing for the previous conversations and what tools you used. Remember to respond with a markdown code snippet of a json blob with a single action, and NOTHING else."#@
}

/// Law: the tool response template is its head, the mark of the observation, and its tail;
/// the tool response for an observation is the head, the whole observation unchanged
/// (whatever its length and content), and the tail.
pub proof fn lemma_tool_response_holds_observation(observation: Seq<char>)
    ensures
        TEMPLATE_TOOL_RESPONSE@ == tool_response_head() + "{{observation}}"@ + tool_response_tail(),
        spec_tool_response(observation) == tool_response_head() + observation
            + tool_response_tail(),
{
    reveal_strlit(r#"TOOL RESPONSE:
---------------------
"#);
    reveal_strlit(r#"

USER'S INPUT
--------------------

Okay, so what is the response to my last comment? If using information obtained from the tools you must mention it explicitly without apologizing for the previous conversations and what tools you used. Remember to respond with a markdown code snippet of a json blob with a single action, and NOTHING else."#);
    reveal_strlit(r#"TOOL RESPONSE:
---------------------
{{observation}}

USER'S INPUT
--------------------

Okay, so what is the response to my last comment? If using information obtained from the tools you must mention it explicitly without apologizing for the previous conversations and what tools you used. Remember to respond with a markdown code snippet of a json blob with a single action, and NOTHING else."#);
    reveal_strlit("{{observation}}");
    reveal_strlit("{{");
    reveal_strlit("}}");
    reveal_strlit("observation");
    let h = tool_response_head();
    let tl = tool_response_tail();
    let mark = "{{observation}}"@;
    assert(TEMPLATE_TOOL_RESPONSE@ =~= h + mark + tl);
    assert(placeholder("observation"@, TemplateFormat::Jinja2) =~= mark);
    assert(lacks_char(h, mark[0]));
    assert(lacks_char(tl, mark[0]));
    let args = seq![("observation"@, observation)];
    assert(args.drop_first() =~= Seq::<(Seq<char>, Seq<char>)>::empty());
    let r = spec_replace(TEMPLATE_TOOL_RESPONSE@, mark, observation);
    assert(args[0].0 == "observation"@ && args[0].1 == observation);
    assert(spec_fill(r, args.drop_first(), TemplateFormat::Jinja2) == r);
    assert(spec_tool_response(observation) == r);
    assert(h + mark + tl =~= h + (mark + tl));
    lemma_replace_after_prefix(h, mark + tl, mark, observation);
    lemma_replace_at_front(tl, mark, observation);
    lemma_replace_untouched(tl, mark, observation);
    assert(h + (observation + tl) =~= h + observation + tl);
}

/// Law: the values filled into the suffix are, in this order, the tool lines under `tools`,
/// the format instructions under `format_instructions`, and the tool names under
/// `tool_names`. The names are joined by `", "`: no tool gives the empty text, one tool gives
/// exactly its name, two give both around the separator, and every tool's name occurs in it.
/// Likewise every tool's line `> name: description` occurs among the tool lines, which for one
/// tool are exactly its line.
pub proof fn lemma_suffix_values(tools: Seq<ToolInfo>)
    ensures
        suffix_args(tools).len() == 3,
        suffix_args(tools)[0].0 == "tools"@,
        suffix_args(tools)[1] == ("format_instructions"@, FORMAT_INSTRUCTIONS@),
        suffix_args(tools)[2].0 == "tool_names"@,
        tools.len() == 0 ==> suffix_args(tools)[2].1 == Seq::<char>::empty()
            && suffix_args(tools)[0].1 == Seq::<char>::empty(),
        tools.len() == 1 ==> suffix_args(tools)[2].1 == tools[0].name@,
        tools.len() == 1 ==> suffix_args(tools)[0].1 == "> "@ + tools[0].name@ + ": "@
            + tools[0].description@,
        tools.len() == 2 ==> suffix_args(tools)[2].1 == tools[0].name@ + ", "@ + tools[1].name@,
        forall|i: int|
            0 <= i < tools.len() ==> occurs_in(#[trigger] tools[i].name@, suffix_args(tools)[2].1),
        forall|i: int|
            0 <= i < tools.len() ==> occurs_in(
                "> "@ + #[trigger] tools[i].name@ + ": "@ + tools[i].description@,
                suffix_args(tools)[0].1,
            ),
{
    lemma_join_items(tool_names(tools), ", "@);
    lemma_join_items(tool_lines(tools), "\n"@);
    assert forall|i: int| 0 <= i < tools.len() implies occurs_in(
        #[trigger] tools[i].name@,
        suffix_args(tools)[2].1,
    ) by {
        assert(tool_names(tools)[i] == tools[i].name@);
    }
    assert forall|i: int| 0 <= i < tools.len() implies occurs_in(
        "> "@ + #[trigger] tools[i].name@ + ": "@ + tools[i].description@,
        suffix_args(tools)[0].1,
    ) by {
        assert(tool_lines(tools)[i] == "> "@ + tools[i].name@ + ": "@ + tools[i].description@);
    }
}

/// The mark of the tool names, followed by text without braces, has no other mark of the
/// suffix in it.
proof fn lemma_tool_names_mark_kept(b: Seq<char>, pat: Seq<char>, rep: Seq<char>)
    requires
        lacks_char(b, '{'),
        pat == "{{tools}}"@ || pat == "{{format_instructions}}"@,
    ensures
        spec_replace("{{tool_names}}"@ + b, pat, rep) == "{{tool_names}}"@ + b,
{
    reveal_strlit("{{tool_names}}");
    reveal_strlit("{{tools}}");
    reveal_strlit("{{format_instructions}}");
    let mark = "{{tool_names}}"@;
    let s = mark + b;
    assert(lacks_char(mark.subrange(2, 14), '{'));
    assert(pat.len() > 6 && pat[0] == '{' && pat[1] == '{');
    assert(pat[6] != mark[6] || pat[2] != mark[2]);
    assert forall|k: int| 0 <= k && k + pat.len() <= s.len() implies #[trigger] s.subrange(
        k,
        k + pat.len(),
    ) != pat by {
        let sub = s.subrange(k, k + pat.len());
        if sub == pat {
            assert(sub[0] == s[k] && sub[1] == s[k + 1]);
            if k == 0 {
                assert(sub[6] == s[6] && sub[2] == s[2]);
            } else if k < 13 {
                assert(s[k + 1] == mark.subrange(2, 14)[k - 1]);
            } else if k == 13 {
                assert(s[k + 1] == b[0]);
            } else {
                assert(s[k] == b[k - 14]);
            }
        }
    }
    lemma_replace_absent(s, pat, rep);
}

/// Law: in a suffix whose only braces are those of the `{{tool_names}}` mark, the filled
/// suffix holds, in the mark's place, the tools' names joined by `", "`: exactly the tool's
/// name where there is one tool, and every tool's name whatever their number.
pub proof fn lemma_suffix_names_every_tool(tools: Seq<ToolInfo>, a: Seq<char>, b: Seq<char>)
    requires
        lacks_char(a, '{'),
        lacks_char(b, '{'),
    ensures
        spec_suffix_prompt(tools, a + "{{tool_names}}"@ + b) == a + spec_join(
            tool_names(tools),
            ", "@,
        ) + b,
        tools.len() == 1 ==> spec_suffix_prompt(tools, a + "{{tool_names}}"@ + b) == a
            + tools[0].name@ + b,
        forall|i: int|
            0 <= i < tools.len() ==> occurs_in(
                #[trigger] tools[i].name@,
                spec_suffix_prompt(tools, a + "{{tool_names}}"@ + b),
            ),
{
    reveal_strlit("{{tool_names}}");
    reveal_strlit("{{tools}}");
    reveal_strlit("{{format_instructions}}");
    reveal_strlit("{{");
    reveal_strlit("}}");
    reveal_strlit("tools");
    reveal_strlit("format_instructions");
    reveal_strlit("tool_names");
    let mark = "{{tool_names}}"@;
    let args = suffix_args(tools);
    let names = spec_join(tool_names(tools), ", "@);
    let f = TemplateFormat::Jinja2;
    assert(placeholder(args[0].0, f) =~= "{{tools}}"@);
    assert(placeholder(args[1].0, f) =~= "{{format_instructions}}"@);
    assert(placeholder(args[2].0, f) =~= mark);
    let s0 = a + mark + b;
    assert(s0 =~= a + (mark + b));
    lemma_replace_after_prefix(a, mark + b, "{{tools}}"@, args[0].1);
    lemma_tool_names_mark_kept(b, "{{tools}}"@, args[0].1);
    let s1 = spec_replace(s0, placeholder(args[0].0, f), args[0].1);
    assert(s1 == s0);
    lemma_replace_after_prefix(a, mark + b, "{{format_instructions}}"@, args[1].1);
    lemma_tool_names_mark_kept(b, "{{format_instructions}}"@, args[1].1);
    let s2 = spec_replace(s1, placeholder(args[1].0, f), args[1].1);
    assert(s2 == s0);
    lemma_replace_after_prefix(a, mark + b, mark, names);
    lemma_replace_at_front(b, mark, names);
    lemma_replace_untouched(b, mark, names);
    let s3 = spec_replace(s2, placeholder(args[2].0, f), args[2].1);
    assert(s3 == a + (names + b));
    assert(args.drop_first().drop_first().drop_first() =~= Seq::<(Seq<char>, Seq<char>)>::empty());
    assert(args.drop_first()[0] == args[1]);
    assert(args.drop_first().drop_first()[0] == args[2]);
    assert(spec_fill(s3, args.drop_first().drop_first().drop_first(), f) == s3);
    assert(spec_fill(s2, args.drop_first().drop_first(), f) == s3);
    assert(spec_fill(s1, args.drop_first(), f) == s3);
    assert(spec_suffix_prompt(tools, s0) == s3);
    assert(a + (names + b) =~= a + names + b);
    lemma_join_items(tool_names(tools), ", "@);
    assert forall|i: int| 0 <= i < tools.len() implies occurs_in(
        #[trigger] tools[i].name@,
        spec_suffix_prompt(tools, s0),
    ) by {
        assert(tool_names(tools)[i] == tools[i].name@);
        assert(occurs_in(tools[i].name@, names));
        let n = tools[i].name@;
        let k = choose|k: int|
            0 <= k && k + n.len() <= names.len() && #[trigger] names.subrange(k, k + n.len()) == n;
        let j = a + names + b;
        assert(j.subrange(a.len() + k, a.len() + k + n.len()) =~= names.subrange(k, k + n.len()));
        assert(j.subrange(a.len() + k, (a.len() + k) + n.len()) == n);
    }
}

/// Law: in a suffix whose only braces are those of the `{{tools}}` mark, for tools whose
/// names and descriptions hold no braces, the filled suffix holds, in the mark's place, one
/// line `> name: description` per tool, joined by line breaks: exactly the tool's line where
/// there is one tool, and every tool's line whatever their number.
pub proof fn lemma_suffix_lists_every_tool(tools: Seq<ToolInfo>, a: Seq<char>, b: Seq<char>)
    requires
        lacks_char(a, '{'),
        lacks_char(b, '{'),
        forall|i: int|
            0 <= i < tools.len() ==> lacks_char(#[trigger] tools[i].name@, '{') && lacks_char(
                tools[i].description@,
                '{',
            ),
    ensures
        spec_suffix_prompt(tools, a + "{{tools}}"@ + b) == a + spec_join(tool_lines(tools), "\n"@)
            + b,
        tools.len() == 1 ==> spec_suffix_prompt(tools, a + "{{tools}}"@ + b) == a + ("> "@
            + tools[0].name@ + ": "@ + tools[0].description@) + b,
        forall|i: int|
            0 <= i < tools.len() ==> occurs_in(
                "> "@ + #[trigger] tools[i].name@ + ": "@ + tools[i].description@,
                spec_suffix_prompt(tools, a + "{{tools}}"@ + b),
            ),
{
    reveal_strlit("{{tools}}");
    reveal_strlit("{{format_instructions}}");
    reveal_strlit("{{tool_names}}");
    reveal_strlit("{{");
    reveal_strlit("}}");
    reveal_strlit("tools");
    reveal_strlit("format_instructions");
    reveal_strlit("tool_names");
    reveal_strlit("> ");
    reveal_strlit(": ");
    reveal_strlit("\n");
    let mark = "{{tools}}"@;
    let args = suffix_args(tools);
    let lines = spec_join(tool_lines(tools), "\n"@);
    let f = TemplateFormat::Jinja2;
    assert(placeholder(args[0].0, f) =~= mark);
    assert(placeholder(args[1].0, f) =~= "{{format_instructions}}"@);
    assert(placeholder(args[2].0, f) =~= "{{tool_names}}"@);
    assert forall|i: int| 0 <= i < tool_lines(tools).len() implies lacks_char(
        #[trigger] tool_lines(tools)[i],
        '{',
    ) by {
        let t = tools[i];
        assert(tool_lines(tools)[i] == "> "@ + t.name@ + ": "@ + t.description@);
        assert(lacks_char("> "@, '{'));
        assert(lacks_char(": "@, '{'));
        lemma_concat_lacks("> "@, t.name@, '{');
        lemma_concat_lacks("> "@ + t.name@, ": "@, '{');
        lemma_concat_lacks("> "@ + t.name@ + ": "@, t.description@, '{');
    }
    assert(lacks_char("\n"@, '{'));
    lemma_join_lacks(tool_lines(tools), "\n"@, '{');
    let s0 = a + mark + b;
    assert(s0 =~= a + (mark + b));
    lemma_replace_after_prefix(a, mark + b, mark, lines);
    lemma_replace_at_front(b, mark, lines);
    lemma_replace_untouched(b, mark, lines);
    let s1 = spec_replace(s0, placeholder(args[0].0, f), args[0].1);
    assert(s1 == a + (lines + b));
    lemma_concat_lacks(lines, b, '{');
    lemma_concat_lacks(a, lines + b, '{');
    lemma_replace_untouched(s1, "{{format_instructions}}"@, args[1].1);
    let s2 = spec_replace(s1, placeholder(args[1].0, f), args[1].1);
    assert(s2 == s1);
    lemma_replace_untouched(s1, "{{tool_names}}"@, args[2].1);
    let s3 = spec_replace(s2, placeholder(args[2].0, f), args[2].1);
    assert(s3 == s1);
    assert(args.drop_first().drop_first().drop_first() =~= Seq::<(Seq<char>, Seq<char>)>::empty());
    assert(args.drop_first()[0] == args[1]);
    assert(args.drop_first().drop_first()[0] == args[2]);
    assert(spec_fill(s3, args.drop_first().drop_first().drop_first(), f) == s3);
    assert(spec_fill(s2, args.drop_first().drop_first(), f) == s3);
    assert(spec_fill(s1, args.drop_first(), f) == s3);
    assert(spec_suffix_prompt(tools, s0) == s1);
    assert(a + (lines + b) =~= a + lines + b);
    lemma_join_items(tool_lines(tools), "\n"@);
    assert forall|i: int| 0 <= i < tools.len() implies occurs_in(
        "> "@ + #[trigger] tools[i].name@ + ": "@ + tools[i].description@,
        spec_suffix_prompt(tools, s0),
    ) by {
        let n = "> "@ + tools[i].name@ + ": "@ + tools[i].description@;
        assert(tool_lines(tools)[i] == n);
        assert(occurs_in(n, lines));
        let k = choose|k: int|
            0 <= k && k + n.len() <= lines.len() && #[trigger] lines.subrange(k, k + n.len()) == n;
        let j = a + lines + b;
        assert(j.subrange(a.len() + k, a.len() + k + n.len()) =~= lines.subrange(k, k + n.len()));
        assert(j.subrange(a.len() + k, (a.len() + k) + n.len()) == n);
    }
}

/// An agent that converses with the user and may call tools. `C` is the chain that asks the
/// model, `T` the type of its tools.
pub struct ConversationalAgent<C, T> {
    pub chain: C,
    pub tools: Vec<T>,
}

/// The tool lines, joined by line breaks.
fn tool_string(tools: &[ToolInfo]) -> (r: String)
    ensures
        r@ == spec_join(tool_lines(tools@), "\n"@),
{
    let mut lines: Vec<String> = Vec::new();
    let n = tools.len();
    for i in 0..n
        invariant
            n == tools@.len(),
            string_views(lines@) == tool_lines(tools@).take(i as int),
    {
        let mut line = String::from_str("> ");
        line.append(tools[i].name.as_str());
        line.append(": ");
        line.append(tools[i].description.as_str());
        let ghost prev = lines@;
        assert(string_views(prev).len() == prev.len());
        assert(prev.len() == i);
        lines.push(line);
        assert(string_views(lines@) =~= tool_lines(tools@).take(i + 1)) by {
            assert(lines@ =~= prev.push(line));
            assert(line@ == tool_lines(tools@)[i as int]);
            assert forall|j: int| 0 <= j < i implies #[trigger] string_views(lines@)[j]
                == tool_lines(tools@).take(i + 1)[j] by {
                assert(string_views(prev)[j] == tool_lines(tools@).take(i as int)[j]);
                assert(lines@[j] == prev[j]);
            }
        }
    }
    assert(tool_lines(tools@).take(n as int) =~= tool_lines(tools@));
    join(&lines, "\n")
}

/// The tool names, joined by commas.
fn tool_name_list(tools: &[ToolInfo]) -> (r: String)
    ensures
        r@ == spec_join(tool_names(tools@), ", "@),
{
    let mut names: Vec<String> = Vec::new();
    let n = tools.len();
    for i in 0..n
        invariant
            n == tools@.len(),
            string_views(names@) == tool_names(tools@).take(i as int),
    {
        let ghost prev = names@;
        let name = tools[i].name.clone();
        assert(string_views(prev).len() == prev.len());
        assert(prev.len() == i);
        names.push(name);
        assert(string_views(names@) =~= tool_names(tools@).take(i + 1)) by {
            assert(names@ =~= prev.push(name));
            assert(name@ == tool_names(tools@)[i as int]);
            assert forall|j: int| 0 <= j < i implies #[trigger] string_views(names@)[j]
                == tool_names(tools@).take(i + 1)[j] by {
                assert(string_views(prev)[j] == tool_names(tools@).take(i as int)[j]);
                assert(names@[j] == prev[j]);
            }
        }
    }
    assert(tool_names(tools@).take(n as int) =~= tool_names(tools@));
    join(&names, ", ")
}

impl<C, T> ConversationalAgent<C, T> {
    pub fn new(chain: C, tools: Vec<T>) -> (r: Self)
        ensures
            r.chain == chain,
            r.tools == tools,
    {
        ConversationalAgent { chain, tools }
    }

    /// The agent's tools, each cloned.
    pub fn get_tools(&self) -> (r: Vec<T>)
        where T: Clone,
        ensures
            r@.len() == self.tools@.len(),
            forall|i: int| 0 <= i < r@.len() ==> cloned::<T>(self.tools@[i], #[trigger] r@[i]),
    {
        self.tools.clone()
    }

    /// Builds the conversation prompt for the given tools: `suffix` is a template over the
    /// variables `tools` and `format_instructions` (the names of the tools go in as
    /// `tool_names`), `prefix` the system message.
    pub fn create_prompt(tools: &[ToolInfo], suffix: &str, prefix: &str) -> (r: Result<
        MessageFormatterStruct,
        AgentError,
    >)
        ensures
            r matches Ok(f) && is_agent_prompt(f, tools@, suffix@, prefix@),
    {
        let mut args: Vec<(String, String)> = Vec::new();
        args.push((String::from_str("tools"), tool_string(tools)));
        args.push((String::from_str("format_instructions"), String::from_str(FORMAT_INSTRUCTIONS)));
        args.push((String::from_str("tool_names"), tool_name_list(tools)));
        let mut variables: Vec<String> = Vec::new();
        variables.push(String::from_str("tools"));
        variables.push(String::from_str("format_instructions"));
        let template = PromptTemplate::new(String::from_str(suffix), variables, TemplateFormat::Jinja2);
        let ghost av = args_view(args@);
        proof {
            assert(av =~= suffix_args(tools@));
            assert(av[0].0 == "tools"@);
            assert(av[1].0 == "format_instructions"@);
            assert(template.variables_view() =~= seq!["tools"@, "format_instructions"@]);
            assert(crate::prompt::has_arg(av, template.variables_view()[0]));
            assert(crate::prompt::has_arg(av, template.variables_view()[1]));
        }
        let suffix_prompt = match template.format(&args) {
            Ok(s) => s,
            Err(e) => {
                return Err(AgentError::PromptError(e));
            },
        };
        let mut input: Vec<String> = Vec::new();
        input.push(String::from_str("input"));
        let human = HumanMessagePromptTemplate::new(
            PromptTemplate::new(suffix_prompt, input, TemplateFormat::Jinja2),
        );
        proof {
            assert(human.prompt.variables_view() =~= seq!["input"@]);
        }
        let mut items: Vec<MessageOrTemplate> = Vec::new();
        items.push(MessageOrTemplate::Message(Message::new_system_message(prefix)));
        items.push(MessageOrTemplate::MessagesPlaceholder(String::from_str("chat_history")));
        items.push(MessageOrTemplate::Template(human));
        items.push(MessageOrTemplate::MessagesPlaceholder(String::from_str("agent_scratchpad")));
        Ok(MessageFormatterStruct { items })
    }

    /// The messages for the steps taken so far: for each step, the model's text as an AI
    /// message, then the tool's observation, in the tool response template, as a human
    /// message.
    pub fn construct_scratchpad(&self, intermediate_steps: &[(AgentAction, String)]) -> (r: Result<
        Vec<Message>,
        AgentError,
    >)
        ensures
            r matches Ok(v) && v@.len() == 2 * intermediate_steps@.len() && message_views(v@)
                == spec_scratchpad(intermediate_steps@) && forall|i: int|
                0 <= i < intermediate_steps@.len() ==> {
                    &&& (#[trigger] v@[2 * i]).content@ == intermediate_steps@[i].0.log@
                    &&& v@[2 * i].message_type == MessageType::AIMessage
                    &&& v@[2 * i].id is None
                    &&& v@[2 * i + 1].content@ == spec_tool_response(intermediate_steps@[i].1@)
                    &&& v@[2 * i + 1].message_type == MessageType::HumanMessage
                    &&& v@[2 * i + 1].id is None
                },
    {
        let mut thoughts: Vec<Message> = Vec::new();
        let n = intermediate_steps.len();
        for i in 0..n
            invariant
                n == intermediate_steps@.len(),
                thoughts@.len() == 2 * i,
                message_views(thoughts@) == spec_scratchpad(intermediate_steps@.take(i as int)),
                forall|j: int|
                    0 <= j < i ==> {
                        &&& (#[trigger] thoughts@[2 * j]).content@ == intermediate_steps@[j].0.log@
                        &&& thoughts@[2 * j].message_type == MessageType::AIMessage
                        &&& thoughts@[2 * j].id is None
                        &&& thoughts@[2 * j + 1].content@ == spec_tool_response(
                            intermediate_steps@[j].1@,
                        )
                        &&& thoughts@[2 * j + 1].message_type == MessageType::HumanMessage
                        &&& thoughts@[2 * j + 1].id is None
                    },
        {
            let (action, observation) = &intermediate_steps[i];
            let ghost prev = thoughts@;
            thoughts.push(Message::new_ai_message(action.log.as_str()));
            let mut variables: Vec<String> = Vec::new();
            variables.push(String::from_str("observation"));
            let template = PromptTemplate::new(
                String::from_str(TEMPLATE_TOOL_RESPONSE),
                variables,
                TemplateFormat::Jinja2,
            );
            let mut args: Vec<(String, String)> = Vec::new();
            args.push((String::from_str("observation"), observation.clone()));
            proof {
                assert(args_view(args@) =~= seq![("observation"@, observation@)]);
                assert(template.variables_view() =~= seq!["observation"@]);
                assert(args_view(args@)[0].0 == template.variables_view()[0]);
                assert(crate::prompt::has_arg(args_view(args@), template.variables_view()[0]));
            }
            let tool_response = match template.format(&args) {
                Ok(s) => s,
                Err(e) => {
                    return Err(AgentError::PromptError(e));
                },
            };
            thoughts.push(Message::new_human_message(tool_response.as_str()));
            proof {
                let st = intermediate_steps@.take(i + 1);
                assert(st.drop_last() =~= intermediate_steps@.take(i as int));
                assert(st.last() == intermediate_steps@[i as int]);
                assert(message_views(thoughts@) =~= message_views(prev) + seq![
                    (MessageType::AIMessage, intermediate_steps@[i as int].0.log@),
                    (MessageType::HumanMessage, spec_tool_response(intermediate_steps@[i as int].1@)),
                ]);
                assert forall|j: int| 0 <= j < i + 1 implies {
                    &&& (#[trigger] thoughts@[2 * j]).content@ == intermediate_steps@[j].0.log@
                    &&& thoughts@[2 * j].message_type == MessageType::AIMessage
                    &&& thoughts@[2 * j].id is None
                    &&& thoughts@[2 * j + 1].content@ == spec_tool_response(
                        intermediate_steps@[j].1@,
                    )
                    &&& thoughts@[2 * j + 1].message_type == MessageType::HumanMessage
                    &&& thoughts@[2 * j + 1].id is None
                } by {
                    if j < i {
                        assert(thoughts@[2 * j] == prev[2 * j]);
                        assert(thoughts@[2 * j + 1] == prev[2 * j + 1]);
                    }
                }
            }
        }
        assert(intermediate_steps@.take(n as int) =~= intermediate_steps@);
        Ok(thoughts)
    }
}

} // verus!
