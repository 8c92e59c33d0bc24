//! Chat messages and prompt templates.
use vstd::prelude::*;

use crate::text::{replace_all, spec_replace};

verus! {

/// Who a chat message comes from.
#[derive(Debug, Clone, Copy, PartialEq, Eq, Structural)]
pub enum MessageType {
    SystemMessage,
    AIMessage,
    HumanMessage,
    ToolMessage,
}

/// A chat message.
pub struct Message {
    pub content: String,
    pub message_type: MessageType,
    pub id: Option<String>,
}

impl Message {
    pub fn new_system_message(content: &str) -> (r: Message)
        ensures
            r.content@ == content@,
            r.message_type == MessageType::SystemMessage,
            r.id is None,
    {
        Message {
            content: String::from_str(content),
            message_type: MessageType::SystemMessage,
            id: None,
        }
    }

    pub fn new_human_message(content: &str) -> (r: Message)
        ensures
            r.content@ == content@,
            r.message_type == MessageType::HumanMessage,
            r.id is None,
    {
        Message {
            content: String::from_str(content),
            message_type: MessageType::HumanMessage,
            id: None,
        }
    }

    pub fn new_ai_message(content: &str) -> (r: Message)
        ensures
            r.content@ == content@,
            r.message_type == MessageType::AIMessage,
            r.id is None,
    {
        Message { content: String::from_str(content), message_type: MessageType::AIMessage, id: None }
    }
}

/// How a template marks its variables: `{name}` or `{{name}}`.
#[derive(Debug, Clone, Copy, PartialEq, Eq, Structural)]
pub enum TemplateFormat {
    FString,
    Jinja2,
}

/// A text with named variables to fill in.
pub struct PromptTemplate {
    pub template: String,
    pub variables: Vec<String>,
    pub format: TemplateFormat,
}

/// Why a template could not be filled in.
pub enum PromptError {
    /// The template declares this variable, and no value was given for it.
    MissingVariable(String),
}

/// The mark of variable `key` in a template of format `format`.
pub open spec fn placeholder(key: Seq<char>, format: TemplateFormat) -> Seq<char> {
    match format {
        TemplateFormat::FString => "{"@ + key + "}"@,
        TemplateFormat::Jinja2 => "{{"@ + key + "}}"@,
    }
}

/// The views of a list of (name, value) pairs.
pub open spec fn args_view(args: Seq<(String, String)>) -> Seq<(Seq<char>, Seq<char>)> {
    args.map_values(|a: (String, String)| (a.0@, a.1@))
}

/// `t` with the marks of the given variables replaced by their values, one variable after the
/// other, in the order given.
pub open spec fn spec_fill(
    t: Seq<char>,
    args: Seq<(Seq<char>, Seq<char>)>,
    format: TemplateFormat,
) -> Seq<char>
    decreases args.len(),
{
    if args.len() == 0 {
        t
    } else {
        spec_fill(
            spec_replace(t, placeholder(args[0].0, format), args[0].1),
            args.drop_first(),
            format,
        )
    }
}

/// A value is given for `key`.
pub open spec fn has_arg(args: Seq<(Seq<char>, Seq<char>)>, key: Seq<char>) -> bool {
    exists|i: int| 0 <= i < args.len() && #[trigger] args[i].0 == key
}

/// The position of the first declared variable without a value, if any.
pub open spec fn first_missing(
    variables: Seq<Seq<char>>,
    args: Seq<(Seq<char>, Seq<char>)>,
) -> Option<int> {
    if exists|i: int| 0 <= i < variables.len() && !has_arg(args, #[trigger] variables[i]) {
        Some(
            choose|i: int|
                0 <= i < variables.len() && !has_arg(args, #[trigger] variables[i]) && forall|
                    j: int,
                | 0 <= j < i ==> has_arg(args, #[trigger] variables[j]),
        )
    } else {
        None
    }
}

/// The mark of `key` in a template of format `format`.
fn make_placeholder(key: &str, format: TemplateFormat) -> (r: String)
    ensures
        r@ == placeholder(key@, format),
        r@.len() > 0,
{
    proof {
        reveal_strlit("{");
        reveal_strlit("}");
        reveal_strlit("{{");
        reveal_strlit("}}");
    }
    match format {
        TemplateFormat::FString => {
            let mut r = String::from_str("{");
            r.append(key);
            r.append("}");
            r
        },
        TemplateFormat::Jinja2 => {
            let mut r = String::from_str("{{");
            r.append(key);
            r.append("}}");
            r
        },
    }
}

impl PromptTemplate {
    pub fn new(template: String, variables: Vec<String>, format: TemplateFormat) -> (r: Self)
        ensures
            r.template == template,
            r.variables == variables,
            r.format == format,
    {
        PromptTemplate { template, variables, format }
    }

    /// The declared variables.
    pub open spec fn variables_view(&self) -> Seq<Seq<char>> {
        self.variables@.map_values(|s: String| s@)
    }

    /// Fills in the template. Fails, naming the first declared variable that has no value,
    /// where there is one; otherwise replaces the marks of the given variables by their
    /// values, one after the other, in the order given.
    pub fn format(&self, args: &Vec<(String, String)>) -> (r: Result<String, PromptError>)
        ensures
            match first_missing(self.variables_view(), args_view(args@)) {
                Some(i) => r matches Err(PromptError::MissingVariable(v)) && v@
                    == self.variables_view()[i],
                None => r matches Ok(s) && s@ == spec_fill(
                    self.template@,
                    args_view(args@),
                    self.format,
                ),
            },
    {
        let ghost av = args_view(args@);
        let ghost vv = self.variables_view();
        // every declared variable needs a value
        let nv = self.variables.len();
        for i in 0..nv
            invariant
                nv == self.variables@.len(),
                av == args_view(args@),
                vv == self.variables_view(),
                forall|j: int| 0 <= j < i ==> has_arg(av, #[trigger] vv[j]),
        {
            let key = &self.variables[i];
            let mut found = false;
            let na = args.len();
            for t in 0..na
                invariant
                    na == args@.len(),
                    av == args_view(args@),
                    key@ == vv[i as int],
                    found ==> has_arg(av, vv[i as int]),
                    !found ==> forall|u: int| 0 <= u < t ==> #[trigger] av[u].0 != vv[i as int],
            {
                if args[t].0 == *key {
                    assert(av[t as int].0 == vv[i as int]);
                    found = true;
                }
            }
            if !found {
                proof {
                    assert(exists|j: int| 0 <= j < vv.len() && !has_arg(av, #[trigger] vv[j])) by {
                        assert(!has_arg(av, vv[i as int]));
                    }
                    let c = choose|j: int|
                        0 <= j < vv.len() && !has_arg(av, #[trigger] vv[j]) && forall|u: int|
                            0 <= u < j ==> has_arg(av, #[trigger] vv[u]);
                    assert(has_arg(av, vv[i as int]) || c == i) by {
                        if c < i {
                            assert(has_arg(av, vv[c]));
                        } else if c > i {
                            assert(has_arg(av, vv[i as int]));
                        }
                    }
                }
                return Err(PromptError::MissingVariable(key.clone()));
            }
        }
        proof {
            assert(!exists|j: int| 0 <= j < vv.len() && !has_arg(av, #[trigger] vv[j]));
        }
        // replace the marks, one variable after the other
        let mut prompt = self.template.clone();
        assert(av.skip(0) =~= av);
        let na = args.len();
        for t in 0..na
            invariant
                na == args@.len(),
                av == args_view(args@),
                spec_fill(self.template@, av, self.format) == spec_fill(
                    prompt@,
                    av.skip(t as int),
                    self.format,
                ),
        {
            let mark = make_placeholder(args[t].0.as_str(), self.format);
            proof {
                assert(av.skip(t as int)[0] == av[t as int]);
                assert(av.skip(t as int).drop_first() =~= av.skip(t + 1));
            }
            prompt = replace_all(prompt.as_str(), mark.as_str(), args[t].1.as_str());
        }
        proof {
            assert(av.skip(na as int).len() == 0);
        }
        Ok(prompt)
    }
}

/// A template for a message from the human.
pub struct HumanMessagePromptTemplate {
    pub prompt: PromptTemplate,
}

impl HumanMessagePromptTemplate {
    pub fn new(prompt: PromptTemplate) -> (r: Self)
        ensures
            r.prompt == prompt,
    {
        HumanMessagePromptTemplate { prompt }
    }
}

/// One part of a conversation prompt.
pub enum MessageOrTemplate {
    /// A fixed message.
    Message(Message),
    /// A message built from a template.
    Template(HumanMessagePromptTemplate),
    /// A place for the messages held under the given variable.
    MessagesPlaceholder(String),
}

/// The parts of a conversation prompt, in order.
pub struct MessageFormatterStruct {
    pub items: Vec<MessageOrTemplate>,
}

} // verus!
