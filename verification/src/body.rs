//! The JSON bodies of the requests to the model service.

use vstd::prelude::*;
use vstd::string::*;

use crate::binary64::Binary64;
use crate::chat::{turns, ChatMessage, ReasoningCall, ReasoningPayload, TokenCall, TokenPayload, Turn};
use crate::text::texts;

verus! {

/// A JSON value.
#[derive(Debug)]
pub enum Json {
    Bool(bool),
    Count(usize),
    Real(Binary64),
    Text(String),
    List(Vec<Json>),
    Object(Vec<(String, Json)>),
}

/// What a `Json` holds.
#[verifier::ext_equal]
pub enum Tree {
    Bool(bool),
    Count(usize),
    Real(Binary64),
    Text(Seq<char>),
    List(Seq<Tree>),
    Object(Seq<(Seq<char>, Tree)>),
}

impl Json {
    /// What this value holds.
    pub open spec fn tree(self) -> Tree
        decreases self,
    {
        match self {
            Json::Bool(value) => Tree::Bool(value),
            Json::Count(value) => Tree::Count(value),
            Json::Real(value) => Tree::Real(value),
            Json::Text(value) => Tree::Text(value@),
            Json::List(items) => Tree::List(
                Seq::new(
                    items@.len(),
                    |i: int|
                        if 0 <= i < items@.len() {
                            items@[i].tree()
                        } else {
                            arbitrary()
                        },
                ),
            ),
            Json::Object(members) => Tree::Object(
                Seq::new(
                    members@.len(),
                    |i: int|
                        if 0 <= i < members@.len() {
                            (members@[i].0@, members@[i].1.tree())
                        } else {
                            arbitrary()
                        },
                ),
            ),
        }
    }
}

/// What each value of a list holds.
pub open spec fn trees(items: Seq<Json>) -> Seq<Tree> {
    items.map_values(|item: Json| item.tree())
}

/// What each member of an object holds.
pub open spec fn member_trees(members: Seq<(String, Json)>) -> Seq<(Seq<char>, Tree)> {
    members.map_values(|member: (String, Json)| (member.0@, member.1.tree()))
}

/// A turn of a conversation.
pub open spec fn turn_tree(turn: Turn) -> Tree {
    Tree::Object(
        seq![("role"@, Tree::Text(turn.role)), ("content"@, Tree::Text(turn.content))],
    )
}

/// A conversation.
pub open spec fn messages_tree(messages: Seq<Turn>) -> Tree {
    Tree::List(messages.map_values(|turn: Turn| turn_tree(turn)))
}

/// A list of texts.
pub open spec fn texts_tree(list: Seq<Seq<char>>) -> Tree {
    Tree::List(list.map_values(|text: Seq<char>| Tree::Text(text)))
}

/// The body that has the model think.
pub open spec fn reasoning_tree(call: ReasoningCall) -> Tree {
    Tree::Object(
        seq![
            ("model"@, Tree::Text(call.model)),
            ("messages"@, messages_tree(call.messages)),
            (
                "chat_template_kwargs"@,
                Tree::Object(
                    seq![
                        ("enable_thinking"@, Tree::Bool(call.enable_thinking)),
                        ("preserve_thinking"@, Tree::Bool(call.preserve_thinking)),
                    ],
                ),
            ),
            ("reasoning_effort"@, Tree::Text(call.reasoning_effort)),
            ("thinking_token_budget"@, Tree::Count(call.thinking_token_budget)),
            ("max_tokens"@, Tree::Count(call.max_tokens)),
            ("temperature"@, Tree::Real(call.temperature)),
            ("top_p"@, Tree::Real(call.top_p)),
            ("top_k"@, Tree::Count(call.top_k)),
        ],
    )
}

/// The body that asks how the model goes on.
pub open spec fn token_tree(call: TokenCall) -> Tree {
    Tree::Object(
        seq![
            ("model"@, Tree::Text(call.model)),
            ("messages"@, messages_tree(call.messages)),
            ("add_generation_prompt"@, Tree::Bool(call.add_generation_prompt)),
            ("continue_final_message"@, Tree::Bool(call.continue_final_message)),
            (
                "chat_template_kwargs"@,
                Tree::Object(seq![("enable_thinking"@, Tree::Bool(call.enable_thinking))]),
            ),
            ("max_tokens"@, Tree::Count(call.max_tokens)),
            ("temperature"@, Tree::Real(call.temperature)),
            ("logprobs"@, Tree::Bool(call.logprobs)),
            ("top_logprobs"@, Tree::Count(call.top_logprobs)),
            ("structured_outputs"@, Tree::Object(seq![("choice"@, texts_tree(call.choice))])),
        ],
    )
}

/// A list of values.
fn list(items: Vec<Json>) -> (json: Json)
    ensures
        json.tree() == Tree::List(trees(items@)),
{
    let json: Json = Json::List(items);
    proof {
        assert(json.tree()->List_0 =~= trees(items@));
    }
    json
}

/// An object of members.
fn object(members: Vec<(String, Json)>) -> (json: Json)
    ensures
        json.tree() == Tree::Object(member_trees(members@)),
{
    let json: Json = Json::Object(members);
    proof {
        assert(json.tree()->Object_0 =~= member_trees(members@));
    }
    json
}

/// A text.
fn text(value: &str) -> (json: Json)
    ensures
        json.tree() == Tree::Text(value@),
{
    Json::Text(value.to_owned())
}

/// One more member of an object.
fn put(members: &mut Vec<(String, Json)>, key: &str, value: Json)
    ensures
        member_trees(final(members)@) == member_trees(old(members)@).push((key@, value.tree())),
{
    let ghost before = members@;
    let member: (String, Json) = (key.to_owned(), value);
    members.push(member);
    proof {
        assert(member_trees(members@) =~= member_trees(before).push((key@, value.tree())));
    }
}

/// A conversation.
fn messages_json(messages: &Vec<ChatMessage>) -> (json: Json)
    ensures
        json.tree() == messages_tree(turns(messages@)),
{
    let ghost goal = turns(messages@).map_values(|turn: Turn| turn_tree(turn));
    let mut items: Vec<Json> = Vec::new();
    let mut i: usize = 0;
    while i < messages.len()
        invariant
            goal == turns(messages@).map_values(|turn: Turn| turn_tree(turn)),
            i <= messages.len(),
            trees(items@) == goal.take(i as int),
        decreases messages.len() - i,
    {
        let mut members: Vec<(String, Json)> = Vec::new();
        put(&mut members, "role", text(messages[i].role.as_str()));
        put(&mut members, "content", text(messages[i].content.as_str()));
        let item: Json = object(members);
        proof {
            assert(item.tree()->Object_0 =~= goal[i as int]->Object_0);
            assert(trees(items@.push(item)) =~= trees(items@).push(item.tree()));
            assert(goal.take(i + 1) =~= goal.take(i as int).push(goal[i as int]));
        }
        items.push(item);
        i = i + 1;
    }
    proof {
        assert(goal.take(goal.len() as int) =~= goal);
    }
    list(items)
}

/// A list of texts.
fn texts_json(values: &Vec<String>) -> (json: Json)
    ensures
        json.tree() == texts_tree(texts(values@)),
{
    let ghost goal = texts(values@).map_values(|value: Seq<char>| Tree::Text(value));
    let mut items: Vec<Json> = Vec::new();
    let mut i: usize = 0;
    while i < values.len()
        invariant
            goal == texts(values@).map_values(|value: Seq<char>| Tree::Text(value)),
            i <= values.len(),
            trees(items@) == goal.take(i as int),
        decreases values.len() - i,
    {
        let item: Json = text(values[i].as_str());
        proof {
            assert(item.tree() == goal[i as int]);
            assert(trees(items@.push(item)) =~= trees(items@).push(item.tree()));
            assert(goal.take(i + 1) =~= goal.take(i as int).push(goal[i as int]));
        }
        items.push(item);
        i = i + 1;
    }
    proof {
        assert(goal.take(goal.len() as int) =~= goal);
        assert(texts(values@).map_values(|value: Seq<char>| Tree::Text(value)) =~= texts(
            values@,
        ).map_values(|text: Seq<char>| Tree::Text(text)));
    }
    list(items)
}

impl ReasoningPayload {
    /// The body to send.
    pub fn body(&self) -> (json: Json)
        ensures
            json.tree() == reasoning_tree(self@),
    {
        let mut switches: Vec<(String, Json)> = Vec::new();
        put(&mut switches, "enable_thinking", Json::Bool(self.enable_thinking));
        put(&mut switches, "preserve_thinking", Json::Bool(self.preserve_thinking));
        let switches: Json = object(switches);
        proof {
            assert(switches.tree()->Object_0 =~= reasoning_tree(self@)->Object_0[2].1->Object_0);
        }
        let mut members: Vec<(String, Json)> = Vec::new();
        put(&mut members, "model", text(self.model.as_str()));
        put(&mut members, "messages", messages_json(&self.messages));
        put(&mut members, "chat_template_kwargs", switches);
        put(&mut members, "reasoning_effort", text(self.reasoning_effort.as_str()));
        put(&mut members, "thinking_token_budget", Json::Count(self.thinking_token_budget));
        put(&mut members, "max_tokens", Json::Count(self.max_tokens));
        put(&mut members, "temperature", Json::Real(self.temperature));
        put(&mut members, "top_p", Json::Real(self.top_p));
        put(&mut members, "top_k", Json::Count(self.top_k));
        let json: Json = object(members);
        proof {
            assert(json.tree()->Object_0 =~= reasoning_tree(self@)->Object_0);
        }
        json
    }
}

impl TokenPayload {
    /// The body to send.
    pub fn body(&self) -> (json: Json)
        ensures
            json.tree() == token_tree(self@),
    {
        let mut switches: Vec<(String, Json)> = Vec::new();
        put(&mut switches, "enable_thinking", Json::Bool(self.enable_thinking));
        let mut outputs: Vec<(String, Json)> = Vec::new();
        put(&mut outputs, "choice", texts_json(&self.choice));
        let switches: Json = object(switches);
        let outputs: Json = object(outputs);
        proof {
            assert(switches.tree()->Object_0 =~= token_tree(self@)->Object_0[4].1->Object_0);
            assert(outputs.tree()->Object_0 =~= token_tree(self@)->Object_0[9].1->Object_0);
        }
        let mut members: Vec<(String, Json)> = Vec::new();
        put(&mut members, "model", text(self.model.as_str()));
        put(&mut members, "messages", messages_json(&self.messages));
        put(&mut members, "add_generation_prompt", Json::Bool(self.add_generation_prompt));
        put(&mut members, "continue_final_message", Json::Bool(self.continue_final_message));
        put(&mut members, "chat_template_kwargs", switches);
        put(&mut members, "max_tokens", Json::Count(self.max_tokens));
        put(&mut members, "temperature", Json::Real(self.temperature));
        put(&mut members, "logprobs", Json::Bool(self.logprobs));
        put(&mut members, "top_logprobs", Json::Count(self.top_logprobs));
        put(&mut members, "structured_outputs", outputs);
        let json: Json = object(members);
        proof {
            assert(json.tree()->Object_0 =~= token_tree(self@)->Object_0);
        }
        json
    }
}

/// What a JSON value holds is what it was made of.
pub proof fn law_tree(json: Json)
    ensures
        match json {
            Json::Bool(value) => json.tree() == Tree::Bool(value),
            Json::Count(value) => json.tree() == Tree::Count(value),
            Json::Real(value) => json.tree() == Tree::Real(value),
            Json::Text(value) => json.tree() == Tree::Text(value@),
            Json::List(items) => json.tree() matches Tree::List(held) && held.len() == items@.len()
                && forall|i: int|
                0 <= i < held.len() ==> #[trigger] held[i] == items@[i].tree(),
            Json::Object(members) => json.tree() matches Tree::Object(held) && held.len()
                == members@.len() && forall|i: int|
                0 <= i < held.len() ==> (#[trigger] held[i]).0 == members@[i].0@ && held[i].1
                    == members@[i].1.tree(),
        },
{
}

/// The value under a key of an object.
pub open spec fn holds(tree: Tree, key: Seq<char>, value: Tree) -> bool {
    tree matches Tree::Object(members) && members.contains((key, value))
}

/// The member at a position is held.
proof fn lemma_holds(tree: Tree, i: int)
    requires
        tree is Object,
        0 <= i < tree->Object_0.len(),
    ensures
        holds(tree, tree->Object_0[i].0, tree->Object_0[i].1),
{
}

/// A conversation is written turn by turn, each with its role and content.
pub proof fn law_messages_body(messages: Seq<Turn>)
    ensures
        messages_tree(messages) matches Tree::List(items) && items.len() == messages.len()
            && forall|i: int|
            #![trigger items[i]]
            0 <= i < items.len() ==> items[i]->Object_0.len() == 2 && holds(
                items[i],
                "role"@,
                Tree::Text(messages[i].role),
            ) && holds(items[i], "content"@, Tree::Text(messages[i].content)),
{
    let items = messages_tree(messages)->List_0;
    assert forall|i: int|
        #![trigger items[i]]
        0 <= i < items.len() implies items[i]->Object_0.len() == 2 && holds(
        items[i],
        "role"@,
        Tree::Text(messages[i].role),
    ) && holds(items[i], "content"@, Tree::Text(messages[i].content)) by {
        lemma_holds(items[i], 0);
        lemma_holds(items[i], 1);
    }
}

/// The body that has the model think says under the name of each setting what
/// the call says of it, and nothing more.
pub proof fn law_reasoning_body(call: ReasoningCall)
    ensures
        ({
            let body = reasoning_tree(call);
            &&& body->Object_0.len() == 9
            &&& holds(body, "model"@, Tree::Text(call.model))
            &&& holds(body, "messages"@, messages_tree(call.messages))
            &&& exists|switches: Tree|
                {
                    &&& #[trigger] holds(body, "chat_template_kwargs"@, switches)
                    &&& switches->Object_0.len() == 2
                    &&& holds(switches, "enable_thinking"@, Tree::Bool(call.enable_thinking))
                    &&& holds(switches, "preserve_thinking"@, Tree::Bool(call.preserve_thinking))
                }
            &&& holds(body, "reasoning_effort"@, Tree::Text(call.reasoning_effort))
            &&& holds(body, "thinking_token_budget"@, Tree::Count(call.thinking_token_budget))
            &&& holds(body, "max_tokens"@, Tree::Count(call.max_tokens))
            &&& holds(body, "temperature"@, Tree::Real(call.temperature))
            &&& holds(body, "top_p"@, Tree::Real(call.top_p))
            &&& holds(body, "top_k"@, Tree::Count(call.top_k))
        }),
{
    let body = reasoning_tree(call);
    lemma_holds(body, 0);
    lemma_holds(body, 1);
    lemma_holds(body, 2);
    lemma_holds(body, 3);
    lemma_holds(body, 4);
    lemma_holds(body, 5);
    lemma_holds(body, 6);
    lemma_holds(body, 7);
    lemma_holds(body, 8);
    let switches = body->Object_0[2].1;
    lemma_holds(switches, 0);
    lemma_holds(switches, 1);
}

/// The body that asks how the model goes on says under the name of each setting
/// what the call says of it, and nothing more; the texts that the output is
/// held to stand there in their order.
pub proof fn law_token_body(call: TokenCall)
    ensures
        ({
            let body = token_tree(call);
            &&& body->Object_0.len() == 10
            &&& holds(body, "model"@, Tree::Text(call.model))
            &&& holds(body, "messages"@, messages_tree(call.messages))
            &&& holds(body, "add_generation_prompt"@, Tree::Bool(call.add_generation_prompt))
            &&& holds(body, "continue_final_message"@, Tree::Bool(call.continue_final_message))
            &&& exists|switches: Tree|
                {
                    &&& #[trigger] holds(body, "chat_template_kwargs"@, switches)
                    &&& switches->Object_0.len() == 1
                    &&& holds(switches, "enable_thinking"@, Tree::Bool(call.enable_thinking))
                }
            &&& holds(body, "max_tokens"@, Tree::Count(call.max_tokens))
            &&& holds(body, "temperature"@, Tree::Real(call.temperature))
            &&& holds(body, "logprobs"@, Tree::Bool(call.logprobs))
            &&& holds(body, "top_logprobs"@, Tree::Count(call.top_logprobs))
            &&& exists|outputs: Tree, list: Seq<Tree>|
                {
                    &&& #[trigger] holds(body, "structured_outputs"@, outputs)
                    &&& outputs->Object_0.len() == 1
                    &&& #[trigger] holds(outputs, "choice"@, Tree::List(list))
                    &&& list.len() == call.choice.len()
                    &&& forall|i: int|
                        0 <= i < list.len() ==> #[trigger] list[i] == Tree::Text(call.choice[i])
                }
        }),
{
    let body = token_tree(call);
    lemma_holds(body, 0);
    lemma_holds(body, 1);
    lemma_holds(body, 2);
    lemma_holds(body, 3);
    lemma_holds(body, 4);
    lemma_holds(body, 5);
    lemma_holds(body, 6);
    lemma_holds(body, 7);
    lemma_holds(body, 8);
    lemma_holds(body, 9);
    let switches = body->Object_0[4].1;
    lemma_holds(switches, 0);
    let outputs = body->Object_0[9].1;
    lemma_holds(outputs, 0);
    let list = texts_tree(call.choice)->List_0;
    assert(holds(outputs, "choice"@, Tree::List(list)));
}

} // verus!
