use vstd::prelude::*;
use crate::session::{
    fresh_uuid, parse_uuid, session_file_name, session_id_text_round_trip, uuid_text,
    uuid_text_value, uuid_to_string, AgentRuntimeError,
};

verus! {

/// The value of one tool-call argument: a JSON string's text, or the JSON
/// text of any other value.
#[derive(Debug, Clone, PartialEq, Eq)]
pub enum ArgValue {
    Text(String),
    Json(String),
}

/// A tool call that the model asked for.
#[derive(Debug, Clone, PartialEq, Eq)]
pub struct ToolCall {
    /// The tool's name.
    pub name: String,
    /// The arguments as compact JSON text.
    pub arguments: String,
    /// The arguments' entries when they form a JSON object, in the object's
    /// order.
    pub entries: Option<Vec<(String, ArgValue)>>,
}

/// What the agent reports while it answers.
#[derive(Debug, Clone, PartialEq, Eq)]
pub enum AgentEvent {
    Token(String),
    ToolCall(ToolCall),
    ToolCallDone,
    Done,
    Error(String),
}

/// One item of the model's answer stream, with the turn's history messages
/// of type `M`.
#[derive(Debug)]
pub enum StreamItem<M> {
    /// A piece of the assistant's text.
    Text(String),
    /// The assistant calls a tool.
    ToolCall(ToolCall),
    /// Other assistant content.
    OtherAssistant,
    /// A tool's result came back.
    ToolResult,
    /// The final response, with the messages of the turn if it has them.
    Final(Option<Vec<M>>),
    /// Any other item.
    Other,
    /// The stream failed with this message.
    Failed(String),
}

/// What to do after one stream item.
#[derive(Debug, Clone, PartialEq, Eq)]
pub enum ChatStep {
    /// Report the event and go on.
    Emit(AgentEvent),
    /// Report the event and end the answer with an error.
    Abort(AgentEvent),
    /// Report nothing and go on.
    Nothing,
}

/// The step that a stream item calls for.
pub open spec fn step_for<M>(item: StreamItem<M>) -> ChatStep {
    match item {
        StreamItem::Text(t) => ChatStep::Emit(AgentEvent::Token(t)),
        StreamItem::ToolCall(c) => ChatStep::Emit(AgentEvent::ToolCall(c)),
        StreamItem::ToolResult => ChatStep::Emit(AgentEvent::ToolCallDone),
        StreamItem::Failed(e) => ChatStep::Abort(AgentEvent::Error(e)),
        _ => ChatStep::Nothing,
    }
}

/// The messages that a stream item adds to the history.
pub open spec fn added_history<M>(item: StreamItem<M>) -> Seq<M> {
    match item {
        StreamItem::Final(Some(h)) => h@,
        _ => Seq::empty(),
    }
}

/// The history after a run of stream items.
pub open spec fn history_after<M>(history: Seq<M>, items: Seq<StreamItem<M>>) -> Seq<M>
    decreases items.len(),
{
    if items.len() == 0 {
        history
    } else {
        history_after(history, items.drop_last()) + added_history(items.last())
    }
}

/// A chat session: its id and the messages exchanged so far.
#[derive(Debug)]
pub struct Session<M> {
    pub session_id: u128,
    pub history: Vec<M>,
}

impl<M> Session<M> {
    /// A new session with an empty history and a fresh version-7 id.
    pub fn new() -> (s: Self)
        ensures
            s.history@ == Seq::<M>::empty(),
            (s.session_id >> 76u128) & 0xfu128 == 7,
            (s.session_id >> 62u128) & 0x3u128 == 2,
    {
        let session_id = fresh_uuid();
        Session { session_id, history: Vec::new() }
    }

    /// Handles one item of the answer stream: says which event to report
    /// and keeps the messages of a final response.
    pub fn on_stream_item(&mut self, item: StreamItem<M>) -> (step: ChatStep)
        ensures
            step == step_for(item),
            final(self).history@ == old(self).history@ + added_history(item),
            final(self).session_id == old(self).session_id,
    {
        let ghost whole = item;
        match item {
            StreamItem::Text(t) => ChatStep::Emit(AgentEvent::Token(t)),
            StreamItem::ToolCall(c) => ChatStep::Emit(AgentEvent::ToolCall(c)),
            StreamItem::ToolResult => ChatStep::Emit(AgentEvent::ToolCallDone),
            StreamItem::Failed(e) => ChatStep::Abort(AgentEvent::Error(e)),
            StreamItem::Final(h) => {
                match h {
                    Some(mut messages) => {
                        self.history.append(&mut messages);
                    },
                    None => {
                        assert(self.history@ + Seq::<M>::empty() == self.history@);
                    },
                }
                ChatStep::Nothing
            },
            _ => {
                assert(self.history@ + Seq::<M>::empty() == self.history@);
                ChatStep::Nothing
            },
        }
    }

    /// The step at the end of the answer stream: report that the answer is
    /// done.
    pub fn on_stream_end(&self) -> (step: ChatStep)
        ensures
            step == ChatStep::Emit(AgentEvent::Done),
    {
        ChatStep::Emit(AgentEvent::Done)
    }

    /// The name of the file the session is saved in: its id's hyphenated
    /// text followed by `.json`.
    pub fn file_name(&self) -> (name: String)
        ensures
            name@ == session_file_name(self.session_id),
    {
        let mut name = uuid_to_string(self.session_id);
        name.append(".json");
        name
    }

    /// Takes over a session read back from its file.
    pub fn restore(&mut self, session_id: u128, history: Vec<M>)
        ensures
            final(self).session_id == session_id,
            final(self).history == history,
    {
        self.session_id = session_id;
        self.history = history;
    }
}

/// Reads a session id in any form that `Uuid::from_str` accepts; the error
/// when it is no UUID.
pub fn parse_session_id(session_id: &str) -> (r: Result<u128, AgentRuntimeError>)
    ensures
        match r {
            Ok(id) => uuid_text_value(session_id@) == Some(id as nat),
            Err(e) => uuid_text_value(session_id@) is None && e is Uuid,
        },
{
    match parse_uuid(session_id) {
        Ok(id) => Ok(id),
        Err(e) => Err(AgentRuntimeError::Uuid(e)),
    }
}

/// The id a session is loaded under and the file it is read from.
pub fn session_to_load(session_id: &str) -> (r: Result<(u128, String), AgentRuntimeError>)
    ensures
        match r {
            Ok((id, name)) => uuid_text_value(session_id@) == Some(id as nat) && name@
                == session_file_name(id),
            Err(e) => uuid_text_value(session_id@) is None && e is Uuid,
        },
{
    let id = parse_session_id(session_id)?;
    let mut name = uuid_to_string(id);
    name.append(".json");
    Ok((id, name))
}

/// Loading a saved session by the text of its id reads the very file that
/// saving it wrote, under the same id.
pub proof fn saved_session_loads_back(id: u128)
    ensures
        uuid_text_value(uuid_text(id)) == Some(id as nat),
        forall|loaded: u128|
            uuid_text_value(uuid_text(id)) == Some(loaded as nat) ==> loaded == id
                && session_file_name(loaded) == session_file_name(id),
{
    session_id_text_round_trip(id);
}

/// An answer reports `Done` exactly once, at its end: no stream item's step
/// reports it, and the stream-end step does.
pub proof fn done_only_at_stream_end<M>(item: StreamItem<M>)
    ensures
        step_for(item) != ChatStep::Emit(AgentEvent::Done),
        step_for(item) != ChatStep::Abort(AgentEvent::Done),
{
}

/// A final response adds every message of its turn to the history, in
/// order, after the messages already there; any other item adds none.
pub proof fn final_response_keeps_every_message<M>(history: Seq<M>, item: StreamItem<M>)
    ensures
        history_after(history, seq![item]).take(history.len() as int) == history,
        item matches StreamItem::Final(Some(h)) ==> {
            &&& history_after(history, seq![item]).len() == history.len() + h@.len()
            &&& forall|i: int|
                0 <= i < h@.len() ==> history_after(history, seq![item])[history.len() + i]
                    == h@[i]
        },
        !(item matches StreamItem::Final(Some(_))) ==> history_after(history, seq![item])
            == history,
{
    assert(seq![item].drop_last() =~= Seq::<StreamItem<M>>::empty());
    assert(seq![item].last() == item);
    assert(history_after(history, Seq::<StreamItem<M>>::empty()) == history);
    let r = history_after(history, seq![item]);
    assert(r == history + added_history(item));
    assert(r.take(history.len() as int) =~= history);
    if !(item matches StreamItem::Final(Some(_))) {
        assert(r =~= history);
    }
}

/// The history only grows while an answer streams in: after any run of
/// items it starts with the history before them.
pub proof fn history_only_grows<M>(history: Seq<M>, items: Seq<StreamItem<M>>)
    ensures
        history_after(history, items).len() >= history.len(),
        history_after(history, items).take(history.len() as int) == history,
    decreases items.len(),
{
    if items.len() > 0 {
        history_only_grows(history, items.drop_last());
        let before = history_after(history, items.drop_last());
        assert((before + added_history(items.last())).take(history.len() as int)
            == before.take(history.len() as int));
    }
}

} // verus!
