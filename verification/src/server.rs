//! What goes out to those who listen: the messages, and the course of one
//! WebSocket session.

use serde_json::Value;
use vstd::prelude::*;

use crate::json;
use crate::json::Json;
use crate::playback::Event;

verus! {

/// A message to a WebSocket client. A snapshot comes as the JSON value of it.
#[derive(Debug)]
pub enum Message {
    /// The full state, on connect or to resynchronise.
    Snapshot(Value),
    /// The track changed; the full state.
    MusicChange(Value),
    /// The second ticked.
    TimeChange { playing: bool, current_sec: u64, position_ms: u64, line_index: Option<usize> },
    /// The app quit, or the play record was cleared.
    Idle,
}

/// An index as JSON.
pub open spec fn index_tree(i: Option<usize>) -> Json {
    match i {
        Some(n) => Json::Unsigned(n as u64),
        None => Json::Null,
    }
}

impl Message {
    /// The JSON of a message.
    pub open spec fn tree(self) -> Json {
        match self {
            Message::Snapshot(data) => Json::Object(
                map!["type"@ => Json::Text("snapshot"@), "data"@ => json::json_tree(data)],
            ),
            Message::MusicChange(data) => Json::Object(
                map!["type"@ => Json::Text("musicchange"@), "data"@ => json::json_tree(data)],
            ),
            Message::TimeChange { playing, current_sec, position_ms, line_index } => Json::Object(
                map![
                    "type"@ => Json::Text("timechange"@),
                    "playing"@ => Json::Bool(playing),
                    "currentSec"@ => Json::Unsigned(current_sec),
                    "positionMs"@ => Json::Unsigned(position_ms),
                    "lineIndex"@ => index_tree(line_index),
                ],
            ),
            Message::Idle => Json::Object(map!["type"@ => Json::Text("idle"@)]),
        }
    }

    /// The JSON value of a message.
    pub fn into_value(self) -> (r: Value)
        ensures
            json::json_tree(r) == self.tree(),
    {
        proof {
            reveal_strlit("type");
            reveal_strlit("data");
            reveal_strlit("playing");
            reveal_strlit("currentSec");
            reveal_strlit("positionMs");
            reveal_strlit("lineIndex");
            assert("type"@.len() == 4 && "type"@[0] == 't');
            assert("data"@.len() == 4 && "data"@[0] == 'd');
            assert("playing"@.len() == 7);
            assert("currentSec"@.len() == 10 && "currentSec"@[0] == 'c');
            assert("positionMs"@.len() == 10 && "positionMs"@[0] == 'p');
            assert("lineIndex"@.len() == 9);
            reveal_with_fuel(json::members, 6);
        }
        match self {
            Message::Snapshot(data) => json::object(
                vec![("type", json::string("snapshot")), ("data", data)],
            ),
            Message::MusicChange(data) => json::object(
                vec![("type", json::string("musicchange")), ("data", data)],
            ),
            Message::TimeChange { playing, current_sec, position_ms, line_index } => {
                let index: Value = match line_index {
                    Some(n) => json::unsigned(n as u64),
                    None => json::null(),
                };
                json::object(
                    vec![
                        ("type", json::string("timechange")),
                        ("playing", json::boolean(playing)),
                        ("currentSec", json::unsigned(current_sec)),
                        ("positionMs", json::unsigned(position_ms)),
                        ("lineIndex", index),
                    ],
                )
            },
            Message::Idle => json::object(vec![("type", json::string("idle"))]),
        }
    }

    /// The text of a message.
    pub fn into_text(self) -> (r: String)
        ensures
            r@ == json::json_text(self.tree()),
    {
        json::to_text(&self.into_value())
    }
}

/// The message that an event goes out as. `data` is the JSON value of the
/// snapshot that goes with the event.
pub fn message_of(event: Event, data: Value) -> (r: Message)
    ensures
        match event {
            Event::MusicChange => r == Message::MusicChange(data),
            Event::TimeChange { playing, current_sec, position_ms, line_index } => r == (
            Message::TimeChange { playing, current_sec, position_ms, line_index }),
            Event::Idle => r is Idle,
        },
{
    match event {
        Event::MusicChange => Message::MusicChange(data),
        Event::TimeChange { playing, current_sec, position_ms, line_index } => Message::TimeChange {
            playing,
            current_sec,
            position_ms,
            line_index,
        },
        Event::Idle => Message::Idle,
    }
}

/// What happens to a WebSocket session.
#[derive(Debug)]
pub enum Input {
    /// The client connected.
    Connected,
    /// An event was broadcast.
    Event(String),
    /// The client fell behind and missed events.
    Lagged,
    /// There will be no more events.
    EventsEnded,
    /// The client closed the session, failed, or is gone.
    ClientGone,
    /// The client sent something. This endpoint takes no commands.
    ClientSpoke,
    /// A message could not be sent.
    SendFailed,
}

/// What a WebSocket session does about it.
#[derive(Debug)]
pub enum Action {
    /// Send this text.
    Send(String),
    /// Send the latest snapshot.
    SendSnapshot,
    /// Do nothing.
    Wait,
    /// End the session.
    Stop,
}

/// Decides what a WebSocket session does. A client gets a snapshot when it
/// connects and whenever it fell behind, and every other event as it is.
pub fn on_input(input: Input) -> (r: Action)
    ensures
        match input {
            Input::Connected => r is SendSnapshot,
            Input::Event(text) => r == Action::Send(text),
            Input::Lagged => r is SendSnapshot,
            Input::EventsEnded => r is Stop,
            Input::ClientGone => r is Stop,
            Input::ClientSpoke => r is Wait,
            Input::SendFailed => r is Stop,
        },
{
    match input {
        Input::Connected => Action::SendSnapshot,
        Input::Event(text) => Action::Send(text),
        Input::Lagged => Action::SendSnapshot,
        Input::EventsEnded => Action::Stop,
        Input::ClientGone => Action::Stop,
        Input::ClientSpoke => Action::Wait,
        Input::SendFailed => Action::Stop,
    }
}

/// The members of a message: its type, what belongs to it, and nothing else.
pub proof fn law_message_members(
    data: Value,
    playing: bool,
    current_sec: u64,
    position_ms: u64,
    line_index: Option<usize>,
)
    ensures
        ({
            let m = Message::Snapshot(data).tree();
            &&& json::member(m, "type"@) == Some(Json::Text("snapshot"@))
            &&& json::member(m, "data"@) == Some(json::json_tree(data))
            &&& m matches Json::Object(o) && o.dom() =~= set!["type"@, "data"@]
        }),
        ({
            let m = Message::MusicChange(data).tree();
            &&& json::member(m, "type"@) == Some(Json::Text("musicchange"@))
            &&& json::member(m, "data"@) == Some(json::json_tree(data))
            &&& m matches Json::Object(o) && o.dom() =~= set!["type"@, "data"@]
        }),
        ({
            let m = (Message::TimeChange { playing, current_sec, position_ms, line_index }).tree();
            &&& json::member(m, "type"@) == Some(Json::Text("timechange"@))
            &&& json::member(m, "playing"@) == Some(Json::Bool(playing))
            &&& json::member(m, "currentSec"@) == Some(Json::Unsigned(current_sec))
            &&& json::member(m, "positionMs"@) == Some(Json::Unsigned(position_ms))
            &&& line_index matches Some(i) ==> json::member(m, "lineIndex"@) == Some(
                Json::Unsigned(i as u64),
            )
            &&& line_index is None ==> json::member(m, "lineIndex"@) == Some(Json::Null)
            &&& m matches Json::Object(o) && o.dom() =~= set![
                "type"@,
                "playing"@,
                "currentSec"@,
                "positionMs"@,
                "lineIndex"@,
            ]
        }),
        json::member(Message::Idle.tree(), "type"@) == Some(Json::Text("idle"@)),
        Message::Idle.tree() matches Json::Object(o) && o.dom() =~= set!["type"@],
{
    reveal_strlit("type");
    reveal_strlit("data");
    reveal_strlit("playing");
    reveal_strlit("currentSec");
    reveal_strlit("positionMs");
    reveal_strlit("lineIndex");
    assert("type"@.len() == 4 && "type"@[0] == 't');
    assert("data"@.len() == 4 && "data"@[0] == 'd');
    assert("playing"@.len() == 7);
    assert("currentSec"@.len() == 10 && "currentSec"@[0] == 'c');
    assert("positionMs"@.len() == 10 && "positionMs"@[0] == 'p');
    assert("lineIndex"@.len() == 9);
}

} // verus!
