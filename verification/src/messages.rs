//! The typed messages that cross the wire.
//!
//! A `ClientPacket` travels from a remote agent to the aggregator and names
//! the agent it originates from; a `ServerPacket` travels the other way and
//! either targets one agent by name or broadcasts to all of them.
//! Each type has a mathematical view whose string fields are `Seq<char>`,
//! so that contracts can state deep structural equality.

use vstd::prelude::*;
use vstd::string::StringExecFns;

verus! {

/// An event produced by the remote process an agent is embedded in.
#[derive(Debug, Clone, PartialEq, Eq)]
pub enum ClientEvent {
    GameStart { map: String, mode: String },
    ClientConnecting { name: String, uid: String },
    ClientDisconnected { name: String, uid: String },
    ClientChat { name: String, uid: String, message: String, is_team: bool },
}

/// Mathematical model of a `ClientEvent`.
#[verifier::ext_equal]
pub enum ClientEventView {
    GameStart { map: Seq<char>, mode: Seq<char> },
    ClientConnecting { name: Seq<char>, uid: Seq<char> },
    ClientDisconnected { name: Seq<char>, uid: Seq<char> },
    ClientChat { name: Seq<char>, uid: Seq<char>, message: Seq<char>, is_team: bool },
}

impl View for ClientEvent {
    type V = ClientEventView;

    open spec fn view(&self) -> ClientEventView {
        match self {
            ClientEvent::GameStart { map, mode } => ClientEventView::GameStart {
                map: map@,
                mode: mode@,
            },
            ClientEvent::ClientConnecting { name, uid } => ClientEventView::ClientConnecting {
                name: name@,
                uid: uid@,
            },
            ClientEvent::ClientDisconnected { name, uid } => ClientEventView::ClientDisconnected {
                name: name@,
                uid: uid@,
            },
            ClientEvent::ClientChat { name, uid, message, is_team } => ClientEventView::ClientChat {
                name: name@,
                uid: uid@,
                message: message@,
                is_team: *is_team,
            },
        }
    }
}

/// A packet sent by a remote agent, naming the remote it originates from.
#[derive(Debug, Clone, PartialEq, Eq)]
pub struct ClientPacket {
    pub name: String,
    pub event: ClientEvent,
}

/// Mathematical model of a `ClientPacket`.
#[verifier::ext_equal]
pub struct ClientPacketView {
    pub name: Seq<char>,
    pub event: ClientEventView,
}

impl View for ClientPacket {
    type V = ClientPacketView;

    open spec fn view(&self) -> ClientPacketView {
        ClientPacketView { name: self.name@, event: self.event@ }
    }
}

/// A command issued by the aggregator.
#[derive(Debug, Clone, PartialEq, Eq)]
pub enum ServerEvent {
    ExecCommand { command: String },
}

/// Mathematical model of a `ServerEvent`.
#[verifier::ext_equal]
pub enum ServerEventView {
    ExecCommand { command: Seq<char> },
}

impl View for ServerEvent {
    type V = ServerEventView;

    open spec fn view(&self) -> ServerEventView {
        match self {
            ServerEvent::ExecCommand { command } => ServerEventView::ExecCommand {
                command: command@,
            },
        }
    }
}

/// A packet sent by the aggregator. `name: None` broadcasts to every
/// connected agent; `name: Some(x)` targets only the agent whose identity
/// equals `x` (enforced by receiver-side filtering).
#[derive(Debug, Clone, PartialEq, Eq)]
pub struct ServerPacket {
    pub name: Option<String>,
    pub event: ServerEvent,
}

/// Mathematical model of a `ServerPacket`.
#[verifier::ext_equal]
pub struct ServerPacketView {
    pub name: Option<Seq<char>>,
    pub event: ServerEventView,
}

impl View for ServerPacket {
    type V = ServerPacketView;

    open spec fn view(&self) -> ServerPacketView {
        ServerPacketView {
            name: match &self.name {
                Some(n) => Some(n@),
                None => None,
            },
            event: self.event@,
        }
    }
}

/// The one-line description of a `ClientEvent`.
pub open spec fn spec_describe_client_event(e: ClientEventView) -> Seq<char> {
    match e {
        ClientEventView::GameStart { map, mode } => "GameStart map="@ + map + ", mode="@ + mode,
        ClientEventView::ClientConnecting { name, uid } => "ClientConnecting name="@ + name
            + ", uid="@ + uid,
        ClientEventView::ClientDisconnected { name, uid } => "ClientDisconnected name="@ + name
            + ", uid="@ + uid,
        ClientEventView::ClientChat { name, uid, message, .. } => "ClientChat name="@ + name
            + ", uid="@ + uid + ", message="@ + message,
    }
}

/// The one-line description of a `ServerEvent`.
pub open spec fn spec_describe_server_event(e: ServerEventView) -> Seq<char> {
    match e {
        ServerEventView::ExecCommand { command } => "ExecCommand command="@ + command,
    }
}

impl ClientEvent {
    /// One line naming the event and its fields, for logs and notices.
    pub fn describe(&self) -> (r: String)
        ensures
            r@ == spec_describe_client_event(self@),
    {
        match self {
            ClientEvent::GameStart { map, mode } => {
                let mut s = "GameStart map=".to_owned();
                s.append(map.as_str());
                s.append(", mode=");
                s.append(mode.as_str());
                s
            },
            ClientEvent::ClientConnecting { name, uid } => {
                let mut s = "ClientConnecting name=".to_owned();
                s.append(name.as_str());
                s.append(", uid=");
                s.append(uid.as_str());
                s
            },
            ClientEvent::ClientDisconnected { name, uid } => {
                let mut s = "ClientDisconnected name=".to_owned();
                s.append(name.as_str());
                s.append(", uid=");
                s.append(uid.as_str());
                s
            },
            ClientEvent::ClientChat { name, uid, message, .. } => {
                let mut s = "ClientChat name=".to_owned();
                s.append(name.as_str());
                s.append(", uid=");
                s.append(uid.as_str());
                s.append(", message=");
                s.append(message.as_str());
                s
            },
        }
    }
}

impl ServerEvent {
    /// One line naming the command carried by the event.
    pub fn describe(&self) -> (r: String)
        ensures
            r@ == spec_describe_server_event(self@),
    {
        match self {
            ServerEvent::ExecCommand { command } => {
                let mut s = "ExecCommand command=".to_owned();
                s.append(command.as_str());
                s
            },
        }
    }
}

} // verus!
