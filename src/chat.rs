//! The chat front end around the registry: its page data, the query it reads
//! on connect, and what it does with each inbound websocket message.

use vstd::prelude::*;

verus! {

/// Data of the home page.
pub struct HomeTemplate {
    pub blabla: i32,
}

/// Data of the chat page.
pub struct ChatTemplate {
    pub id: String,
    pub name: String,
    pub room: String,
}

/// Query of the chat page.
pub struct ChatInputs {
    pub id: String,
    pub name: String,
    pub room: String,
}

/// Query of the websocket endpoint.
#[derive(Clone)]
pub struct WebsocketInput {
    pub room: Option<String>,
    pub message: Option<String>,
    pub id: Option<String>,
    pub name: Option<String>,
}

/// A chat message as sent out.
pub struct WebsocketOutput {
    pub message: String,
    pub id: String,
    pub name: String,
}

impl HomeTemplate {
    /// The home page's data.
    pub fn home() -> (r: Self)
        ensures
            r.blabla == 1,
    {
        HomeTemplate { blabla: 1 }
    }
}

impl ChatTemplate {
    /// The chat page for the given query: the same id, name and room.
    pub fn from_inputs(inputs: &ChatInputs) -> (r: Self)
        ensures
            r.id@ == inputs.id@,
            r.name@ == inputs.name@,
            r.room@ == inputs.room@,
    {
        ChatTemplate { id: inputs.id.clone(), name: inputs.name.clone(), room: inputs.room.clone() }
    }
}

impl WebsocketInput {
    /// The room id and the connection id of a websocket query, when both are
    /// given.
    pub fn keys(&self) -> (r: Option<(String, String)>)
        ensures
            r is Some <==> (self.room is Some && self.id is Some),
            r matches Some((room, id)) ==> room@ == self.room->Some_0@ && id@ == self.id->Some_0@,
    {
        match (&self.room, &self.id) {
            (Some(room), Some(id)) => Some((room.clone(), id.clone())),
            _ => None,
        }
    }
}

/// An inbound websocket message, as far as the chat tells them apart.
pub enum Inbound {
    Text(String),
    Ping(Vec<u8>),
    Pong(Vec<u8>),
    Continuation,
    Close,
    Other,
}

/// What the chat does about an inbound message, within the sender's room.
pub enum Reply {
    /// Send the text to every connection.
    Broadcast(String),
    /// Ping every connection with the bytes.
    PingAll(Vec<u8>),
    /// Answer every connection with a pong carrying the bytes.
    PongAll(Vec<u8>),
    /// Send every connection a fragmented message: a first part, a
    /// continuation and a last part.
    Fragments,
    /// Close the sender's connection, take it out of the room, and stop
    /// reading from it.
    Leave,
    /// Nothing.
    Ignore,
}

/// The chat's reply to an inbound message: text is relayed, a pong is
/// answered with a ping to all and a ping with a pong to all, a continuation
/// with a fragmented message, and a close makes the sender leave.
pub fn reply_to(event: Inbound) -> (r: Reply)
    ensures
        event matches Inbound::Text(t) ==> r == Reply::Broadcast(t),
        event matches Inbound::Pong(b) ==> r == Reply::PingAll(b),
        event matches Inbound::Ping(b) ==> r == Reply::PongAll(b),
        event is Continuation ==> r is Fragments,
        event is Close ==> r is Leave,
        event is Other ==> r is Ignore,
{
    match event {
        Inbound::Text(t) => Reply::Broadcast(t),
        Inbound::Pong(b) => Reply::PingAll(b),
        Inbound::Ping(b) => Reply::PongAll(b),
        Inbound::Continuation => Reply::Fragments,
        Inbound::Close => Reply::Leave,
        Inbound::Other => Reply::Ignore,
    }
}

} // verus!
