//! Data model of the chat service: what clients ask for, what the server
//! announces, and the stored message record. The wire encoding and the
//! socket handling live with the surrounding application.

use vstd::prelude::*;

verus! {

/// A request sent by a connected client.
#[derive(Debug)]
pub enum ClientMessage {
    SetUsername { username: String },
    JoinRoom { room: String },
    SendMessage { content: String },
    PrivateMessage { to: String, content: String },
    ListRooms,
}

/// An event pushed by the server to connected clients.
#[derive(Debug, Clone)]
pub enum ServerMessage {
    Message { username: String, content: String, timestamp: String, room: String },
    PrivateMessage { from: String, content: String, timestamp: String },
    SystemMessage { content: String },
    UserJoined { username: String, room: String },
    UserLeft { username: String, room: String },
    RoomsList { rooms: Vec<String> },
}

/// A chat message as stored in history.
#[derive(Debug, Clone)]
pub struct ChatMessage {
    pub id: String,
    pub room: String,
    pub username: String,
    pub content: String,
    pub timestamp: String,
    pub is_private: bool,
}

} // verus!
