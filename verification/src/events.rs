//! The common data formats for cross-thread events.
//!
//! The game runs one simulation thread beside one reader and one writer per
//! connection. They communicate over mpsc channels: this module defines the
//! items carried on them, and the outbound handle a connected client owns.

use vstd::prelude::*;

use std::sync::mpsc::{Receiver, SendError, Sender};

use crate::message::Message;

verus! {

#[verifier::external_type_specification]
#[verifier::external_body]
#[verifier::reject_recursive_types(T)]
pub struct ExSender<T>(Sender<T>);

#[verifier::external_type_specification]
#[verifier::external_body]
#[verifier::reject_recursive_types(T)]
pub struct ExReceiver<T>(Receiver<T>);

#[verifier::external_type_specification]
#[verifier::external_body]
#[verifier::reject_recursive_types(T)]
pub struct ExSendError<T>(SendError<T>);

/// Relies on `std::sync::mpsc::Sender::clone`: the clone sends into the same
/// channel; nothing about the channel's contents is assumed.
pub assume_specification<T>[ <Sender<T> as Clone>::clone ](s: &Sender<T>) -> Sender<T>;

/// One websocket connected to the game: its id, and the channel down which
/// the simulation pushes outbound text. Sending `None` closes the socket.
pub struct Client {
    /// The unique id for the client.
    pub id: u32,
    /// The channel which carries outbound text to the corresponding
    /// websocket's writer thread.
    pub sender: Sender<Option<String>>,
}

impl Clone for Client {
    /// A second handle to the same websocket.
    fn clone(&self) -> (r: Client)
        ensures
            r.id == self.id,
    {
        Client { id: self.id, sender: self.sender.clone() }
    }
}

impl Client {
    /// Create a new client from a given id and sender channel.
    pub fn new(id: u32, sender: Sender<Option<String>>) -> (r: Client)
        ensures
            r.id == id,
    {
        Client { id, sender }
    }

    /// Send a message to the websocket.
    pub fn send(&self, message: String) -> Result<(), SendError<Option<String>>> {
        channel_send(&self.sender, Some(message))
    }

    /// Close the websocket.
    pub fn close(&self) -> Result<(), SendError<Option<String>>> {
        channel_send(&self.sender, None)
    }
}

/// Relies on `std::sync::mpsc::Sender::send`: it queues the value for the
/// receiver and fails only when every receiver is gone; the channel itself
/// decides nothing else the simulation relies on.
#[verifier::external_body]
fn channel_send(
    sender: &Sender<Option<String>>,
    item: Option<String>,
) -> Result<(), SendError<Option<String>>> {
    sender.send(item)
}

/// A WebSocketEvent is any websocket message which might be sent to the main
/// game loop: clients connecting, disconnecting, and sending messages.
#[derive(Clone)]
pub enum WebSocketEvent {
    ClientCreated { client: Client },
    ClientClosed { client_id: u32 },
    ClientMessage { client_id: u32, message: Message },
}

/// Take one pending event off the inbound queue, without blocking.
///
/// Relies on `std::sync::mpsc::Receiver::try_recv`: it returns a queued
/// event if one is ready and an error both when the queue is empty and when
/// every sender is gone. Which event arrives depends on the other threads,
/// so nothing is assumed about the result.
#[verifier::external_body]
pub(crate) fn try_recv_event(queue: &Receiver<WebSocketEvent>) -> Option<WebSocketEvent> {
    match queue.try_recv() {
        Ok(event) => Some(event),
        Err(_) => None,
    }
}

} // verus!
