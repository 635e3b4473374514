//! The decisions of the feed client's connection loop, as a state machine:
//! the caller performs the action that each step returns (connecting,
//! subscribing, reading, sleeping) and reports what happened as the next
//! event.
use crate::feed::RawMessage;
use crate::market::WsError;
use vstd::prelude::*;

verus! {

/// Where the connection loop stands.
#[derive(Debug, Clone, Copy, PartialEq, Eq, Structural)]
pub enum ClientState {
    /// Opening the connection.
    Connecting,
    /// Connected; the subscription request is being sent.
    Subscribing,
    /// Subscribed; frames are being read.
    Streaming,
    /// The consumer is gone; the loop has ended.
    Stopped,
}

/// What happened since the last step.
#[derive(Debug)]
pub enum ClientEvent {
    /// The connection attempt failed.
    ConnectFailed,
    /// The connection is open.
    Connected,
    /// Sending the subscription request failed.
    SubscribeFailed,
    /// The subscription request was sent, or the adapter has none.
    Subscribed,
    /// A text frame, as the adapter parsed it.
    Parsed(Result<Option<RawMessage>, WsError>),
    /// A ping, or a frame of another kind that carries nothing to parse.
    OtherFrame,
    /// The server closed the connection.
    Closed,
    /// Reading failed at the transport level.
    TransportError,
    /// The stream of frames ended.
    StreamEnded,
    /// A message could not be handed on: the consumer is gone.
    ForwardFailed,
}

/// What the caller should do next.
#[derive(Debug)]
pub enum ClientAction {
    /// Sleep for the current backoff, grow it, and connect again.
    Backoff,
    /// Send the adapter's subscription request, if it has one.
    Subscribe,
    /// Set the backoff back to its minimum and start reading frames.
    ResetBackoff,
    /// Hand the message on to the consumer, then read the next frame.
    Forward(RawMessage),
    /// Report the parse error, then read the next frame.
    Report(WsError),
    /// Read the next frame.
    ReadNext,
    /// End the loop.
    Stop,
    /// Nothing: the event cannot happen in this state.
    Ignore,
}

/// The next state and action for an event. Failures to connect or to
/// subscribe, and a connection that closes, fails or ends, back off and
/// reconnect; a successful subscription resets the backoff and starts
/// streaming; parsed messages are forwarded, empty parses skipped and parse
/// errors reported while streaming continues; only a consumer that is gone
/// stops the loop, and a stopped loop stays stopped.
pub open spec fn step_spec(state: ClientState, event: ClientEvent) -> (ClientState, ClientAction) {
    match (state, event) {
        (ClientState::Stopped, _) => (ClientState::Stopped, ClientAction::Stop),
        (ClientState::Connecting, ClientEvent::ConnectFailed) => (ClientState::Connecting, ClientAction::Backoff),
        (ClientState::Connecting, ClientEvent::Connected) => (ClientState::Subscribing, ClientAction::Subscribe),
        (ClientState::Subscribing, ClientEvent::SubscribeFailed) => (ClientState::Connecting, ClientAction::Backoff),
        (ClientState::Subscribing, ClientEvent::Subscribed) => (ClientState::Streaming, ClientAction::ResetBackoff),
        (ClientState::Streaming, ClientEvent::Parsed(Ok(Some(m)))) => (ClientState::Streaming, ClientAction::Forward(m)),
        (ClientState::Streaming, ClientEvent::Parsed(Ok(None))) => (ClientState::Streaming, ClientAction::ReadNext),
        (ClientState::Streaming, ClientEvent::Parsed(Err(e))) => (ClientState::Streaming, ClientAction::Report(e)),
        (ClientState::Streaming, ClientEvent::OtherFrame) => (ClientState::Streaming, ClientAction::ReadNext),
        (ClientState::Streaming, ClientEvent::Closed) => (ClientState::Connecting, ClientAction::Backoff),
        (ClientState::Streaming, ClientEvent::TransportError) => (ClientState::Connecting, ClientAction::Backoff),
        (ClientState::Streaming, ClientEvent::StreamEnded) => (ClientState::Connecting, ClientAction::Backoff),
        (ClientState::Streaming, ClientEvent::ForwardFailed) => (ClientState::Stopped, ClientAction::Stop),
        (s, _) => (s, ClientAction::Ignore),
    }
}

/// One step of the connection loop.
pub fn step(state: ClientState, event: ClientEvent) -> (r: (ClientState, ClientAction))
    ensures
        r == step_spec(state, event),
{
    match (state, event) {
        (ClientState::Stopped, _) => (ClientState::Stopped, ClientAction::Stop),
        (ClientState::Connecting, ClientEvent::ConnectFailed) => (ClientState::Connecting, ClientAction::Backoff),
        (ClientState::Connecting, ClientEvent::Connected) => (ClientState::Subscribing, ClientAction::Subscribe),
        (ClientState::Subscribing, ClientEvent::SubscribeFailed) => (ClientState::Connecting, ClientAction::Backoff),
        (ClientState::Subscribing, ClientEvent::Subscribed) => (ClientState::Streaming, ClientAction::ResetBackoff),
        (ClientState::Streaming, ClientEvent::Parsed(Ok(Some(m)))) => (ClientState::Streaming, ClientAction::Forward(m)),
        (ClientState::Streaming, ClientEvent::Parsed(Ok(None))) => (ClientState::Streaming, ClientAction::ReadNext),
        (ClientState::Streaming, ClientEvent::Parsed(Err(e))) => (ClientState::Streaming, ClientAction::Report(e)),
        (ClientState::Streaming, ClientEvent::OtherFrame) => (ClientState::Streaming, ClientAction::ReadNext),
        (ClientState::Streaming, ClientEvent::Closed) => (ClientState::Connecting, ClientAction::Backoff),
        (ClientState::Streaming, ClientEvent::TransportError) => (ClientState::Connecting, ClientAction::Backoff),
        (ClientState::Streaming, ClientEvent::StreamEnded) => (ClientState::Connecting, ClientAction::Backoff),
        (ClientState::Streaming, ClientEvent::ForwardFailed) => (ClientState::Stopped, ClientAction::Stop),
        (s, _) => (s, ClientAction::Ignore),
    }
}

/// The loop never gives up on the feed: it stops only when the consumer is
/// gone, and once stopped it stays stopped; every back-off leads to a new
/// connection attempt; and the backoff goes back to its minimum exactly when
/// a subscription succeeds.
pub proof fn lemma_only_consumer_stops(state: ClientState, event: ClientEvent)
    ensures
        step_spec(state, event).0 == ClientState::Stopped <==> (state == ClientState::Stopped || (state
            == ClientState::Streaming && event is ForwardFailed)),
        step_spec(state, event).1 is Stop <==> step_spec(state, event).0 == ClientState::Stopped,
        step_spec(state, event).1 is Backoff ==> step_spec(state, event).0 == ClientState::Connecting,
        step_spec(state, event).1 is ResetBackoff <==> (state == ClientState::Subscribing && event is Subscribed),
{
}

/// While streaming, the loop keeps streaming: only the connection closing,
/// failing or ending leaves it (to reconnect after a back-off), and only a
/// consumer that is gone ends it. Pings and other frames, empty parses and
/// parse errors all leave it streaming: a parsed message is handed on, a
/// parse error is reported, and anything else just reads the next frame.
pub proof fn lemma_streaming_continues(event: ClientEvent)
    ensures
        !(event is Closed || event is TransportError || event is StreamEnded || event is ForwardFailed)
            ==> step_spec(ClientState::Streaming, event).0 == ClientState::Streaming,
        event is Closed || event is TransportError || event is StreamEnded ==> step_spec(
            ClientState::Streaming,
            event,
        ).0 == ClientState::Connecting && step_spec(ClientState::Streaming, event).1 is Backoff,
        event is ForwardFailed ==> step_spec(ClientState::Streaming, event).0 == ClientState::Stopped,
        event is OtherFrame ==> step_spec(ClientState::Streaming, event).1 is ReadNext,
{
}

/// Every parse result keeps the loop streaming: a message is handed on
/// unchanged, an empty parse reads the next frame, and a parse error is
/// reported as it came.
pub proof fn lemma_parse_results(r: Result<Option<RawMessage>, WsError>)
    ensures
        step_spec(ClientState::Streaming, ClientEvent::Parsed(r)).0 == ClientState::Streaming,
        r matches Ok(Some(m)) ==> step_spec(ClientState::Streaming, ClientEvent::Parsed(r)).1 == ClientAction::Forward(m),
        r matches Ok(None) ==> step_spec(ClientState::Streaming, ClientEvent::Parsed(r)).1 is ReadNext,
        r matches Err(e) ==> step_spec(ClientState::Streaming, ClientEvent::Parsed(r)).1 == ClientAction::Report(e),
{
}

} // verus!
