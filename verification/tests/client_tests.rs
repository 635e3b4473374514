use ordust::client::{step, ClientAction, ClientEvent, ClientState};
use ordust::feed::RawMessage;
use ordust::market::{TradeTick, WsError};
use ordust::{Price, Qty, Timestamp};

fn tick() -> RawMessage {
    RawMessage::Trade(TradeTick { price: Price(1), qty: Qty(2), timestamp: Timestamp(3), is_buyer_maker: false })
}

#[test]
fn happy_path_connects_subscribes_and_forwards() {
    let (s, a) = step(ClientState::Connecting, ClientEvent::Connected);
    assert_eq!(s, ClientState::Subscribing);
    assert!(matches!(a, ClientAction::Subscribe));
    let (s, a) = step(s, ClientEvent::Subscribed);
    assert_eq!(s, ClientState::Streaming);
    assert!(matches!(a, ClientAction::ResetBackoff));
    let (s, a) = step(s, ClientEvent::Parsed(Ok(Some(tick()))));
    assert_eq!(s, ClientState::Streaming);
    match a {
        ClientAction::Forward(RawMessage::Trade(t)) => assert_eq!(t.qty, Qty(2)),
        other => panic!("expected a forward, got {other:?}"),
    }
    let (s, a) = step(s, ClientEvent::Parsed(Ok(None)));
    assert_eq!(s, ClientState::Streaming);
    assert!(matches!(a, ClientAction::ReadNext));
    let (_, a) = step(s, ClientEvent::Parsed(Err(WsError::ParseError("bad".to_string()))));
    assert!(matches!(a, ClientAction::Report(WsError::ParseError(_))));
    let (_, a) = step(ClientState::Streaming, ClientEvent::OtherFrame);
    assert!(matches!(a, ClientAction::ReadNext));
}

#[test]
fn failures_back_off_and_reconnect() {
    let (s, a) = step(ClientState::Connecting, ClientEvent::ConnectFailed);
    assert_eq!(s, ClientState::Connecting);
    assert!(matches!(a, ClientAction::Backoff));
    let (s, a) = step(ClientState::Subscribing, ClientEvent::SubscribeFailed);
    assert_eq!(s, ClientState::Connecting);
    assert!(matches!(a, ClientAction::Backoff));
    for event in [ClientEvent::Closed, ClientEvent::TransportError, ClientEvent::StreamEnded] {
        let (s, a) = step(ClientState::Streaming, event);
        assert_eq!(s, ClientState::Connecting);
        assert!(matches!(a, ClientAction::Backoff));
    }
}

#[test]
fn only_a_gone_consumer_stops_the_loop() {
    let (s, a) = step(ClientState::Streaming, ClientEvent::ForwardFailed);
    assert_eq!(s, ClientState::Stopped);
    assert!(matches!(a, ClientAction::Stop));
    let (s, a) = step(s, ClientEvent::Connected);
    assert_eq!(s, ClientState::Stopped);
    assert!(matches!(a, ClientAction::Stop));
    // An event that cannot happen in a state changes nothing.
    let (s, a) = step(ClientState::Connecting, ClientEvent::Subscribed);
    assert_eq!(s, ClientState::Connecting);
    assert!(matches!(a, ClientAction::Ignore));
}
