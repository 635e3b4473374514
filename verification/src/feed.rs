//! Messages of an exchange's market-data feed, and the Hyperliquid adapter's
//! part of turning the wire format into them.
use crate::market::{DepthUpdate, TradeTick, WsError};
use crate::types::{Price, Qty, Timestamp};
use vstd::prelude::*;
use vstd::string::StringExecFns;

verus! {

/// A normalized feed message.
#[derive(Debug, Clone)]
pub enum RawMessage {
    Diff(DepthUpdate),
    Trade(TradeTick),
}

/// What an exchange adapter provides to the feed client: the message to
/// send after connecting, and the parser for incoming text frames.
pub trait ExchangeAdapter: Send + Sync + 'static {
    fn subscription_payload(&self) -> Option<String>;

    fn parse_message(&self, payload: &str) -> Result<Option<RawMessage>, WsError>;
}

/// The Hyperliquid adapter, for one coin.
pub struct HyperliquidAdapter {
    pub coin: String,
}

/// The subscription request for the L2 book of `coin`.
pub open spec fn l2_subscription(coin: Seq<char>) -> Seq<char> {
    "{\"method\":\"subscribe\",\"subscription\":{\"type\":\"l2Book\",\"coin\":\""@ + coin + "\"}}"@
}

/// A message's millisecond time in nanoseconds (saturating at `u64::MAX`):
/// the update id of a book message and the timestamp of a trade.
pub open spec fn book_update_id(time_ms: u64) -> u64 {
    if time_ms * 1_000_000 > u64::MAX {
        u64::MAX
    } else {
        (time_ms * 1_000_000) as u64
    }
}

impl HyperliquidAdapter {
    pub fn new(coin: &str) -> (a: HyperliquidAdapter)
        ensures
            a.coin@ == coin@,
    {
        HyperliquidAdapter { coin: coin.to_owned() }
    }

    /// The request that subscribes to the L2 book of this adapter's coin.
    pub fn subscription_payload(&self) -> (r: Option<String>)
        ensures
            r matches Some(s) && s@ == l2_subscription(self.coin@),
    {
        let mut s = String::from_str("{\"method\":\"subscribe\",\"subscription\":{\"type\":\"l2Book\",\"coin\":\"");
        s.append(self.coin.as_str());
        s.append("\"}}");
        Some(s)
    }

    /// An L2 book message as a depth diff covering the single update id
    /// given by its time.
    pub fn book_message(time_ms: u64, bids: Vec<(Price, Qty)>, asks: Vec<(Price, Qty)>) -> (r: RawMessage)
        ensures
            r matches RawMessage::Diff(d) && d.first_update_id == book_update_id(time_ms)
                && d.final_update_id == book_update_id(time_ms) && d.bids@ == bids@ && d.asks@ == asks@,
    {
        let timestamp_ns = match time_ms.checked_mul(1_000_000) {
            Some(ns) => ns,
            None => u64::MAX,
        };
        RawMessage::Diff(
            DepthUpdate {
                first_update_id: timestamp_ns,
                final_update_id: timestamp_ns,
                bids: bids,
                asks: asks,
            },
        )
    }

    /// A trade message stamped with its millisecond time in nanoseconds
    /// (saturating at `u64::MAX`); the buyer was the maker when the taker
    /// side is `"A"` (ask) or `"SELL"`.
    pub fn trade_message(price: Price, qty: Qty, time_ms: u64, side: &str) -> (r: RawMessage)
        ensures
            r matches RawMessage::Trade(t) && t.price == price && t.qty == qty && t.timestamp
                == Timestamp(book_update_id(time_ms)) && t.is_buyer_maker == (side@ == "A"@ || side@
                == "SELL"@),
    {
        let taker_side = String::from_str(side);
        let is_buyer_maker = taker_side == String::from_str("A") || taker_side == String::from_str("SELL");
        let timestamp_ns = match time_ms.checked_mul(1_000_000) {
            Some(ns) => ns,
            None => u64::MAX,
        };
        RawMessage::Trade(TradeTick { price, qty, timestamp: Timestamp(timestamp_ns), is_buyer_maker })
    }
}

} // verus!
