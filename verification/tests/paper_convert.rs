#![allow(unused_imports, dead_code)]
use engine::paper::{paper_message_to_runtime_event, PaperConvertError, PaperMdMessage};
use engine::runtime::RuntimeEvent;
use engine::types::{Order, OrderType, PriceTicks, Qty, Symbol};
use engine::types::Side;

#[test]
fn quote_expands_to_bid_ask() {
    let msg = PaperMdMessage::Quote {
        seq: 10,
        ts_ns: 100,
        symbol: "AAPL".into(),
        bid_px: 100,
        bid_qty: 5,
        ask_px: 101,
        ask_qty: 5,
    };
    let events = paper_message_to_runtime_event(&msg).unwrap();
    assert_eq!(events.len(), 2);
    match &events[0] {
        RuntimeEvent::NewOrder { order, .. } => {
            assert_eq!(order.side, Side::Buy);
            assert_eq!(order.price, Some(PriceTicks(100)));
        }
        _ => panic!("expected bid"),
    }
    match &events[1] {
        RuntimeEvent::NewOrder { order, .. } => {
            assert_eq!(order.side, Side::Sell);
            assert_eq!(order.price, Some(PriceTicks(101)));
        }
        _ => panic!("expected ask"),
    }
}

#[test]
fn crossed_quote_rejected() {
    let msg = PaperMdMessage::Quote {
        seq: 1,
        ts_ns: 1,
        symbol: "AAPL".into(),
        bid_px: 105,
        bid_qty: 1,
        ask_px: 100,
        ask_qty: 1,
    };
    assert_eq!(
        paper_message_to_runtime_event(&msg),
        Err(PaperConvertError::InvalidQuote)
    );
}
