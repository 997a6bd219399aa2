use engine::elite::lockfree_queue::EventQueue;
use engine::elite::order_pool::{sample_order, OrderPool};
use engine::events::{InputEvent, NewOrderEvent, RejectReason, Trade};
use engine::matching::MatchingEngine;
use engine::paper::{
    paper_message_to_runtime_event, paper_symbol, DrainError, MarketDataAdapter, MockPaperError, MockPaperSession,
    MockPaperSink, MockPaperSource, PaperConvertError, PaperMdMessage, PaperReport, ReconnectPolicy,
};
use engine::replay::{ReplayDriver, ReplayError, ReplayEvent, ReplayEventKind};
use engine::risk::{RiskLimits, RiskRejectReason};
use engine::runtime::{Runtime, RuntimeConfig, RuntimeError, RuntimeEvent, RuntimeOutput, RuntimeOutputKind};
use engine::types::{Order, OrderType, PriceTicks, Qty, Side, Symbol};

fn sym() -> Symbol {
    Symbol("AAPL".to_owned())
}

fn order(order_id: u64, side: Side, price: i64, qty: u64, strategy_id: Option<u64>) -> Order {
    Order {
        order_id,
        symbol: sym(),
        side,
        order_type: OrderType::Limit,
        price: Some(PriceTicks(price)),
        qty: Qty(qty),
        timestamp_ns: order_id,
        strategy_id,
    }
}

fn new_order(seq: u64, order: Order) -> RuntimeEvent {
    RuntimeEvent::NewOrder { seq, ts_ns: seq * 10, order }
}

#[test]
fn strategy_free_runtime_reports_engine_outputs_in_order() {
    let mut rt = Runtime::new(vec![sym()], RuntimeConfig::default());
    let result = rt
        .process_events(vec![
            new_order(1, order(1, Side::Sell, 100, 5, None)),
            new_order(2, order(2, Side::Buy, 100, 3, Some(9))),
            RuntimeEvent::Timer { seq: 3, ts_ns: 30, symbol: None },
        ])
        .unwrap();

    assert_eq!(
        result.outputs,
        vec![
            RuntimeOutput { seq: 1, ts_ns: 10, kind: RuntimeOutputKind::Accepted { order_id: 1 } },
            RuntimeOutput { seq: 2, ts_ns: 20, kind: RuntimeOutputKind::Accepted { order_id: 2 } },
            RuntimeOutput {
                seq: 2,
                ts_ns: 20,
                kind: RuntimeOutputKind::Trade {
                    trade: Trade {
                        symbol: sym(),
                        taker_order_id: 2,
                        maker_order_id: 1,
                        price: PriceTicks(100),
                        qty: Qty(3),
                        aggressor_side: Side::Buy,
                        timestamp_ns: 20,
                    },
                },
            },
        ]
    );
    // Only the order naming a strategy is booked into the portfolio.
    assert_eq!(rt.portfolio().position_qty(&sym()), 3);
    assert_eq!(rt.portfolio().cash(), 1_000_000 - 300);
    assert_eq!(result.books.len(), 1);
    assert_eq!(result.books[0].asks[0].total_qty, Qty(2));
    assert_eq!(rt.last_seq(), Some(3));
}

#[test]
fn runtime_risk_rejection_is_reported_and_leaves_the_book() {
    let config = RuntimeConfig {
        risk_limits: RiskLimits { max_order_qty: Some(2), ..RiskLimits::default() },
        ..RuntimeConfig::default()
    };
    let mut rt = Runtime::new(vec![sym()], config);
    let result = rt.process_events(vec![new_order(1, order(1, Side::Buy, 100, 3, None))]).unwrap();

    assert_eq!(
        result.outputs,
        vec![RuntimeOutput {
            seq: 1,
            ts_ns: 10,
            kind: RuntimeOutputKind::RiskRejected {
                order_id: Some(1),
                reason: RiskRejectReason::MaxOrderQty { qty: 3, limit: 2 },
            },
        }]
    );
    assert!(rt.engine(&sym()).unwrap().book().get_order(1).is_none());
}

#[test]
fn runtime_refuses_a_second_owned_order_with_the_same_id() {
    let mut rt = Runtime::new(vec![sym()], RuntimeConfig::default());
    let err = rt
        .process_events(vec![
            new_order(1, order(5, Side::Buy, 90, 1, Some(1))),
            new_order(2, order(5, Side::Buy, 91, 1, Some(1))),
        ])
        .unwrap_err();
    assert_eq!(err, RuntimeError::DuplicateOrderId(5));
}

#[test]
fn runtime_sequence_errors_leave_the_runtime_untouched() {
    let mut rt = Runtime::new(vec![sym()], RuntimeConfig::default());
    rt.process_events(vec![new_order(4, order(1, Side::Buy, 90, 1, None))]).unwrap();

    let dup = rt.process_events(vec![new_order(4, order(2, Side::Buy, 90, 1, None))]).unwrap_err();
    let back = rt
        .process_events(vec![new_order(6, order(3, Side::Buy, 90, 1, None)), new_order(5, order(4, Side::Buy, 90, 1, None))])
        .unwrap_err();

    assert_eq!(dup, RuntimeError::DuplicateSequence { seq: 4 });
    assert_eq!(back, RuntimeError::OutOfOrderSequence { previous: 6, seq: 5 });
    assert_eq!(rt.last_seq(), Some(4));
    assert!(rt.engine(&sym()).unwrap().book().get_order(3).is_none());
}

#[test]
fn cancel_for_an_unseen_symbol_opens_its_engine() {
    let mut rt = Runtime::new(vec![], RuntimeConfig::default());
    let result = rt
        .process_events(vec![RuntimeEvent::Cancel { seq: 1, ts_ns: 5, order_id: 8, symbol: Symbol("MSFT".to_owned()) }])
        .unwrap();

    assert_eq!(
        result.outputs,
        vec![RuntimeOutput {
            seq: 1,
            ts_ns: 5,
            kind: RuntimeOutputKind::Rejected { order_id: Some(8), reason: RejectReason::EmptyBook },
        }]
    );
    assert_eq!(result.books.len(), 1);
    assert_eq!(result.books[0].symbol, Symbol("MSFT".to_owned()));
}

#[test]
fn replay_reports_sequence_errors() {
    let mut driver = ReplayDriver::new(MatchingEngine::new(sym()));
    let event = |seq| ReplayEvent {
        seq,
        ts_ns: seq,
        kind: ReplayEventKind::Cancel { order_id: 1, symbol: sym() },
    };
    assert_eq!(
        driver.replay_events(vec![event(2), event(2)]).unwrap_err(),
        ReplayError::DuplicateSequence { seq: 2 }
    );
    assert_eq!(
        driver.replay_events(vec![event(3), event(1)]).unwrap_err(),
        ReplayError::OutOfOrderSequence { previous: 3, seq: 1 }
    );
    assert_eq!(driver.last_seq(), None);
}

#[test]
fn exhausted_reconnects_report_why() {
    let mut src = MockPaperSource::with_reconnect(MockPaperSink::new(), ReconnectPolicy::new(0));
    let reports = src.handle_disconnect("net reset");
    assert_eq!(
        reports,
        vec![
            PaperReport::Disconnected { reason: "net reset".to_owned() },
            PaperReport::AdapterError { message: "reconnect exhausted after disconnect: net reset".to_owned() },
        ]
    );
    assert_eq!(src.reports(), &reports[..]);
}

#[test]
fn paper_conversion_errors() {
    let quote = |bid_px, ask_px, bid_qty| PaperMdMessage::Quote {
        seq: 1,
        ts_ns: 1,
        symbol: "AAPL".into(),
        bid_px,
        bid_qty,
        ask_px,
        ask_qty: 1,
    };
    assert_eq!(paper_message_to_runtime_event(&quote(101, 101, 1)), Err(PaperConvertError::InvalidQuote));
    assert_eq!(paper_message_to_runtime_event(&quote(100, 101, 0)), Err(PaperConvertError::InvalidQuote));
    let paper_order = |order_type, price, qty| PaperMdMessage::PaperOrder {
        seq: 1,
        ts_ns: 1,
        order_id: 1,
        symbol: "AAPL".into(),
        side: Side::Buy,
        order_type,
        price,
        qty,
    };
    assert_eq!(
        paper_message_to_runtime_event(&paper_order(OrderType::Limit, Some(10), 0)),
        Err(PaperConvertError::InvalidQuantity)
    );
    assert_eq!(
        paper_message_to_runtime_event(&paper_order(OrderType::Market, Some(-1), 1)),
        Err(PaperConvertError::InvalidPrice)
    );
    assert_eq!(
        paper_message_to_runtime_event(&PaperMdMessage::Heartbeat { seq: 1, ts_ns: 1 }),
        Err(PaperConvertError::NotAnEvent)
    );
    assert_eq!(
        paper_message_to_runtime_event(&paper_order(OrderType::Market, None, 2)).unwrap().len(),
        1
    );
    assert_eq!(paper_symbol("MSFT"), Symbol("MSFT".to_owned()));
}

#[test]
fn closed_and_disconnected_sources_report_errors() {
    let mut sink = MockPaperSink::new();
    sink.push(PaperMdMessage::Disconnect { reason: "gone".into() });
    let mut src = MockPaperSource::new(sink);
    assert_eq!(src.next_message(), Ok(Some(PaperMdMessage::Disconnect { reason: "gone".into() })));
    assert_eq!(src.next_message(), Ok(None));

    let mut closed = MockPaperSink::new();
    closed.close();
    closed.push(PaperMdMessage::Heartbeat { seq: 1, ts_ns: 1 });
    assert!(closed.is_empty());
    let mut src = MockPaperSource::new(closed);
    assert_eq!(src.next_message(), Err(MockPaperError::Closed));

    let mut session = MockPaperSession::from_messages(vec![PaperMdMessage::Quote {
        seq: 1,
        ts_ns: 1,
        symbol: "AAPL".into(),
        bid_px: 5,
        bid_qty: 1,
        ask_px: 4,
        ask_qty: 1,
    }]);
    assert_eq!(session.drain_runtime_events(), Err(DrainError::Convert(PaperConvertError::InvalidQuote)));
}

fn queued(id: u64) -> InputEvent {
    InputEvent::NewOrder(NewOrderEvent { seq: id, order: sample_order(id) })
}

#[test]
fn event_queue_is_a_bounded_fifo() {
    let mut q = EventQueue::with_capacity(2);
    assert_eq!(q.capacity(), 2);
    assert!(q.is_empty());
    q.push(queued(1)).unwrap();
    q.push(queued(2)).unwrap();
    assert_eq!(q.len(), 2);
    assert_eq!(q.push(queued(3)), Err(queued(3)));
    assert_eq!(q.pop(), Some(queued(1)));
    assert_eq!(q.pop(), Some(queued(2)));
    assert_eq!(q.pop(), None);
    assert!(q.is_empty());
}

#[test]
fn a_removed_handle_stays_invalid() {
    let mut pool = OrderPool::new();
    let h = pool.insert(sample_order(1));
    assert_eq!(pool.remove(h).map(|o| o.order_id), Some(1));
    assert!(pool.get(h).is_none());
    assert!(pool.get_mut(h).is_none());
    assert!(pool.remove(h).is_none());
    let again = pool.insert(sample_order(2));
    assert!(pool.get(h).is_none());
    assert_eq!(pool.get(again).map(|o| o.order_id), Some(2));
}

#[test]
fn draining_stops_at_a_bad_message_and_keeps_the_rest() {
    let bad = PaperMdMessage::Quote { seq: 2, ts_ns: 2, symbol: "AAPL".into(), bid_px: 5, bid_qty: 1, ask_px: 4, ask_qty: 1 };
    let mut session = MockPaperSession::from_messages(vec![
        PaperMdMessage::Disconnect { reason: "a".into() },
        PaperMdMessage::Heartbeat { seq: 1, ts_ns: 1 },
        bad,
        PaperMdMessage::Disconnect { reason: "b".into() },
    ]);
    assert_eq!(session.drain_runtime_events(), Err(DrainError::Convert(PaperConvertError::InvalidQuote)));
    // The first disconnect was handled; the one after the bad message was not read.
    assert_eq!(
        session.source.reports().to_vec(),
        vec![PaperReport::Disconnected { reason: "a".into() }, PaperReport::Reconnecting { attempt: 1 }]
    );
    assert_eq!(session.source.reconnect_policy().attempts(), 1);
    assert_eq!(session.source.next_message(), Ok(Some(PaperMdMessage::Disconnect { reason: "b".into() })));
    assert_eq!(session.source.next_message(), Ok(None));
}

#[test]
fn draining_a_closed_session_reads_everything_then_reports_closed() {
    let mut sink = MockPaperSink::new();
    sink.push(PaperMdMessage::Heartbeat { seq: 1, ts_ns: 1 });
    sink.push(PaperMdMessage::Disconnect { reason: "x".into() });
    sink.close();
    let mut session = MockPaperSession { source: MockPaperSource::new(sink) };
    assert_eq!(session.drain_runtime_events(), Err(DrainError::Mock(MockPaperError::Closed)));
    assert_eq!(session.source.reports().len(), 2);
    assert_eq!(session.source.next_message(), Err(MockPaperError::Closed));
}
