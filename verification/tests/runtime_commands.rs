use engine::risk::RiskRejectReason;
use engine::runtime::{cap_strategy_commands, Runtime, RuntimeConfig, RuntimeEvent, RuntimeOutput, RuntimeOutputKind};
use engine::strategy::market_making::{MarketMakingConfig, MarketMakingStrategy};
use engine::strategy::StrategyCommand;
use engine::strategy::StrategyEvent as E;
use engine::types::{Order, OrderType, PriceTicks, Qty, Side, Symbol};

fn sym() -> Symbol {
    Symbol("AAPL".to_owned())
}

#[test]
fn strategy_place_order_gets_next_runtime_id_and_is_owned() {
    let mut rt = Runtime::new(vec![sym()], RuntimeConfig::default());
    let mut outputs: Vec<RuntimeOutput> = Vec::new();
    let cmd = StrategyCommand::PlaceOrder {
        symbol: sym(),
        side: Side::Buy,
        order_type: OrderType::Limit,
        price: Some(PriceTicks(100)),
        qty: Qty(5),
    };
    rt.execute_strategy_command(7, 70, 3, cmd, &mut outputs).unwrap();
    assert_eq!(outputs.len(), 1);
    assert_eq!(outputs[0].seq, 7);
    assert_eq!(outputs[0].ts_ns, 70);
    assert_eq!(outputs[0].kind, RuntimeOutputKind::Accepted { order_id: 1_000_000 });

    // A second command gets the following ID; a sell crosses the resting buy and the
    // owned fills are booked on both sides, leaving the position flat.
    let sell = StrategyCommand::PlaceOrder {
        symbol: sym(),
        side: Side::Sell,
        order_type: OrderType::Limit,
        price: Some(PriceTicks(100)),
        qty: Qty(5),
    };
    rt.execute_strategy_command(8, 80, 3, sell, &mut outputs).unwrap();
    assert_eq!(outputs[1].kind, RuntimeOutputKind::Accepted { order_id: 1_000_001 });
    assert!(matches!(outputs[2].kind, RuntimeOutputKind::Trade { .. }));
    assert_eq!(rt.portfolio().position_qty(&sym()), 0);
    assert_eq!(rt.portfolio().cash(), 1_000_000);
}

#[test]
fn strategy_cancel_of_unknown_order_is_rejected() {
    let mut rt = Runtime::new(vec![sym()], RuntimeConfig::default());
    let mut outputs: Vec<RuntimeOutput> = Vec::new();
    let cancel = StrategyCommand::Cancel { order_id: 42, symbol: sym() };
    rt.execute_strategy_command(1, 10, 1, cancel, &mut outputs).unwrap();
    assert_eq!(outputs.len(), 1);
    assert!(matches!(outputs[0].kind, RuntimeOutputKind::Rejected { order_id: Some(42), .. }));

    // A cancel for a symbol without an engine gets one, and is then rejected as unknown.
    let other = Symbol("MSFT".to_owned());
    let cancel = StrategyCommand::Cancel { order_id: 43, symbol: other.clone() };
    rt.execute_strategy_command(2, 20, 1, cancel, &mut outputs).unwrap();
    assert_eq!(outputs.len(), 2);
    assert!(matches!(outputs[1].kind, RuntimeOutputKind::Rejected { order_id: Some(43), .. }));
    assert!(rt.engine(&other).is_some());
}

#[test]
fn a_killed_runtime_rejects_an_external_order_first_even_with_strategies() {
    let mut rt = Runtime::new(vec![sym()], RuntimeConfig::default());
    rt.add_strategy(Box::new(MarketMakingStrategy::new(9, MarketMakingConfig::default())));
    rt.risk_mut().activate_kill_switch("manual");
    let order = Order {
        order_id: 1,
        symbol: sym(),
        side: Side::Buy,
        order_type: OrderType::Limit,
        price: Some(PriceTicks(100)),
        qty: Qty(1),
        timestamp_ns: 1,
        strategy_id: None,
    };
    let mut outputs: Vec<RuntimeOutput> = Vec::new();
    rt.process_one(RuntimeEvent::NewOrder { seq: 1, ts_ns: 10, order }, &mut outputs).unwrap();
    assert_eq!(
        outputs[0].kind,
        RuntimeOutputKind::RiskRejected { order_id: Some(1), reason: RiskRejectReason::KillSwitchActive }
    );
    assert!(rt.engine(&sym()).unwrap().book().best_bid().is_none());
}

#[test]
fn strategy_commands_beyond_the_cap_are_dropped_and_reported() {
    let cancel = |id: u64| StrategyCommand::Cancel { order_id: id, symbol: sym() };
    let mut outputs: Vec<RuntimeOutput> = Vec::new();
    let kept = cap_strategy_commands(4, 9, 90, vec![cancel(1), cancel(2), cancel(3)], 2, &mut outputs);
    assert_eq!(kept, vec![cancel(1), cancel(2)]);
    assert_eq!(outputs.len(), 1);
    assert_eq!(outputs[0].seq, 9);
    assert_eq!(outputs[0].ts_ns, 90);
    assert_eq!(outputs[0].kind, RuntimeOutputKind::StrategyCommandsDropped { strategy_id: 4, dropped: 1 });
    let kept = cap_strategy_commands(4, 10, 100, vec![cancel(5)], 2, &mut outputs);
    assert_eq!(kept, vec![cancel(5)]);
    assert_eq!(outputs.len(), 1);
}

struct Recorder {
    seen: std::sync::Arc<std::sync::Mutex<Vec<String>>>,
    placed: bool,
}

impl engine::strategy::Strategy for Recorder {
    fn spec_strategy_id(&self) -> engine::types::StrategyId {
        self.id()
    }
    fn id(&self) -> engine::types::StrategyId {
        5
    }
    fn name(&self) -> &str {
        "recorder"
    }
    fn on_event(
        &mut self,
        event: &engine::strategy::StrategyEvent,
        _ctx: &engine::strategy::StrategyContext,
    ) -> Vec<StrategyCommand> {
        let label = match event {
            E::Activated => "Activated".to_owned(),
            E::Deactivated => "Deactivated".to_owned(),
            E::BookUpdate { symbol, .. } => format!("BookUpdate {}", symbol.0),
            E::Trade { trade } => format!("Trade {}@{}", trade.qty.0, trade.price.0),
            E::Fill { order_id, side, qty, .. } => format!("Fill {} {:?} {}", order_id, side, qty.0),
            E::OrderAccepted { order_id, .. } => format!("OrderAccepted {}", order_id),
            E::Timer { seq, .. } => format!("Timer {}", seq),
            E::RiskRejection { .. } => "RiskRejection".to_owned(),
        };
        self.seen.lock().unwrap().push(label);
        if !self.placed && matches!(event, E::Timer { .. }) {
            self.placed = true;
            return vec![StrategyCommand::PlaceOrder {
                symbol: sym(),
                side: Side::Buy,
                order_type: OrderType::Limit,
                price: Some(PriceTicks(100)),
                qty: Qty(2),
            }];
        }
        Vec::new()
    }
}

#[test]
fn strategies_see_each_events_notices_in_order() {
    let seen = std::sync::Arc::new(std::sync::Mutex::new(Vec::new()));
    let mut rt = Runtime::new(vec![sym()], RuntimeConfig::default());
    rt.add_strategy(Box::new(Recorder { seen: seen.clone(), placed: false }));
    let sell = Order {
        order_id: 1,
        symbol: sym(),
        side: Side::Sell,
        order_type: OrderType::Limit,
        price: Some(PriceTicks(100)),
        qty: Qty(2),
        timestamp_ns: 1,
        strategy_id: None,
    };
    let res = rt
        .process_events(vec![
            RuntimeEvent::NewOrder { seq: 1, ts_ns: 10, order: sell },
            RuntimeEvent::Timer { seq: 2, ts_ns: 20, symbol: Some(sym()) },
        ])
        .unwrap();
    let got = seen.lock().unwrap().clone();
    assert_eq!(
        got,
        vec![
            "Activated".to_owned(),
            "BookUpdate AAPL".to_owned(),
            "Timer 2".to_owned(),
            "OrderAccepted 1000000".to_owned(),
            "Trade 2@100".to_owned(),
            "Fill 1000000 Buy 2".to_owned(),
        ]
    );
    assert_eq!(rt.portfolio().position_qty(&sym()), 2);
    assert!(res.outputs.iter().any(|o| matches!(o.kind, RuntimeOutputKind::Trade { .. })));
}

struct ActivationProbe {
    seen: std::sync::Arc<std::sync::Mutex<Vec<(u64, u64, u64, bool)>>>,
}

impl engine::strategy::Strategy for ActivationProbe {
    fn spec_strategy_id(&self) -> engine::types::StrategyId {
        self.id()
    }
    fn id(&self) -> engine::types::StrategyId {
        11
    }
    fn name(&self) -> &str {
        "activation_probe"
    }
    fn on_event(&mut self, event: &E, ctx: &engine::strategy::StrategyContext) -> Vec<StrategyCommand> {
        if matches!(event, E::Activated) {
            self.seen.lock().unwrap().push((ctx.strategy_id as u64, ctx.seq, ctx.ts_ns as u64, ctx.book.is_some()));
            return vec![StrategyCommand::PlaceOrder {
                symbol: sym(),
                side: Side::Buy,
                order_type: OrderType::Limit,
                price: Some(PriceTicks(100)),
                qty: Qty(1),
            }];
        }
        Vec::new()
    }
}

#[test]
fn a_strategy_is_activated_once_and_its_activation_commands_are_dropped() {
    let seen = std::sync::Arc::new(std::sync::Mutex::new(Vec::new()));
    let mut rt = Runtime::new(vec![sym()], RuntimeConfig::default());
    rt.add_strategy(Box::new(ActivationProbe { seen: seen.clone() }));
    assert_eq!(seen.lock().unwrap().clone(), vec![(11, 0, 0, false)]);
    assert_eq!(rt.last_seq(), None);
    assert_eq!(rt.portfolio().cash(), 1_000_000);
    let book = rt.engine(&sym()).unwrap().book().snapshot(usize::MAX);
    assert!(book.bids.is_empty() && book.asks.is_empty());
}
