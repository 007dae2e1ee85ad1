use exchange_core::instrument::InstrumentStatus;
use exchange_core::lifecycle::{LifecycleError, MarketLifecycle, TradingSession};

#[test]
fn lifecycle_has_explicit_state_transitions() {
    let mut l = MarketLifecycle::new();
    assert_eq!(l.status(7), Some(InstrumentStatus::PreOpen));
    assert!(!l.accepts_orders(7));
    l.transition(7, InstrumentStatus::Open, 10, 100).unwrap();
    assert!(l.accepts_orders(7));
    l.transition(7, InstrumentStatus::Halted, 11, 110).unwrap();
    assert!(!l.accepts_orders(7));
    l.transition(7, InstrumentStatus::Open, 12, 120).unwrap();
    l.transition(7, InstrumentStatus::Closed, 13, 130).unwrap();
    assert!(l.is_terminal(7));
}

#[test]
fn invalid_transition_fails_closed() {
    let mut l = MarketLifecycle::new();
    let e = l.transition(3, InstrumentStatus::Settled, 1, 1).unwrap_err();
    assert!(matches!(e, LifecycleError::InvalidTransition { .. }));
}

#[test]
fn sessions_are_half_open() {
    let mut l = MarketLifecycle::new();
    l.set_session(2, TradingSession { session_id: 1, opens_at: 100, closes_at: 200 }).unwrap();
    assert!(!l.session(2).unwrap().contains(99));
    assert!(l.session(2).unwrap().contains(100));
    assert!(!l.session(2).unwrap().contains(200));
}

#[test]
fn terminal_states_admit_no_orders_and_unknown_instruments_fail() {
    let mut l = MarketLifecycle::new();
    l.transition(1, InstrumentStatus::Closed, 1, 1).unwrap();
    l.transition(1, InstrumentStatus::Settled, 2, 2).unwrap();
    assert!(l.is_terminal(1));
    assert!(!l.accepts_orders(1));
    assert!(!l.can_match(1));
    assert!(matches!(l.transition(1, InstrumentStatus::Open, 3, 3), Err(LifecycleError::InvalidTransition { .. })));
    assert_eq!(l.status(60000), None);
    assert_eq!(l.transition(60000, InstrumentStatus::Open, 1, 1), Err(LifecycleError::InvalidInstrument(60000)));
    let t = l.transition(4, InstrumentStatus::PreOpen, 9, 90).unwrap();
    assert_eq!(t.from, InstrumentStatus::PreOpen);
    assert_eq!(t.to, InstrumentStatus::PreOpen);
    assert_eq!(t.effective_sequence, 9);
}
