use qs_client::signal::{ForceLayoutSignal, SignalTable};

#[test]
fn registered_flag_is_up() {
    let mut signals = SignalTable::new();
    let first = signals.register();
    let second = signals.register();
    assert_eq!(first, ForceLayoutSignal { slot: 0 });
    assert_eq!(second, ForceLayoutSignal { slot: 1 });
    assert!(signals.is_raised(first));
    assert!(signals.is_raised(second));
    assert!(signals.is_live(first));
}

#[test]
fn lowering_and_raising_touch_one_flag() {
    let mut signals = SignalTable::new();
    let first = signals.register();
    let second = signals.register();
    signals.lower(first);
    assert!(!signals.is_raised(first));
    assert!(signals.is_raised(second));
    signals.lower(second);
    signals.raise(Some(first));
    assert!(signals.is_raised(first));
    assert!(!signals.is_raised(second));
}

#[test]
fn raising_no_flag_does_nothing() {
    let mut signals = SignalTable::new();
    let first = signals.register();
    signals.lower(first);
    signals.raise(None);
    signals.raise(Some(ForceLayoutSignal { slot: 9 }));
    assert!(!signals.is_raised(first));
    assert!(!signals.is_raised(ForceLayoutSignal { slot: 9 }));
    assert!(!signals.is_live(ForceLayoutSignal { slot: 9 }));
}

#[test]
fn released_flag_cannot_be_raised() {
    let mut signals = SignalTable::new();
    let first = signals.register();
    signals.lower(first);
    signals.release(first);
    assert!(!signals.is_live(first));
    signals.raise(Some(first));
    assert!(!signals.is_raised(first));
    signals.lower(first);
    signals.release(first);
    assert!(!signals.is_live(first));
}
