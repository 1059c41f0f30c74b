use rerun::debounce::{count_triggers, DebounceInput, DebounceOutput, DebounceState};
use DebounceInput::{Disconnected, Event, Timeout};

#[test]
fn single_event_triggers() {
    assert_eq!(count_triggers(&[Event, Disconnected]), 1);
}

#[test]
fn rapid_events_coalesce() {
    let mut inputs = vec![Event; 20];
    inputs.push(Disconnected);
    assert_eq!(count_triggers(&inputs), 1);
}

#[test]
fn multiple_quiet_periods() {
    let inputs = [Event, Event, Timeout, Timeout, Event, Timeout, Timeout, Disconnected];
    assert_eq!(count_triggers(&inputs), 2);
}

#[test]
fn no_spurious_triggers() {
    assert_eq!(count_triggers(&[Timeout, Timeout, Timeout, Timeout, Timeout]), 0);
    assert_eq!(count_triggers(&[Timeout, Timeout, Event, Timeout, Timeout]), 1);
}

#[test]
fn input_closed_exits() {
    assert_eq!(count_triggers(&[Disconnected]), 0);
    // nothing after the end of input is read
    assert_eq!(count_triggers(&[Disconnected, Event, Timeout]), 0);
}

#[test]
fn step_by_step() {
    let mut s = DebounceState::new();
    assert_eq!(s.step(Timeout), DebounceOutput { emit: false, stop: false });
    assert_eq!(s.step(Event), DebounceOutput { emit: false, stop: false });
    assert_eq!(s.step(Event), DebounceOutput { emit: false, stop: false });
    assert_eq!(s.step(Timeout), DebounceOutput { emit: true, stop: false });
    assert_eq!(s.step(Timeout), DebounceOutput { emit: false, stop: false });
    assert_eq!(s.step(Event), DebounceOutput { emit: false, stop: false });
    assert_eq!(s.step(Disconnected), DebounceOutput { emit: true, stop: true });
}

#[test]
fn one_trigger_per_closed_burst() {
    // three bursts; the last is never closed, as input has not ended
    let inputs = [Event, Event, Timeout, Event, Timeout, Timeout, Event];
    assert_eq!(count_triggers(&inputs), 2);
    // a burst closed by the end of input counts; nothing after it is read
    let inputs = [Event, Timeout, Event, Event, Disconnected, Event, Timeout];
    assert_eq!(count_triggers(&inputs), 2);
    assert_eq!(count_triggers(&[]), 0);
}
