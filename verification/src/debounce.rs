//! Coalescing bursts of change events into single triggers.
//!
//! The debouncer waits for an event with a quiet period as its time limit.
//! Each wait ends in one of three ways, and from that and whether an event
//! is pending the step below decides whether to send a trigger and whether
//! to stop.
use vstd::prelude::*;

verus! {

/// How one wait for an event ended.
#[derive(Clone, Copy, Debug, PartialEq, Eq, Structural)]
pub enum DebounceInput {
    /// An event arrived.
    Event,
    /// The quiet period passed with no event.
    Timeout,
    /// Every sender is gone: no event will come again.
    Disconnected,
}

/// What to do after a wait.
#[derive(Clone, Copy, Debug, PartialEq, Eq, Structural)]
pub struct DebounceOutput {
    /// Send one trigger.
    pub emit: bool,
    /// Stop waiting.
    pub stop: bool,
}

/// One step: the pending flag afterwards, whether to send a trigger, and
/// whether to stop.  An event makes a trigger pending; a quiet period sends
/// the pending trigger; the end of input sends it and stops.
pub open spec fn step_spec(pending: bool, input: DebounceInput) -> (bool, DebounceOutput) {
    match input {
        DebounceInput::Event => (true, DebounceOutput { emit: false, stop: false }),
        DebounceInput::Timeout => (false, DebounceOutput { emit: pending, stop: false }),
        DebounceInput::Disconnected => (pending, DebounceOutput { emit: pending, stop: true }),
    }
}

/// The number of triggers sent while reading `inputs` from the state
/// `pending`, up to the step that stops.
pub open spec fn triggers(pending: bool, inputs: Seq<DebounceInput>) -> nat
    decreases inputs.len(),
{
    if inputs.len() == 0 {
        0
    } else {
        let (next, out) = step_spec(pending, inputs[0]);
        (if out.emit {
            1nat
        } else {
            0nat
        }) + if out.stop {
            0nat
        } else {
            triggers(next, inputs.drop_first())
        }
    }
}

/// The number of events among `inputs`.
pub open spec fn event_count(inputs: Seq<DebounceInput>) -> nat
    decreases inputs.len(),
{
    if inputs.len() == 0 {
        0
    } else {
        (if inputs[0] == DebounceInput::Event {
            1nat
        } else {
            0nat
        }) + event_count(inputs.drop_first())
    }
}

/// The debouncer's state: whether an event has come since the last trigger.
pub struct DebounceState {
    pending: bool,
}

impl View for DebounceState {
    type V = bool;

    closed spec fn view(&self) -> bool {
        self.pending
    }
}

impl DebounceState {
    /// The state before any event.
    pub fn new() -> (r: Self)
        ensures
            !r@,
    {
        DebounceState { pending: false }
    }

    /// Takes in how a wait ended and says what to do.
    pub fn step(&mut self, input: DebounceInput) -> (r: DebounceOutput)
        ensures
            (final(self)@, r) == step_spec(old(self)@, input),
    {
        match input {
            DebounceInput::Event => {
                self.pending = true;
                DebounceOutput { emit: false, stop: false }
            },
            DebounceInput::Timeout => {
                let emit = self.pending;
                self.pending = false;
                DebounceOutput { emit, stop: false }
            },
            DebounceInput::Disconnected => DebounceOutput { emit: self.pending, stop: true },
        }
    }
}

/// The number of triggers a debouncer sends for the given sequence of
/// waits, starting with nothing pending: one per closed burst of events.
pub fn count_triggers(inputs: &[DebounceInput]) -> (r: usize)
    ensures
        r == triggers(false, inputs@),
        r == closed_bursts(inputs@),
{
    proof {
        lemma_one_trigger_per_burst(inputs@);
    }
    let mut state = DebounceState::new();
    let mut count: usize = 0;
    let mut i: usize = 0;
    assert(inputs@.skip(0) =~= inputs@);
    while i < inputs.len()
        invariant
            i <= inputs.len(),
            count <= i,
            triggers(false, inputs@) == closed_bursts(inputs@),
            triggers(false, inputs@) == count + triggers(state@, inputs@.skip(i as int)),
        decreases inputs.len() - i,
    {
        let ghost before = state@;
        assert(inputs@.skip(i as int)[0] == inputs@[i as int]);
        assert(inputs@.skip(i as int).drop_first() =~= inputs@.skip(i + 1));
        let out = state.step(inputs[i]);
        if out.emit {
            count = count + 1;
        }
        if out.stop {
            return count;
        }
        i = i + 1;
    }
    count
}

/// With no event among the inputs, nothing is ever sent.
pub proof fn lemma_no_spurious_triggers(inputs: Seq<DebounceInput>)
    requires
        !inputs.contains(DebounceInput::Event),
    ensures
        triggers(false, inputs) == 0,
    decreases inputs.len(),
{
    if inputs.len() > 0 {
        assert(inputs[0] != DebounceInput::Event);
        let rest = inputs.drop_first();
        assert(!rest.contains(DebounceInput::Event)) by {
            if rest.contains(DebounceInput::Event) {
                let k = choose|k: int| 0 <= k < rest.len() && rest[k] == DebounceInput::Event;
                assert(inputs[k + 1] == DebounceInput::Event);
            }
        }
        lemma_no_spurious_triggers(rest);
    }
}

/// Never more triggers are sent than events came in (plus one for an event
/// already pending).
pub proof fn lemma_triggers_bounded_by_events(pending: bool, inputs: Seq<DebounceInput>)
    ensures
        triggers(pending, inputs) <= event_count(inputs) + if pending {
            1nat
        } else {
            0nat
        },
    decreases inputs.len(),
{
    if inputs.len() > 0 {
        let (next, out) = step_spec(pending, inputs[0]);
        lemma_triggers_bounded_by_events(next, inputs.drop_first());
    }
}

/// Any number of events followed by a quiet period give exactly one
/// trigger, and the debouncer then goes on as from the start.
pub proof fn lemma_burst_coalesces(pending: bool, n: nat, rest: Seq<DebounceInput>)
    requires
        n >= 1,
    ensures
        triggers(
            pending,
            Seq::new(n, |k: int| DebounceInput::Event) + seq![DebounceInput::Timeout] + rest,
        ) == 1 + triggers(false, rest),
    decreases n,
{
    let s = Seq::new(n, |k: int| DebounceInput::Event) + seq![DebounceInput::Timeout] + rest;
    assert(s[0] == DebounceInput::Event);
    if n == 1 {
        assert(s.drop_first() =~= seq![DebounceInput::Timeout] + rest);
        let t = s.drop_first();
        assert(t[0] == DebounceInput::Timeout);
        assert(t.drop_first() =~= rest);
        assert(triggers(true, t) == 1 + triggers(false, rest));
        assert(triggers(pending, s) == triggers(true, t));
    } else {
        let m = (n - 1) as nat;
        assert(s.drop_first() =~= Seq::new(m, |k: int| DebounceInput::Event) + seq![
            DebounceInput::Timeout,
        ] + rest);
        lemma_burst_coalesces(true, m, rest);
        assert(triggers(pending, s) == triggers(true, s.drop_first()));
    }
}

/// When the input ends, a pending event is sent and nothing after is read.
pub proof fn lemma_disconnect_flushes_and_stops(pending: bool, rest: Seq<DebounceInput>)
    ensures
        triggers(pending, seq![DebounceInput::Disconnected] + rest) == if pending {
            1nat
        } else {
            0nat
        },
{
    let s = seq![DebounceInput::Disconnected] + rest;
    assert(s[0] == DebounceInput::Disconnected);
}

/// Whether the wait at index `i` closes a burst: a burst is a maximal run of
/// events; it is closed by the wait right after it when that wait is not an
/// event (a quiet period or the end of input), and input has not ended
/// before.
pub open spec fn closes_burst(inputs: Seq<DebounceInput>, i: int) -> bool {
    &&& 0 < i < inputs.len()
    &&& inputs[i - 1] == DebounceInput::Event
    &&& inputs[i] != DebounceInput::Event
    &&& !inputs.take(i).contains(DebounceInput::Disconnected)
}

/// The number of indices below `n` at which a burst is closed.
pub open spec fn bursts_closed_before(inputs: Seq<DebounceInput>, n: int) -> nat
    decreases n,
{
    if n <= 0 {
        0
    } else {
        bursts_closed_before(inputs, n - 1) + if closes_burst(inputs, n - 1) {
            1nat
        } else {
            0nat
        }
    }
}

/// The number of bursts of events in `inputs` that are closed.
pub open spec fn closed_bursts(inputs: Seq<DebounceInput>) -> nat {
    bursts_closed_before(inputs, inputs.len() as int)
}

proof fn lemma_no_bursts_after_disconnect(inputs: Seq<DebounceInput>, n: int)
    requires
        inputs.len() > 0,
        inputs[0] == DebounceInput::Disconnected,
    ensures
        bursts_closed_before(inputs, n) == 0,
    decreases n,
{
    if n > 0 {
        lemma_no_bursts_after_disconnect(inputs, n - 1);
        if n - 1 > 0 && n - 1 < inputs.len() {
            assert(inputs.take(n - 1)[0] == DebounceInput::Disconnected);
            assert(inputs.take(n - 1).contains(DebounceInput::Disconnected));
        }
    }
}

proof fn lemma_bursts_shift(inputs: Seq<DebounceInput>, m: int)
    requires
        inputs.len() > 0,
        inputs[0] != DebounceInput::Disconnected,
        0 <= m < inputs.len(),
    ensures
        bursts_closed_before(inputs, m + 1) == bursts_closed_before(inputs.drop_first(), m) + if m
            >= 1 && closes_burst(inputs, 1) {
            1nat
        } else {
            0nat
        },
    decreases m,
{
    let rest = inputs.drop_first();
    if m > 0 {
        lemma_bursts_shift(inputs, m - 1);
        if m >= 2 {
            // an index past the first closes a burst in `inputs` exactly when
            // the index before it does so in `rest`
            let i = m;
            assert(inputs.take(i) =~= seq![inputs[0]] + rest.take(i - 1));
            assert(inputs[i - 1] == rest[i - 2]);
            assert(inputs[i] == rest[i - 1]);
            let a = rest.take(i - 1);
            let b = inputs.take(i);
            if a.contains(DebounceInput::Disconnected) {
                let k = choose|k: int| 0 <= k < a.len() && a[k] == DebounceInput::Disconnected;
                assert(b[k + 1] == DebounceInput::Disconnected);
            }
            if b.contains(DebounceInput::Disconnected) {
                let k = choose|k: int| 0 <= k < b.len() && b[k] == DebounceInput::Disconnected;
                assert(k > 0);
                assert(a[k - 1] == DebounceInput::Disconnected);
            }
            assert(closes_burst(inputs, m) == closes_burst(rest, m - 1));
        }
        assert(bursts_closed_before(inputs, m + 1) == bursts_closed_before(inputs, m) + if closes_burst(
            inputs,
            m,
        ) {
            1nat
        } else {
            0nat
        });
        assert(bursts_closed_before(rest, m) == bursts_closed_before(rest, m - 1) + if closes_burst(
            rest,
            m - 1,
        ) {
            1nat
        } else {
            0nat
        });
        if m == 1 {
            assert(!closes_burst(rest, 0));
            assert(bursts_closed_before(rest, 0) == 0);
        }
    } else {
        assert(bursts_closed_before(inputs, 1) == bursts_closed_before(inputs, 0) + if closes_burst(
            inputs,
            0,
        ) {
            1nat
        } else {
            0nat
        });
        assert(!closes_burst(inputs, 0));
    }
}

/// Debouncing sends one trigger per burst of events: the triggers sent for
/// any sequence of waits, starting with nothing pending, are as many as the
/// bursts of events in it that are closed by a quiet period or by the end of
/// input.
pub proof fn lemma_one_trigger_per_burst(inputs: Seq<DebounceInput>)
    ensures
        triggers(false, inputs) == closed_bursts(inputs),
{
    lemma_triggers_count_bursts(false, inputs);
}

proof fn lemma_triggers_count_bursts(pending: bool, inputs: Seq<DebounceInput>)
    ensures
        triggers(pending, inputs) == (if pending && inputs.len() > 0 && inputs[0]
            != DebounceInput::Event {
            1nat
        } else {
            0nat
        }) + closed_bursts(inputs),
    decreases inputs.len(),
{
    if inputs.len() == 0 {
        return;
    }
    let rest = inputs.drop_first();
    let n = inputs.len() as int;
    match inputs[0] {
        DebounceInput::Disconnected => {
            lemma_no_bursts_after_disconnect(inputs, n);
        },
        DebounceInput::Event => {
            lemma_triggers_count_bursts(true, rest);
            lemma_bursts_shift(inputs, n - 1);
            if n >= 2 {
                assert(inputs.take(1) =~= seq![DebounceInput::Event]);
                assert(closes_burst(inputs, 1) == (rest[0] != DebounceInput::Event));
            }
        },
        DebounceInput::Timeout => {
            lemma_triggers_count_bursts(false, rest);
            lemma_bursts_shift(inputs, n - 1);
        },
    }
}

} // verus!
