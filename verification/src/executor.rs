use vstd::prelude::*;

verus! {

/// What a thread that waits for a wake-up does next.
pub enum WaitDecision {
    /// No wake-up came yet: keep waiting.
    Wait,
    /// A wake-up came: go on.
    Proceed,
}

/// The flag behind a waker: whether a wake-up came since it was last taken.
pub struct WakeFlag {
    woken: bool,
}

impl View for WakeFlag {
    type V = bool;

    closed spec fn view(&self) -> bool {
        self.woken
    }
}

/// What can happen to a waker's flag: a wake-up sets it, a waiting thread
/// looking at it clears it.
pub enum FlagEvent {
    Wake,
    Look,
}

/// The flag after an event.
pub open spec fn flag_after(woken: bool, event: FlagEvent) -> bool {
    match event {
        FlagEvent::Wake => true,
        FlagEvent::Look => false,
    }
}

/// What a waiting thread that looks at the flag does.
pub open spec fn wait_decision(woken: bool) -> WaitDecision {
    if woken {
        WaitDecision::Proceed
    } else {
        WaitDecision::Wait
    }
}

/// The flag after the events, starting from a new flag.
pub open spec fn flag_after_all(events: Seq<FlagEvent>) -> bool
    decreases events.len(),
{
    if events.len() == 0 {
        false
    } else {
        flag_after(flag_after_all(events.drop_last()), events.last())
    }
}

/// Some wake-up came after the last look at the flag.
pub open spec fn woken_since_last_look(events: Seq<FlagEvent>) -> bool {
    exists|j: int|
        0 <= j < events.len() && (#[trigger] events[j]) is Wake && forall|k: int|
            j < k < events.len() ==> (#[trigger] events[k]) is Wake
}

impl WakeFlag {
    /// A flag that no wake-up has set.
    pub fn new() -> (f: Self)
        ensures
            f@ == flag_after_all(seq![]),
    {
        WakeFlag { woken: false }
    }

    /// Records a wake-up.
    pub fn wake(&mut self)
        ensures
            final(self)@ == flag_after(old(self)@, FlagEvent::Wake),
    {
        self.woken = true;
    }

    /// Whether a waiting thread may go on; a wake-up it uses is cleared.
    pub fn wait_step(&mut self) -> (d: WaitDecision)
        ensures
            d == wait_decision(old(self)@),
            final(self)@ == flag_after(old(self)@, FlagEvent::Look),
    {
        if self.woken {
            self.woken = false;
            WaitDecision::Proceed
        } else {
            WaitDecision::Wait
        }
    }
}

/// A waiting thread goes on exactly when a wake-up came after its previous
/// look at the flag. So the blocking executor, which waits after every poll
/// that leaves its future pending, polls again only after a fresh wake-up,
/// and a wake-up that comes while it polls is not lost.
pub proof fn lemma_wait_needs_fresh_wake(events: Seq<FlagEvent>)
    ensures
        flag_after_all(events) <==> woken_since_last_look(events),
        wait_decision(flag_after_all(events)) == if woken_since_last_look(events) {
            WaitDecision::Proceed
        } else {
            WaitDecision::Wait
        },
    decreases events.len(),
{
    if events.len() > 0 {
        let n = events.len() - 1;
        let init = events.drop_last();
        lemma_wait_needs_fresh_wake(init);
        if events[n] is Wake {
            assert(events[n] is Wake && forall|k: int| n < k < events.len() ==> (#[trigger] events[k]) is Wake);
        } else {
            if woken_since_last_look(events) {
                let j = choose|j: int|
                    0 <= j < events.len() && (#[trigger] events[j]) is Wake && forall|k: int|
                        j < k < events.len() ==> (#[trigger] events[k]) is Wake;
                assert(events[n] is Wake);
            }
        }
    }
}

/// A wake-up lets exactly one wait go on: the wait after it proceeds and
/// clears the flag, and a second wait with no new wake-up waits.
pub proof fn lemma_wake_then_wait(woken: bool)
    ensures
        wait_decision(flag_after(woken, FlagEvent::Wake)) == WaitDecision::Proceed,
        wait_decision(flag_after(flag_after(woken, FlagEvent::Wake), FlagEvent::Look)) == WaitDecision::Wait,
{
}

/// What polling a future gave.
pub enum PollOutcome<T> {
    Pending,
    Ready(T),
}

/// What the blocking executor does after a poll.
pub enum BlockOnStep<T> {
    /// Sleep until the future's waker is woken, then poll again.
    WaitForWake,
    /// The future is done: hand back its value.
    Return(T),
}

/// Decides what the blocking executor does after polling its future: wait
/// for a wake-up while the future is pending, return its value once it is ready.
pub fn after_poll<T>(outcome: PollOutcome<T>) -> (step: BlockOnStep<T>)
    ensures
        match outcome {
            PollOutcome::Pending => step is WaitForWake,
            PollOutcome::Ready(v) => step == BlockOnStep::Return(v),
        },
{
    match outcome {
        PollOutcome::Pending => BlockOnStep::WaitForWake,
        PollOutcome::Ready(v) => BlockOnStep::Return(v),
    }
}

} // verus!
