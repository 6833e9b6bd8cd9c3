//! State of the synchronization engine and the protocol of its worker.

use vstd::prelude::*;

verus! {

/// Offset-length pair
#[derive(Debug, Clone, Copy, PartialEq, Eq, Structural)]
pub struct OffsetLength {
    /// Offset in bytes
    pub offset: usize,
    /// Length in bytes
    pub len: usize,
}

impl OffsetLength {
    /// Instantiate new offset-length pair with zeros
    pub fn new() -> (r: OffsetLength)
        ensures
            r == (OffsetLength { offset: 0, len: 0 }),
    {
        OffsetLength { offset: 0, len: 0 }
    }
}

impl Default for OffsetLength {
    fn default() -> (r: OffsetLength)
        ensures
            r == (OffsetLength { offset: 0, len: 0 }),
    {
        OffsetLength { offset: 0, len: 0 }
    }
}

/// Mathematical content of a [`SyncState`].
#[verifier::ext_equal]
pub struct SyncView {
    /// Whether a full baseline has been captured.
    pub initialized: bool,
    /// Last observed content of guest memory.
    pub baseline: Seq<u8>,
    /// XOR words accumulated since the worker last drained.
    pub diff_words: Seq<u64>,
    /// One descriptor per batch accumulated since the worker last drained.
    pub descriptors: Seq<OffsetLength>,
}

/// Remote synchronization state
pub struct SyncState {
    /// Whether a full baseline has been captured
    pub dirty: bool,
    /// Buffer holding prior memory snapshot
    pub prior_buffer: Vec<u8>,
    /// Buffer for XOR data
    pub xor_data: Vec<u64>,
    /// Buffer for XOR offset
    pub xor_offsets: Vec<OffsetLength>,
}

impl View for SyncState {
    type V = SyncView;

    open spec fn view(&self) -> SyncView {
        SyncView {
            initialized: self.spec_is_copied(),
            baseline: self.prior_buffer@,
            diff_words: self.xor_data@,
            descriptors: self.xor_offsets@,
        }
    }
}

impl SyncState {
    /// Whether a full baseline has been captured.
    pub open spec fn spec_is_copied(&self) -> bool {
        self.dirty
    }

    /// Instantiate new sync state: a zero-filled baseline of `capacity_bytes` bytes,
    /// not yet captured, and empty diff buffers.
    pub fn new(capacity_bytes: usize) -> (s: SyncState)
        ensures
            !s.spec_is_copied(),
            s.prior_buffer@ == Seq::new(capacity_bytes as nat, |i: int| 0u8),
            s.xor_data@ == Seq::<u64>::empty(),
            s.xor_offsets@ == Seq::<OffsetLength>::empty(),
    {
        let prior_buffer: Vec<u8> = vec![0u8; capacity_bytes];
        SyncState { dirty: false, prior_buffer, xor_data: Vec::new(), xor_offsets: Vec::new() }
    }

    /// Return true once a full baseline has been captured
    #[verifier::when_used_as_spec(spec_is_copied)]
    pub fn is_copied(&self) -> (r: bool)
        ensures
            r == self.spec_is_copied(),
    {
        self.dirty
    }

    /// Record that a full baseline has been captured
    pub fn set_dirty(&mut self)
        ensures
            final(self).spec_is_copied(),
            final(self).prior_buffer == old(self).prior_buffer,
            final(self).xor_data == old(self).xor_data,
            final(self).xor_offsets == old(self).xor_offsets,
    {
        self.dirty = true;
    }
}

/// What the worker's wait on the notification channel came back with.
#[derive(Debug, Clone, Copy, PartialEq, Eq, Structural)]
pub enum WorkerEvent {
    /// A signal carrying the size of the work that is ready; zero is a mere wake-up.
    Signal(u64),
    /// The receive failed.
    Disconnected,
}

/// States of the worker.
#[derive(Debug, Clone, Copy, PartialEq, Eq, Structural)]
pub enum WorkerState {
    /// Waiting for a signal.
    Idle,
    /// Holding the diff buffers to hand them on and clear them.
    Draining,
    /// Done; no further signal is handled.
    Stopped,
}

/// The state that an idle worker enters on an event. A signal makes it drain,
/// except that a wake-up during shutdown stops it. A failed receive stops it during
/// shutdown and otherwise leaves it waiting.
pub open spec fn worker_next(shutdown: bool, event: WorkerEvent) -> WorkerState {
    match event {
        WorkerEvent::Signal(size) => if size == 0 && shutdown {
            WorkerState::Stopped
        } else {
            WorkerState::Draining
        },
        WorkerEvent::Disconnected => if shutdown {
            WorkerState::Stopped
        } else {
            WorkerState::Idle
        },
    }
}

/// The state in which the worker goes on after a round: from draining it returns
/// to waiting.
pub open spec fn worker_settles(shutdown: bool, event: WorkerEvent) -> WorkerState {
    match worker_next(shutdown, event) {
        WorkerState::Draining => WorkerState::Idle,
        WorkerState::Idle => WorkerState::Idle,
        WorkerState::Stopped => WorkerState::Stopped,
    }
}

/// The state of a worker after a sequence of rounds, each given by the shutdown
/// flag as read in that round and the event that ended the wait. A stopped worker
/// handles nothing further.
pub open spec fn worker_run(start: WorkerState, rounds: Seq<(bool, WorkerEvent)>) -> WorkerState
    decreases rounds.len(),
{
    if rounds.len() == 0 {
        start
    } else {
        let before = worker_run(start, rounds.drop_last());
        if before is Stopped {
            before
        } else {
            worker_settles(rounds.last().0, rounds.last().1)
        }
    }
}

/// Clean shutdown: once the shutdown flag is set, the wake-up signal stops the
/// worker, whatever it has handled before.
pub proof fn lemma_wake_up_stops_worker(start: WorkerState, rounds: Seq<(bool, WorkerEvent)>)
    ensures
        worker_run(start, rounds.push((true, WorkerEvent::Signal(0)))) is Stopped,
{
    let all = rounds.push((true, WorkerEvent::Signal(0)));
    assert(all.drop_last() =~= rounds);
    assert(all.last() == (true, WorkerEvent::Signal(0)));
}

/// Decides what an idle worker does on an event, given the shutdown flag as read
/// after the wait returned.
pub fn worker_transition(shutdown: bool, event: WorkerEvent) -> (next: WorkerState)
    ensures
        next == worker_next(shutdown, event),
{
    match event {
        WorkerEvent::Signal(size) => if size == 0 && shutdown {
            WorkerState::Stopped
        } else {
            WorkerState::Draining
        },
        WorkerEvent::Disconnected => if shutdown {
            WorkerState::Stopped
        } else {
            WorkerState::Idle
        },
    }
}

/// One round of the worker, to be run with both diff buffers held: takes the event
/// that ended the wait, drains where the protocol says so, and returns the state in
/// which the worker goes on, `Idle` or `Stopped`. Draining empties both buffers;
/// otherwise they are left as they are.
pub fn worker_step(
    shutdown: bool,
    event: WorkerEvent,
    xor_buffer: &mut Vec<u64>,
    xor_offsets: &mut Vec<OffsetLength>,
) -> (next: WorkerState)
    ensures
        next == worker_settles(shutdown, event),
        worker_next(shutdown, event) is Draining ==> next is Idle && final(xor_buffer)@.len() == 0
            && final(xor_offsets)@.len() == 0,
        !(worker_next(shutdown, event) is Draining) ==> next == worker_next(shutdown, event)
            && final(xor_buffer)@ == old(xor_buffer)@ && final(xor_offsets)@ == old(
            xor_offsets,
        )@,
        event matches WorkerEvent::Signal(size) && size > 0 ==> next is Idle
            && final(xor_buffer)@.len() == 0 && final(xor_offsets)@.len() == 0,
        shutdown && event == WorkerEvent::Signal(0) ==> next is Stopped && final(xor_buffer)@
            == old(xor_buffer)@ && final(xor_offsets)@ == old(xor_offsets)@,
{
    match worker_transition(shutdown, event) {
        WorkerState::Draining => {
            xor_buffer.clear();
            xor_offsets.clear();
            WorkerState::Idle
        },
        WorkerState::Idle => WorkerState::Idle,
        WorkerState::Stopped => WorkerState::Stopped,
    }
}

} // verus!
