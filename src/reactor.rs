//! The reactor's bookkeeping: shared descriptors, the correlation-tag table,
//! the queue of entries awaiting a flush, and the dispatch of completions.
use vstd::prelude::*;
use crate::buf::BoundedBuf;
use crate::op::{complete_read, complete_splice, read_counts, result_meaning, CompletionRecord, IoError};
use crate::sqe::{read_entry, request_tag, splice_entry, Request, Submission};

verus! {

/// Why the reactor turned a request down.
#[derive(Clone, Copy, Debug, PartialEq, Eq, Structural)]
pub enum SubmitError {
    /// The handle names no open descriptor of this reactor, or the raw
    /// descriptor is negative.
    BadDescriptor,
    /// The reactor is shutting down and takes no new operations.
    ShuttingDown,
    /// Every correlation tag is held by an operation.
    QueueFull,
    /// The descriptor's handle count cannot grow further.
    TooManyHandles,
}

/// Where the operation under a tag stands in its lifecycle.
#[derive(Clone, Copy, Debug, PartialEq, Eq, Structural)]
pub enum Phase {
    /// No operation holds the tag: it was never used, or its operation was reaped.
    Reaped,
    /// Entered in the table; its entry waits for the next flush.
    Registered,
    /// Handed to the kernel; no completion record yet.
    Submitted,
    /// Its completion record arrived; the result waits for its caller.
    Completed,
}

/// Why a completion record could not be delivered.
#[derive(Clone, Copy, Debug, PartialEq, Eq, Structural)]
pub enum DispatchError {
    /// No submitted operation carries the record's tag.
    UnknownTag,
    /// The record reports more bytes than the operation asked for.
    Overrun,
}

/// A handle on one OS descriptor registered with a reactor. Handles are not
/// `Clone`: a new one comes from `Reactor::clone_fd`, which counts it.
#[derive(Debug)]
pub struct SharedFd {
    pub(crate) id: usize,
}

impl SharedFd {
    /// The descriptor's index in its reactor's table.
    pub closed spec fn index(&self) -> usize {
        self.id
    }
}

/// The state of one registered descriptor.
pub struct FdSlot {
    pub raw: i32,
    pub handles: u64,
    pub closed: bool,
}

/// What an operation owns while the kernel may still use it.
pub enum Payload {
    Read { fd: usize, buf: BoundedBuf, offset: u64 },
    Splice { fd_in: usize, off_in: i64, fd_out: usize, off_out: i64, len: u32 },
}

/// The typed result of a completed operation, awaiting its caller.
#[allow(inconsistent_fields)]
pub enum Output {
    Read { result: Result<usize, IoError>, buf: BoundedBuf },
    Splice { result: Result<u32, IoError> },
}

/// One entry of the correlation-tag table.
pub enum Slot {
    Free,
    InFlight { abandoned: bool, payload: Payload },
    Done { output: Output },
}

/// Whether an operation in `s` still pins descriptor `id`.
pub open spec fn slot_refs(s: Slot, id: usize) -> bool {
    match s {
        Slot::InFlight { payload, .. } => match payload {
            Payload::Read { fd, .. } => fd == id,
            Payload::Splice { fd_in, fd_out, .. } => fd_in == id || fd_out == id,
        },
        _ => false,
    }
}

/// Descriptor `id` went from open in `a` to closed in `b`.
pub open spec fn newly_closed(a: &Reactor, b: &Reactor, id: usize) -> bool {
    !a.fd(id as int).closed && b.fd(id as int).closed
}

/// The raw descriptors that completing an operation with `payload` hands
/// back for closing, each once.
pub open spec fn closes_after(a: &Reactor, b: &Reactor, payload: Payload) -> Seq<i32> {
    match payload {
        Payload::Read { fd, .. } => if newly_closed(a, b, fd) { seq![a.fd(fd as int).raw] } else { seq![] },
        Payload::Splice { fd_in, fd_out, .. } => {
            (if newly_closed(a, b, fd_in) { seq![a.fd(fd_in as int).raw] } else { seq![] })
            + (if fd_out != fd_in && newly_closed(a, b, fd_out) { seq![a.fd(fd_out as int).raw] } else { seq![] })
        },
    }
}

/// The table entry that a completion with result `res` leaves for an
/// operation: nothing if its caller abandoned it, else its typed result.
pub open spec fn completes_to(before: Slot, res: i32, after: Slot) -> bool {
    match before {
        Slot::InFlight { abandoned, payload } => if abandoned {
            after is Free
        } else {
            match payload {
                Payload::Read { buf, .. } => match after {
                    Slot::Done { output: Output::Read { result, buf: b } } => read_counts(buf, res, result, b),
                    _ => false,
                },
                Payload::Splice { .. } => after == (Slot::Done { output: Output::Splice { result: result_meaning(res) } }),
            }
        },
        _ => false,
    }
}

/// Whether an operation could have produced `res`: no read reports more
/// bytes than its buffer holds, no splice more than it asked to move.
pub open spec fn fits(before: Slot, res: i32) -> bool {
    match before {
        Slot::InFlight { payload: Payload::Read { buf, .. }, .. } => res < 0 || res as int <= buf.capacity(),
        Slot::InFlight { payload: Payload::Splice { len, .. }, .. } => res < 0 || res as int <= len,
        _ => true,
    }
}

/// The length a read asks for: the buffer's capacity, or `u32::MAX` if that
/// is less.
pub open spec fn read_len(capacity: nat) -> u32 {
    if capacity > u32::MAX { u32::MAX } else { capacity as u32 }
}

/// The reactor's state: descriptor table, tag table, and queued entries.
pub struct Reactor {
    fds: Vec<FdSlot>,
    slots: Vec<Slot>,
    queue: Vec<Submission>,
    queued: Vec<u64>,
    closing: bool,
}

impl Reactor {
    /// Number of correlation tags, the bound on operations outstanding at once.
    pub closed spec fn capacity(&self) -> nat {
        self.slots@.len()
    }

    /// The table entry for tag `t`.
    pub closed spec fn slot(&self, t: int) -> Slot {
        self.slots@[t]
    }

    /// Number of registered descriptors, open or closed.
    pub closed spec fn fd_count(&self) -> nat {
        self.fds@.len()
    }

    /// The state of descriptor `id`.
    pub closed spec fn fd(&self, id: int) -> FdSlot {
        self.fds@[id]
    }

    /// Tags whose entries wait for the next flush, in submission order.
    pub closed spec fn pending(&self) -> Seq<u64> {
        self.queued@
    }

    /// What the entries waiting for the next flush ask of the kernel, in
    /// submission order.
    pub closed spec fn pending_requests(&self) -> Seq<Request> {
        self.queue@.map_values(|s: Submission| s.request)
    }

    /// Whether the reactor refuses new submissions.
    pub closed spec fn is_closing(&self) -> bool {
        self.closing
    }

    /// Tag `t` names an operation the kernel has not completed yet.
    pub open spec fn in_flight(&self, t: int) -> bool {
        0 <= t < self.capacity() && self.slot(t) is InFlight
    }

    /// Tag `t` names an operation entered in the table but not yet flushed.
    pub open spec fn registered(&self, t: int) -> bool {
        self.in_flight(t) && self.pending().contains(t as u64)
    }

    /// Tag `t` names an operation handed to the kernel and not yet completed.
    pub open spec fn submitted(&self, t: int) -> bool {
        self.in_flight(t) && !self.pending().contains(t as u64)
    }

    /// Tag `t` names an operation whose result waits for its caller.
    pub open spec fn completed(&self, t: int) -> bool {
        0 <= t < self.capacity() && self.slot(t) is Done
    }

    /// Some operation the kernel has not completed pins descriptor `id`.
    pub open spec fn busy(&self, id: usize) -> bool {
        exists|t: int| 0 <= t < self.capacity() && #[trigger] slot_refs(self.slot(t), id)
    }

    /// A descriptor is closed exactly when no handle and no pending
    /// operation holds it.
    pub open spec fn fd_settled(&self, id: usize) -> bool {
        self.fd(id as int).closed == (self.fd(id as int).handles == 0 && !self.busy(id))
    }

    /// The handle names an open descriptor of this reactor.
    pub open spec fn live(&self, fd: &SharedFd) -> bool {
        fd.index() < self.fd_count() && self.fd(fd.index() as int).handles > 0
    }

    /// The table's shape, without the rule on closing.
    pub closed spec fn shape(&self) -> bool {
        &&& self.slots@.len() <= u64::MAX
        &&& self.queue@.len() == self.queued@.len()
        &&& forall|i: int| 0 <= i < self.queued@.len() ==> request_tag(#[trigger] self.queue@[i].request) == self.queued@[i]
        &&& forall|i: int| 0 <= i < self.queued@.len() ==> {
            &&& (#[trigger] self.queued@[i]) < self.slots@.len()
            &&& self.slots@[self.queued@[i] as int] is InFlight
        }
        &&& forall|t: int, id: usize| 0 <= t < self.slots@.len() && #[trigger] slot_refs(self.slots@[t], id) ==> id < self.fds@.len()
    }

    /// Well-formedness: the shape holds and every descriptor is settled.
    pub open spec fn wf(&self) -> bool {
        &&& self.shape()
        &&& forall|id: usize| id < self.fd_count() ==> #[trigger] self.fd_settled(id)
    }
}

/// Whether the operation in `s` pins descriptor `id`.
fn refs_fd(s: &Slot, id: usize) -> (r: bool)
    ensures
        r == slot_refs(*s, id),
{
    match s {
        Slot::InFlight { payload, .. } => match payload {
            Payload::Read { fd, .. } => *fd == id,
            Payload::Splice { fd_in, fd_out, .. } => *fd_in == id || *fd_out == id,
        },
        _ => false,
    }
}

/// Two reactors with the same tag table agree on which descriptors are busy.
proof fn lemma_busy_same_slots(a: &Reactor, b: &Reactor, id: usize)
    requires
        a.slots@ == b.slots@,
    ensures
        a.busy(id) == b.busy(id),
{
    if a.busy(id) {
        let t = choose|t: int| 0 <= t < a.capacity() && #[trigger] slot_refs(a.slot(t), id);
        assert(slot_refs(b.slot(t), id));
    }
    if b.busy(id) {
        let t = choose|t: int| 0 <= t < b.capacity() && #[trigger] slot_refs(b.slot(t), id);
        assert(slot_refs(a.slot(t), id));
    }
}

/// Replacing the table entry of one tag by one that pins descriptor `id`
/// exactly when the old one did leaves `id` as busy as it was.
proof fn lemma_busy_update_neutral(a: &Reactor, b: &Reactor, t: int, s: Slot, id: usize)
    requires
        0 <= t < a.slots@.len(),
        b.slots@ == a.slots@.update(t, s),
        slot_refs(a.slots@[t], id) == slot_refs(s, id),
    ensures
        a.busy(id) == b.busy(id),
{
    if a.busy(id) {
        let u = choose|u: int| 0 <= u < a.capacity() && #[trigger] slot_refs(a.slot(u), id);
        assert(slot_refs(b.slot(u), id));
    }
    if b.busy(id) {
        let u = choose|u: int| 0 <= u < b.capacity() && #[trigger] slot_refs(b.slot(u), id);
        assert(slot_refs(a.slot(u), id));
    }
}

impl Reactor {
    /// A reactor with `capacity` correlation tags, no descriptors and nothing queued.
    pub fn new(capacity: usize) -> (r: Reactor)
        requires
            capacity <= u64::MAX,
        ensures
            r.wf(),
            r.capacity() == capacity,
            r.fd_count() == 0,
            r.pending().len() == 0,
            !r.is_closing(),
            forall|t: int| 0 <= t < capacity ==> r.slot(t) is Free,
    {
        let mut slots: Vec<Slot> = Vec::new();
        let mut i: usize = 0;
        while i < capacity
            invariant
                i <= capacity,
                slots@.len() == i,
                forall|t: int| 0 <= t < i ==> slots@[t] is Free,
            decreases capacity - i,
        {
            slots.push(Slot::Free);
            i = i + 1;
        }
        Reactor { fds: Vec::new(), slots, queue: Vec::new(), queued: Vec::new(), closing: false }
    }

    /// Whether some operation the kernel has not completed pins descriptor `id`.
    fn fd_busy(&self, id: usize) -> (r: bool)
        ensures
            r == self.busy(id),
    {
        let mut t: usize = 0;
        while t < self.slots.len()
            invariant
                t <= self.slots@.len(),
                forall|u: int| 0 <= u < t ==> !slot_refs(self.slots@[u], id),
            decreases self.slots@.len() - t,
        {
            if refs_fd(&self.slots[t], id) {
                assert(slot_refs(self.slot(t as int), id));
                return true;
            }
            t = t + 1;
        }
        false
    }

    /// Registers an OS descriptor; the returned handle is its only one.
    pub fn open_fd(&mut self, raw: i32) -> (r: Result<SharedFd, SubmitError>)
        requires
            old(self).wf(),
        ensures
            final(self).wf(),
            final(self).capacity() == old(self).capacity(),
            forall|t: int| 0 <= t < old(self).capacity() ==> final(self).slot(t) == old(self).slot(t),
            final(self).pending() == old(self).pending(),
            final(self).is_closing() == old(self).is_closing(),
            forall|id: int| 0 <= id < old(self).fd_count() ==> final(self).fd(id) == old(self).fd(id),
            raw < 0 ==> r == Err::<SharedFd, SubmitError>(SubmitError::BadDescriptor) && final(self).fd_count() == old(self).fd_count(),
            raw >= 0 ==> r is Ok && final(self).fd_count() == old(self).fd_count() + 1,
            r matches Ok(h) ==> {
                &&& h.index() == old(self).fd_count()
                &&& final(self).fd(h.index() as int) == (FdSlot { raw, handles: 1, closed: false })
            },
    {
        if raw < 0 {
            return Err(SubmitError::BadDescriptor);
        }
        let id = self.fds.len();
        self.fds.push(FdSlot { raw, handles: 1, closed: false });
        proof {
            assert forall|id2: usize| id2 < self.fd_count() implies #[trigger] self.fd_settled(id2) by {
                if id2 < id {
                    assert(old(self).fd_settled(id2));
                    lemma_busy_same_slots(self, old(self), id2);
                }
            }
        }
        Ok(SharedFd { id })
    }
}

impl Reactor {
    /// The raw OS descriptor behind a handle, for building a request; the
    /// handle keeps its ownership.
    pub fn raw_fd(&self, fd: &SharedFd) -> (r: Option<i32>)
        ensures
            self.live(fd) ==> r == Some(self.fd(fd.index() as int).raw),
            !self.live(fd) ==> r is None,
    {
        if fd.id < self.fds.len() && self.fds[fd.id].handles > 0 {
            Some(self.fds[fd.id].raw)
        } else {
            None
        }
    }

    /// Replaces the entry of descriptor `id`, leaving everything else as it is.
    fn put_fd(&mut self, id: usize, slot: FdSlot)
        requires
            old(self).shape(),
            id < old(self).fd_count(),
        ensures
            final(self).shape(),
            final(self).slots@ == old(self).slots@,
            final(self).queued@ == old(self).queued@,
            final(self).closing == old(self).closing,
            final(self).fds@ == old(self).fds@.update(id as int, slot),
            forall|j: usize| j < old(self).fd_count() && j != id && old(self).fd_settled(j) ==> #[trigger] final(self).fd_settled(j),
    {
        self.fds.set(id, slot);
        proof {
            assert forall|j: usize| j < old(self).fd_count() && j != id && old(self).fd_settled(j) implies #[trigger] self.fd_settled(j) by {
                lemma_busy_same_slots(self, old(self), j);
            }
        }
    }

    /// A new handle on the descriptor that `fd` names.
    pub fn clone_fd(&mut self, fd: &SharedFd) -> (r: Result<SharedFd, SubmitError>)
        requires
            old(self).wf(),
        ensures
            final(self).wf(),
            final(self).capacity() == old(self).capacity(),
            forall|t: int| 0 <= t < old(self).capacity() ==> final(self).slot(t) == old(self).slot(t),
            final(self).pending() == old(self).pending(),
            final(self).is_closing() == old(self).is_closing(),
            final(self).fd_count() == old(self).fd_count(),
            forall|id: int| 0 <= id < old(self).fd_count() && id != fd.index() ==> final(self).fd(id) == old(self).fd(id),
            !old(self).live(fd) ==> r == Err::<SharedFd, SubmitError>(SubmitError::BadDescriptor) && *final(self) == *old(self),
            old(self).live(fd) && old(self).fd(fd.index() as int).handles == u64::MAX ==> r == Err::<SharedFd, SubmitError>(SubmitError::TooManyHandles) && *final(self) == *old(self),
            old(self).live(fd) && old(self).fd(fd.index() as int).handles < u64::MAX ==> {
                &&& r matches Ok(h) && h.index() == fd.index()
                &&& final(self).fd(fd.index() as int) == (FdSlot {
                    raw: old(self).fd(fd.index() as int).raw,
                    handles: (old(self).fd(fd.index() as int).handles + 1) as u64,
                    closed: false,
                })
            },
    {
        if !(fd.id < self.fds.len() && self.fds[fd.id].handles > 0) {
            return Err(SubmitError::BadDescriptor);
        }
        let handles = self.fds[fd.id].handles;
        if handles == u64::MAX {
            return Err(SubmitError::TooManyHandles);
        }
        let raw = self.fds[fd.id].raw;
        proof {
            assert(old(self).fd_settled(fd.id));
        }
        self.put_fd(fd.id, FdSlot { raw, handles: handles + 1, closed: false });
        proof {
            lemma_busy_same_slots(self, old(self), fd.id);
        }
        Ok(SharedFd { id: fd.id })
    }

    /// Gives up a handle. When it was the last one and no pending operation
    /// pins the descriptor, the descriptor is closed and its raw value is
    /// returned for the caller to close; otherwise the close waits for the
    /// completion of the last operation that pins it.
    pub fn release_fd(&mut self, fd: SharedFd) -> (r: Result<Option<i32>, SubmitError>)
        requires
            old(self).wf(),
        ensures
            final(self).wf(),
            final(self).capacity() == old(self).capacity(),
            forall|t: int| 0 <= t < old(self).capacity() ==> final(self).slot(t) == old(self).slot(t),
            final(self).pending() == old(self).pending(),
            final(self).is_closing() == old(self).is_closing(),
            final(self).fd_count() == old(self).fd_count(),
            forall|id: int| 0 <= id < old(self).fd_count() && id != fd.index() ==> final(self).fd(id) == old(self).fd(id),
            !old(self).live(&fd) ==> r == Err::<Option<i32>, SubmitError>(SubmitError::BadDescriptor) && *final(self) == *old(self),
            old(self).live(&fd) ==> {
                let before = old(self).fd(fd.index() as int);
                let last = before.handles == 1 && !old(self).busy(fd.index());
                &&& final(self).fd(fd.index() as int) == (FdSlot { raw: before.raw, handles: (before.handles - 1) as u64, closed: last })
                &&& r == Ok::<Option<i32>, SubmitError>(if last { Some(before.raw) } else { None })
            },
    {
        if !(fd.id < self.fds.len() && self.fds[fd.id].handles > 0) {
            return Err(SubmitError::BadDescriptor);
        }
        let handles = self.fds[fd.id].handles - 1;
        let raw = self.fds[fd.id].raw;
        let last = handles == 0 && !self.fd_busy(fd.id);
        self.put_fd(fd.id, FdSlot { raw, handles, closed: last });
        proof {
            lemma_busy_same_slots(self, old(self), fd.id);
        }
        if last {
            Ok(Some(raw))
        } else {
            Ok(None)
        }
    }
}

impl Reactor {
    /// The lowest free tag, if any.
    fn free_tag(&self) -> (r: Option<usize>)
        ensures
            r matches Some(t) ==> t < self.capacity() && self.slot(t as int) is Free,
            r is None ==> forall|t: int| 0 <= t < self.capacity() ==> !(self.slot(t) is Free),
    {
        let mut t: usize = 0;
        while t < self.slots.len()
            invariant
                t <= self.slots@.len(),
                forall|u: int| 0 <= u < t ==> !(self.slots@[u] is Free),
            decreases self.slots@.len() - t,
        {
            if let Slot::Free = &self.slots[t] {
                return Some(t);
            }
            t = t + 1;
        }
        None
    }

    /// Enters an operation under a free tag and queues its entry.
    fn install(&mut self, t: usize, payload: Payload, entry: Submission)
        requires
            old(self).wf(),
            t < old(self).capacity(),
            old(self).slot(t as int) is Free,
            request_tag(entry.request) == t,
            forall|id: usize| #[trigger] slot_refs(Slot::InFlight { abandoned: false, payload }, id) ==> id < old(self).fd_count() && old(self).fd(id as int).handles > 0,
        ensures
            final(self).wf(),
            final(self).capacity() == old(self).capacity(),
            final(self).slots@ == old(self).slots@.update(t as int, Slot::InFlight { abandoned: false, payload }),
            final(self).fds@ == old(self).fds@,
            final(self).pending() == old(self).pending().push(t as u64),
            final(self).pending_requests() == old(self).pending_requests().push(entry.request),
            final(self).is_closing() == old(self).is_closing(),
    {
        let ghost req = entry.request;
        let ghost s = Slot::InFlight { abandoned: false, payload };
        self.slots.set(t, Slot::InFlight { abandoned: false, payload });
        self.queue.push(entry);
        self.queued.push(t as u64);
        proof {
            assert forall|i: int| 0 <= i < self.queued@.len() implies {
                &&& (#[trigger] self.queued@[i]) < self.slots@.len()
                &&& self.slots@[self.queued@[i] as int] is InFlight
            } by {
                if i < old(self).queued@.len() {
                    assert(self.queued@[i] == old(self).queued@[i]);
                }
            }
            assert forall|i: int| 0 <= i < self.queued@.len() implies request_tag(#[trigger] self.queue@[i].request) == self.queued@[i] by {
                if i < old(self).queued@.len() {
                    assert(self.queue@[i] == old(self).queue@[i]);
                    assert(self.queued@[i] == old(self).queued@[i]);
                }
            }
            assert(self.pending_requests() =~= old(self).pending_requests().push(req));
            assert forall|u: int, id: usize| 0 <= u < self.slots@.len() && #[trigger] slot_refs(self.slots@[u], id) implies id < self.fds@.len() by {
                if u != t {
                    assert(slot_refs(old(self).slots@[u], id));
                }
            }
            assert forall|id: usize| id < self.fd_count() implies #[trigger] self.fd_settled(id) by {
                assert(old(self).fd_settled(id));
                if !slot_refs(s, id) {
                    lemma_busy_update_neutral(old(self), self, t as int, s, id);
                }
            }
        }
    }

    /// Submits a read from `fd` at `offset` into `buf`, which the operation
    /// owns until its result is taken. The read asks for the buffer's whole
    /// capacity, or `u32::MAX` bytes if that is less. Returns the operation's
    /// tag, which no other operation held.
    pub fn read_at(&mut self, fd: &SharedFd, buf: BoundedBuf, offset: u64) -> (r: Result<u64, SubmitError>)
        requires
            old(self).wf(),
        ensures
            final(self).wf(),
            old(self).is_closing() ==> r == Err::<u64, SubmitError>(SubmitError::ShuttingDown),
            !old(self).is_closing() && !old(self).live(fd) ==> r == Err::<u64, SubmitError>(SubmitError::BadDescriptor),
            !old(self).is_closing() && old(self).live(fd) && (forall|t: int| 0 <= t < old(self).capacity() ==> !(old(self).slot(t) is Free))
                ==> r == Err::<u64, SubmitError>(SubmitError::QueueFull),
            !old(self).is_closing() && old(self).live(fd) && (exists|t: int| 0 <= t < old(self).capacity() && old(self).slot(t) is Free) ==> r is Ok,
            r is Err ==> *final(self) == *old(self),
            r matches Ok(tag) ==> {
                &&& tag < old(self).capacity()
                &&& old(self).slot(tag as int) is Free
                &&& final(self).slot(tag as int) matches Slot::InFlight { abandoned: false, payload: Payload::Read { fd: f, buf: b, offset: o } }
                    && f == fd.index() && o == offset && b.capacity() == buf.capacity() && b.init_len() == buf.init_len()
                &&& forall|t: int| 0 <= t < old(self).capacity() && t != tag ==> final(self).slot(t) == old(self).slot(t)
                &&& final(self).pending() == old(self).pending().push(tag)
                &&& final(self).pending_requests() == old(self).pending_requests().push(
                    Request::Read { fd: old(self).fd(fd.index() as int).raw, len: read_len(buf.capacity()), offset, tag },
                )
                &&& final(self).capacity() == old(self).capacity()
                &&& final(self).fd_count() == old(self).fd_count()
                &&& forall|id: int| 0 <= id < old(self).fd_count() ==> final(self).fd(id) == old(self).fd(id)
                &&& final(self).is_closing() == old(self).is_closing()
            },
    {
        if self.closing {
            return Err(SubmitError::ShuttingDown);
        }
        if !(fd.id < self.fds.len() && self.fds[fd.id].handles > 0) {
            return Err(SubmitError::BadDescriptor);
        }
        let t = match self.free_tag() {
            Some(t) => t,
            None => {
                return Err(SubmitError::QueueFull);
            },
        };
        let raw = self.fds[fd.id].raw;
        let mut buf = buf;
        let total = buf.bytes_total();
        let len: u32 = if total > u32::MAX as usize { u32::MAX } else { total as u32 };
        let entry = read_entry(raw, &mut buf, len, offset, t as u64);
        self.install(t, Payload::Read { fd: fd.id, buf, offset }, entry);
        Ok(t as u64)
    }

    /// Submits a transfer of up to `len` bytes from `fd_in` to `fd_out`. An
    /// offset of -1 selects the descriptor's own position. Both descriptors
    /// stay open until the transfer completes. Returns the operation's tag,
    /// which no other operation held.
    pub fn splice(&mut self, fd_in: &SharedFd, off_in: i64, fd_out: &SharedFd, off_out: i64, len: u32) -> (r: Result<u64, SubmitError>)
        requires
            old(self).wf(),
        ensures
            final(self).wf(),
            old(self).is_closing() ==> r == Err::<u64, SubmitError>(SubmitError::ShuttingDown),
            !old(self).is_closing() && !(old(self).live(fd_in) && old(self).live(fd_out)) ==> r == Err::<u64, SubmitError>(SubmitError::BadDescriptor),
            !old(self).is_closing() && old(self).live(fd_in) && old(self).live(fd_out) && (forall|t: int| 0 <= t < old(self).capacity() ==> !(old(self).slot(t) is Free))
                ==> r == Err::<u64, SubmitError>(SubmitError::QueueFull),
            !old(self).is_closing() && old(self).live(fd_in) && old(self).live(fd_out) && (exists|t: int| 0 <= t < old(self).capacity() && old(self).slot(t) is Free) ==> r is Ok,
            r is Err ==> *final(self) == *old(self),
            r matches Ok(tag) ==> {
                &&& tag < old(self).capacity()
                &&& old(self).slot(tag as int) is Free
                &&& final(self).slot(tag as int) == (Slot::InFlight {
                    abandoned: false,
                    payload: Payload::Splice { fd_in: fd_in.index(), off_in, fd_out: fd_out.index(), off_out, len },
                })
                &&& forall|t: int| 0 <= t < old(self).capacity() && t != tag ==> final(self).slot(t) == old(self).slot(t)
                &&& final(self).pending() == old(self).pending().push(tag)
                &&& final(self).pending_requests() == old(self).pending_requests().push(Request::Splice {
                    fd_in: old(self).fd(fd_in.index() as int).raw,
                    off_in,
                    fd_out: old(self).fd(fd_out.index() as int).raw,
                    off_out,
                    len,
                    tag,
                })
                &&& final(self).capacity() == old(self).capacity()
                &&& final(self).fd_count() == old(self).fd_count()
                &&& forall|id: int| 0 <= id < old(self).fd_count() ==> final(self).fd(id) == old(self).fd(id)
                &&& final(self).is_closing() == old(self).is_closing()
            },
    {
        if self.closing {
            return Err(SubmitError::ShuttingDown);
        }
        if !(fd_in.id < self.fds.len() && self.fds[fd_in.id].handles > 0 && fd_out.id < self.fds.len() && self.fds[fd_out.id].handles > 0) {
            return Err(SubmitError::BadDescriptor);
        }
        let t = match self.free_tag() {
            Some(t) => t,
            None => {
                return Err(SubmitError::QueueFull);
            },
        };
        let entry = splice_entry(self.fds[fd_in.id].raw, off_in, self.fds[fd_out.id].raw, off_out, len, t as u64);
        self.install(t, Payload::Splice { fd_in: fd_in.id, off_in, fd_out: fd_out.id, off_out, len }, entry);
        Ok(t as u64)
    }
}

impl Reactor {
    /// Takes the entry of tag `t` out of the table, leaving it free.
    fn take_slot(&mut self, t: usize) -> (r: Slot)
        requires
            t < old(self).slots@.len(),
        ensures
            r == old(self).slots@[t as int],
            final(self).slots@ == old(self).slots@.update(t as int, Slot::Free),
            final(self).fds@ == old(self).fds@,
            final(self).queue@ == old(self).queue@,
            final(self).queued@ == old(self).queued@,
            final(self).closing == old(self).closing,
    {
        let mut taken = Slot::Free;
        std::mem::swap(&mut taken, &mut self.slots[t]);
        taken
    }

    /// Whether the entry of tag `t` still waits for a flush.
    fn is_queued(&self, t: u64) -> (r: bool)
        ensures
            r == self.pending().contains(t),
    {
        let mut i: usize = 0;
        while i < self.queued.len()
            invariant
                i <= self.queued@.len(),
                forall|j: int| 0 <= j < i ==> self.queued@[j] != t,
            decreases self.queued@.len() - i,
        {
            if self.queued[i] == t {
                assert(self.queued@[i as int] == t);
                return true;
            }
            i = i + 1;
        }
        false
    }

    /// Hands every queued entry over for the kernel, in submission order;
    /// the operations behind them count as submitted from now on.
    pub fn flush(&mut self) -> (r: Vec<Submission>)
        requires
            old(self).wf(),
        ensures
            final(self).wf(),
            r@.len() == old(self).pending().len(),
            forall|i: int| 0 <= i < r@.len() ==> (#[trigger] r@[i]).request == old(self).pending_requests()[i],
            forall|i: int| 0 <= i < r@.len() ==> request_tag((#[trigger] r@[i]).request) == old(self).pending()[i],
            final(self).pending().len() == 0,
            final(self).capacity() == old(self).capacity(),
            forall|t: int| 0 <= t < old(self).capacity() ==> final(self).slot(t) == old(self).slot(t),
            final(self).fd_count() == old(self).fd_count(),
            forall|id: int| 0 <= id < old(self).fd_count() ==> final(self).fd(id) == old(self).fd(id),
            final(self).is_closing() == old(self).is_closing(),
    {
        let mut out: Vec<Submission> = Vec::new();
        std::mem::swap(&mut out, &mut self.queue);
        self.queued = Vec::new();
        proof {
            assert forall|id: usize| id < self.fd_count() implies #[trigger] self.fd_settled(id) by {
                assert(old(self).fd_settled(id));
                lemma_busy_same_slots(self, old(self), id);
            }
        }
        out
    }

    /// Closes descriptor `id` if nothing holds it any more, returning its raw
    /// value when this call closed it.
    fn settle(&mut self, id: usize, other: usize) -> (r: Option<i32>)
        requires
            old(self).shape(),
            id < old(self).fd_count(),
            forall|j: usize| j < old(self).fd_count() && j != id && j != other ==> #[trigger] old(self).fd_settled(j),
        ensures
            final(self).shape(),
            final(self).slots@ == old(self).slots@,
            final(self).queued@ == old(self).queued@,
            final(self).closing == old(self).closing,
            final(self).fd_count() == old(self).fd_count(),
            forall|j: usize| j < old(self).fd_count() && j != other ==> #[trigger] final(self).fd_settled(j),
            final(self).fd_settled(id),
            forall|j: int| 0 <= j < old(self).fd_count() && j != id ==> final(self).fd(j) == old(self).fd(j),
            final(self).fd(id as int).raw == old(self).fd(id as int).raw,
            final(self).fd(id as int).handles == old(self).fd(id as int).handles,
            final(self).fd(id as int).closed == (old(self).fd(id as int).handles == 0 && !old(self).busy(id)),
            r == if newly_closed(old(self), final(self), id) { Some(old(self).fd(id as int).raw) } else { None::<i32> },
    {
        let raw = self.fds[id].raw;
        let handles = self.fds[id].handles;
        let was_closed = self.fds[id].closed;
        let closed = handles == 0 && !self.fd_busy(id);
        self.put_fd(id, FdSlot { raw, handles, closed });
        proof {
            lemma_busy_same_slots(self, old(self), id);
            assert forall|j: usize| j < old(self).fd_count() && j != other implies #[trigger] self.fd_settled(j) by {
                if j != id {
                    assert(old(self).fd_settled(j));
                }
            }
        }
        if closed && !was_closed {
            Some(raw)
        } else {
            None
        }
    }

    /// Delivers a completion record to the operation carrying its tag. The
    /// operation's typed result waits under the tag for its caller, or is
    /// dropped if the caller abandoned it. Descriptors that the operation was
    /// the last to hold are closed: their raw values come back for the
    /// caller to close. A record for no submitted operation, or one that
    /// reports more bytes than a read asked for, changes nothing.
    pub fn complete(&mut self, rec: CompletionRecord) -> (r: Result<Vec<i32>, DispatchError>)
        requires
            old(self).wf(),
        ensures
            final(self).wf(),
            !old(self).submitted(rec.tag as int) ==> r == Err::<Vec<i32>, DispatchError>(DispatchError::UnknownTag),
            old(self).submitted(rec.tag as int) && !fits(old(self).slot(rec.tag as int), rec.result)
                ==> r == Err::<Vec<i32>, DispatchError>(DispatchError::Overrun),
            r is Err ==> *final(self) == *old(self),
            old(self).submitted(rec.tag as int) && fits(old(self).slot(rec.tag as int), rec.result) ==> {
                &&& r matches Ok(closes) && closes@ == closes_after(old(self), final(self), old(self).slot(rec.tag as int)->payload)
                &&& completes_to(old(self).slot(rec.tag as int), rec.result, final(self).slot(rec.tag as int))
                &&& forall|t: int| 0 <= t < old(self).capacity() && t != rec.tag ==> final(self).slot(t) == old(self).slot(t)
                &&& final(self).capacity() == old(self).capacity()
                &&& final(self).pending() == old(self).pending()
                &&& final(self).is_closing() == old(self).is_closing()
                &&& final(self).fd_count() == old(self).fd_count()
                &&& forall|id: int| 0 <= id < old(self).fd_count() ==> final(self).fd(id).raw == old(self).fd(id).raw
                &&& forall|id: int| 0 <= id < old(self).fd_count() ==> final(self).fd(id).handles == old(self).fd(id).handles
            },
    {
        if rec.tag >= self.slots.len() as u64 {
            return Err(DispatchError::UnknownTag);
        }
        let t = rec.tag as usize;
        match &self.slots[t] {
            Slot::InFlight { payload, .. } => {
                let too_long = match payload {
                    Payload::Read { buf, .. } => rec.result >= 0 && rec.result as usize > buf.bytes_total(),
                    Payload::Splice { len, .. } => rec.result >= 0 && rec.result as u32 > *len,
                };
                if too_long {
                    if self.is_queued(rec.tag) {
                        return Err(DispatchError::UnknownTag);
                    }
                    return Err(DispatchError::Overrun);
                }
            },
            _ => {
                return Err(DispatchError::UnknownTag);
            },
        }
        if self.is_queued(rec.tag) {
            return Err(DispatchError::UnknownTag);
        }
        let ghost before = *self;
        let taken = self.take_slot(t);
        let (abandoned, payload) = match taken {
            Slot::InFlight { abandoned, payload } => (abandoned, payload),
            _ => {
                proof {
                    assert(false);
                }
                return Err(DispatchError::UnknownTag);
            },
        };
        let (first, second, slot) = match payload {
            Payload::Read { fd, buf, .. } => {
                let (result, buf) = complete_read(buf, rec.result);
                (fd, fd, Slot::Done { output: Output::Read { result, buf } })
            },
            Payload::Splice { fd_in, fd_out, .. } => (fd_in, fd_out, Slot::Done { output: Output::Splice { result: complete_splice(rec.result) } }),
        };
        if abandoned {
            proof {
                assert(self.slots@ == before.slots@.update(t as int, Slot::Free));
            }
        } else {
            self.slots.set(t, slot);
        }
        let ghost mid = *self;
        proof {
            assert(self.slots@ =~= before.slots@.update(t as int, self.slots@[t as int]));
            assert(self.fds@ == before.fds@);
            assert forall|i: int| 0 <= i < self.queued@.len() implies {
                &&& (#[trigger] self.queued@[i]) < self.slots@.len()
                &&& self.slots@[self.queued@[i] as int] is InFlight
            } by {
                assert(before.queued@[i] != rec.tag);
            }
            assert forall|u: int, id: usize| 0 <= u < self.slots@.len() && #[trigger] slot_refs(self.slots@[u], id) implies id < self.fds@.len() by {
                assert(u != t);
                assert(slot_refs(before.slots@[u], id));
            }
            assert(slot_refs(before.slots@[t as int], first));
            assert(slot_refs(before.slots@[t as int], second));
            assert forall|j: usize| j < self.fd_count() && j != first && j != second implies #[trigger] self.fd_settled(j) by {
                assert(before.fd_settled(j));
                lemma_busy_update_neutral(&before, self, t as int, self.slots@[t as int], j);
            }
            assert(before.busy(first));
            assert(before.busy(second));
            assert(before.fd_settled(first));
            assert(before.fd_settled(second));
        }
        let mut closes: Vec<i32> = Vec::new();
        if let Some(raw) = self.settle(first, second) {
            closes.push(raw);
        }
        let ghost after_first = *self;
        let ghost closes_first = closes@;
        if let Some(raw) = self.settle(second, second) {
            closes.push(raw);
        }
        proof {
            lemma_busy_same_slots(&mid, &after_first, second);
            lemma_busy_same_slots(&after_first, self, second);
            if first == second {
                assert(after_first.fd_settled(second));
                assert(self.fd(first as int) == after_first.fd(first as int));
                assert(!newly_closed(&after_first, self, second));
                assert(closes@ == closes_first);
            } else {
                assert(self.fd(first as int) == after_first.fd(first as int));
                assert(after_first.fd(second as int) == mid.fd(second as int));
            }
            assert(newly_closed(&mid, &after_first, first) == newly_closed(&before, self, first));
            assert(first != second ==> newly_closed(&after_first, self, second) == newly_closed(&before, self, second));
            assert(closes@ =~= closes_after(&before, self, before.slots@[t as int]->payload));
        }
        Ok(closes)
    }
}

impl Reactor {
    /// Frees the entry of tag `t`, which holds no operation the kernel
    /// might still complete.
    fn reap(&mut self, t: usize) -> (r: Slot)
        requires
            old(self).wf(),
            t < old(self).capacity(),
            !(old(self).slot(t as int) is InFlight),
        ensures
            final(self).wf(),
            r == old(self).slot(t as int),
            final(self).slots@ == old(self).slots@.update(t as int, Slot::Free),
            final(self).fds@ == old(self).fds@,
            final(self).queued@ == old(self).queued@,
            final(self).closing == old(self).closing,
    {
        let r = self.take_slot(t);
        proof {
            assert forall|i: int| 0 <= i < self.queued@.len() implies {
                &&& (#[trigger] self.queued@[i]) < self.slots@.len()
                &&& self.slots@[self.queued@[i] as int] is InFlight
            } by {
                assert(old(self).slots@[old(self).queued@[i] as int] is InFlight);
            }
            assert forall|u: int, id: usize| 0 <= u < self.slots@.len() && #[trigger] slot_refs(self.slots@[u], id) implies id < self.fds@.len() by {
                assert(slot_refs(old(self).slots@[u], id));
            }
            assert forall|id: usize| id < self.fd_count() implies #[trigger] self.fd_settled(id) by {
                assert(old(self).fd_settled(id));
                lemma_busy_update_neutral(old(self), self, t as int, Slot::Free, id);
            }
        }
        r
    }

    /// Takes the result of a completed read: the byte count or error, and
    /// the buffer. The tag is free again. `None` while the read has not
    /// completed, or if the tag names no read.
    pub fn take_read(&mut self, tag: u64) -> (r: Option<(Result<usize, IoError>, BoundedBuf)>)
        requires
            old(self).wf(),
        ensures
            final(self).wf(),
            final(self).capacity() == old(self).capacity(),
            final(self).pending() == old(self).pending(),
            final(self).is_closing() == old(self).is_closing(),
            final(self).fd_count() == old(self).fd_count(),
            forall|id: int| 0 <= id < old(self).fd_count() ==> final(self).fd(id) == old(self).fd(id),
            forall|t: int| 0 <= t < old(self).capacity() && t != tag ==> final(self).slot(t) == old(self).slot(t),
            match r {
                Some((result, buf)) => {
                    &&& tag < old(self).capacity()
                    &&& old(self).slot(tag as int) == (Slot::Done { output: Output::Read { result, buf } })
                    &&& final(self).slot(tag as int) is Free
                },
                None => {
                    &&& !(0 <= tag < old(self).capacity() && old(self).slot(tag as int) matches Slot::Done { output: Output::Read { .. } })
                    &&& *final(self) == *old(self)
                },
            },
    {
        if tag >= self.slots.len() as u64 {
            return None;
        }
        let t = tag as usize;
        match &self.slots[t] {
            Slot::Done { output: Output::Read { .. } } => {},
            _ => {
                return None;
            },
        }
        match self.reap(t) {
            Slot::Done { output: Output::Read { result, buf } } => Some((result, buf)),
            _ => {
                proof {
                    assert(false);
                }
                None
            },
        }
    }

    /// Takes the result of a completed splice: the byte count moved, or the
    /// error. The tag is free again. `None` while the splice has not
    /// completed, or if the tag names no splice.
    pub fn take_splice(&mut self, tag: u64) -> (r: Option<Result<u32, IoError>>)
        requires
            old(self).wf(),
        ensures
            final(self).wf(),
            final(self).capacity() == old(self).capacity(),
            final(self).pending() == old(self).pending(),
            final(self).is_closing() == old(self).is_closing(),
            final(self).fd_count() == old(self).fd_count(),
            forall|id: int| 0 <= id < old(self).fd_count() ==> final(self).fd(id) == old(self).fd(id),
            forall|t: int| 0 <= t < old(self).capacity() && t != tag ==> final(self).slot(t) == old(self).slot(t),
            match r {
                Some(result) => {
                    &&& tag < old(self).capacity()
                    &&& old(self).slot(tag as int) == (Slot::Done { output: Output::Splice { result } })
                    &&& final(self).slot(tag as int) is Free
                },
                None => {
                    &&& !(0 <= tag < old(self).capacity() && old(self).slot(tag as int) matches Slot::Done { output: Output::Splice { .. } })
                    &&& *final(self) == *old(self)
                },
            },
    {
        if tag >= self.slots.len() as u64 {
            return None;
        }
        let t = tag as usize;
        match &self.slots[t] {
            Slot::Done { output: Output::Splice { .. } } => {},
            _ => {
                return None;
            },
        }
        match self.reap(t) {
            Slot::Done { output: Output::Splice { result } } => Some(result),
            _ => {
                proof {
                    assert(false);
                }
                None
            },
        }
    }

    /// The caller gives up on the operation under `tag`. One the kernel has
    /// not completed stays in the table, with everything it owns, until its
    /// completion record arrives, and its result is then dropped; a completed
    /// one's result is dropped at once. Returns whether the tag named an
    /// operation.
    pub fn cancel(&mut self, tag: u64) -> (r: bool)
        requires
            old(self).wf(),
        ensures
            final(self).wf(),
            r == (tag < old(self).capacity() && !(old(self).slot(tag as int) is Free)),
            final(self).capacity() == old(self).capacity(),
            final(self).pending() == old(self).pending(),
            final(self).is_closing() == old(self).is_closing(),
            final(self).fd_count() == old(self).fd_count(),
            forall|id: int| 0 <= id < old(self).fd_count() ==> final(self).fd(id) == old(self).fd(id),
            forall|t: int| 0 <= t < old(self).capacity() && t != tag ==> final(self).slot(t) == old(self).slot(t),
            !r ==> *final(self) == *old(self),
            r ==> match old(self).slot(tag as int) {
                Slot::InFlight { payload, .. } => final(self).slot(tag as int) == (Slot::InFlight { abandoned: true, payload }),
                _ => final(self).slot(tag as int) is Free,
            },
    {
        if tag >= self.slots.len() as u64 {
            return false;
        }
        let t = tag as usize;
        match &self.slots[t] {
            Slot::Free => {
                return false;
            },
            Slot::Done { .. } => {
                let _ = self.reap(t);
                return true;
            },
            Slot::InFlight { .. } => {},
        }
        let ghost before = *self;
        let taken = self.take_slot(t);
        if let Slot::InFlight { payload, .. } = taken {
            let ghost s = Slot::InFlight { abandoned: true, payload };
            self.slots.set(t, Slot::InFlight { abandoned: true, payload });
            proof {
                assert(self.slots@ =~= before.slots@.update(t as int, s));
                assert forall|i: int| 0 <= i < self.queued@.len() implies {
                    &&& (#[trigger] self.queued@[i]) < self.slots@.len()
                    &&& self.slots@[self.queued@[i] as int] is InFlight
                } by {
                    assert(before.slots@[before.queued@[i] as int] is InFlight);
                }
                assert forall|u: int, id: usize| 0 <= u < self.slots@.len() && #[trigger] slot_refs(self.slots@[u], id) implies id < self.fds@.len() by {
                    assert(slot_refs(before.slots@[u], id));
                }
                assert forall|id: usize| id < self.fd_count() implies #[trigger] self.fd_settled(id) by {
                    assert(before.fd_settled(id));
                    lemma_busy_update_neutral(&before, self, t as int, s, id);
                }
            }
        }
        true
    }

    /// Refuses all further submissions, and tells whether every operation
    /// has been completed or reaped: the reactor may release its queues
    /// only once this returns `true`.
    pub fn shutdown(&mut self) -> (r: bool)
        requires
            old(self).wf(),
        ensures
            final(self).wf(),
            final(self).is_closing(),
            r == forall|t: int| 0 <= t < old(self).capacity() ==> !old(self).in_flight(t),
            final(self).capacity() == old(self).capacity(),
            final(self).pending() == old(self).pending(),
            forall|t: int| 0 <= t < old(self).capacity() ==> final(self).slot(t) == old(self).slot(t),
            final(self).fd_count() == old(self).fd_count(),
            forall|id: int| 0 <= id < old(self).fd_count() ==> final(self).fd(id) == old(self).fd(id),
    {
        let mut drained = true;
        let mut t: usize = 0;
        while t < self.slots.len()
            invariant
                t <= self.slots@.len(),
                drained == forall|u: int| 0 <= u < t ==> !(self.slots@[u] is InFlight),
            decreases self.slots@.len() - t,
        {
            if let Slot::InFlight { .. } = &self.slots[t] {
                drained = false;
            }
            t = t + 1;
        }
        proof {
            if !drained {
                let u = choose|u: int| 0 <= u < t && (#[trigger] self.slots@[u]) is InFlight;
                assert(old(self).in_flight(u));
            }
        }
        self.closing = true;
        proof {
            assert forall|id: usize| id < self.fd_count() implies #[trigger] self.fd_settled(id) by {
                assert(old(self).fd_settled(id));
                lemma_busy_same_slots(self, old(self), id);
            }
        }
        drained
    }
}

impl Reactor {
    /// The lifecycle phase of the operation under `tag`.
    pub fn phase(&self, tag: u64) -> (r: Phase)
        requires
            self.wf(),
        ensures
            r == Phase::Registered <==> self.registered(tag as int),
            r == Phase::Submitted <==> self.submitted(tag as int),
            r == Phase::Completed <==> self.completed(tag as int),
            r == Phase::Reaped <==> !(0 <= tag < self.capacity()) || self.slot(tag as int) is Free,
    {
        if tag >= self.slots.len() as u64 {
            return Phase::Reaped;
        }
        match &self.slots[tag as usize] {
            Slot::Free => Phase::Reaped,
            Slot::Done { .. } => Phase::Completed,
            Slot::InFlight { .. } => if self.is_queued(tag) {
                Phase::Registered
            } else {
                Phase::Submitted
            },
        }
    }
}

/// A descriptor that an operation not yet completed pins is open, in every
/// well-formed state of the reactor, and counts as busy: releasing its last
/// handle then closes nothing, and the close waits for a completion that
/// leaves it unpinned.
pub proof fn lemma_pinned_fd_open(r: &Reactor, t: int, id: usize)
    requires
        r.wf(),
        r.in_flight(t),
        slot_refs(r.slot(t), id),
    ensures
        id < r.fd_count(),
        !r.fd(id as int).closed,
        r.busy(id),
{
    assert(r.busy(id));
    assert(r.fd_settled(id));
}


} // verus!
