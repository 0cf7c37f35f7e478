//! The reactor: the table of pending asynchronous requests, advanced one
//! non-blocking pass ("tick") at a time.
//!
//! Every submission allocates a fresh, strictly increasing id and stores
//! a pending request; nothing is resolved synchronously at submission,
//! even if already satisfiable.  A tick walks the table in ascending-id
//! order, consumes at most one inbound byte, hands it to the earliest
//! read request that can take it, gives every write request at most one
//! shot at the device, and returns the completed requests in table
//! order.  The caller invokes each completed request's continuation
//! exactly once; a request submitted from such a continuation is first
//! seen by the following tick.

use vstd::prelude::*;
use crate::device::SerialDevice;
use crate::transport::SerialTransport;
use crate::transport::spec_normalize;

verus! {

/// What a pending request is waiting for, with its progress so far.
#[derive(Debug, PartialEq, Eq)]
pub enum Op {
    /// Deliver the next inbound byte, newline-normalized.
    ReadChar,
    /// Accumulate inbound bytes until a newline; the field holds the
    /// bytes gathered so far.
    ReadLine(Vec<u8>),
    /// Write one byte to the device.
    PutChar(u8),
    /// Write a string to the device; the field holds the bytes still to
    /// send, in reverse order, so each step pops from the end.
    PutBuffer(Vec<u8>),
}

/// One entry of the pending table.
#[derive(Debug, PartialEq, Eq)]
pub struct Handle {
    pub id: u64,
    pub op: Op,
}

/// What a resolved request delivers to its continuation.
#[derive(Debug, PartialEq, Eq)]
pub enum Outcome {
    /// A read-char request got this (already normalized) byte.
    GotChar(u8),
    /// A read-line request got this line, the newline not included.
    GotLine(Vec<u8>),
    /// A write request flushed its last byte.
    Wrote,
}

/// A resolved request, removed from the table in the tick that fires it.
#[derive(Debug, PartialEq, Eq)]
pub struct Completion {
    pub id: u64,
    pub outcome: Outcome,
}

/// Mathematical image of `Op`.
pub ghost enum SpecOp {
    ReadChar,
    ReadLine { acc: Seq<u8> },
    PutChar { byte: u8 },
    PutBuffer { rev: Seq<u8> },
}

/// Mathematical image of `Handle`.
pub ghost struct SpecHandle {
    pub id: u64,
    pub op: SpecOp,
}

/// Mathematical image of `Outcome`.
pub ghost enum SpecOutcome {
    GotChar(u8),
    GotLine { line: Seq<u8> },
    Wrote,
}

/// Mathematical image of `Completion`.
pub ghost struct SpecCompletion {
    pub id: u64,
    pub outcome: SpecOutcome,
}

impl View for Op {
    type V = SpecOp;

    open spec fn view(&self) -> SpecOp {
        match self {
            Op::ReadChar => SpecOp::ReadChar,
            Op::ReadLine(buf) => SpecOp::ReadLine { acc: buf@ },
            Op::PutChar(b) => SpecOp::PutChar { byte: *b },
            Op::PutBuffer(rev) => SpecOp::PutBuffer { rev: rev@ },
        }
    }
}

impl View for Handle {
    type V = SpecHandle;

    open spec fn view(&self) -> SpecHandle {
        SpecHandle { id: self.id, op: self.op@ }
    }
}

impl View for Outcome {
    type V = SpecOutcome;

    open spec fn view(&self) -> SpecOutcome {
        match self {
            Outcome::GotChar(b) => SpecOutcome::GotChar(*b),
            Outcome::GotLine(line) => SpecOutcome::GotLine { line: line@ },
            Outcome::Wrote => SpecOutcome::Wrote,
        }
    }
}

impl View for Completion {
    type V = SpecCompletion;

    open spec fn view(&self) -> SpecCompletion {
        SpecCompletion { id: self.id, outcome: self.outcome@ }
    }
}

pub open spec fn spec_handles(v: Seq<Handle>) -> Seq<SpecHandle> {
    v.map_values(|h: Handle| h@)
}

pub open spec fn spec_completions(v: Seq<Completion>) -> Seq<SpecCompletion> {
    v.map_values(|c: Completion| c@)
}

/// A request that consumes inbound bytes.
pub open spec fn spec_is_read(h: SpecHandle) -> bool {
    h.op is ReadChar || h.op is ReadLine
}

/// A request that pushes bytes toward the device.
pub open spec fn spec_is_write(h: SpecHandle) -> bool {
    h.op is PutChar || h.op is PutBuffer
}

pub open spec fn spec_has_read(reqs: Seq<SpecHandle>) -> bool {
    exists|i: int| 0 <= i < reqs.len() && spec_is_read(reqs[i])
}

/// A pending request that a tick could advance right now: a read when an
/// inbound byte is queued, or any write (a write either flushes a byte
/// or, already empty, resolves).
pub open spec fn spec_actionable(h: SpecHandle, inbound: Seq<u8>) -> bool {
    if spec_is_read(h) {
        inbound.len() > 0
    } else {
        true
    }
}

/// Whether another tick is warranted right now: the pending table holds
/// at least one immediately actionable entry.  When this is false the
/// mainline may enter the low-power wait; only an interrupt (which
/// queues new inbound bytes) can make it true again.
pub open spec fn spec_more_work(reqs: Seq<SpecHandle>, inbound: Seq<u8>) -> bool {
    exists|i: int| 0 <= i < reqs.len() && spec_actionable(reqs[i], inbound)
}

/// The running state of one tick as it walks the pending table: the
/// entries kept so far, the completions fired so far, the bytes pushed
/// to the device so far, and the one inbound byte (already normalized)
/// not yet handed to a read request.
#[verifier::ext_equal]
pub ghost struct TickState {
    pub kept: Seq<SpecHandle>,
    pub done: Seq<SpecCompletion>,
    pub out: Seq<u8>,
    pub byte: Option<u8>,
}

/// What one tick does with a single pending request.  At most one
/// inbound byte exists per tick and the first read request that sees it
/// takes it; each write request gets exactly one shot at the device,
/// whose readiness `tx_ready` does not change within the tick.
pub open spec fn spec_step(st: TickState, h: SpecHandle, tx_ready: bool) -> TickState {
    match h.op {
        SpecOp::ReadChar => match st.byte {
            Some(b) => TickState {
                kept: st.kept,
                done: st.done.push(SpecCompletion { id: h.id, outcome: SpecOutcome::GotChar(b) }),
                out: st.out,
                byte: None,
            },
            None => TickState { kept: st.kept.push(h), done: st.done, out: st.out, byte: None },
        },
        SpecOp::ReadLine { acc } => match st.byte {
            Some(b) => if b == 10 {
                TickState {
                    kept: st.kept,
                    done: st.done.push(
                        SpecCompletion { id: h.id, outcome: SpecOutcome::GotLine { line: acc } },
                    ),
                    out: st.out,
                    byte: None,
                }
            } else {
                TickState {
                    kept: st.kept.push(
                        SpecHandle { id: h.id, op: SpecOp::ReadLine { acc: acc.push(b) } },
                    ),
                    done: st.done,
                    out: st.out,
                    byte: None,
                }
            },
            None => TickState { kept: st.kept.push(h), done: st.done, out: st.out, byte: None },
        },
        SpecOp::PutChar { byte: c } => if tx_ready {
            TickState {
                kept: st.kept,
                done: st.done.push(SpecCompletion { id: h.id, outcome: SpecOutcome::Wrote }),
                out: st.out.push(c),
                byte: st.byte,
            }
        } else {
            TickState { kept: st.kept.push(h), done: st.done, out: st.out, byte: st.byte }
        },
        SpecOp::PutBuffer { rev } => if rev.len() == 0 {
            TickState {
                kept: st.kept,
                done: st.done.push(SpecCompletion { id: h.id, outcome: SpecOutcome::Wrote }),
                out: st.out,
                byte: st.byte,
            }
        } else if tx_ready {
            if rev.len() == 1 {
                TickState {
                    kept: st.kept,
                    done: st.done.push(SpecCompletion { id: h.id, outcome: SpecOutcome::Wrote }),
                    out: st.out.push(rev.last()),
                    byte: st.byte,
                }
            } else {
                TickState {
                    kept: st.kept.push(
                        SpecHandle { id: h.id, op: SpecOp::PutBuffer { rev: rev.drop_last() } },
                    ),
                    done: st.done,
                    out: st.out.push(rev.last()),
                    byte: st.byte,
                }
            }
        } else {
            TickState { kept: st.kept.push(h), done: st.done, out: st.out, byte: st.byte }
        },
    }
}

/// Fold `spec_step` over the rest of the table.
pub open spec fn spec_tick_from(st: TickState, reqs: Seq<SpecHandle>, tx_ready: bool) -> TickState
    decreases reqs.len(),
{
    if reqs.len() == 0 {
        st
    } else {
        spec_tick_from(spec_step(st, reqs.first(), tx_ready), reqs.drop_first(), tx_ready)
    }
}

/// The byte a tick works with: the oldest queued inbound byte,
/// normalized, consumed only if some read request is pending to take it.
pub open spec fn spec_in_byte(reqs: Seq<SpecHandle>, inbound: Seq<u8>) -> Option<u8> {
    if spec_has_read(reqs) && inbound.len() > 0 {
        Some(spec_normalize(inbound[0]))
    } else {
        None
    }
}

/// One whole tick over the table `reqs`, given the transport's inbound
/// queue and the device's transmit readiness.
pub open spec fn spec_tick(reqs: Seq<SpecHandle>, inbound: Seq<u8>, tx_ready: bool) -> TickState {
    spec_tick_from(
        TickState {
            kept: Seq::empty(),
            done: Seq::empty(),
            out: Seq::empty(),
            byte: spec_in_byte(reqs, inbound),
        },
        reqs,
        tx_ready,
    )
}

/// A reactor run seen from outside: the table, the inbound queue, and
/// everything resolved and written so far.
#[verifier::ext_equal]
pub ghost struct RunState {
    pub reqs: Seq<SpecHandle>,
    pub inbound: Seq<u8>,
    pub done: Seq<SpecCompletion>,
    pub out: Seq<u8>,
}

/// One tick, lifted to a whole run state.
pub open spec fn spec_run_step(r: RunState, tx_ready: bool) -> RunState {
    let t = spec_tick(r.reqs, r.inbound, tx_ready);
    RunState {
        reqs: t.kept,
        inbound: if spec_in_byte(r.reqs, r.inbound) is Some {
            r.inbound.drop_first()
        } else {
            r.inbound
        },
        done: r.done + t.done,
        out: r.out + t.out,
    }
}

/// `n` ticks in a row, no new input arriving in between.
pub open spec fn spec_run(r: RunState, n: nat, tx_ready: bool) -> RunState
    decreases n,
{
    if n == 0 {
        r
    } else {
        spec_run(spec_run_step(r, tx_ready), (n - 1) as nat, tx_ready)
    }
}

/// Running one tick longer is one more step after the shorter run.
pub proof fn lemma_spec_run_snoc(r: RunState, n: nat, tx_ready: bool)
    ensures
        spec_run(r, n + 1, tx_ready) == spec_run_step(spec_run(r, n, tx_ready), tx_ready),
    decreases n,
{
    if n == 0 {
        assert(spec_run(r, 1, tx_ready) == spec_run(spec_run_step(r, tx_ready), 0, tx_ready));
        assert(spec_run(spec_run_step(r, tx_ready), 0, tx_ready) == spec_run_step(r, tx_ready));
    } else {
        lemma_spec_run_snoc(spec_run_step(r, tx_ready), (n - 1) as nat, tx_ready);
        assert(spec_run(r, n + 1, tx_ready) == spec_run(
            spec_run_step(r, tx_ready),
            n,
            tx_ready,
        ));
    }
}

/// How much outbound work a pending request still holds: a write costs
/// one step to resolve plus one per byte still to flush; reads cost
/// nothing.
pub open spec fn spec_op_cost(h: SpecHandle) -> nat {
    match h.op {
        SpecOp::ReadChar => 0,
        SpecOp::ReadLine { .. } => 0,
        SpecOp::PutChar { .. } => 1,
        SpecOp::PutBuffer { rev } => rev.len() + 1,
    }
}

/// Total outbound work left in a table.
pub open spec fn spec_write_cost(reqs: Seq<SpecHandle>) -> nat
    decreases reqs.len(),
{
    if reqs.len() == 0 {
        0
    } else {
        spec_op_cost(reqs.first()) + spec_write_cost(reqs.drop_first())
    }
}

pub proof fn lemma_write_cost_push(reqs: Seq<SpecHandle>, h: SpecHandle)
    ensures
        spec_write_cost(reqs.push(h)) == spec_write_cost(reqs) + spec_op_cost(h),
    decreases reqs.len(),
{
    assert(spec_write_cost(reqs.push(h)) == spec_op_cost(reqs.push(h).first()) + spec_write_cost(
        reqs.push(h).drop_first(),
    ));
    if reqs.len() == 0 {
        assert(reqs.push(h).first() == h);
        assert(reqs.push(h).drop_first() =~= Seq::<SpecHandle>::empty());
        assert(spec_write_cost(Seq::<SpecHandle>::empty()) == 0);
    } else {
        assert(reqs.push(h).first() == reqs.first());
        assert(reqs.push(h).drop_first() =~= reqs.drop_first().push(h));
        lemma_write_cost_push(reqs.drop_first(), h);
        assert(spec_write_cost(reqs) == spec_op_cost(reqs.first()) + spec_write_cost(
            reqs.drop_first(),
        ));
    }
}

/// A table owes no outbound work exactly when it holds no write request.
pub proof fn lemma_write_cost_zero(reqs: Seq<SpecHandle>)
    ensures
        (spec_write_cost(reqs) == 0) <==> (forall|i: int|
            0 <= i < reqs.len() ==> !spec_is_write(reqs[i])),
    decreases reqs.len(),
{
    if reqs.len() > 0 {
        lemma_write_cost_zero(reqs.drop_first());
        assert(spec_write_cost(reqs) == spec_op_cost(reqs.first()) + spec_write_cost(
            reqs.drop_first(),
        ));
        assert(forall|i: int|
            0 <= i < reqs.drop_first().len() ==> #[trigger] reqs.drop_first()[i] == reqs[i + 1]);
        if spec_write_cost(reqs) == 0 {
            assert forall|i: int| 0 <= i < reqs.len() implies !spec_is_write(reqs[i]) by {
                if i == 0 {
                    assert(spec_op_cost(reqs.first()) == 0);
                } else {
                    assert(reqs.drop_first()[i - 1] == reqs[i]);
                    assert(!spec_is_write(reqs.drop_first()[i - 1]));
                }
            }
        }
    }
}

/// With a ready transmitter, a tick discharges at least one unit of
/// outbound work per write request it walks past.
pub proof fn lemma_tick_from_write_cost(st: TickState, reqs: Seq<SpecHandle>, tx_ready: bool)
    requires
        tx_ready,
    ensures
        spec_write_cost(spec_tick_from(st, reqs, tx_ready).kept) <= spec_write_cost(st.kept)
            + spec_write_cost(reqs),
        (exists|i: int| 0 <= i < reqs.len() && spec_is_write(reqs[i])) ==> spec_write_cost(
            spec_tick_from(st, reqs, tx_ready).kept,
        ) < spec_write_cost(st.kept) + spec_write_cost(reqs),
    decreases reqs.len(),
{
    if reqs.len() > 0 {
        let h = reqs.first();
        let st1 = spec_step(st, h, tx_ready);
        lemma_tick_from_write_cost(st1, reqs.drop_first(), tx_ready);
        match h.op {
            SpecOp::ReadChar => {
                if st.byte is None {
                    lemma_write_cost_push(st.kept, h);
                }
            },
            SpecOp::ReadLine { acc } => {
                match st.byte {
                    Some(b) => {
                        if b != 10 {
                            lemma_write_cost_push(
                                st.kept,
                                SpecHandle { id: h.id, op: SpecOp::ReadLine { acc: acc.push(b) } },
                            );
                        }
                    },
                    None => {
                        lemma_write_cost_push(st.kept, h);
                    },
                }
            },
            SpecOp::PutChar { .. } => {},
            SpecOp::PutBuffer { rev } => {
                if rev.len() >= 2 {
                    lemma_write_cost_push(
                        st.kept,
                        SpecHandle { id: h.id, op: SpecOp::PutBuffer { rev: rev.drop_last() } },
                    );
                }
            },
        }
        if exists|i: int| 0 <= i < reqs.len() && spec_is_write(reqs[i]) {
            if !spec_is_write(h) {
                let i = choose|i: int| 0 <= i < reqs.len() && spec_is_write(reqs[i]);
                assert(reqs.drop_first()[i - 1] == reqs[i]);
            }
        }
    }
}

/// A tick never invents read requests: a read kept at the end was
/// already in the accumulator or in the table.
pub proof fn lemma_tick_from_has_read(st: TickState, reqs: Seq<SpecHandle>, tx_ready: bool)
    ensures
        spec_has_read(spec_tick_from(st, reqs, tx_ready).kept) ==> spec_has_read(st.kept)
            || spec_has_read(reqs),
    decreases reqs.len(),
{
    if reqs.len() > 0 {
        let h = reqs.first();
        let st1 = spec_step(st, h, tx_ready);
        lemma_tick_from_has_read(st1, reqs.drop_first(), tx_ready);
        if spec_has_read(spec_tick_from(st, reqs, tx_ready).kept) {
            if spec_has_read(st1.kept) {
                if !spec_has_read(st.kept) {
                    let i = choose|i: int|
                        0 <= i < st1.kept.len() && spec_is_read(st1.kept[i]);
                    if i < st.kept.len() {
                        assert(spec_is_read(st.kept[i]));
                    } else {
                        assert(spec_is_read(reqs[0]));
                    }
                }
            } else {
                let i = choose|i: int|
                    0 <= i < reqs.drop_first().len() && spec_is_read(reqs.drop_first()[i]);
                assert(reqs.drop_first()[i] == reqs[i + 1]);
            }
        }
    }
}

/// The reactor: pending requests keyed by strictly increasing ids.
pub struct Loop {
    /// The last id handed out; ids are never reused.
    pub id: u64,
    /// Pending requests in ascending-id order, which is submission order.
    pub req: Vec<Handle>,
}

impl Loop {
    pub open spec fn reqs(self) -> Seq<SpecHandle> {
        spec_handles(self.req@)
    }

    /// The table's invariant: ids strictly increase along the table and
    /// never exceed the allocator's high-water mark.
    pub open spec fn wf(self) -> bool {
        &&& forall|i: int, j: int|
            0 <= i < j < self.req@.len() ==> self.req@[i].id < self.req@[j].id
        &&& forall|i: int| 0 <= i < self.req@.len() ==> self.req@[i].id <= self.id
    }

    /// An empty reactor; no id has been handed out yet.
    pub fn new() -> (l: Loop)
        ensures
            l.wf(),
            l.id == 0,
            l.reqs() == Seq::<SpecHandle>::empty(),
    {
        let l = Loop { id: 0, req: Vec::new() };
        proof {
            assert(l.reqs() =~= Seq::<SpecHandle>::empty());
        }
        l
    }

    /// Establish a fresh, empty pending table.  Ids already handed out
    /// stay burned: the counter is not reset.
    pub fn init(&mut self)
        ensures
            final(self).wf(),
            final(self).id == old(self).id,
            final(self).reqs() == Seq::<SpecHandle>::empty(),
    {
        self.req = Vec::new();
        proof {
            assert(self.reqs() =~= Seq::<SpecHandle>::empty());
        }
    }

    /// Submit a read-line request: it will resolve with the bytes
    /// gathered up to (not including) the first newline it sees.
    pub fn read_line(&mut self) -> (id: u64)
        requires
            old(self).wf(),
            old(self).id < u64::MAX,
        ensures
            final(self).wf(),
            id == old(self).id + 1,
            final(self).id == id,
            final(self).reqs() == old(self).reqs().push(
                SpecHandle { id, op: SpecOp::ReadLine { acc: Seq::empty() } },
            ),
    {
        self.id = self.id + 1;
        self.req.push(Handle { id: self.id, op: Op::ReadLine(Vec::new()) });
        proof {
            assert(self.reqs() =~= old(self).reqs().push(
                SpecHandle { id: self.id, op: SpecOp::ReadLine { acc: Seq::empty() } },
            ));
        }
        self.id
    }

    /// Submit a read-char request: it will resolve with the next inbound
    /// byte that reaches it, newline-normalized.
    pub fn read_char(&mut self) -> (id: u64)
        requires
            old(self).wf(),
            old(self).id < u64::MAX,
        ensures
            final(self).wf(),
            id == old(self).id + 1,
            final(self).id == id,
            final(self).reqs() == old(self).reqs().push(SpecHandle { id, op: SpecOp::ReadChar }),
    {
        self.id = self.id + 1;
        self.req.push(Handle { id: self.id, op: Op::ReadChar });
        proof {
            assert(self.reqs() =~= old(self).reqs().push(
                SpecHandle { id: self.id, op: SpecOp::ReadChar },
            ));
        }
        self.id
    }

    /// Submit a write of one byte.
    pub fn put_char(&mut self, c: u8) -> (id: u64)
        requires
            old(self).wf(),
            old(self).id < u64::MAX,
        ensures
            final(self).wf(),
            id == old(self).id + 1,
            final(self).id == id,
            final(self).reqs() == old(self).reqs().push(
                SpecHandle { id, op: SpecOp::PutChar { byte: c } },
            ),
    {
        self.id = self.id + 1;
        self.req.push(Handle { id: self.id, op: Op::PutChar(c) });
        proof {
            assert(self.reqs() =~= old(self).reqs().push(
                SpecHandle { id: self.id, op: SpecOp::PutChar { byte: c } },
            ));
        }
        self.id
    }

    /// Submit a write of a whole string; its bytes go out one per tick,
    /// in left-to-right order, and the request resolves in the tick that
    /// flushes the last one.  The remaining suffix is stored reversed;
    /// the order on the wire is the original one.
    pub fn put_string(&mut self, s: Vec<u8>) -> (id: u64)
        requires
            old(self).wf(),
            old(self).id < u64::MAX,
        ensures
            final(self).wf(),
            id == old(self).id + 1,
            final(self).id == id,
            final(self).reqs() == old(self).reqs().push(
                SpecHandle { id, op: SpecOp::PutBuffer { rev: s@.reverse() } },
            ),
    {
        let ghost s0 = s@;
        let mut s = s;
        let mut rev: Vec<u8> = Vec::new();
        while s.len() > 0
            invariant
                rev@.len() + s@.len() == s0.len(),
                forall|i: int| 0 <= i < s@.len() ==> s@[i] == s0[i],
                forall|i: int| 0 <= i < rev@.len() ==> rev@[i] == s0[s0.len() - 1 - i],
            decreases s@.len(),
        {
            let b = s.pop().unwrap();
            rev.push(b);
        }
        proof {
            assert(rev@ =~= s0.reverse());
        }
        self.id = self.id + 1;
        self.req.push(Handle { id: self.id, op: Op::PutBuffer(rev) });
        proof {
            assert(self.reqs() =~= old(self).reqs().push(
                SpecHandle { id: self.id, op: SpecOp::PutBuffer { rev: s0.reverse() } },
            ));
        }
        self.id
    }

    /// Whether any pending request consumes inbound bytes.
    pub fn has_read_request(&self) -> (r: bool)
        ensures
            r == spec_has_read(self.reqs()),
    {
        let mut i: usize = 0;
        while i < self.req.len()
            invariant
                i <= self.req@.len(),
                forall|j: int| 0 <= j < i ==> !spec_is_read(self.reqs()[j]),
            decreases self.req@.len() - i,
        {
            match &self.req[i].op {
                Op::ReadChar => {
                    assert(spec_is_read(self.reqs()[i as int]));
                    return true;
                },
                Op::ReadLine(_) => {
                    assert(spec_is_read(self.reqs()[i as int]));
                    return true;
                },
                _ => {},
            }
            i = i + 1;
        }
        false
    }

    /// Report whether ticking again right now could make progress.  True
    /// iff the pending table holds an immediately actionable entry: a
    /// read request while an inbound byte is queued, or any write
    /// request.  The caller chooses between ticking again and entering
    /// the low-power wait on this answer.
    pub fn is_dirty(&self, transport: &SerialTransport) -> (r: bool)
        ensures
            r == spec_more_work(self.reqs(), transport.inbound@),
    {
        let mut i: usize = 0;
        let mut has_read = false;
        let ghost mut witness: int = 0;
        while i < self.req.len()
            invariant
                i <= self.req@.len(),
                forall|j: int| 0 <= j < i ==> !spec_is_write(self.reqs()[j]),
                has_read ==> 0 <= witness < i && spec_is_read(self.reqs()[witness]),
                !has_read ==> forall|j: int| 0 <= j < i ==> !spec_is_read(self.reqs()[j]),
            decreases self.req@.len() - i,
        {
            match &self.req[i].op {
                Op::PutChar(_) => {
                    assert(spec_actionable(self.reqs()[i as int], transport.inbound@));
                    return true;
                },
                Op::PutBuffer(_) => {
                    assert(spec_actionable(self.reqs()[i as int], transport.inbound@));
                    return true;
                },
                _ => {
                    if !has_read {
                        has_read = true;
                        proof {
                            witness = i as int;
                        }
                    }
                },
            }
            i = i + 1;
        }
        if has_read && transport.has_pending_input() {
            assert(spec_actionable(self.reqs()[witness], transport.inbound@));
            true
        } else {
            false
        }
    }

    /// One non-blocking pass: walk the pending table in ascending-id
    /// order, resolve what is ready, and return the completions in table
    /// order.  At most one inbound byte is consumed, and only when a
    /// read request is pending to take it; every write request gets
    /// exactly one shot at the device.  The whole effect is
    /// `spec_tick` of the state at entry.
    pub fn run_inner(&mut self, transport: &mut SerialTransport, dev: &mut SerialDevice) -> (done:
        Vec<Completion>)
        requires
            old(self).wf(),
        ensures
            final(self).wf(),
            final(self).id == old(self).id,
            final(transport).outbound == old(transport).outbound,
            final(dev).rx_fifo == old(dev).rx_fifo,
            final(dev).tx_ready == old(dev).tx_ready,
            final(transport).inbound@ == if spec_in_byte(old(self).reqs(), old(transport).inbound@) is Some {
                old(transport).inbound@.drop_first()
            } else {
                old(transport).inbound@
            },
            final(self).reqs() == spec_tick(
                old(self).reqs(),
                old(transport).inbound@,
                old(dev).tx_ready,
            ).kept,
            spec_completions(done@) == spec_tick(
                old(self).reqs(),
                old(transport).inbound@,
                old(dev).tx_ready,
            ).done,
            final(dev).tx_log@ == old(dev).tx_log@ + spec_tick(
                old(self).reqs(),
                old(transport).inbound@,
                old(dev).tx_ready,
            ).out,
            final(dev).irq_enabled == (old(dev).irq_enabled || spec_tick(
                old(self).reqs(),
                old(transport).inbound@,
                old(dev).tx_ready,
            ).out.len() > 0),
    {
        let ghost reqs0 = old(self).reqs();
        let ghost inbound0 = old(transport).inbound@;
        let ghost txr0 = old(dev).tx_ready;
        let ghost goal = spec_tick(reqs0, inbound0, txr0);
        let ghost tx0 = old(dev).tx_log@;
        let ghost irq0 = old(dev).irq_enabled;
        let ghost id0 = self.id;

        let has_read = self.has_read_request();
        let raw: Option<u8> = if has_read {
            transport.try_consume()
        } else {
            None
        };
        let byte_start: Option<u8> = match raw {
            Some(b) => if b == 13 {
                Some(10)
            } else {
                Some(b)
            },
            None => None,
        };
        let ghost inb1 = transport.inbound@;
        assert(byte_start == spec_in_byte(reqs0, inbound0));

        let mut byte = byte_start;
        let mut kept: Vec<Handle> = Vec::new();
        let mut done: Vec<Completion> = Vec::new();
        let ghost mut out_acc: Seq<u8> = Seq::empty();

        proof {
            assert(spec_handles(kept@) =~= Seq::<SpecHandle>::empty());
            assert(spec_completions(done@) =~= Seq::<SpecCompletion>::empty());
            assert(tx0 + out_acc =~= tx0);
        }

        while self.req.len() > 0
            invariant
                self.id == id0,
                dev.tx_ready == txr0,
                dev.rx_fifo == old(dev).rx_fifo,
                transport.outbound == old(transport).outbound,
                transport.inbound@ == inb1,
                dev.tx_log@ == tx0 + out_acc,
                dev.irq_enabled == (irq0 || out_acc.len() > 0),
                spec_tick_from(
                    TickState {
                        kept: spec_handles(kept@),
                        done: spec_completions(done@),
                        out: out_acc,
                        byte,
                    },
                    spec_handles(self.req@),
                    txr0,
                ) == goal,
                forall|i: int, j: int|
                    0 <= i < j < kept@.len() ==> kept@[i].id < kept@[j].id,
                forall|i: int, j: int|
                    0 <= i < kept@.len() && 0 <= j < self.req@.len() ==> kept@[i].id
                        < self.req@[j].id,
                forall|i: int, j: int|
                    0 <= i < j < self.req@.len() ==> self.req@[i].id < self.req@[j].id,
                forall|i: int| 0 <= i < kept@.len() ==> kept@[i].id <= id0,
                forall|i: int| 0 <= i < self.req@.len() ==> self.req@[i].id <= id0,
            decreases self.req@.len(),
        {
            let ghost rem_pre = spec_handles(self.req@);
            let ghost st_pre = TickState {
                kept: spec_handles(kept@),
                done: spec_completions(done@),
                out: out_acc,
                byte,
            };
            let h = self.req.remove(0);
            let ghost hv = h@;
            proof {
                assert(rem_pre.first() == hv);
                assert(spec_handles(self.req@) =~= rem_pre.drop_first());
            }
            match h.op {
                Op::ReadChar => {
                    match byte {
                        Some(b) => {
                            done.push(Completion { id: h.id, outcome: Outcome::GotChar(b) });
                            byte = None;
                            proof {
                                assert(spec_completions(done@) =~= st_pre.done.push(
                                    SpecCompletion {
                                        id: hv.id,
                                        outcome: SpecOutcome::GotChar(b),
                                    },
                                ));
                            }
                        },
                        None => {
                            kept.push(Handle { id: h.id, op: Op::ReadChar });
                            proof {
                                assert(spec_handles(kept@) =~= st_pre.kept.push(hv));
                            }
                        },
                    }
                },
                Op::ReadLine(buf) => {
                    match byte {
                        Some(b) => {
                            byte = None;
                            if b == 10 {
                                done.push(Completion { id: h.id, outcome: Outcome::GotLine(buf) });
                                proof {
                                    assert(spec_completions(done@) =~= st_pre.done.push(
                                        SpecCompletion {
                                            id: hv.id,
                                            outcome: SpecOutcome::GotLine { line: hv.op->acc },
                                        },
                                    ));
                                }
                            } else {
                                let mut buf = buf;
                                buf.push(b);
                                kept.push(Handle { id: h.id, op: Op::ReadLine(buf) });
                                proof {
                                    assert(spec_handles(kept@) =~= st_pre.kept.push(
                                        SpecHandle {
                                            id: hv.id,
                                            op: SpecOp::ReadLine { acc: hv.op->acc.push(b) },
                                        },
                                    ));
                                }
                            }
                        },
                        None => {
                            kept.push(Handle { id: h.id, op: Op::ReadLine(buf) });
                            proof {
                                assert(spec_handles(kept@) =~= st_pre.kept.push(hv));
                            }
                        },
                    }
                },
                Op::PutChar(c) => {
                    if transport.try_produce(dev, c) {
                        done.push(Completion { id: h.id, outcome: Outcome::Wrote });
                        proof {
                            out_acc = out_acc.push(c);
                            assert(dev.tx_log@ =~= tx0 + out_acc);
                            assert(spec_completions(done@) =~= st_pre.done.push(
                                SpecCompletion { id: hv.id, outcome: SpecOutcome::Wrote },
                            ));
                        }
                    } else {
                        kept.push(Handle { id: h.id, op: Op::PutChar(c) });
                        proof {
                            assert(spec_handles(kept@) =~= st_pre.kept.push(hv));
                        }
                    }
                },
                Op::PutBuffer(rev) => {
                    let mut rev = rev;
                    if rev.len() == 0 {
                        done.push(Completion { id: h.id, outcome: Outcome::Wrote });
                        proof {
                            assert(spec_completions(done@) =~= st_pre.done.push(
                                SpecCompletion { id: hv.id, outcome: SpecOutcome::Wrote },
                            ));
                        }
                    } else {
                        let c = rev[rev.len() - 1];
                        if transport.try_produce(dev, c) {
                            rev.pop();
                            proof {
                                out_acc = out_acc.push(c);
                                assert(c == hv.op->rev.last());
                                assert(dev.tx_log@ =~= tx0 + out_acc);
                            }
                            if rev.len() == 0 {
                                done.push(Completion { id: h.id, outcome: Outcome::Wrote });
                                proof {
                                    assert(spec_completions(done@) =~= st_pre.done.push(
                                        SpecCompletion { id: hv.id, outcome: SpecOutcome::Wrote },
                                    ));
                                }
                            } else {
                                kept.push(Handle { id: h.id, op: Op::PutBuffer(rev) });
                                proof {
                                    assert(rev@ =~= hv.op->rev.drop_last());
                                    assert(spec_handles(kept@) =~= st_pre.kept.push(
                                        SpecHandle {
                                            id: hv.id,
                                            op: SpecOp::PutBuffer { rev: hv.op->rev.drop_last() },
                                        },
                                    ));
                                }
                            }
                        } else {
                            kept.push(Handle { id: h.id, op: Op::PutBuffer(rev) });
                            proof {
                                assert(rev@ =~= hv.op->rev);
                                assert(spec_handles(kept@) =~= st_pre.kept.push(hv));
                            }
                        }
                    }
                },
            }
            proof {
                let st_post = TickState {
                    kept: spec_handles(kept@),
                    done: spec_completions(done@),
                    out: out_acc,
                    byte,
                };
                assert(st_post =~= spec_step(st_pre, hv, txr0));
                assert(spec_tick_from(st_pre, rem_pre, txr0) == spec_tick_from(
                    st_post,
                    rem_pre.drop_first(),
                    txr0,
                ));
            }
        }

        proof {
            assert(spec_handles(self.req@) =~= Seq::<SpecHandle>::empty());
            let st_final = TickState {
                kept: spec_handles(kept@),
                done: spec_completions(done@),
                out: out_acc,
                byte,
            };
            assert(spec_tick_from(st_final, spec_handles(self.req@), txr0) == st_final);
            assert(st_final == goal);
        }
        self.req = kept;
        done
    }

    /// Tick repeatedly until nothing more is immediately actionable,
    /// gathering every completion on the way; this is the bounded,
    /// caller-driven form of self-draining.  The device's flags are
    /// frozen while the loop runs, so the transmitter must be ready at
    /// entry: with a busy transmitter a pending write could never
    /// finish and the loop could never come to rest.
    pub fn run(&mut self, transport: &mut SerialTransport, dev: &mut SerialDevice) -> (done:
        Vec<Completion>)
        requires
            old(self).wf(),
            old(dev).tx_ready,
        ensures
            final(self).wf(),
            final(self).id == old(self).id,
            final(transport).outbound == old(transport).outbound,
            final(dev).rx_fifo == old(dev).rx_fifo,
            final(dev).tx_ready == old(dev).tx_ready,
            !spec_more_work(final(self).reqs(), final(transport).inbound@),
            exists|n: nat|
                {
                    let r = #[trigger] spec_run(
                        RunState {
                            reqs: old(self).reqs(),
                            inbound: old(transport).inbound@,
                            done: Seq::empty(),
                            out: Seq::empty(),
                        },
                        n,
                        old(dev).tx_ready,
                    );
                    &&& final(self).reqs() == r.reqs
                    &&& final(transport).inbound@ == r.inbound
                    &&& spec_completions(done@) == r.done
                    &&& final(dev).tx_log@ == old(dev).tx_log@ + r.out
                    &&& final(dev).irq_enabled == (old(dev).irq_enabled || r.out.len() > 0)
                },
    {
        let ghost r0 = RunState {
            reqs: old(self).reqs(),
            inbound: old(transport).inbound@,
            done: Seq::empty(),
            out: Seq::empty(),
        };
        let ghost txr0 = old(dev).tx_ready;
        let mut done: Vec<Completion> = Vec::new();
        let ghost mut n: nat = 0;
        proof {
            assert(spec_completions(done@) =~= Seq::<SpecCompletion>::empty());
            assert(old(dev).tx_log@ + Seq::<u8>::empty() =~= old(dev).tx_log@);
        }
        loop
            invariant_except_break
                self.wf(),
                self.id == old(self).id,
                dev.tx_ready == txr0,
                txr0 == old(dev).tx_ready,
                txr0,
                transport.outbound == old(transport).outbound,
                dev.rx_fifo == old(dev).rx_fifo,
                r0 == (RunState {
                    reqs: old(self).reqs(),
                    inbound: old(transport).inbound@,
                    done: Seq::empty(),
                    out: Seq::empty(),
                }),
                ({
                    let r = spec_run(r0, n, txr0);
                    &&& self.reqs() == r.reqs
                    &&& transport.inbound@ == r.inbound
                    &&& spec_completions(done@) == r.done
                    &&& dev.tx_log@ == old(dev).tx_log@ + r.out
                    &&& dev.irq_enabled == (old(dev).irq_enabled || r.out.len() > 0)
                }),
            ensures
                self.wf(),
                self.id == old(self).id,
                dev.tx_ready == old(dev).tx_ready,
                transport.outbound == old(transport).outbound,
                dev.rx_fifo == old(dev).rx_fifo,
                !spec_more_work(self.reqs(), transport.inbound@),
                ({
                    let r = spec_run(r0, n, txr0);
                    &&& self.reqs() == r.reqs
                    &&& transport.inbound@ == r.inbound
                    &&& spec_completions(done@) == r.done
                    &&& dev.tx_log@ == old(dev).tx_log@ + r.out
                    &&& dev.irq_enabled == (old(dev).irq_enabled || r.out.len() > 0)
                }),
                r0 == (RunState {
                    reqs: old(self).reqs(),
                    inbound: old(transport).inbound@,
                    done: Seq::empty(),
                    out: Seq::empty(),
                }),
            decreases spec_write_cost(self.reqs()) + transport.inbound@.len(),
        {
            let ghost reqs_pre = self.reqs();
            let ghost inb_pre = transport.inbound@;
            let ghost done_pre = spec_completions(done@);
            let ghost rpre = spec_run(r0, n, txr0);
            let mut batch = self.run_inner(transport, dev);
            done.append(&mut batch);
            proof {
                lemma_spec_run_snoc(r0, n, txr0);
                n = n + 1;
                let t = spec_tick(reqs_pre, inb_pre, txr0);
                assert(spec_completions(done@) =~= done_pre + t.done);
                assert(spec_run(r0, n, txr0).done =~= rpre.done + t.done);
                assert(dev.tx_log@ =~= old(dev).tx_log@ + (rpre.out + t.out));
                assert(spec_run(r0, n, txr0).out =~= rpre.out + t.out);
                assert((rpre.out + t.out).len() > 0 <==> (rpre.out.len() > 0 || t.out.len() > 0));
            }
            if !self.is_dirty(transport) {
                break;
            }
            proof {
                let t = spec_tick(reqs_pre, inb_pre, txr0);
                let st0 = TickState {
                    kept: Seq::empty(),
                    done: Seq::empty(),
                    out: Seq::empty(),
                    byte: spec_in_byte(reqs_pre, inb_pre),
                };
                assert(spec_write_cost(Seq::<SpecHandle>::empty()) == 0);
                lemma_tick_from_write_cost(st0, reqs_pre, txr0);
                if exists|i: int| 0 <= i < reqs_pre.len() && spec_is_write(reqs_pre[i]) {
                    assert(spec_write_cost(self.reqs()) < spec_write_cost(reqs_pre));
                    assert(transport.inbound@.len() <= inb_pre.len());
                } else {
                    lemma_write_cost_zero(reqs_pre);
                    assert(spec_write_cost(reqs_pre) == 0);
                    assert(spec_write_cost(self.reqs()) == 0);
                    lemma_write_cost_zero(self.reqs());
                    let i = choose|i: int|
                        0 <= i < self.reqs().len() && spec_actionable(
                            self.reqs()[i],
                            transport.inbound@,
                        );
                    assert(spec_is_read(self.reqs()[i]));
                    assert(transport.inbound@.len() > 0);
                    assert(spec_has_read(self.reqs()));
                    lemma_tick_from_has_read(st0, reqs_pre, txr0);
                    assert(spec_has_read(reqs_pre));
                    assert(inb_pre.len() > 0);
                    assert(spec_in_byte(reqs_pre, inb_pre) is Some);
                    assert(transport.inbound@.len() == inb_pre.len() - 1);
                }
            }
        }
        proof {
            let r = spec_run(r0, n, txr0);
            assert(exists|m: nat|
                {
                    let rr = #[trigger] spec_run(r0, m, txr0);
                    &&& self.reqs() == rr.reqs
                    &&& transport.inbound@ == rr.inbound
                    &&& spec_completions(done@) == rr.done
                    &&& dev.tx_log@ == old(dev).tx_log@ + rr.out
                    &&& dev.irq_enabled == (old(dev).irq_enabled || rr.out.len() > 0)
                }) by {
                assert({
                    let rr = spec_run(r0, n, txr0);
                    &&& self.reqs() == rr.reqs
                    &&& transport.inbound@ == rr.inbound
                    &&& spec_completions(done@) == rr.done
                    &&& dev.tx_log@ == old(dev).tx_log@ + rr.out
                    &&& dev.irq_enabled == (old(dev).irq_enabled || rr.out.len() > 0)
                });
            }
        }
        done
    }
}

} // verus!
