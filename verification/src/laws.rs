//! What holds of the reactor, stated and proved over the model in
//! `reactor`: quiescence, the persistence of reads that never see
//! input, the single delivery of each inbound byte to the earliest
//! ready request, the submission-ordered firing of completions, the
//! arrival-ordered resolution of read-chars across a whole run, the
//! byte-for-byte gathering of a line up to its (normalized) newline,
//! and the in-order round trip of a written string.

use vstd::prelude::*;
use crate::reactor::RunState;
use crate::reactor::SpecCompletion;
use crate::reactor::SpecHandle;
use crate::reactor::SpecOp;
use crate::reactor::SpecOutcome;
use crate::reactor::TickState;
use crate::reactor::lemma_spec_run_snoc;
use crate::reactor::spec_actionable;
use crate::reactor::spec_has_read;
use crate::reactor::spec_in_byte;
use crate::reactor::spec_is_read;
use crate::reactor::spec_is_write;
use crate::reactor::spec_more_work;
use crate::reactor::spec_run;
use crate::reactor::spec_run_step;
use crate::reactor::spec_step;
use crate::reactor::spec_tick;
use crate::reactor::spec_tick_from;
use crate::transport::spec_normalize;

verus! {

/// A tick only ever appends: what the walk has already kept and
/// resolved stays kept and resolved, in place.
pub proof fn lemma_tick_from_monotonic(st: TickState, reqs: Seq<SpecHandle>, tx_ready: bool)
    ensures
        st.kept.is_prefix_of(spec_tick_from(st, reqs, tx_ready).kept),
        st.done.is_prefix_of(spec_tick_from(st, reqs, tx_ready).done),
        st.out.is_prefix_of(spec_tick_from(st, reqs, tx_ready).out),
    decreases reqs.len(),
{
    if reqs.len() > 0 {
        let st1 = spec_step(st, reqs.first(), tx_ready);
        lemma_tick_from_monotonic(st1, reqs.drop_first(), tx_ready);
    }
}

/// With no byte to hand out, a tick leaves every read request exactly
/// as it was, and whatever it resolves is a write.
pub proof fn lemma_tick_from_no_byte(st: TickState, reqs: Seq<SpecHandle>, tx_ready: bool)
    requires
        st.byte is None,
    ensures
        forall|i: int|
            0 <= i < reqs.len() && spec_is_read(reqs[i]) ==> #[trigger] spec_tick_from(
                st,
                reqs,
                tx_ready,
            ).kept.contains(reqs[i]),
        forall|i: int|
            st.done.len() <= i < spec_tick_from(st, reqs, tx_ready).done.len()
                ==> spec_tick_from(st, reqs, tx_ready).done[i].outcome is Wrote,
        spec_tick_from(st, reqs, tx_ready).byte is None,
    decreases reqs.len(),
{
    if reqs.len() > 0 {
        let h = reqs.first();
        let st1 = spec_step(st, h, tx_ready);
        lemma_tick_from_no_byte(st1, reqs.drop_first(), tx_ready);
        let res = spec_tick_from(st, reqs, tx_ready);
        if spec_is_read(h) {
            assert(st1.kept == st.kept.push(h));
            lemma_tick_from_monotonic(st1, reqs.drop_first(), tx_ready);
            assert(st1.kept =~= res.kept.subrange(0, st1.kept.len() as int));
            assert(res.kept.subrange(0, st1.kept.len() as int)[st.kept.len() as int] == res.kept[st.kept.len() as int]);
            assert(res.kept[st.kept.len() as int] == h);
            assert(res.kept.contains(h));
        }
        assert forall|i: int| 0 <= i < reqs.len() && spec_is_read(reqs[i]) implies #[trigger] res.kept.contains(reqs[i]) by {
            if i > 0 {
                assert(reqs.drop_first()[i - 1] == reqs[i]);
            }
        }
        assert forall|i: int| st.done.len() <= i < res.done.len() implies res.done[i].outcome is Wrote by {
            assert(st1.done.len() >= st.done.len());
            if i < st1.done.len() {
                assert(st1.done.len() == st.done.len() + 1);
                assert(res.done[i] == st1.done[i]) by {
                    lemma_tick_from_monotonic(st1, reqs.drop_first(), tx_ready);
                }
            }
        }
    }
}

/// Ids strictly increase along the table: submission order.
pub open spec fn spec_ids_ascending(reqs: Seq<SpecHandle>) -> bool {
    forall|i: int, j: int| 0 <= i < j < reqs.len() ==> reqs[i].id < reqs[j].id
}

/// Ids strictly increase along a completion list.
pub open spec fn spec_cids_ascending(done: Seq<SpecCompletion>) -> bool {
    forall|i: int, j: int| 0 <= i < j < done.len() ==> done[i].id < done[j].id
}

/// Some pending request carries this id.
pub open spec fn spec_id_in(reqs: Seq<SpecHandle>, id: u64) -> bool {
    exists|k: int| 0 <= k < reqs.len() && reqs[k].id == id
}

/// The index of the earliest read request, where one exists.
pub open spec fn spec_first_read(reqs: Seq<SpecHandle>) -> int
    decreases reqs.len(),
{
    if reqs.len() == 0 {
        0
    } else if spec_is_read(reqs.first()) {
        0
    } else {
        1 + spec_first_read(reqs.drop_first())
    }
}

pub proof fn lemma_first_read_props(reqs: Seq<SpecHandle>)
    requires
        spec_has_read(reqs),
    ensures
        0 <= spec_first_read(reqs) < reqs.len(),
        spec_is_read(reqs[spec_first_read(reqs)]),
        forall|j: int| 0 <= j < spec_first_read(reqs) ==> !spec_is_read(reqs[j]),
    decreases reqs.len(),
{
    if !spec_is_read(reqs.first()) {
        let i = choose|i: int| 0 <= i < reqs.len() && spec_is_read(reqs[i]);
        assert(reqs.drop_first()[i - 1] == reqs[i]);
        assert(spec_has_read(reqs.drop_first()));
        lemma_first_read_props(reqs.drop_first());
        let k = spec_first_read(reqs);
        assert(reqs.drop_first()[k - 1] == reqs[k]);
        assert forall|j: int| 0 <= j < k implies !spec_is_read(reqs[j]) by {
            if j > 0 {
                assert(reqs.drop_first()[j - 1] == reqs[j]);
            }
        }
    }
}

/// An element of a prefix is an element of the whole.
pub proof fn lemma_prefix_contains<A>(p: Seq<A>, q: Seq<A>, i: int)
    requires
        p.is_prefix_of(q),
        0 <= i < p.len(),
    ensures
        q.contains(p[i]),
        q[i] == p[i],
{
    assert(q.subrange(0, p.len() as int)[i] == q[i]);
}

/// The generalized walk behind the ordering law.
pub proof fn lemma_tick_from_done_ordered(st: TickState, reqs: Seq<SpecHandle>, tx_ready: bool)
    requires
        spec_ids_ascending(reqs),
        spec_cids_ascending(st.done),
        forall|i: int, j: int|
            0 <= i < st.done.len() && 0 <= j < reqs.len() ==> st.done[i].id < reqs[j].id,
    ensures
        spec_cids_ascending(spec_tick_from(st, reqs, tx_ready).done),
        forall|i: int|
            st.done.len() <= i < spec_tick_from(st, reqs, tx_ready).done.len() ==> spec_id_in(
                reqs,
                spec_tick_from(st, reqs, tx_ready).done[i].id,
            ),
    decreases reqs.len(),
{
    if reqs.len() > 0 {
        let h = reqs.first();
        let st1 = spec_step(st, h, tx_ready);
        let res = spec_tick_from(st, reqs, tx_ready);
        let rest = reqs.drop_first();
        assert(forall|i: int| 0 <= i < rest.len() ==> #[trigger] rest[i] == reqs[i + 1]);
        assert(st1.done == st.done || st1.done.len() == st.done.len() + 1);
        if st1.done.len() == st.done.len() + 1 {
            assert(st1.done[st.done.len() as int].id == h.id);
            assert(forall|i: int|
                0 <= i < st.done.len() ==> #[trigger] st1.done[i] == st.done[i]);
            assert forall|i: int, j: int| 0 <= i < j < st1.done.len() implies st1.done[i].id
                < st1.done[j].id by {
                if j == st.done.len() as int {
                    if i < st.done.len() {
                        assert(st.done[i].id < reqs[0].id);
                    }
                }
            }
        }
        assert(spec_cids_ascending(st1.done));
        assert forall|i: int, j: int|
            0 <= i < st1.done.len() && 0 <= j < rest.len() implies st1.done[i].id
            < rest[j].id by {
            assert(rest[j] == reqs[j + 1]);
            if i < st.done.len() {
                assert(st.done[i].id < reqs[j + 1].id);
            } else {
                assert(st1.done[i].id == h.id);
                assert(reqs[0].id < reqs[j + 1].id);
            }
        }
        lemma_tick_from_done_ordered(st1, rest, tx_ready);
        assert forall|i: int| st.done.len() <= i < res.done.len() implies spec_id_in(
            reqs,
            res.done[i].id,
        ) by {
            if i < st1.done.len() {
                lemma_tick_from_monotonic(st1, rest, tx_ready);
                lemma_prefix_contains(st1.done, res.done, i);
                assert(res.done[i].id == h.id);
                assert(reqs[0].id == h.id);
            } else {
                assert(spec_id_in(rest, res.done[i].id));
                let k = choose|k: int| 0 <= k < rest.len() && rest[k].id == res.done[i].id;
                assert(reqs[k + 1].id == res.done[i].id);
            }
        }
    }
}

/// Completions fire in submission order: within any tick the resolved
/// ids are strictly increasing — the table is walked in ascending-id
/// order — and every resolved id belonged to a pending request.
pub proof fn lemma_tick_resolves_in_submission_order(
    reqs: Seq<SpecHandle>,
    inbound: Seq<u8>,
    tx_ready: bool,
)
    requires
        spec_ids_ascending(reqs),
    ensures
        spec_cids_ascending(spec_tick(reqs, inbound, tx_ready).done),
        forall|i: int|
            0 <= i < spec_tick(reqs, inbound, tx_ready).done.len() ==> spec_id_in(
                reqs,
                spec_tick(reqs, inbound, tx_ready).done[i].id,
            ),
{
    let st0 = TickState {
        kept: Seq::empty(),
        done: Seq::empty(),
        out: Seq::empty(),
        byte: spec_in_byte(reqs, inbound),
    };
    lemma_tick_from_done_ordered(st0, reqs, tx_ready);
}

/// The generalized walk behind the delivery law: the pending byte goes
/// to the earliest read request and to nothing else.
pub proof fn lemma_byte_from(st: TickState, reqs: Seq<SpecHandle>, tx_ready: bool)
    requires
        st.byte is Some,
        spec_has_read(reqs),
    ensures
        ({
            let res = spec_tick_from(st, reqs, tx_ready);
            let k = spec_first_read(reqs);
            let b = st.byte->0;
            &&& (reqs[k].op is ReadChar ==> res.done.contains(
                SpecCompletion { id: reqs[k].id, outcome: SpecOutcome::GotChar(b) },
            ))
            &&& (reqs[k].op matches SpecOp::ReadLine { acc } ==> {
                &&& (b == 10 ==> res.done.contains(
                    SpecCompletion { id: reqs[k].id, outcome: SpecOutcome::GotLine { line: acc } },
                ))
                &&& (b != 10 ==> res.kept.contains(
                    SpecHandle { id: reqs[k].id, op: SpecOp::ReadLine { acc: acc.push(b) } },
                ))
            })
            &&& forall|i: int|
                0 <= i < reqs.len() && spec_is_read(reqs[i]) && i != k
                    ==> res.kept.contains(reqs[i])
            &&& forall|i: int|
                st.done.len() <= i < res.done.len() ==> res.done[i].id == reqs[k].id
                    || res.done[i].outcome is Wrote
        }),
    decreases reqs.len(),
{
    lemma_first_read_props(reqs);
    let res = spec_tick_from(st, reqs, tx_ready);
    let k = spec_first_read(reqs);
    let b = st.byte->0;
    let h = reqs.first();
    let st1 = spec_step(st, h, tx_ready);
    let rest = reqs.drop_first();
    assert(forall|i: int| 0 <= i < rest.len() ==> #[trigger] rest[i] == reqs[i + 1]);
    if spec_is_read(h) {
        assert(k == 0);
        assert(st1.byte is None);
        lemma_tick_from_no_byte(st1, rest, tx_ready);
        lemma_tick_from_monotonic(st1, rest, tx_ready);
        match h.op {
            SpecOp::ReadChar => {
                assert(st1.done[st.done.len() as int] == (SpecCompletion {
                    id: h.id,
                    outcome: SpecOutcome::GotChar(b),
                }));
                lemma_prefix_contains(st1.done, res.done, st.done.len() as int);
            },
            SpecOp::ReadLine { acc } => {
                if b == 10 {
                    assert(st1.done[st.done.len() as int] == (SpecCompletion {
                        id: h.id,
                        outcome: SpecOutcome::GotLine { line: acc },
                    }));
                    lemma_prefix_contains(st1.done, res.done, st.done.len() as int);
                } else {
                    assert(st1.kept[st.kept.len() as int] == (SpecHandle {
                        id: h.id,
                        op: SpecOp::ReadLine { acc: acc.push(b) },
                    }));
                    lemma_prefix_contains(st1.kept, res.kept, st.kept.len() as int);
                }
            },
            _ => {},
        }
        assert forall|i: int|
            0 <= i < reqs.len() && spec_is_read(reqs[i]) && i != k implies res.kept.contains(
            reqs[i],
        ) by {
            assert(rest[i - 1] == reqs[i]);
        }
        assert forall|i: int|
            st.done.len() <= i < res.done.len() implies res.done[i].id == reqs[k].id
            || res.done[i].outcome is Wrote by {
            if i < st1.done.len() {
                lemma_prefix_contains(st1.done, res.done, i);
            }
        }
    } else {
        assert(k == 1 + spec_first_read(rest));
        assert(st1.byte == st.byte);
        assert(spec_has_read(rest)) by {
            let i = choose|i: int| 0 <= i < reqs.len() && spec_is_read(reqs[i]);
            assert(rest[i - 1] == reqs[i]);
        }
        lemma_byte_from(st1, rest, tx_ready);
        lemma_first_read_props(rest);
        assert(rest[k - 1] == reqs[k]);
        assert forall|i: int|
            0 <= i < reqs.len() && spec_is_read(reqs[i]) && i != k implies res.kept.contains(
            reqs[i],
        ) by {
            assert(i >= 1);
            assert(rest[i - 1] == reqs[i]);
        }
        assert forall|i: int|
            st.done.len() <= i < res.done.len() implies res.done[i].id == reqs[k].id
            || res.done[i].outcome is Wrote by {
            if i < st1.done.len() {
                lemma_tick_from_monotonic(st1, rest, tx_ready);
                lemma_prefix_contains(st1.done, res.done, i);
                assert(res.done[i].outcome is Wrote);
            }
        }
    }
}

/// Each inbound byte is delivered to exactly one request: the earliest
/// pending read.  That request resolves with the byte (or, for a line,
/// either resolves at a newline or buffers it); every other read
/// request is left exactly as it was, and nothing else resolves with a
/// read outcome.
pub proof fn lemma_byte_to_first_read(reqs: Seq<SpecHandle>, inbound: Seq<u8>, tx_ready: bool)
    requires
        inbound.len() > 0,
        spec_has_read(reqs),
    ensures
        ({
            let t = spec_tick(reqs, inbound, tx_ready);
            let k = spec_first_read(reqs);
            let b = spec_normalize(inbound[0]);
            &&& 0 <= k < reqs.len() && spec_is_read(reqs[k])
            &&& (reqs[k].op is ReadChar ==> t.done.contains(
                SpecCompletion { id: reqs[k].id, outcome: SpecOutcome::GotChar(b) },
            ))
            &&& (reqs[k].op matches SpecOp::ReadLine { acc } ==> {
                &&& (b == 10 ==> t.done.contains(
                    SpecCompletion { id: reqs[k].id, outcome: SpecOutcome::GotLine { line: acc } },
                ))
                &&& (b != 10 ==> t.kept.contains(
                    SpecHandle { id: reqs[k].id, op: SpecOp::ReadLine { acc: acc.push(b) } },
                ))
            })
            &&& forall|i: int|
                0 <= i < reqs.len() && spec_is_read(reqs[i]) && i != k ==> t.kept.contains(
                    reqs[i],
                )
            &&& forall|i: int|
                0 <= i < t.done.len() ==> t.done[i].id == reqs[k].id || t.done[i].outcome is Wrote
        }),
{
    lemma_first_read_props(reqs);
    let st0 = TickState {
        kept: Seq::empty(),
        done: Seq::empty(),
        out: Seq::empty(),
        byte: spec_in_byte(reqs, inbound),
    };
    lemma_byte_from(st0, reqs, tx_ready);
}

/// Quiescence: a tick with no queued input and no write request
/// resolves nothing, changes nothing, and leaves nothing actionable,
/// so the mainline may enter the low-power wait.
pub proof fn lemma_quiescent_tick(reqs: Seq<SpecHandle>, inbound: Seq<u8>, tx_ready: bool)
    requires
        inbound.len() == 0,
        forall|i: int| 0 <= i < reqs.len() ==> !spec_is_write(reqs[i]),
    ensures
        spec_tick(reqs, inbound, tx_ready).kept == reqs,
        spec_tick(reqs, inbound, tx_ready).done == Seq::<SpecCompletion>::empty(),
        spec_tick(reqs, inbound, tx_ready).out == Seq::<u8>::empty(),
        !spec_more_work(reqs, inbound),
{
    let st0 = TickState {
        kept: Seq::empty(),
        done: Seq::empty(),
        out: Seq::empty(),
        byte: spec_in_byte(reqs, inbound),
    };
    lemma_quiescent_from(st0, reqs, tx_ready);
    assert(spec_tick(reqs, inbound, tx_ready).kept =~= reqs);
    assert forall|i: int| 0 <= i < reqs.len() implies !spec_actionable(reqs[i], inbound) by {
        assert(spec_is_read(reqs[i]));
    }
}

/// The generalized walk behind `lemma_quiescent_tick`: with no byte and
/// only read requests ahead, the walk just copies the table over.
pub proof fn lemma_quiescent_from(st: TickState, reqs: Seq<SpecHandle>, tx_ready: bool)
    requires
        st.byte is None,
        forall|i: int| 0 <= i < reqs.len() ==> !spec_is_write(reqs[i]),
    ensures
        spec_tick_from(st, reqs, tx_ready) == (TickState {
            kept: st.kept + reqs,
            done: st.done,
            out: st.out,
            byte: None,
        }),
    decreases reqs.len(),
{
    if reqs.len() == 0 {
        assert(st.kept + reqs =~= st.kept);
        assert(spec_tick_from(st, reqs, tx_ready) =~= (TickState {
            kept: st.kept + reqs,
            done: st.done,
            out: st.out,
            byte: None,
        }));
    } else {
        let h = reqs.first();
        assert(spec_is_read(h));
        let st1 = spec_step(st, h, tx_ready);
        assert(st1.kept == st.kept.push(h));
        assert forall|i: int| 0 <= i < reqs.drop_first().len() implies !spec_is_write(
            #[trigger] reqs.drop_first()[i],
        ) by {
            assert(reqs.drop_first()[i] == reqs[i + 1]);
        }
        lemma_quiescent_from(st1, reqs.drop_first(), tx_ready);
        assert(st.kept.push(h) + reqs.drop_first() =~= st.kept + reqs);
    }
}

/// One tick over a table of read-char requests with a byte queued:
/// exactly the earliest request resolves, with the normalized byte,
/// and the rest of the table is untouched.
pub proof fn lemma_tick_all_read_chars(reqs: Seq<SpecHandle>, inbound: Seq<u8>, tx_ready: bool)
    requires
        reqs.len() > 0,
        inbound.len() > 0,
        forall|i: int| 0 <= i < reqs.len() ==> reqs[i].op is ReadChar,
    ensures
        spec_tick(reqs, inbound, tx_ready) == (TickState {
            kept: reqs.drop_first(),
            done: seq![
                SpecCompletion {
                    id: reqs.first().id,
                    outcome: SpecOutcome::GotChar(spec_normalize(inbound[0])),
                },
            ],
            out: Seq::empty(),
            byte: None,
        }),
{
    assert(spec_has_read(reqs)) by {
        assert(spec_is_read(reqs[0]));
    }
    let st0 = TickState {
        kept: Seq::empty(),
        done: Seq::empty(),
        out: Seq::empty(),
        byte: Some(spec_normalize(inbound[0])),
    };
    let st1 = spec_step(st0, reqs.first(), tx_ready);
    assert forall|i: int| 0 <= i < reqs.drop_first().len() implies !spec_is_write(
        #[trigger] reqs.drop_first()[i],
    ) by {
        assert(reqs.drop_first()[i] == reqs[i + 1]);
    }
    lemma_quiescent_from(st1, reqs.drop_first(), tx_ready);
    assert(st1.kept + reqs.drop_first() =~= reqs.drop_first());
}

/// Read-char requests fire in byte-arrival order: against any stream,
/// the n-th tick resolves the n-th pending request with the n-th byte
/// (normalized), and each byte reaches exactly that one request.
pub proof fn lemma_read_chars_fire_in_arrival_order(
    reqs: Seq<SpecHandle>,
    inbound: Seq<u8>,
    done0: Seq<SpecCompletion>,
    n: nat,
    tx_ready: bool,
)
    requires
        n <= reqs.len(),
        n <= inbound.len(),
        forall|i: int| 0 <= i < reqs.len() ==> reqs[i].op is ReadChar,
    ensures
        spec_run(
            RunState { reqs, inbound, done: done0, out: Seq::empty() },
            n,
            tx_ready,
        ) == (RunState {
            reqs: reqs.skip(n as int),
            inbound: inbound.skip(n as int),
            done: done0 + Seq::new(
                n,
                |i: int|
                    SpecCompletion {
                        id: reqs[i].id,
                        outcome: SpecOutcome::GotChar(spec_normalize(inbound[i])),
                    },
            ),
            out: Seq::empty(),
        }),
    decreases n,
{
    let r0 = RunState { reqs, inbound, done: done0, out: Seq::empty() };
    if n == 0 {
        assert(reqs.skip(0) =~= reqs);
        assert(inbound.skip(0) =~= inbound);
        assert(done0 + Seq::new(0, |i: int|
            SpecCompletion {
                id: reqs[i].id,
                outcome: SpecOutcome::GotChar(spec_normalize(inbound[i])),
            }) =~= done0);
        assert(spec_run(r0, 0, tx_ready) == r0);
        assert(spec_run(r0, n, tx_ready) =~= (RunState {
            reqs: reqs.skip(n as int),
            inbound: inbound.skip(n as int),
            done: done0 + Seq::new(
                n,
                |i: int|
                    SpecCompletion {
                        id: reqs[i].id,
                        outcome: SpecOutcome::GotChar(spec_normalize(inbound[i])),
                    },
            ),
            out: Seq::empty(),
        }));
    } else {
        lemma_tick_all_read_chars(reqs, inbound, tx_ready);
        assert(spec_has_read(reqs)) by {
            assert(spec_is_read(reqs[0]));
        }
        let c0 = SpecCompletion {
            id: reqs.first().id,
            outcome: SpecOutcome::GotChar(spec_normalize(inbound[0])),
        };
        let r1 = spec_run_step(r0, tx_ready);
        assert(r1.done == done0 + seq![c0]);
        assert(r1.out =~= Seq::<u8>::empty());
        assert(forall|i: int|
            0 <= i < reqs.drop_first().len() ==> (#[trigger] reqs.drop_first()[i]).op
                is ReadChar);
        lemma_read_chars_fire_in_arrival_order(
            reqs.drop_first(),
            inbound.drop_first(),
            done0 + seq![c0],
            (n - 1) as nat,
            tx_ready,
        );
        assert(spec_run(r0, n, tx_ready) == spec_run(r1, (n - 1) as nat, tx_ready));
        assert(reqs.drop_first().skip(n - 1) =~= reqs.skip(n as int));
        assert(inbound.drop_first().skip(n - 1) =~= inbound.skip(n as int));
        assert((done0 + seq![c0]) + Seq::new(
            (n - 1) as nat,
            |i: int|
                SpecCompletion {
                    id: reqs.drop_first()[i].id,
                    outcome: SpecOutcome::GotChar(spec_normalize(inbound.drop_first()[i])),
                },
        ) =~= done0 + Seq::new(
            n,
            |i: int|
                SpecCompletion {
                    id: reqs[i].id,
                    outcome: SpecOutcome::GotChar(spec_normalize(inbound[i])),
                },
        ));
    }
}

/// One tick of a lone read-line request with a byte queued: a newline
/// (either line ending, normalized) fires it with the gathered bytes;
/// anything else is buffered and the request stays.
pub proof fn lemma_tick_lone_read_line(id: u64, acc: Seq<u8>, inbound: Seq<u8>, tx_ready: bool)
    requires
        inbound.len() > 0,
    ensures
        ({
            let reqs = seq![SpecHandle { id, op: SpecOp::ReadLine { acc } }];
            let b = spec_normalize(inbound[0]);
            spec_tick(reqs, inbound, tx_ready) == if b == 10 {
                TickState {
                    kept: Seq::empty(),
                    done: seq![
                        SpecCompletion { id, outcome: SpecOutcome::GotLine { line: acc } },
                    ],
                    out: Seq::empty(),
                    byte: None,
                }
            } else {
                TickState {
                    kept: seq![SpecHandle { id, op: SpecOp::ReadLine { acc: acc.push(b) } }],
                    done: Seq::empty(),
                    out: Seq::empty(),
                    byte: None,
                }
            }
        }),
{
    let reqs = seq![SpecHandle { id, op: SpecOp::ReadLine { acc } }];
    assert(spec_has_read(reqs)) by {
        assert(spec_is_read(reqs[0]));
    }
    let b = spec_normalize(inbound[0]);
    let st0 = TickState {
        kept: Seq::empty(),
        done: Seq::empty(),
        out: Seq::empty(),
        byte: Some(b),
    };
    let st1 = spec_step(st0, reqs.first(), tx_ready);
    assert(reqs.drop_first() =~= Seq::<SpecHandle>::empty());
    assert(spec_tick_from(st1, reqs.drop_first(), tx_ready) == st1);
    if b == 10 {
        assert(st1.done =~= seq![
            SpecCompletion { id, outcome: SpecOutcome::GotLine { line: acc } },
        ]);
        assert(st1 =~= (TickState {
            kept: Seq::empty(),
            done: seq![SpecCompletion { id, outcome: SpecOutcome::GotLine { line: acc } }],
            out: Seq::empty(),
            byte: None,
        }));
    } else {
        assert(st1.kept =~= seq![SpecHandle { id, op: SpecOp::ReadLine { acc: acc.push(b) } }]);
        assert(st1 =~= (TickState {
            kept: seq![SpecHandle { id, op: SpecOp::ReadLine { acc: acc.push(b) } }],
            done: Seq::empty(),
            out: Seq::empty(),
            byte: None,
        }));
    }
}

/// A lone read-line gathers its line byte for byte: as long as no
/// normalized newline arrives it stays pending with exactly the
/// normalized bytes seen so far, firing nothing.
pub proof fn lemma_read_line_gathers(
    id: u64,
    acc: Seq<u8>,
    inbound: Seq<u8>,
    n: nat,
    tx_ready: bool,
)
    requires
        n <= inbound.len(),
        forall|i: int| 0 <= i < n ==> spec_normalize(inbound[i]) != 10,
    ensures
        spec_run(
            RunState {
                reqs: seq![SpecHandle { id, op: SpecOp::ReadLine { acc } }],
                inbound,
                done: Seq::empty(),
                out: Seq::empty(),
            },
            n,
            tx_ready,
        ) == (RunState {
            reqs: seq![
                SpecHandle {
                    id,
                    op: SpecOp::ReadLine {
                        acc: acc + inbound.take(n as int).map_values(|b: u8| spec_normalize(b)),
                    },
                },
            ],
            inbound: inbound.skip(n as int),
            done: Seq::empty(),
            out: Seq::empty(),
        }),
    decreases n,
{
    let reqs = seq![SpecHandle { id, op: SpecOp::ReadLine { acc } }];
    let r0 = RunState { reqs, inbound, done: Seq::empty(), out: Seq::empty() };
    if n == 0 {
        assert(acc + inbound.take(0).map_values(|b: u8| spec_normalize(b)) =~= acc);
        assert(inbound.skip(0) =~= inbound);
        assert(spec_run(r0, 0, tx_ready) == r0);
    } else {
        assert(inbound.len() > 0);
        lemma_tick_lone_read_line(id, acc, inbound, tx_ready);
        assert(spec_has_read(reqs)) by {
            assert(spec_is_read(reqs[0]));
        }
        let b = spec_normalize(inbound[0]);
        assert(b != 10);
        let r1 = spec_run_step(r0, tx_ready);
        assert(r1.reqs == seq![SpecHandle { id, op: SpecOp::ReadLine { acc: acc.push(b) } }]);
        assert(r1.done =~= Seq::<SpecCompletion>::empty());
        assert(r1.out =~= Seq::<u8>::empty());
        assert(forall|i: int|
            0 <= i < n - 1 ==> spec_normalize(#[trigger] inbound.drop_first()[i]) != 10);
        lemma_read_line_gathers(id, acc.push(b), inbound.drop_first(), (n - 1) as nat, tx_ready);
        assert(spec_run(r0, n, tx_ready) == spec_run(r1, (n - 1) as nat, tx_ready));
        assert(inbound.drop_first().skip(n - 1) =~= inbound.skip(n as int));
        assert(acc.push(b) + inbound.drop_first().take(n - 1).map_values(
            |c: u8| spec_normalize(c),
        ) =~= acc + inbound.take(n as int).map_values(|c: u8| spec_normalize(c)));
    }
}

/// ... and fires exactly once, on the tick that delivers the newline:
/// the payload is every earlier byte, normalized, the newline not
/// included.
pub proof fn lemma_read_line_fires_at_newline(
    id: u64,
    inbound: Seq<u8>,
    n: nat,
    tx_ready: bool,
)
    requires
        n < inbound.len(),
        forall|i: int| 0 <= i < n ==> spec_normalize(inbound[i]) != 10,
        spec_normalize(inbound[n as int]) == 10,
    ensures
        ({
            let r = spec_run(
                RunState {
                    reqs: seq![
                        SpecHandle { id, op: SpecOp::ReadLine { acc: Seq::empty() } },
                    ],
                    inbound,
                    done: Seq::empty(),
                    out: Seq::empty(),
                },
                n + 1,
                tx_ready,
            );
            &&& r.done == seq![
                SpecCompletion {
                    id,
                    outcome: SpecOutcome::GotLine {
                        line: inbound.take(n as int).map_values(|b: u8| spec_normalize(b)),
                    },
                },
            ]
            &&& r.reqs == Seq::<SpecHandle>::empty()
            &&& r.inbound == inbound.skip(n as int + 1)
        }),
{
    let r0 = RunState {
        reqs: seq![SpecHandle { id, op: SpecOp::ReadLine { acc: Seq::empty() } }],
        inbound,
        done: Seq::empty(),
        out: Seq::empty(),
    };
    lemma_read_line_gathers(id, Seq::empty(), inbound, n, tx_ready);
    lemma_spec_run_snoc(r0, n, tx_ready);
    let rn = spec_run(r0, n, tx_ready);
    let line = Seq::empty() + inbound.take(n as int).map_values(|b: u8| spec_normalize(b));
    assert(rn.reqs == seq![SpecHandle { id, op: SpecOp::ReadLine { acc: line } }]);
    assert(rn.inbound == inbound.skip(n as int));
    assert(rn.inbound.len() > 0);
    assert(rn.inbound[0] == inbound[n as int]);
    lemma_tick_lone_read_line(id, line, rn.inbound, tx_ready);
    assert(spec_has_read(rn.reqs)) by {
        assert(spec_is_read(rn.reqs[0]));
    }
    let r = spec_run(r0, n + 1, tx_ready);
    assert(r == spec_run_step(rn, tx_ready));
    assert(r.done =~= seq![
        SpecCompletion { id, outcome: SpecOutcome::GotLine { line } },
    ]);
    assert(line =~= inbound.take(n as int).map_values(|b: u8| spec_normalize(b)));
    assert(rn.inbound.drop_first() =~= inbound.skip(n as int + 1));
}

/// Round trip of a written string: a lone write-string request, ticked
/// with a ready transmitter and no input, puts the string's bytes on
/// the wire in their original left-to-right order, exactly one per
/// tick, and resolves exactly once — in the tick that flushes the last
/// byte, not earlier.
pub proof fn lemma_write_string_round_trip(id: u64, s: Seq<u8>, k: nat)
    requires
        k <= s.len(),
    ensures
        ({
            let r0 = RunState {
                reqs: seq![SpecHandle { id, op: SpecOp::PutBuffer { rev: s.reverse() } }],
                inbound: Seq::empty(),
                done: Seq::empty(),
                out: Seq::empty(),
            };
            let r = spec_run(r0, k, true);
            &&& r.out == s.take(k as int)
            &&& r.inbound == Seq::<u8>::empty()
            &&& (k < s.len() ==> r.done == Seq::<SpecCompletion>::empty() && r.reqs == seq![
                SpecHandle {
                    id,
                    op: SpecOp::PutBuffer { rev: s.reverse().take(s.len() - k) },
                },
            ])
            &&& (k == s.len() && s.len() > 0 ==> r.done == seq![
                SpecCompletion { id, outcome: SpecOutcome::Wrote },
            ] && r.reqs == Seq::<SpecHandle>::empty())
        }),
    decreases k,
{
    let r0 = RunState {
        reqs: seq![SpecHandle { id, op: SpecOp::PutBuffer { rev: s.reverse() } }],
        inbound: Seq::empty(),
        done: Seq::empty(),
        out: Seq::empty(),
    };
    if k == 0 {
        assert(spec_run(r0, 0, true) == r0);
        assert(s.take(0) =~= Seq::<u8>::empty());
        assert(s.reverse().take(s.len() - 0) =~= s.reverse());
    } else {
        lemma_write_string_round_trip(id, s, (k - 1) as nat);
        lemma_spec_run_snoc(r0, (k - 1) as nat, true);
        let rp = spec_run(r0, (k - 1) as nat, true);
        let r = spec_run(r0, k, true);
        assert(r == spec_run_step(rp, true));
        let n = s.len() as int;
        let rev_rem = s.reverse().take(n - (k - 1));
        assert(rp.reqs == seq![SpecHandle { id, op: SpecOp::PutBuffer { rev: rev_rem } }]);
        let h = rp.reqs.first();
        assert(!spec_has_read(rp.reqs)) by {
            if spec_has_read(rp.reqs) {
                let i = choose|i: int| 0 <= i < rp.reqs.len() && spec_is_read(rp.reqs[i]);
                assert(i == 0);
            }
        }
        assert(spec_in_byte(rp.reqs, rp.inbound) is None);
        let st0 = TickState {
            kept: Seq::empty(),
            done: Seq::empty(),
            out: Seq::empty(),
            byte: None,
        };
        let st1 = spec_step(st0, h, true);
        assert(spec_tick(rp.reqs, rp.inbound, true) == spec_tick_from(
            st1,
            rp.reqs.drop_first(),
            true,
        ));
        assert(rp.reqs.drop_first() =~= Seq::<SpecHandle>::empty());
        assert(spec_tick_from(st1, rp.reqs.drop_first(), true) == st1);
        assert(rev_rem.len() == n - k + 1);
        assert(rev_rem.last() == s.reverse()[n - k]);
        assert(s.reverse()[n - k] == s[k - 1]);
        assert(r.out =~= s.take(k as int)) by {
            assert(rp.out == s.take(k - 1));
            assert(st1.out =~= seq![s[k - 1]]);
        }
        if k < s.len() {
            assert(rev_rem.len() >= 2);
            assert(st1.done =~= Seq::<SpecCompletion>::empty());
            assert(r.done =~= Seq::<SpecCompletion>::empty());
            assert(rev_rem.drop_last() =~= s.reverse().take(n - k));
            assert(st1.kept =~= seq![
                SpecHandle { id, op: SpecOp::PutBuffer { rev: s.reverse().take(n - k) } },
            ]);
        } else {
            assert(rev_rem.len() == 1);
            assert(st1.kept =~= Seq::<SpecHandle>::empty());
            assert(r.done =~= seq![SpecCompletion { id, outcome: SpecOutcome::Wrote }]);
        }
    }
}

} // verus!
