//! The dispatcher of the lock service: from the numbers of a call and the
//! bytes of its arguments to the bytes of its reply and the change to the
//! lock table.
//!
//! A call is answered in full or not at all. Where its arguments cannot be
//! decoded nothing is written and the table stays as it was.
#![allow(non_camel_case_types)]

use crate::lock_model::{CallView, CallbackView, TableView};
use crate::lock_table::{callback_views, CallContext, Callback, LockTable};
use crate::nlm::{
    nlm4_stats, nlm_cancargs, nlm_lockargs, nlm_res, nlm_testargs, nlm_testres, nlm_unlockargs,
    CancArgsView, LockArgsView, ResView, TestArgsView, TestResView, UnlockArgsView, VERSION,
};
use crate::rpc::{
    call_body, make_success_reply, proc_unavail_reply_message, prog_mismatch_reply_message,
    ReplyEnvelope, ReplyStatus,
};
use crate::xdr::ProtocolDecodeError;
use vstd::prelude::*;

verus! {

/// The procedures of version 4 of the protocol, and `INVALID` for every
/// number that names none.
#[derive(Clone, Copy, Debug, PartialEq, Eq, Structural)]
pub enum NlmProgram {
    NLMPROC4_NULL,
    NLMPROC4_TEST,
    NLMPROC4_LOCK,
    NLMPROC4_CANCEL,
    NLMPROC4_UNLOCK,
    NLMPROC4_GRANTED,
    NLMPROC4_TEST_MSG,
    NLMPROC4_LOCK_MSG,
    NLMPROC4_CANCEL_MSG,
    NLMPROC4_UNLOCK_MSG,
    NLMPROC4_GRANTED_MSG,
    NLMPROC4_TEST_RES,
    NLMPROC4_LOCK_RES,
    NLMPROC4_CANCEL_RES,
    NLMPROC4_UNLOCK_RES,
    NLMPROC4_GRANTED_RES,
    NLMPROC4_SHARE,
    NLMPROC4_UNSHARE,
    NLMPROC4_NM_LOCK,
    NLMPROC4_FREE_ALL,
    INVALID,
}

/// The record that a procedure of the no-reply family takes as its argument.
#[derive(Clone, Copy, Debug, PartialEq, Eq, Structural)]
pub enum ArgumentShape {
    TestArgs,
    LockArgs,
    CancArgs,
    UnlockArgs,
    TestRes,
    Res,
}

impl NlmProgram {
    /// The procedure that the number `n` names.
    pub open spec fn of_code(n: u32) -> NlmProgram {
        if n == 0 {
            NlmProgram::NLMPROC4_NULL
        } else if n == 1 {
            NlmProgram::NLMPROC4_TEST
        } else if n == 2 {
            NlmProgram::NLMPROC4_LOCK
        } else if n == 3 {
            NlmProgram::NLMPROC4_CANCEL
        } else if n == 4 {
            NlmProgram::NLMPROC4_UNLOCK
        } else if n == 5 {
            NlmProgram::NLMPROC4_GRANTED
        } else if n == 6 {
            NlmProgram::NLMPROC4_TEST_MSG
        } else if n == 7 {
            NlmProgram::NLMPROC4_LOCK_MSG
        } else if n == 8 {
            NlmProgram::NLMPROC4_CANCEL_MSG
        } else if n == 9 {
            NlmProgram::NLMPROC4_UNLOCK_MSG
        } else if n == 10 {
            NlmProgram::NLMPROC4_GRANTED_MSG
        } else if n == 11 {
            NlmProgram::NLMPROC4_TEST_RES
        } else if n == 12 {
            NlmProgram::NLMPROC4_LOCK_RES
        } else if n == 13 {
            NlmProgram::NLMPROC4_CANCEL_RES
        } else if n == 14 {
            NlmProgram::NLMPROC4_UNLOCK_RES
        } else if n == 15 {
            NlmProgram::NLMPROC4_GRANTED_RES
        } else if n == 20 {
            NlmProgram::NLMPROC4_SHARE
        } else if n == 21 {
            NlmProgram::NLMPROC4_UNSHARE
        } else if n == 22 {
            NlmProgram::NLMPROC4_NM_LOCK
        } else if n == 23 {
            NlmProgram::NLMPROC4_FREE_ALL
        } else {
            NlmProgram::INVALID
        }
    }

    /// For a procedure of the no-reply family, the messages that call for no
    /// structured reply and the results delivered after the fact, the shape
    /// of its argument; `None` for every other procedure.
    pub open spec fn drained_shape(self) -> Option<ArgumentShape> {
        match self {
            NlmProgram::NLMPROC4_TEST_MSG => Some(ArgumentShape::TestArgs),
            NlmProgram::NLMPROC4_LOCK_MSG => Some(ArgumentShape::LockArgs),
            NlmProgram::NLMPROC4_CANCEL_MSG => Some(ArgumentShape::CancArgs),
            NlmProgram::NLMPROC4_UNLOCK_MSG => Some(ArgumentShape::UnlockArgs),
            NlmProgram::NLMPROC4_GRANTED_MSG => Some(ArgumentShape::TestArgs),
            NlmProgram::NLMPROC4_TEST_RES => Some(ArgumentShape::TestRes),
            NlmProgram::NLMPROC4_LOCK_RES => Some(ArgumentShape::Res),
            NlmProgram::NLMPROC4_CANCEL_RES => Some(ArgumentShape::Res),
            NlmProgram::NLMPROC4_UNLOCK_RES => Some(ArgumentShape::Res),
            NlmProgram::NLMPROC4_GRANTED_RES => Some(ArgumentShape::Res),
            _ => None,
        }
    }

    /// The procedure that the number `n` names; `INVALID` where it names none.
    pub fn from_u32(n: u32) -> (r: NlmProgram)
        ensures
            r == Self::of_code(n),
    {
        match n {
            0 => NlmProgram::NLMPROC4_NULL,
            1 => NlmProgram::NLMPROC4_TEST,
            2 => NlmProgram::NLMPROC4_LOCK,
            3 => NlmProgram::NLMPROC4_CANCEL,
            4 => NlmProgram::NLMPROC4_UNLOCK,
            5 => NlmProgram::NLMPROC4_GRANTED,
            6 => NlmProgram::NLMPROC4_TEST_MSG,
            7 => NlmProgram::NLMPROC4_LOCK_MSG,
            8 => NlmProgram::NLMPROC4_CANCEL_MSG,
            9 => NlmProgram::NLMPROC4_UNLOCK_MSG,
            10 => NlmProgram::NLMPROC4_GRANTED_MSG,
            11 => NlmProgram::NLMPROC4_TEST_RES,
            12 => NlmProgram::NLMPROC4_LOCK_RES,
            13 => NlmProgram::NLMPROC4_CANCEL_RES,
            14 => NlmProgram::NLMPROC4_UNLOCK_RES,
            15 => NlmProgram::NLMPROC4_GRANTED_RES,
            20 => NlmProgram::NLMPROC4_SHARE,
            21 => NlmProgram::NLMPROC4_UNSHARE,
            22 => NlmProgram::NLMPROC4_NM_LOCK,
            23 => NlmProgram::NLMPROC4_FREE_ALL,
            _ => NlmProgram::INVALID,
        }
    }

    /// The shape of the argument of a procedure of the no-reply family.
    pub fn argument_to_drain(&self) -> (r: Option<ArgumentShape>)
        ensures
            r == self.drained_shape(),
    {
        match self {
            NlmProgram::NLMPROC4_TEST_MSG => Some(ArgumentShape::TestArgs),
            NlmProgram::NLMPROC4_LOCK_MSG => Some(ArgumentShape::LockArgs),
            NlmProgram::NLMPROC4_CANCEL_MSG => Some(ArgumentShape::CancArgs),
            NlmProgram::NLMPROC4_UNLOCK_MSG => Some(ArgumentShape::UnlockArgs),
            NlmProgram::NLMPROC4_GRANTED_MSG => Some(ArgumentShape::TestArgs),
            NlmProgram::NLMPROC4_TEST_RES => Some(ArgumentShape::TestRes),
            NlmProgram::NLMPROC4_LOCK_RES => Some(ArgumentShape::Res),
            NlmProgram::NLMPROC4_CANCEL_RES => Some(ArgumentShape::Res),
            NlmProgram::NLMPROC4_UNLOCK_RES => Some(ArgumentShape::Res),
            NlmProgram::NLMPROC4_GRANTED_RES => Some(ArgumentShape::Res),
            _ => None,
        }
    }
}

/// What a call did besides writing its reply.
#[derive(Debug, PartialEq, Eq)]
pub struct Outcome {
    /// How many bytes of the input were the call's arguments.
    pub consumed: usize,
    /// For a denied TEST, whether the first lock in the way is exclusive.
    pub holder_exclusive: Option<bool>,
    /// The GRANTED calls owed to the callers whose blocked requests the call
    /// let through. Delivering them is not the business of the call.
    pub granted: Vec<Callback>,
}

/// An outcome as a mathematical value.
pub struct OutcomeView {
    pub consumed: int,
    pub holder_exclusive: Option<bool>,
    pub granted: Seq<CallbackView>,
}

impl View for Outcome {
    type V = OutcomeView;

    open spec fn view(&self) -> OutcomeView {
        OutcomeView {
            consumed: self.consumed as int,
            holder_exclusive: self.holder_exclusive,
            granted: callback_views(self.granted@),
        }
    }
}

impl OutcomeView {
    /// The outcome of a call that read `consumed` bytes and did nothing else
    /// worth telling.
    pub open spec fn plain(consumed: int) -> OutcomeView {
        OutcomeView { consumed, holder_exclusive: None, granted: Seq::empty() }
    }
}

/// What the service makes of a call: the outcome or the decode error, the
/// bytes of the reply, and the table afterwards.
pub struct Handled {
    pub result: Result<OutcomeView, ProtocolDecodeError>,
    pub reply: Seq<u8>,
    pub table: TableView,
}

impl Handled {
    /// A call whose arguments could not be decoded: nothing is written and
    /// the table stays as it was.
    pub open spec fn failed(e: ProtocolDecodeError, table: TableView) -> Handled {
        Handled { result: Err(e), reply: Seq::empty(), table }
    }

    /// The executable result `r` is the one prescribed.
    pub open spec fn is_result(self, r: Result<Outcome, ProtocolDecodeError>) -> bool {
        match self.result {
            Ok(v) => r matches Ok(o) && o@ == v,
            Err(e) => r matches Err(x) && x == e,
        }
    }
}

/// The envelope that says the call succeeded.
pub open spec fn success_envelope(xid: u32) -> Seq<u8> {
    (ReplyEnvelope { xid, status: ReplyStatus::Success }).encoding()
}

/// The envelope that says the program has no such procedure.
pub open spec fn proc_unavail_envelope(xid: u32) -> Seq<u8> {
    (ReplyEnvelope { xid, status: ReplyStatus::ProcUnavail }).encoding()
}

/// The envelope that says only `VERSION` of the program is served.
pub open spec fn version_mismatch_envelope(xid: u32) -> Seq<u8> {
    (ReplyEnvelope {
        xid,
        status: ReplyStatus::ProgMismatch { low: VERSION, high: VERSION },
    }).encoding()
}

/// NULL: reads nothing and says that the call succeeded.
pub open spec fn handled_null(xid: u32, table: TableView) -> Handled {
    Handled { result: Ok(OutcomeView::plain(0)), reply: success_envelope(xid), table }
}

/// TEST: the success envelope, then the caller's cookie and the status.
pub open spec fn handled_test(xid: u32, input: Seq<u8>, table: TableView) -> Handled {
    match TestArgsView::decode(input, 0) {
        Err(e) => Handled::failed(e, table),
        Ok((args, end)) => {
            let (stat, holder_exclusive) = table.test(args.alock, args.exclusive);
            Handled {
                result: Ok(
                    OutcomeView { consumed: end, holder_exclusive, granted: Seq::empty() },
                ),
                reply: success_envelope(xid) + (TestResView {
                    cookie: args.cookie,
                    stat,
                }).encoding(),
                table,
            }
        },
    }
}

/// LOCK: the success envelope, then the caller's cookie and the status.
pub open spec fn handled_lock(xid: u32, input: Seq<u8>, context: CallView, table: TableView)
    -> Handled {
    match LockArgsView::decode(input, 0) {
        Err(e) => Handled::failed(e, table),
        Ok((args, end)) => {
            let (after, stat) = table.acquire(args, context);
            Handled {
                result: Ok(OutcomeView::plain(end)),
                reply: success_envelope(xid) + (ResView { cookie: args.cookie, stat }).encoding(),
                table: after,
            }
        },
    }
}

/// CANCEL: the success envelope, then the caller's cookie and the status.
pub open spec fn handled_cancel(xid: u32, input: Seq<u8>, table: TableView) -> Handled {
    match CancArgsView::decode(input, 0) {
        Err(e) => Handled::failed(e, table),
        Ok((args, end)) => {
            let (after, stat) = table.cancel(args.alock);
            Handled {
                result: Ok(OutcomeView::plain(end)),
                reply: success_envelope(xid) + (ResView { cookie: args.cookie, stat }).encoding(),
                table: after,
            }
        },
    }
}

/// UNLOCK: the success envelope, then the caller's cookie and GRANTED,
/// whether or not the claim was held.
pub open spec fn handled_unlock(xid: u32, input: Seq<u8>, context: CallView, table: TableView)
    -> Handled {
    match UnlockArgsView::decode(input, 0) {
        Err(e) => Handled::failed(e, table),
        Ok((args, end)) => {
            let (after, granted) = table.release(args.alock, context.server.epoch);
            Handled {
                result: Ok(OutcomeView { consumed: end, holder_exclusive: None, granted }),
                reply: success_envelope(xid) + (ResView {
                    cookie: args.cookie,
                    stat: nlm4_stats::NLM4_GRANTED,
                }).encoding(),
                table: after,
            }
        },
    }
}

/// Where an argument of the given shape ends in `input`.
pub open spec fn drained(shape: ArgumentShape, input: Seq<u8>) -> Result<
    int,
    ProtocolDecodeError,
> {
    match shape {
        ArgumentShape::TestArgs => match TestArgsView::decode(input, 0) {
            Ok((_, end)) => Ok(end),
            Err(e) => Err(e),
        },
        ArgumentShape::LockArgs => match LockArgsView::decode(input, 0) {
            Ok((_, end)) => Ok(end),
            Err(e) => Err(e),
        },
        ArgumentShape::CancArgs => match CancArgsView::decode(input, 0) {
            Ok((_, end)) => Ok(end),
            Err(e) => Err(e),
        },
        ArgumentShape::UnlockArgs => match UnlockArgsView::decode(input, 0) {
            Ok((_, end)) => Ok(end),
            Err(e) => Err(e),
        },
        ArgumentShape::TestRes => match TestResView::decode(input, 0) {
            Ok((_, end)) => Ok(end),
            Err(e) => Err(e),
        },
        ArgumentShape::Res => match ResView::decode(input, 0) {
            Ok((_, end)) => Ok(end),
            Err(e) => Err(e),
        },
    }
}

/// A procedure of the no-reply family: its argument is read to its end, so
/// that the next call on the stream starts where it should, and no result
/// record is written. The service does not carry the procedure out, and
/// says so.
pub open spec fn handled_no_reply(
    xid: u32,
    shape: ArgumentShape,
    input: Seq<u8>,
    table: TableView,
) -> Handled {
    match drained(shape, input) {
        Err(e) => Handled::failed(e, table),
        Ok(end) => Handled {
            result: Ok(OutcomeView::plain(end)),
            reply: proc_unavail_envelope(xid),
            table,
        },
    }
}

/// What the service makes of a call. The version is looked at first: a call
/// for any version but `VERSION` is told which version is served, before its
/// procedure number is looked at, and reaches no handler.
pub open spec fn handled(
    xid: u32,
    call: call_body,
    input: Seq<u8>,
    context: CallView,
    table: TableView,
) -> Handled {
    if call.vers != VERSION {
        Handled {
            result: Ok(OutcomeView::plain(0)),
            reply: version_mismatch_envelope(xid),
            table,
        }
    } else {
        let procedure = NlmProgram::of_code(call.proc);
        match procedure {
            NlmProgram::NLMPROC4_NULL => handled_null(xid, table),
            NlmProgram::NLMPROC4_TEST => handled_test(xid, input, table),
            NlmProgram::NLMPROC4_LOCK => handled_lock(xid, input, context, table),
            NlmProgram::NLMPROC4_CANCEL => handled_cancel(xid, input, table),
            NlmProgram::NLMPROC4_UNLOCK => handled_unlock(xid, input, context, table),
            _ => match procedure.drained_shape() {
                Some(shape) => handled_no_reply(xid, shape, input, table),
                None => Handled {
                    result: Ok(OutcomeView::plain(0)),
                    reply: proc_unavail_envelope(xid),
                    table,
                },
            },
        }
    }
}

/// An outcome with nothing to tell but the number of bytes read.
fn plain_outcome(consumed: usize) -> (r: Outcome)
    ensures
        r@ == OutcomeView::plain(consumed as int),
{
    let r = Outcome { consumed, holder_exclusive: None, granted: Vec::new() };
    assert(r@.granted =~= Seq::empty());
    r
}

/// Answers a call to the lock service: appends the reply to `output` and
/// changes `table`, as [`handled`] says.
pub fn handle_nlm(
    xid: u32,
    call: call_body,
    input: &[u8],
    output: &mut Vec<u8>,
    context: &CallContext,
    table: &mut LockTable,
) -> (r: Result<Outcome, ProtocolDecodeError>)
    ensures
        ({
            let h = handled(xid, call, input@, context@, old(table)@);
            &&& h.is_result(r)
            &&& final(output)@ == old(output)@ + h.reply
            &&& final(table)@ == h.table
        }),
        call.vers != VERSION ==> r is Ok && final(table)@ == old(table)@ && final(output)@ == old(
            output,
        )@ + version_mismatch_envelope(xid),
        old(table)@.wf(),
        final(table)@.wf(),
{
    proof {
        use_type_invariant(&*table);
    }
    if call.vers != VERSION {
        prog_mismatch_reply_message(xid, VERSION).serialize(output);
        return Ok(plain_outcome(0));
    }
    let prog = NlmProgram::from_u32(call.proc);
    let r = match prog {
        NlmProgram::NLMPROC4_NULL => nlmproc4_null(xid, input, output),
        NlmProgram::NLMPROC4_TEST => nlmproc4_test(xid, input, output, table),
        NlmProgram::NLMPROC4_LOCK => nlmproc4_lock(xid, input, output, context, table),
        NlmProgram::NLMPROC4_CANCEL => nlmproc4_cancel(xid, input, output, table),
        NlmProgram::NLMPROC4_UNLOCK => nlmproc4_unlock(xid, input, output, context, table),
        _ => {
            let consumed: usize = match prog.argument_to_drain() {
                Some(shape) => match drain_argument(shape, input) {
                    Ok(end) => end,
                    Err(e) => {
                        assert(output@ =~= old(output)@ + Seq::<u8>::empty());
                        return Err(e);
                    },
                },
                None => 0,
            };
            proc_unavail_reply_message(xid).serialize(output);
            Ok(plain_outcome(consumed))
        },
    };
    proof {
        use_type_invariant(&*table);
    }
    r
}

/// Reads an argument of the given shape to its end and tells where that is.
pub fn drain_argument(shape: ArgumentShape, input: &[u8]) -> (r: Result<usize, ProtocolDecodeError>)
    ensures
        match drained(shape, input@) {
            Ok(end) => r matches Ok(n) && n == end,
            Err(e) => r matches Err(x) && x == e,
        },
{
    proof {
        TestArgsView::lemma_decode_bounds(input@, 0);
        LockArgsView::lemma_decode_bounds(input@, 0);
        CancArgsView::lemma_decode_bounds(input@, 0);
        UnlockArgsView::lemma_decode_bounds(input@, 0);
        TestResView::lemma_decode_bounds(input@, 0);
        ResView::lemma_decode_bounds(input@, 0);
    }
    match shape {
        ArgumentShape::TestArgs => match nlm_testargs::deserialize(input, 0) {
            Ok((_, end)) => Ok(end),
            Err(e) => Err(e),
        },
        ArgumentShape::LockArgs => match nlm_lockargs::deserialize(input, 0) {
            Ok((_, end)) => Ok(end),
            Err(e) => Err(e),
        },
        ArgumentShape::CancArgs => match nlm_cancargs::deserialize(input, 0) {
            Ok((_, end)) => Ok(end),
            Err(e) => Err(e),
        },
        ArgumentShape::UnlockArgs => match nlm_unlockargs::deserialize(input, 0) {
            Ok((_, end)) => Ok(end),
            Err(e) => Err(e),
        },
        ArgumentShape::TestRes => match nlm_testres::deserialize(input, 0) {
            Ok((_, end)) => Ok(end),
            Err(e) => Err(e),
        },
        ArgumentShape::Res => match nlm_res::deserialize(input, 0) {
            Ok((_, end)) => Ok(end),
            Err(e) => Err(e),
        },
    }
}

/// NULL: reads nothing and says that the call succeeded.
pub fn nlmproc4_null(xid: u32, _input: &[u8], output: &mut Vec<u8>) -> (r: Result<
    Outcome,
    ProtocolDecodeError,
>)
    ensures
        r matches Ok(o) && o@ == OutcomeView::plain(0),
        final(output)@ == old(output)@ + success_envelope(xid),
{
    make_success_reply(xid).serialize(output);
    Ok(plain_outcome(0))
}

/// TEST: tells whether the lock asked about could be granted, and changes
/// nothing.
pub fn nlmproc4_test(xid: u32, input: &[u8], output: &mut Vec<u8>, table: &LockTable) -> (r: Result<
    Outcome,
    ProtocolDecodeError,
>)
    ensures
        ({
            let h = handled_test(xid, input@, table@);
            &&& h.is_result(r)
            &&& final(output)@ == old(output)@ + h.reply
        }),
{
    proof {
        TestArgsView::lemma_decode_bounds(input@, 0);
    }
    let (args, end) = match nlm_testargs::deserialize(input, 0) {
        Ok(v) => v,
        Err(e) => {
            assert(output@ =~= old(output)@ + Seq::<u8>::empty());
            return Err(e);
        },
    };
    let verdict = table.test(&args.alock, args.exclusive);
    make_success_reply(xid).serialize(output);
    let res = nlm_testres { cookie: args.cookie, stat: verdict.stat };
    res.serialize(output);
    let outcome = Outcome {
        consumed: end,
        holder_exclusive: verdict.holder_exclusive,
        granted: Vec::new(),
    };
    assert(outcome@.granted =~= Seq::empty());
    assert(output@ =~= old(output)@ + handled_test(xid, input@, table@).reply);
    Ok(outcome)
}

/// LOCK: grants, denies, refuses or queues the lock asked for.
pub fn nlmproc4_lock(
    xid: u32,
    input: &[u8],
    output: &mut Vec<u8>,
    context: &CallContext,
    table: &mut LockTable,
) -> (r: Result<Outcome, ProtocolDecodeError>)
    ensures
        ({
            let h = handled_lock(xid, input@, context@, old(table)@);
            &&& h.is_result(r)
            &&& final(output)@ == old(output)@ + h.reply
            &&& final(table)@ == h.table
        }),
{
    proof {
        LockArgsView::lemma_decode_bounds(input@, 0);
    }
    let (args, end) = match nlm_lockargs::deserialize(input, 0) {
        Ok(v) => v,
        Err(e) => {
            assert(output@ =~= old(output)@ + Seq::<u8>::empty());
            return Err(e);
        },
    };
    let stat = table.acquire(&args, context);
    make_success_reply(xid).serialize(output);
    let res = nlm_res { cookie: args.cookie, stat };
    res.serialize(output);
    assert(output@ =~= old(output)@ + handled_lock(xid, input@, context@, old(table)@).reply);
    Ok(plain_outcome(end))
}

/// CANCEL: withdraws a request that is still waiting.
pub fn nlmproc4_cancel(xid: u32, input: &[u8], output: &mut Vec<u8>, table: &mut LockTable) -> (r:
    Result<Outcome, ProtocolDecodeError>)
    ensures
        ({
            let h = handled_cancel(xid, input@, old(table)@);
            &&& h.is_result(r)
            &&& final(output)@ == old(output)@ + h.reply
            &&& final(table)@ == h.table
        }),
{
    proof {
        CancArgsView::lemma_decode_bounds(input@, 0);
    }
    let (args, end) = match nlm_cancargs::deserialize(input, 0) {
        Ok(v) => v,
        Err(e) => {
            assert(output@ =~= old(output)@ + Seq::<u8>::empty());
            return Err(e);
        },
    };
    let stat = table.cancel(&args.alock);
    make_success_reply(xid).serialize(output);
    let res = nlm_res { cookie: args.cookie, stat };
    res.serialize(output);
    assert(output@ =~= old(output)@ + handled_cancel(xid, input@, old(table)@).reply);
    Ok(plain_outcome(end))
}

/// UNLOCK: gives a lock up, and lets through the requests that waited for it.
pub fn nlmproc4_unlock(
    xid: u32,
    input: &[u8],
    output: &mut Vec<u8>,
    context: &CallContext,
    table: &mut LockTable,
) -> (r: Result<Outcome, ProtocolDecodeError>)
    ensures
        ({
            let h = handled_unlock(xid, input@, context@, old(table)@);
            &&& h.is_result(r)
            &&& final(output)@ == old(output)@ + h.reply
            &&& final(table)@ == h.table
        }),
{
    proof {
        UnlockArgsView::lemma_decode_bounds(input@, 0);
    }
    let (args, end) = match nlm_unlockargs::deserialize(input, 0) {
        Ok(v) => v,
        Err(e) => {
            assert(output@ =~= old(output)@ + Seq::<u8>::empty());
            return Err(e);
        },
    };
    let granted = table.release(&args.alock, &context.server);
    make_success_reply(xid).serialize(output);
    let res = nlm_res { cookie: args.cookie, stat: nlm4_stats::NLM4_GRANTED };
    res.serialize(output);
    assert(output@ =~= old(output)@ + handled_unlock(xid, input@, context@, old(table)@).reply);
    Ok(Outcome { consumed: end, holder_exclusive: None, granted })
}

} // verus!
