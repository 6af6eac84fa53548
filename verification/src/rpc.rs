//! The part of the remote procedure call envelope that the lock service reads
//! and writes: the numbers that select a procedure, and the three accepted
//! replies that can go ahead of a result record.
#![allow(non_camel_case_types)]

use crate::xdr::{encode_opaque, encode_u32, put_opaque, put_u32};
use vstd::prelude::*;

verus! {

/// The numbers of a call that select what is to be done.
#[derive(Clone, Copy, Debug, PartialEq, Eq, Structural)]
pub struct call_body {
    /// The version of the remote procedure call protocol itself.
    pub rpcvers: u32,
    /// The program that is called.
    pub prog: u32,
    /// The version of that program.
    pub vers: u32,
    /// The procedure of that program.
    pub proc: u32,
}

/// How an accepted call was answered.
#[derive(Clone, Copy, Debug, PartialEq, Eq, Structural)]
pub enum ReplyStatus {
    /// The procedure was carried out; its result record follows.
    Success,
    /// The program is not served in the version asked for; `low` and `high`
    /// bound the versions that are.
    ProgMismatch { low: u32, high: u32 },
    /// The program has no such procedure.
    ProcUnavail,
}

/// The envelope of a reply to the call that carried `xid`.
#[derive(Clone, Copy, Debug, PartialEq, Eq, Structural)]
pub struct ReplyEnvelope {
    pub xid: u32,
    pub status: ReplyStatus,
}

impl ReplyStatus {
    /// The number that stands for this status on the wire.
    pub open spec fn code(self) -> u32 {
        match self {
            ReplyStatus::Success => 0,
            ReplyStatus::ProgMismatch { .. } => 2,
            ReplyStatus::ProcUnavail => 3,
        }
    }

    /// The status number and, for a version mismatch, the two bounds.
    pub open spec fn encoding(self) -> Seq<u8> {
        match self {
            ReplyStatus::ProgMismatch { low, high } => encode_u32(self.code()) + encode_u32(low)
                + encode_u32(high),
            _ => encode_u32(self.code()),
        }
    }
}

impl ReplyEnvelope {
    /// The call's identifier, the mark of a reply (1), the mark of an accepted
    /// call (0), an empty verifier (flavor 0 and no body), and the status.
    pub open spec fn encoding(self) -> Seq<u8> {
        encode_u32(self.xid) + encode_u32(1) + encode_u32(0) + encode_u32(0) + encode_opaque(
            Seq::empty(),
        ) + self.status.encoding()
    }

    /// Appends the encoding of this envelope to `dest`.
    pub fn serialize(&self, dest: &mut Vec<u8>)
        ensures
            final(dest)@ == old(dest)@ + self.encoding(),
    {
        let no_body: Vec<u8> = Vec::new();
        put_u32(dest, self.xid);
        put_u32(dest, 1);
        put_u32(dest, 0);
        put_u32(dest, 0);
        put_opaque(dest, &no_body);
        let ghost head = dest@;
        match self.status {
            ReplyStatus::Success => {
                put_u32(dest, 0);
            },
            ReplyStatus::ProgMismatch { low, high } => {
                put_u32(dest, 2);
                put_u32(dest, low);
                put_u32(dest, high);
                assert(dest@ =~= head + self.status.encoding());
            },
            ReplyStatus::ProcUnavail => {
                put_u32(dest, 3);
            },
        }
        assert(dest@ =~= old(dest)@ + self.encoding());
    }
}

/// The envelope that says the call succeeded.
pub fn make_success_reply(xid: u32) -> (r: ReplyEnvelope)
    ensures
        r == (ReplyEnvelope { xid, status: ReplyStatus::Success }),
{
    ReplyEnvelope { xid, status: ReplyStatus::Success }
}

/// The envelope that says the program is served in version `accepted_ver` only.
pub fn prog_mismatch_reply_message(xid: u32, accepted_ver: u32) -> (r: ReplyEnvelope)
    ensures
        r == (ReplyEnvelope {
            xid,
            status: ReplyStatus::ProgMismatch { low: accepted_ver, high: accepted_ver },
        }),
{
    ReplyEnvelope {
        xid,
        status: ReplyStatus::ProgMismatch { low: accepted_ver, high: accepted_ver },
    }
}

/// The envelope that says the program has no such procedure.
pub fn proc_unavail_reply_message(xid: u32) -> (r: ReplyEnvelope)
    ensures
        r == (ReplyEnvelope { xid, status: ReplyStatus::ProcUnavail }),
{
    ReplyEnvelope { xid, status: ReplyStatus::ProcUnavail }
}

} // verus!
