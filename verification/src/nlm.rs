//! The records of version 4 of the Network Lock Manager protocol and their
//! wire encodings.
//!
//! Each record has a view, a plain mathematical value, over which its encoding
//! and its decoder are specified. A record is the concatenation of its fields
//! in declared order.
#![allow(non_camel_case_types)]

use crate::xdr::{
    decode_bool, decode_i32, decode_opaque, decode_u32, decode_u64, decoded, encode_bool,
    encode_i32, encode_opaque, encode_u32, encode_u64, get_bool, get_i32, get_opaque, get_u32,
    get_u64, holds_at, lemma_decode_bool, lemma_decode_i32, lemma_decode_opaque,
    lemma_decode_opaque_end, lemma_decode_u32, lemma_decode_u64, lemma_holds_at_split, put_bool,
    put_i32, put_opaque, put_u32, put_u64, Decoded, ProtocolDecodeError,
};
use vstd::prelude::*;

verus! {

/// Protocol number of TCP/IP.
pub const IPPROTO_TCP: u32 = 6;

/// Protocol number of UDP/IP.
pub const IPPROTO_UDP: u32 = 17;

/// The program number of the lock manager.
pub const PROGRAM: u32 = 100021;

/// The one protocol version that is served.
pub const VERSION: u32 = 4;

// ---------------------------------------------------------------------------
// nlm4_stats
// ---------------------------------------------------------------------------

/// The outcome of a lock procedure.
#[derive(Copy, Clone, Debug, PartialEq, Eq, Structural)]
pub enum nlm4_stats {
    /// The call completed successfully.
    NLM4_GRANTED,
    /// The call failed. For attempts to set a lock, a later retry may succeed.
    NLM4_DENIED,
    /// The call failed because the server could not allocate the necessary resources.
    NLM4_DENIED_NOLOCKS,
    /// A blocking request cannot be granted immediately. The server will issue
    /// a GRANTED callback to the client when the lock is granted.
    NLM4_BLOCKED,
    /// The call failed because the server is reestablishing old locks after a
    /// reboot and is not yet ready to resume normal service.
    NLM4_DENIED_GRACE_PERIOD,
    /// The request could not be granted and blocking would cause a deadlock.
    NLM4_DEADLCK,
    /// The call failed because the remote file system is read-only.
    NLM4_ROFS,
    /// The call failed because it uses an invalid file handle.
    NLM4_STALE_FH,
    /// The call failed because it specified a length or offset that exceeds
    /// the range supported by the server.
    NLM4_FBIG,
    /// The call failed for some reason not already listed. The client should
    /// take this status as a strong hint not to retry the request.
    NLM4_FAILED,
}

impl View for nlm4_stats {
    type V = nlm4_stats;

    open spec fn view(&self) -> nlm4_stats {
        *self
    }
}

impl nlm4_stats {
    /// The number that stands for this status on the wire.
    pub open spec fn code(self) -> u32 {
        match self {
            nlm4_stats::NLM4_GRANTED => 0,
            nlm4_stats::NLM4_DENIED => 1,
            nlm4_stats::NLM4_DENIED_NOLOCKS => 2,
            nlm4_stats::NLM4_BLOCKED => 3,
            nlm4_stats::NLM4_DENIED_GRACE_PERIOD => 4,
            nlm4_stats::NLM4_DEADLCK => 5,
            nlm4_stats::NLM4_ROFS => 6,
            nlm4_stats::NLM4_STALE_FH => 7,
            nlm4_stats::NLM4_FBIG => 8,
            nlm4_stats::NLM4_FAILED => 9,
        }
    }

    /// The status that `n` stands for, if any.
    pub open spec fn of_code(n: u32) -> Option<nlm4_stats> {
        if n == 0 {
            Some(nlm4_stats::NLM4_GRANTED)
        } else if n == 1 {
            Some(nlm4_stats::NLM4_DENIED)
        } else if n == 2 {
            Some(nlm4_stats::NLM4_DENIED_NOLOCKS)
        } else if n == 3 {
            Some(nlm4_stats::NLM4_BLOCKED)
        } else if n == 4 {
            Some(nlm4_stats::NLM4_DENIED_GRACE_PERIOD)
        } else if n == 5 {
            Some(nlm4_stats::NLM4_DEADLCK)
        } else if n == 6 {
            Some(nlm4_stats::NLM4_ROFS)
        } else if n == 7 {
            Some(nlm4_stats::NLM4_STALE_FH)
        } else if n == 8 {
            Some(nlm4_stats::NLM4_FBIG)
        } else if n == 9 {
            Some(nlm4_stats::NLM4_FAILED)
        } else {
            None
        }
    }

    pub open spec fn encoding(self) -> Seq<u8> {
        encode_u32(self.code())
    }

    /// A status is read as a 32-bit integer, which must name a variant.
    pub open spec fn decode(s: Seq<u8>, at: int) -> Decoded<nlm4_stats> {
        match decode_u32(s, at) {
            Ok((n, end)) => match Self::of_code(n) {
                Some(stat) => Ok((stat, end)),
                None => Err(ProtocolDecodeError::UnknownDiscriminant(n)),
            },
            Err(e) => Err(e),
        }
    }

    /// The numbers 0 to 9 and the ten statuses stand for each other.
    pub proof fn lemma_codes(self)
        ensures
            self.code() <= 9,
            Self::of_code(self.code()) == Some(self),
    {
    }

    pub proof fn lemma_decode_encoding(s: Seq<u8>, at: int, stat: nlm4_stats)
        requires
            holds_at(s, at, stat.encoding()),
        ensures
            Self::decode(s, at) == Ok::<(nlm4_stats, int), ProtocolDecodeError>((stat, at + 4)),
    {
        lemma_decode_u32(s, at, stat.code());
        stat.lemma_codes();
    }

    /// The number that stands for this status on the wire.
    pub fn to_u32(&self) -> (n: u32)
        ensures
            n == self.code(),
    {
        match self {
            nlm4_stats::NLM4_GRANTED => 0,
            nlm4_stats::NLM4_DENIED => 1,
            nlm4_stats::NLM4_DENIED_NOLOCKS => 2,
            nlm4_stats::NLM4_BLOCKED => 3,
            nlm4_stats::NLM4_DENIED_GRACE_PERIOD => 4,
            nlm4_stats::NLM4_DEADLCK => 5,
            nlm4_stats::NLM4_ROFS => 6,
            nlm4_stats::NLM4_STALE_FH => 7,
            nlm4_stats::NLM4_FBIG => 8,
            nlm4_stats::NLM4_FAILED => 9,
        }
    }

    /// The status that `n` stands for; `None` where it stands for none.
    pub fn from_u32(n: u32) -> (r: Option<nlm4_stats>)
        ensures
            r == Self::of_code(n),
    {
        match n {
            0 => Some(nlm4_stats::NLM4_GRANTED),
            1 => Some(nlm4_stats::NLM4_DENIED),
            2 => Some(nlm4_stats::NLM4_DENIED_NOLOCKS),
            3 => Some(nlm4_stats::NLM4_BLOCKED),
            4 => Some(nlm4_stats::NLM4_DENIED_GRACE_PERIOD),
            5 => Some(nlm4_stats::NLM4_DEADLCK),
            6 => Some(nlm4_stats::NLM4_ROFS),
            7 => Some(nlm4_stats::NLM4_STALE_FH),
            8 => Some(nlm4_stats::NLM4_FBIG),
            9 => Some(nlm4_stats::NLM4_FAILED),
            _ => None,
        }
    }

    /// Appends the encoding of this status to `dest`.
    pub fn serialize(&self, dest: &mut Vec<u8>)
        ensures
            final(dest)@ == old(dest)@ + self.encoding(),
    {
        put_u32(dest, self.to_u32());
    }

    /// Reads a status at `at`.
    pub fn deserialize(src: &[u8], at: usize) -> (r: Result<
        (nlm4_stats, usize),
        ProtocolDecodeError,
    >)
        ensures
            decoded(r, Self::decode(src@, at as int)),
    {
        let (n, end) = match get_u32(src, at) {
            Ok(v) => v,
            Err(e) => return Err(e),
        };
        match Self::from_u32(n) {
            Some(stat) => Ok((stat, end)),
            None => Err(ProtocolDecodeError::UnknownDiscriminant(n)),
        }
    }
}

// ---------------------------------------------------------------------------
// nlm4_lock
// ---------------------------------------------------------------------------

/// What uniquely specifies a lock: the host making the call, the file, the
/// owner on that host, and the bytes of the file that are locked.
#[derive(Debug, PartialEq, Eq)]
pub struct nlm4_lock {
    pub caller_name: Vec<u8>,
    pub fh: Vec<u8>,
    pub oh: Vec<u8>,
    pub svid: i32,
    pub l_offset: u64,
    pub l_len: u64,
}

/// A lock descriptor as a mathematical value.
pub struct LockView {
    pub caller_name: Seq<u8>,
    pub fh: Seq<u8>,
    pub oh: Seq<u8>,
    pub svid: i32,
    pub l_offset: u64,
    pub l_len: u64,
}

impl View for nlm4_lock {
    type V = LockView;

    open spec fn view(&self) -> LockView {
        LockView {
            caller_name: self.caller_name@,
            fh: self.fh@,
            oh: self.oh@,
            svid: self.svid,
            l_offset: self.l_offset,
            l_len: self.l_len,
        }
    }
}

impl LockView {
    /// The descriptor with empty strings and zeros.
    pub open spec fn empty() -> LockView {
        LockView {
            caller_name: Seq::empty(),
            fh: Seq::empty(),
            oh: Seq::empty(),
            svid: 0,
            l_offset: 0,
            l_len: 0,
        }
    }

    /// Each opaque field has a length that its 32-bit prefix can hold.
    pub open spec fn wf(self) -> bool {
        &&& self.caller_name.len() <= u32::MAX
        &&& self.fh.len() <= u32::MAX
        &&& self.oh.len() <= u32::MAX
    }

    pub open spec fn encoding(self) -> Seq<u8> {
        encode_opaque(self.caller_name) + encode_opaque(self.fh) + encode_opaque(self.oh)
            + encode_i32(self.svid) + encode_u64(self.l_offset) + encode_u64(self.l_len)
    }

    /// The length of the shortest encoding.
    pub open spec fn min_len() -> int {
        32
    }

    pub open spec fn decode(s: Seq<u8>, at: int) -> Decoded<LockView> {
        match decode_opaque(s, at) {
            Err(e) => Err(e),
            Ok((caller_name, at1)) => match decode_opaque(s, at1) {
                Err(e) => Err(e),
                Ok((fh, at2)) => match decode_opaque(s, at2) {
                    Err(e) => Err(e),
                    Ok((oh, at3)) => match decode_i32(s, at3) {
                        Err(e) => Err(e),
                        Ok((svid, at4)) => match decode_u64(s, at4) {
                            Err(e) => Err(e),
                            Ok((l_offset, at5)) => match decode_u64(s, at5) {
                                Err(e) => Err(e),
                                Ok((l_len, at6)) => Ok(
                                    (
                                        LockView { caller_name, fh, oh, svid, l_offset, l_len },
                                        at6,
                                    ),
                                ),
                            },
                        },
                    },
                },
            },
        }
    }

    pub proof fn lemma_decode_encoding(s: Seq<u8>, at: int, x: LockView)
        requires
            x.wf(),
            holds_at(s, at, x.encoding()),
        ensures
            Self::decode(s, at) == Ok::<(LockView, int), ProtocolDecodeError>(
                (x, at + x.encoding().len()),
            ),
    {
        let e1 = encode_opaque(x.caller_name);
        let e2 = encode_opaque(x.fh);
        let e3 = encode_opaque(x.oh);
        let e4 = encode_i32(x.svid);
        let e5 = encode_u64(x.l_offset);
        let e6 = encode_u64(x.l_len);
        lemma_holds_at_split(s, at, e1 + e2 + e3 + e4 + e5, e6);
        lemma_holds_at_split(s, at, e1 + e2 + e3 + e4, e5);
        lemma_holds_at_split(s, at, e1 + e2 + e3, e4);
        lemma_holds_at_split(s, at, e1 + e2, e3);
        lemma_holds_at_split(s, at, e1, e2);
        lemma_decode_opaque(s, at, x.caller_name);
        let at1 = at + e1.len();
        lemma_decode_opaque(s, at1, x.fh);
        let at2 = at1 + e2.len();
        lemma_decode_opaque(s, at2, x.oh);
        let at3 = at2 + e3.len();
        lemma_decode_i32(s, at3, x.svid);
        lemma_decode_u64(s, at3 + 4, x.l_offset);
        lemma_decode_u64(s, at3 + 12, x.l_len);
    }

    /// What was decoded can be encoded again, and the decoder stayed within
    /// its input; it fails only for want of bytes.
    pub proof fn lemma_decode_bounds(s: Seq<u8>, at: int)
        ensures
            match Self::decode(s, at) {
                Ok((x, end)) => 0 <= at && x.wf() && at + Self::min_len() <= end <= s.len(),
                Err(e) => e == ProtocolDecodeError::Truncated,
            },
    {
        lemma_decode_opaque_end(s, at);
        if let Ok((caller_name, at1)) = decode_opaque(s, at) {
            lemma_decode_opaque_end(s, at1);
            if let Ok((fh, at2)) = decode_opaque(s, at1) {
                lemma_decode_opaque_end(s, at2);
            }
        }
    }
}

impl Clone for nlm4_lock {
    fn clone(&self) -> (r: Self)
        ensures
            r@ == self@,
    {
        nlm4_lock {
            caller_name: self.caller_name.clone(),
            fh: self.fh.clone(),
            oh: self.oh.clone(),
            svid: self.svid,
            l_offset: self.l_offset,
            l_len: self.l_len,
        }
    }
}

impl Default for nlm4_lock {
    fn default() -> (r: Self)
        ensures
            r@ == LockView::empty(),
    {
        nlm4_lock {
            caller_name: Vec::new(),
            fh: Vec::new(),
            oh: Vec::new(),
            svid: 0,
            l_offset: 0,
            l_len: 0,
        }
    }
}

impl nlm4_lock {
    /// Appends the encoding of this descriptor to `dest`.
    pub fn serialize(&self, dest: &mut Vec<u8>)
        requires
            self@.wf(),
        ensures
            final(dest)@ == old(dest)@ + self@.encoding(),
    {
        put_opaque(dest, &self.caller_name);
        put_opaque(dest, &self.fh);
        put_opaque(dest, &self.oh);
        put_i32(dest, self.svid);
        put_u64(dest, self.l_offset);
        put_u64(dest, self.l_len);
        assert(dest@ =~= old(dest)@ + self@.encoding());
    }

    /// Reads a descriptor at `at`.
    pub fn deserialize(src: &[u8], at: usize) -> (r: Result<
        (nlm4_lock, usize),
        ProtocolDecodeError,
    >)
        ensures
            decoded(r, LockView::decode(src@, at as int)),
    {
        let (caller_name, at1) = match get_opaque(src, at) {
            Ok(v) => v,
            Err(e) => return Err(e),
        };
        let (fh, at2) = match get_opaque(src, at1) {
            Ok(v) => v,
            Err(e) => return Err(e),
        };
        let (oh, at3) = match get_opaque(src, at2) {
            Ok(v) => v,
            Err(e) => return Err(e),
        };
        let (svid, at4) = match get_i32(src, at3) {
            Ok(v) => v,
            Err(e) => return Err(e),
        };
        let (l_offset, at5) = match get_u64(src, at4) {
            Ok(v) => v,
            Err(e) => return Err(e),
        };
        let (l_len, at6) = match get_u64(src, at5) {
            Ok(v) => v,
            Err(e) => return Err(e),
        };
        Ok((nlm4_lock { caller_name, fh, oh, svid, l_offset, l_len }, at6))
    }
}

// ---------------------------------------------------------------------------
// nlm_testargs
// ---------------------------------------------------------------------------

/// What is needed to test a lock; also what a GRANTED callback carries.
#[derive(Debug, PartialEq, Eq)]
pub struct nlm_testargs {
    pub cookie: Vec<u8>,
    pub exclusive: bool,
    pub alock: nlm4_lock,
}

pub struct TestArgsView {
    pub cookie: Seq<u8>,
    pub exclusive: bool,
    pub alock: LockView,
}

impl View for nlm_testargs {
    type V = TestArgsView;

    open spec fn view(&self) -> TestArgsView {
        TestArgsView { cookie: self.cookie@, exclusive: self.exclusive, alock: self.alock@ }
    }
}

impl TestArgsView {
    pub open spec fn wf(self) -> bool {
        self.cookie.len() <= u32::MAX && self.alock.wf()
    }

    pub open spec fn encoding(self) -> Seq<u8> {
        encode_opaque(self.cookie) + encode_bool(self.exclusive) + self.alock.encoding()
    }

    /// The length of the shortest encoding.
    pub open spec fn min_len() -> int {
        40
    }

    pub open spec fn decode(s: Seq<u8>, at: int) -> Decoded<TestArgsView> {
        match decode_opaque(s, at) {
            Err(e) => Err(e),
            Ok((cookie, at1)) => match decode_bool(s, at1) {
                Err(e) => Err(e),
                Ok((exclusive, at2)) => match LockView::decode(s, at2) {
                    Err(e) => Err(e),
                    Ok((alock, at3)) => Ok((TestArgsView { cookie, exclusive, alock }, at3)),
                },
            },
        }
    }

    pub proof fn lemma_decode_encoding(s: Seq<u8>, at: int, x: TestArgsView)
        requires
            x.wf(),
            holds_at(s, at, x.encoding()),
        ensures
            Self::decode(s, at) == Ok::<(TestArgsView, int), ProtocolDecodeError>(
                (x, at + x.encoding().len()),
            ),
    {
        let e1 = encode_opaque(x.cookie);
        let e2 = encode_bool(x.exclusive);
        let e3 = x.alock.encoding();
        lemma_holds_at_split(s, at, e1 + e2, e3);
        lemma_holds_at_split(s, at, e1, e2);
        lemma_decode_opaque(s, at, x.cookie);
        lemma_decode_bool(s, at + e1.len(), x.exclusive);
        LockView::lemma_decode_encoding(s, at + e1.len() + 4, x.alock);
    }

    /// What was decoded can be encoded again, and the decoder stayed within
    /// its input; it fails only for want of bytes.
    pub proof fn lemma_decode_bounds(s: Seq<u8>, at: int)
        ensures
            match Self::decode(s, at) {
                Ok((x, end)) => 0 <= at && x.wf() && at + Self::min_len() <= end <= s.len(),
                Err(e) => e == ProtocolDecodeError::Truncated,
            },
    {
        lemma_decode_opaque_end(s, at);
        if let Ok((cookie, at1)) = decode_opaque(s, at) {
            if let Ok((exclusive, at2)) = decode_bool(s, at1) {
                LockView::lemma_decode_bounds(s, at2);
            }
        }
    }
}

impl Clone for nlm_testargs {
    fn clone(&self) -> (r: Self)
        ensures
            r@ == self@,
    {
        nlm_testargs {
            cookie: self.cookie.clone(),
            exclusive: self.exclusive,
            alock: self.alock.clone(),
        }
    }
}

impl Default for nlm_testargs {
    fn default() -> (r: Self)
        ensures
            r@ == (TestArgsView {
                cookie: Seq::empty(),
                exclusive: false,
                alock: LockView::empty(),
            }),
    {
        nlm_testargs { cookie: Vec::new(), exclusive: false, alock: nlm4_lock::default() }
    }
}

impl nlm_testargs {
    /// Appends the encoding of this record to `dest`.
    pub fn serialize(&self, dest: &mut Vec<u8>)
        requires
            self@.wf(),
        ensures
            final(dest)@ == old(dest)@ + self@.encoding(),
    {
        put_opaque(dest, &self.cookie);
        put_bool(dest, self.exclusive);
        self.alock.serialize(dest);
        assert(dest@ =~= old(dest)@ + self@.encoding());
    }

    /// Reads a record at `at`.
    pub fn deserialize(src: &[u8], at: usize) -> (r: Result<
        (nlm_testargs, usize),
        ProtocolDecodeError,
    >)
        ensures
            decoded(r, TestArgsView::decode(src@, at as int)),
    {
        let (cookie, at1) = match get_opaque(src, at) {
            Ok(v) => v,
            Err(e) => return Err(e),
        };
        let (exclusive, at2) = match get_bool(src, at1) {
            Ok(v) => v,
            Err(e) => return Err(e),
        };
        let (alock, at3) = match nlm4_lock::deserialize(src, at2) {
            Ok(v) => v,
            Err(e) => return Err(e),
        };
        Ok((nlm_testargs { cookie, exclusive, alock }, at3))
    }
}

// ---------------------------------------------------------------------------
// nlm_testres
// ---------------------------------------------------------------------------

/// What the TEST procedure returns.
#[derive(Debug, PartialEq, Eq)]
pub struct nlm_testres {
    pub cookie: Vec<u8>,
    pub stat: nlm4_stats,
}

pub struct TestResView {
    pub cookie: Seq<u8>,
    pub stat: nlm4_stats,
}

impl View for nlm_testres {
    type V = TestResView;

    open spec fn view(&self) -> TestResView {
        TestResView { cookie: self.cookie@, stat: self.stat }
    }
}

impl TestResView {
    pub open spec fn wf(self) -> bool {
        self.cookie.len() <= u32::MAX
    }

    pub open spec fn encoding(self) -> Seq<u8> {
        encode_opaque(self.cookie) + self.stat.encoding()
    }

    /// The length of the shortest encoding.
    pub open spec fn min_len() -> int {
        8
    }

    pub open spec fn decode(s: Seq<u8>, at: int) -> Decoded<TestResView> {
        match decode_opaque(s, at) {
            Err(e) => Err(e),
            Ok((cookie, at1)) => match nlm4_stats::decode(s, at1) {
                Err(e) => Err(e),
                Ok((stat, at2)) => Ok((TestResView { cookie, stat }, at2)),
            },
        }
    }

    pub proof fn lemma_decode_encoding(s: Seq<u8>, at: int, x: TestResView)
        requires
            x.wf(),
            holds_at(s, at, x.encoding()),
        ensures
            Self::decode(s, at) == Ok::<(TestResView, int), ProtocolDecodeError>(
                (x, at + x.encoding().len()),
            ),
    {
        let e1 = encode_opaque(x.cookie);
        lemma_holds_at_split(s, at, e1, x.stat.encoding());
        lemma_decode_opaque(s, at, x.cookie);
        nlm4_stats::lemma_decode_encoding(s, at + e1.len(), x.stat);
    }

    /// What was decoded can be encoded again, and the decoder stayed within
    /// its input; on fewer bytes than the shortest record it fails for want
    /// of bytes.
    pub proof fn lemma_decode_bounds(s: Seq<u8>, at: int)
        ensures
            match Self::decode(s, at) {
                Ok((x, end)) => 0 <= at && x.wf() && at + Self::min_len() <= end <= s.len(),
                Err(e) => e == ProtocolDecodeError::Truncated || (0 <= at && at
                    + Self::min_len() <= s.len()),
            },
    {
        lemma_decode_opaque_end(s, at);
    }
}

impl Clone for nlm_testres {
    fn clone(&self) -> (r: Self)
        ensures
            r@ == self@,
    {
        nlm_testres { cookie: self.cookie.clone(), stat: self.stat }
    }
}

impl nlm_testres {
    /// Appends the encoding of this record to `dest`.
    pub fn serialize(&self, dest: &mut Vec<u8>)
        requires
            self@.wf(),
        ensures
            final(dest)@ == old(dest)@ + self@.encoding(),
    {
        put_opaque(dest, &self.cookie);
        self.stat.serialize(dest);
        assert(dest@ =~= old(dest)@ + self@.encoding());
    }

    /// Reads a record at `at`.
    pub fn deserialize(src: &[u8], at: usize) -> (r: Result<
        (nlm_testres, usize),
        ProtocolDecodeError,
    >)
        ensures
            decoded(r, TestResView::decode(src@, at as int)),
    {
        let (cookie, at1) = match get_opaque(src, at) {
            Ok(v) => v,
            Err(e) => return Err(e),
        };
        let (stat, at2) = match nlm4_stats::deserialize(src, at1) {
            Ok(v) => v,
            Err(e) => return Err(e),
        };
        Ok((nlm_testres { cookie, stat }, at2))
    }
}

// ---------------------------------------------------------------------------
// nlm_res
// ---------------------------------------------------------------------------

/// What every main lock procedure but TEST returns.
#[derive(Debug, PartialEq, Eq)]
pub struct nlm_res {
    pub cookie: Vec<u8>,
    pub stat: nlm4_stats,
}

pub struct ResView {
    pub cookie: Seq<u8>,
    pub stat: nlm4_stats,
}

impl View for nlm_res {
    type V = ResView;

    open spec fn view(&self) -> ResView {
        ResView { cookie: self.cookie@, stat: self.stat }
    }
}

impl ResView {
    pub open spec fn wf(self) -> bool {
        self.cookie.len() <= u32::MAX
    }

    pub open spec fn encoding(self) -> Seq<u8> {
        encode_opaque(self.cookie) + self.stat.encoding()
    }

    /// The length of the shortest encoding.
    pub open spec fn min_len() -> int {
        8
    }

    pub open spec fn decode(s: Seq<u8>, at: int) -> Decoded<ResView> {
        match decode_opaque(s, at) {
            Err(e) => Err(e),
            Ok((cookie, at1)) => match nlm4_stats::decode(s, at1) {
                Err(e) => Err(e),
                Ok((stat, at2)) => Ok((ResView { cookie, stat }, at2)),
            },
        }
    }

    pub proof fn lemma_decode_encoding(s: Seq<u8>, at: int, x: ResView)
        requires
            x.wf(),
            holds_at(s, at, x.encoding()),
        ensures
            Self::decode(s, at) == Ok::<(ResView, int), ProtocolDecodeError>(
                (x, at + x.encoding().len()),
            ),
    {
        let e1 = encode_opaque(x.cookie);
        lemma_holds_at_split(s, at, e1, x.stat.encoding());
        lemma_decode_opaque(s, at, x.cookie);
        nlm4_stats::lemma_decode_encoding(s, at + e1.len(), x.stat);
    }

    /// What was decoded can be encoded again, and the decoder stayed within
    /// its input; on fewer bytes than the shortest record it fails for want
    /// of bytes.
    pub proof fn lemma_decode_bounds(s: Seq<u8>, at: int)
        ensures
            match Self::decode(s, at) {
                Ok((x, end)) => 0 <= at && x.wf() && at + Self::min_len() <= end <= s.len(),
                Err(e) => e == ProtocolDecodeError::Truncated || (0 <= at && at
                    + Self::min_len() <= s.len()),
            },
    {
        lemma_decode_opaque_end(s, at);
    }
}

impl Clone for nlm_res {
    fn clone(&self) -> (r: Self)
        ensures
            r@ == self@,
    {
        nlm_res { cookie: self.cookie.clone(), stat: self.stat }
    }
}

impl nlm_res {
    /// Appends the encoding of this record to `dest`.
    pub fn serialize(&self, dest: &mut Vec<u8>)
        requires
            self@.wf(),
        ensures
            final(dest)@ == old(dest)@ + self@.encoding(),
    {
        put_opaque(dest, &self.cookie);
        self.stat.serialize(dest);
        assert(dest@ =~= old(dest)@ + self@.encoding());
    }

    /// Reads a record at `at`.
    pub fn deserialize(src: &[u8], at: usize) -> (r: Result<
        (nlm_res, usize),
        ProtocolDecodeError,
    >)
        ensures
            decoded(r, ResView::decode(src@, at as int)),
    {
        let (cookie, at1) = match get_opaque(src, at) {
            Ok(v) => v,
            Err(e) => return Err(e),
        };
        let (stat, at2) = match nlm4_stats::deserialize(src, at1) {
            Ok(v) => v,
            Err(e) => return Err(e),
        };
        Ok((nlm_res { cookie, stat }, at2))
    }
}

// ---------------------------------------------------------------------------
// nlm_lockargs
// ---------------------------------------------------------------------------

/// What is needed to request a lock. `block` is set if the client wishes to
/// wait until the lock can be granted. `reclaim` is set only when the client
/// is reestablishing a lock it held before the server restarted. `state` is
/// the state value supplied by the client's status monitor.
#[derive(Debug, PartialEq, Eq)]
pub struct nlm_lockargs {
    pub cookie: Vec<u8>,
    pub block: bool,
    pub exclusive: bool,
    pub alock: nlm4_lock,
    pub reclaim: bool,
    pub state: i32,
}

pub struct LockArgsView {
    pub cookie: Seq<u8>,
    pub block: bool,
    pub exclusive: bool,
    pub alock: LockView,
    pub reclaim: bool,
    pub state: i32,
}

impl View for nlm_lockargs {
    type V = LockArgsView;

    open spec fn view(&self) -> LockArgsView {
        LockArgsView {
            cookie: self.cookie@,
            block: self.block,
            exclusive: self.exclusive,
            alock: self.alock@,
            reclaim: self.reclaim,
            state: self.state,
        }
    }
}

impl LockArgsView {
    pub open spec fn wf(self) -> bool {
        self.cookie.len() <= u32::MAX && self.alock.wf()
    }

    pub open spec fn encoding(self) -> Seq<u8> {
        encode_opaque(self.cookie) + encode_bool(self.block) + encode_bool(self.exclusive)
            + self.alock.encoding() + encode_bool(self.reclaim) + encode_i32(self.state)
    }

    /// The length of the shortest encoding.
    pub open spec fn min_len() -> int {
        52
    }

    pub open spec fn decode(s: Seq<u8>, at: int) -> Decoded<LockArgsView> {
        match decode_opaque(s, at) {
            Err(e) => Err(e),
            Ok((cookie, at1)) => match decode_bool(s, at1) {
                Err(e) => Err(e),
                Ok((block, at2)) => match decode_bool(s, at2) {
                    Err(e) => Err(e),
                    Ok((exclusive, at3)) => match LockView::decode(s, at3) {
                        Err(e) => Err(e),
                        Ok((alock, at4)) => match decode_bool(s, at4) {
                            Err(e) => Err(e),
                            Ok((reclaim, at5)) => match decode_i32(s, at5) {
                                Err(e) => Err(e),
                                Ok((state, at6)) => Ok(
                                    (
                                        LockArgsView {
                                            cookie,
                                            block,
                                            exclusive,
                                            alock,
                                            reclaim,
                                            state,
                                        },
                                        at6,
                                    ),
                                ),
                            },
                        },
                    },
                },
            },
        }
    }

    pub proof fn lemma_decode_encoding(s: Seq<u8>, at: int, x: LockArgsView)
        requires
            x.wf(),
            holds_at(s, at, x.encoding()),
        ensures
            Self::decode(s, at) == Ok::<(LockArgsView, int), ProtocolDecodeError>(
                (x, at + x.encoding().len()),
            ),
    {
        let e1 = encode_opaque(x.cookie);
        let e2 = encode_bool(x.block);
        let e3 = encode_bool(x.exclusive);
        let e4 = x.alock.encoding();
        let e5 = encode_bool(x.reclaim);
        let e6 = encode_i32(x.state);
        lemma_holds_at_split(s, at, e1 + e2 + e3 + e4 + e5, e6);
        lemma_holds_at_split(s, at, e1 + e2 + e3 + e4, e5);
        lemma_holds_at_split(s, at, e1 + e2 + e3, e4);
        lemma_holds_at_split(s, at, e1 + e2, e3);
        lemma_holds_at_split(s, at, e1, e2);
        lemma_decode_opaque(s, at, x.cookie);
        let at1 = at + e1.len();
        lemma_decode_bool(s, at1, x.block);
        lemma_decode_bool(s, at1 + 4, x.exclusive);
        LockView::lemma_decode_encoding(s, at1 + 8, x.alock);
        let at4 = at1 + 8 + e4.len();
        lemma_decode_bool(s, at4, x.reclaim);
        lemma_decode_i32(s, at4 + 4, x.state);
    }

    /// What was decoded can be encoded again, and the decoder stayed within
    /// its input; it fails only for want of bytes.
    pub proof fn lemma_decode_bounds(s: Seq<u8>, at: int)
        ensures
            match Self::decode(s, at) {
                Ok((x, end)) => 0 <= at && x.wf() && at + Self::min_len() <= end <= s.len(),
                Err(e) => e == ProtocolDecodeError::Truncated,
            },
    {
        lemma_decode_opaque_end(s, at);
        if let Ok((cookie, at1)) = decode_opaque(s, at) {
            if let Ok((block, at2)) = decode_bool(s, at1) {
                if let Ok((exclusive, at3)) = decode_bool(s, at2) {
                    LockView::lemma_decode_bounds(s, at3);
                }
            }
        }
    }
}

impl Clone for nlm_lockargs {
    fn clone(&self) -> (r: Self)
        ensures
            r@ == self@,
    {
        nlm_lockargs {
            cookie: self.cookie.clone(),
            block: self.block,
            exclusive: self.exclusive,
            alock: self.alock.clone(),
            reclaim: self.reclaim,
            state: self.state,
        }
    }
}

impl Default for nlm_lockargs {
    fn default() -> (r: Self)
        ensures
            r@ == (LockArgsView {
                cookie: Seq::empty(),
                block: false,
                exclusive: false,
                alock: LockView::empty(),
                reclaim: false,
                state: 0,
            }),
    {
        nlm_lockargs {
            cookie: Vec::new(),
            block: false,
            exclusive: false,
            alock: nlm4_lock::default(),
            reclaim: false,
            state: 0,
        }
    }
}

impl nlm_lockargs {
    /// Appends the encoding of this record to `dest`.
    pub fn serialize(&self, dest: &mut Vec<u8>)
        requires
            self@.wf(),
        ensures
            final(dest)@ == old(dest)@ + self@.encoding(),
    {
        put_opaque(dest, &self.cookie);
        put_bool(dest, self.block);
        put_bool(dest, self.exclusive);
        self.alock.serialize(dest);
        put_bool(dest, self.reclaim);
        put_i32(dest, self.state);
        assert(dest@ =~= old(dest)@ + self@.encoding());
    }

    /// Reads a record at `at`.
    pub fn deserialize(src: &[u8], at: usize) -> (r: Result<
        (nlm_lockargs, usize),
        ProtocolDecodeError,
    >)
        ensures
            decoded(r, LockArgsView::decode(src@, at as int)),
    {
        let (cookie, at1) = match get_opaque(src, at) {
            Ok(v) => v,
            Err(e) => return Err(e),
        };
        let (block, at2) = match get_bool(src, at1) {
            Ok(v) => v,
            Err(e) => return Err(e),
        };
        let (exclusive, at3) = match get_bool(src, at2) {
            Ok(v) => v,
            Err(e) => return Err(e),
        };
        let (alock, at4) = match nlm4_lock::deserialize(src, at3) {
            Ok(v) => v,
            Err(e) => return Err(e),
        };
        let (reclaim, at5) = match get_bool(src, at4) {
            Ok(v) => v,
            Err(e) => return Err(e),
        };
        let (state, at6) = match get_i32(src, at5) {
            Ok(v) => v,
            Err(e) => return Err(e),
        };
        Ok((nlm_lockargs { cookie, block, exclusive, alock, reclaim, state }, at6))
    }
}

// ---------------------------------------------------------------------------
// nlm_cancargs
// ---------------------------------------------------------------------------

/// What is needed to cancel an outstanding lock request. It must match the
/// request to be cancelled.
#[derive(Debug, PartialEq, Eq)]
pub struct nlm_cancargs {
    pub cookie: Vec<u8>,
    pub block: bool,
    pub exclusive: bool,
    pub alock: nlm4_lock,
}

pub struct CancArgsView {
    pub cookie: Seq<u8>,
    pub block: bool,
    pub exclusive: bool,
    pub alock: LockView,
}

impl View for nlm_cancargs {
    type V = CancArgsView;

    open spec fn view(&self) -> CancArgsView {
        CancArgsView {
            cookie: self.cookie@,
            block: self.block,
            exclusive: self.exclusive,
            alock: self.alock@,
        }
    }
}

impl CancArgsView {
    pub open spec fn wf(self) -> bool {
        self.cookie.len() <= u32::MAX && self.alock.wf()
    }

    pub open spec fn encoding(self) -> Seq<u8> {
        encode_opaque(self.cookie) + encode_bool(self.block) + encode_bool(self.exclusive)
            + self.alock.encoding()
    }

    /// The length of the shortest encoding.
    pub open spec fn min_len() -> int {
        44
    }

    pub open spec fn decode(s: Seq<u8>, at: int) -> Decoded<CancArgsView> {
        match decode_opaque(s, at) {
            Err(e) => Err(e),
            Ok((cookie, at1)) => match decode_bool(s, at1) {
                Err(e) => Err(e),
                Ok((block, at2)) => match decode_bool(s, at2) {
                    Err(e) => Err(e),
                    Ok((exclusive, at3)) => match LockView::decode(s, at3) {
                        Err(e) => Err(e),
                        Ok((alock, at4)) => Ok(
                            (CancArgsView { cookie, block, exclusive, alock }, at4),
                        ),
                    },
                },
            },
        }
    }

    pub proof fn lemma_decode_encoding(s: Seq<u8>, at: int, x: CancArgsView)
        requires
            x.wf(),
            holds_at(s, at, x.encoding()),
        ensures
            Self::decode(s, at) == Ok::<(CancArgsView, int), ProtocolDecodeError>(
                (x, at + x.encoding().len()),
            ),
    {
        let e1 = encode_opaque(x.cookie);
        let e2 = encode_bool(x.block);
        let e3 = encode_bool(x.exclusive);
        let e4 = x.alock.encoding();
        lemma_holds_at_split(s, at, e1 + e2 + e3, e4);
        lemma_holds_at_split(s, at, e1 + e2, e3);
        lemma_holds_at_split(s, at, e1, e2);
        lemma_decode_opaque(s, at, x.cookie);
        let at1 = at + e1.len();
        lemma_decode_bool(s, at1, x.block);
        lemma_decode_bool(s, at1 + 4, x.exclusive);
        LockView::lemma_decode_encoding(s, at1 + 8, x.alock);
    }

    /// What was decoded can be encoded again, and the decoder stayed within
    /// its input; it fails only for want of bytes.
    pub proof fn lemma_decode_bounds(s: Seq<u8>, at: int)
        ensures
            match Self::decode(s, at) {
                Ok((x, end)) => 0 <= at && x.wf() && at + Self::min_len() <= end <= s.len(),
                Err(e) => e == ProtocolDecodeError::Truncated,
            },
    {
        lemma_decode_opaque_end(s, at);
        if let Ok((cookie, at1)) = decode_opaque(s, at) {
            if let Ok((block, at2)) = decode_bool(s, at1) {
                if let Ok((exclusive, at3)) = decode_bool(s, at2) {
                    LockView::lemma_decode_bounds(s, at3);
                }
            }
        }
    }
}

impl Clone for nlm_cancargs {
    fn clone(&self) -> (r: Self)
        ensures
            r@ == self@,
    {
        nlm_cancargs {
            cookie: self.cookie.clone(),
            block: self.block,
            exclusive: self.exclusive,
            alock: self.alock.clone(),
        }
    }
}

impl Default for nlm_cancargs {
    fn default() -> (r: Self)
        ensures
            r@ == (CancArgsView {
                cookie: Seq::empty(),
                block: false,
                exclusive: false,
                alock: LockView::empty(),
            }),
    {
        nlm_cancargs {
            cookie: Vec::new(),
            block: false,
            exclusive: false,
            alock: nlm4_lock::default(),
        }
    }
}

impl nlm_cancargs {
    /// Appends the encoding of this record to `dest`.
    pub fn serialize(&self, dest: &mut Vec<u8>)
        requires
            self@.wf(),
        ensures
            final(dest)@ == old(dest)@ + self@.encoding(),
    {
        put_opaque(dest, &self.cookie);
        put_bool(dest, self.block);
        put_bool(dest, self.exclusive);
        self.alock.serialize(dest);
        assert(dest@ =~= old(dest)@ + self@.encoding());
    }

    /// Reads a record at `at`.
    pub fn deserialize(src: &[u8], at: usize) -> (r: Result<
        (nlm_cancargs, usize),
        ProtocolDecodeError,
    >)
        ensures
            decoded(r, CancArgsView::decode(src@, at as int)),
    {
        let (cookie, at1) = match get_opaque(src, at) {
            Ok(v) => v,
            Err(e) => return Err(e),
        };
        let (block, at2) = match get_bool(src, at1) {
            Ok(v) => v,
            Err(e) => return Err(e),
        };
        let (exclusive, at3) = match get_bool(src, at2) {
            Ok(v) => v,
            Err(e) => return Err(e),
        };
        let (alock, at4) = match nlm4_lock::deserialize(src, at3) {
            Ok(v) => v,
            Err(e) => return Err(e),
        };
        Ok((nlm_cancargs { cookie, block, exclusive, alock }, at4))
    }
}

// ---------------------------------------------------------------------------
// nlm_unlockargs
// ---------------------------------------------------------------------------

/// What is needed to remove a previously established lock.
#[derive(Debug, PartialEq, Eq)]
pub struct nlm_unlockargs {
    pub cookie: Vec<u8>,
    pub alock: nlm4_lock,
}

pub struct UnlockArgsView {
    pub cookie: Seq<u8>,
    pub alock: LockView,
}

impl View for nlm_unlockargs {
    type V = UnlockArgsView;

    open spec fn view(&self) -> UnlockArgsView {
        UnlockArgsView { cookie: self.cookie@, alock: self.alock@ }
    }
}

impl UnlockArgsView {
    pub open spec fn wf(self) -> bool {
        self.cookie.len() <= u32::MAX && self.alock.wf()
    }

    pub open spec fn encoding(self) -> Seq<u8> {
        encode_opaque(self.cookie) + self.alock.encoding()
    }

    /// The length of the shortest encoding.
    pub open spec fn min_len() -> int {
        36
    }

    pub open spec fn decode(s: Seq<u8>, at: int) -> Decoded<UnlockArgsView> {
        match decode_opaque(s, at) {
            Err(e) => Err(e),
            Ok((cookie, at1)) => match LockView::decode(s, at1) {
                Err(e) => Err(e),
                Ok((alock, at2)) => Ok((UnlockArgsView { cookie, alock }, at2)),
            },
        }
    }

    pub proof fn lemma_decode_encoding(s: Seq<u8>, at: int, x: UnlockArgsView)
        requires
            x.wf(),
            holds_at(s, at, x.encoding()),
        ensures
            Self::decode(s, at) == Ok::<(UnlockArgsView, int), ProtocolDecodeError>(
                (x, at + x.encoding().len()),
            ),
    {
        let e1 = encode_opaque(x.cookie);
        lemma_holds_at_split(s, at, e1, x.alock.encoding());
        lemma_decode_opaque(s, at, x.cookie);
        LockView::lemma_decode_encoding(s, at + e1.len(), x.alock);
    }

    /// What was decoded can be encoded again, and the decoder stayed within
    /// its input; it fails only for want of bytes.
    pub proof fn lemma_decode_bounds(s: Seq<u8>, at: int)
        ensures
            match Self::decode(s, at) {
                Ok((x, end)) => 0 <= at && x.wf() && at + Self::min_len() <= end <= s.len(),
                Err(e) => e == ProtocolDecodeError::Truncated,
            },
    {
        lemma_decode_opaque_end(s, at);
        if let Ok((cookie, at1)) = decode_opaque(s, at) {
            LockView::lemma_decode_bounds(s, at1);
        }
    }
}

impl Clone for nlm_unlockargs {
    fn clone(&self) -> (r: Self)
        ensures
            r@ == self@,
    {
        nlm_unlockargs { cookie: self.cookie.clone(), alock: self.alock.clone() }
    }
}

impl nlm_unlockargs {
    /// Appends the encoding of this record to `dest`.
    pub fn serialize(&self, dest: &mut Vec<u8>)
        requires
            self@.wf(),
        ensures
            final(dest)@ == old(dest)@ + self@.encoding(),
    {
        put_opaque(dest, &self.cookie);
        self.alock.serialize(dest);
        assert(dest@ =~= old(dest)@ + self@.encoding());
    }

    /// Reads a record at `at`.
    pub fn deserialize(src: &[u8], at: usize) -> (r: Result<
        (nlm_unlockargs, usize),
        ProtocolDecodeError,
    >)
        ensures
            decoded(r, UnlockArgsView::decode(src@, at as int)),
    {
        let (cookie, at1) = match get_opaque(src, at) {
            Ok(v) => v,
            Err(e) => return Err(e),
        };
        let (alock, at2) = match nlm4_lock::deserialize(src, at1) {
            Ok(v) => v,
            Err(e) => return Err(e),
        };
        Ok((nlm_unlockargs { cookie, alock }, at2))
    }
}

} // verus!
