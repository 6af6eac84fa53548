//! What holds of the wire codec of the records: an encoding decodes to what
//! was encoded, and bytes that are too few, or an encoding without its end,
//! decode to nothing.

use crate::nlm::{
    nlm4_stats, CancArgsView, LockArgsView, LockView, ResView, TestArgsView, TestResView,
    UnlockArgsView,
};
use crate::xdr::{
    cut_at, encode_bool, encode_i32, encode_opaque, encode_u32, encode_u64, lemma_cut_at_split,
    lemma_cut_at_start, lemma_cut_bool, lemma_cut_i32, lemma_cut_opaque, lemma_cut_u32,
    lemma_cut_u64, lemma_decode_bool, lemma_decode_i32, lemma_decode_opaque, lemma_decode_u32,
    lemma_decode_u64, lemma_holds_at_start, ProtocolDecodeError,
};
use vstd::prelude::*;

verus! {

// ---------------------------------------------------------------------------
// Round trip, and input that is too short
// ---------------------------------------------------------------------------

/// Round trip: a status decodes from its four bytes.
pub proof fn law_stats_roundtrip(stat: nlm4_stats)
    ensures
        nlm4_stats::decode(stat.encoding(), 0) == Ok::<(nlm4_stats, int), ProtocolDecodeError>(
            (stat, 4),
        ),
{
    lemma_holds_at_start(stat.encoding());
    nlm4_stats::lemma_decode_encoding(stat.encoding(), 0, stat);
}

/// A number that names no status is not read as one: the decoder fails, and
/// says which number it met.
pub proof fn law_unknown_status_is_rejected(n: u32)
    requires
        n > 9,
    ensures
        nlm4_stats::decode(encode_u32(n), 0) == Err::<(nlm4_stats, int), ProtocolDecodeError>(
            ProtocolDecodeError::UnknownDiscriminant(n),
        ),
{
    lemma_holds_at_start(encode_u32(n));
    lemma_decode_u32(encode_u32(n), 0, n);
}

/// Round trip: a descriptor's encoding decodes to the descriptor and is read
/// to its end.
pub proof fn law_lock_roundtrip(x: LockView)
    requires
        x.wf(),
    ensures
        LockView::decode(x.encoding(), 0) == Ok::<(LockView, int), ProtocolDecodeError>(
            (x, x.encoding().len() as int),
        ),
{
    let s = x.encoding();
    lemma_holds_at_start(s);
    LockView::lemma_decode_encoding(s, 0, x);
}

/// Truncated input: fewer bytes than the shortest descriptor are never read
/// as one.
pub proof fn law_lock_truncated(s: Seq<u8>, at: int)
    requires
        0 <= at,
        s.len() - at < LockView::min_len(),
    ensures
        LockView::decode(s, at) == Err::<(LockView, int), ProtocolDecodeError>(
            ProtocolDecodeError::Truncated,
        ),
{
    LockView::lemma_decode_bounds(s, at);
}

/// Round trip: the encoding of test arguments decodes to them and is read to
/// its end.
pub proof fn law_testargs_roundtrip(x: TestArgsView)
    requires
        x.wf(),
    ensures
        TestArgsView::decode(x.encoding(), 0) == Ok::<(TestArgsView, int), ProtocolDecodeError>(
            (x, x.encoding().len() as int),
        ),
{
    let s = x.encoding();
    lemma_holds_at_start(s);
    TestArgsView::lemma_decode_encoding(s, 0, x);
}

/// Truncated input: fewer bytes than the shortest record are never read as one.
pub proof fn law_testargs_truncated(s: Seq<u8>, at: int)
    requires
        0 <= at,
        s.len() - at < TestArgsView::min_len(),
    ensures
        TestArgsView::decode(s, at) == Err::<(TestArgsView, int), ProtocolDecodeError>(
            ProtocolDecodeError::Truncated,
        ),
{
    TestArgsView::lemma_decode_bounds(s, at);
}

/// Round trip: the encoding of a test result decodes to it and is read to its
/// end.
pub proof fn law_testres_roundtrip(x: TestResView)
    requires
        x.wf(),
    ensures
        TestResView::decode(x.encoding(), 0) == Ok::<(TestResView, int), ProtocolDecodeError>(
            (x, x.encoding().len() as int),
        ),
{
    let s = x.encoding();
    lemma_holds_at_start(s);
    TestResView::lemma_decode_encoding(s, 0, x);
}

/// Truncated input: fewer bytes than the shortest record are never read as one.
pub proof fn law_testres_truncated(s: Seq<u8>, at: int)
    requires
        0 <= at,
        s.len() - at < TestResView::min_len(),
    ensures
        TestResView::decode(s, at) == Err::<(TestResView, int), ProtocolDecodeError>(
            ProtocolDecodeError::Truncated,
        ),
{
    TestResView::lemma_decode_bounds(s, at);
}

/// Round trip: the encoding of a result decodes to it and is read to its end.
pub proof fn law_res_roundtrip(x: ResView)
    requires
        x.wf(),
    ensures
        ResView::decode(x.encoding(), 0) == Ok::<(ResView, int), ProtocolDecodeError>(
            (x, x.encoding().len() as int),
        ),
{
    let s = x.encoding();
    lemma_holds_at_start(s);
    ResView::lemma_decode_encoding(s, 0, x);
}

/// Truncated input: fewer bytes than the shortest record are never read as one.
pub proof fn law_res_truncated(s: Seq<u8>, at: int)
    requires
        0 <= at,
        s.len() - at < ResView::min_len(),
    ensures
        ResView::decode(s, at) == Err::<(ResView, int), ProtocolDecodeError>(
            ProtocolDecodeError::Truncated,
        ),
{
    ResView::lemma_decode_bounds(s, at);
}

/// Round trip: the encoding of lock arguments decodes to them and is read to
/// its end.
pub proof fn law_lockargs_roundtrip(x: LockArgsView)
    requires
        x.wf(),
    ensures
        LockArgsView::decode(x.encoding(), 0) == Ok::<(LockArgsView, int), ProtocolDecodeError>(
            (x, x.encoding().len() as int),
        ),
{
    let s = x.encoding();
    lemma_holds_at_start(s);
    LockArgsView::lemma_decode_encoding(s, 0, x);
}

/// Truncated input: fewer bytes than the shortest record are never read as one.
pub proof fn law_lockargs_truncated(s: Seq<u8>, at: int)
    requires
        0 <= at,
        s.len() - at < LockArgsView::min_len(),
    ensures
        LockArgsView::decode(s, at) == Err::<(LockArgsView, int), ProtocolDecodeError>(
            ProtocolDecodeError::Truncated,
        ),
{
    LockArgsView::lemma_decode_bounds(s, at);
}

/// Round trip: the encoding of cancel arguments decodes to them and is read
/// to its end.
pub proof fn law_cancargs_roundtrip(x: CancArgsView)
    requires
        x.wf(),
    ensures
        CancArgsView::decode(x.encoding(), 0) == Ok::<(CancArgsView, int), ProtocolDecodeError>(
            (x, x.encoding().len() as int),
        ),
{
    let s = x.encoding();
    lemma_holds_at_start(s);
    CancArgsView::lemma_decode_encoding(s, 0, x);
}

/// Truncated input: fewer bytes than the shortest record are never read as one.
pub proof fn law_cancargs_truncated(s: Seq<u8>, at: int)
    requires
        0 <= at,
        s.len() - at < CancArgsView::min_len(),
    ensures
        CancArgsView::decode(s, at) == Err::<(CancArgsView, int), ProtocolDecodeError>(
            ProtocolDecodeError::Truncated,
        ),
{
    CancArgsView::lemma_decode_bounds(s, at);
}

/// Round trip: the encoding of unlock arguments decodes to them and is read
/// to its end.
pub proof fn law_unlockargs_roundtrip(x: UnlockArgsView)
    requires
        x.wf(),
    ensures
        UnlockArgsView::decode(x.encoding(), 0) == Ok::<
            (UnlockArgsView, int),
            ProtocolDecodeError,
        >((x, x.encoding().len() as int)),
{
    let s = x.encoding();
    lemma_holds_at_start(s);
    UnlockArgsView::lemma_decode_encoding(s, 0, x);
}

/// Truncated input: fewer bytes than the shortest record are never read as one.
pub proof fn law_unlockargs_truncated(s: Seq<u8>, at: int)
    requires
        0 <= at,
        s.len() - at < UnlockArgsView::min_len(),
    ensures
        UnlockArgsView::decode(s, at) == Err::<(UnlockArgsView, int), ProtocolDecodeError>(
            ProtocolDecodeError::Truncated,
        ),
{
    UnlockArgsView::lemma_decode_bounds(s, at);
}

// ---------------------------------------------------------------------------
// Encodings cut short
// ---------------------------------------------------------------------------

impl nlm4_stats {
    pub proof fn lemma_cut_encoding(s: Seq<u8>, at: int, stat: nlm4_stats)
        requires
            cut_at(s, at, stat.encoding()),
        ensures
            Self::decode(s, at) == Err::<(nlm4_stats, int), ProtocolDecodeError>(
                ProtocolDecodeError::Truncated,
            ),
    {
        lemma_cut_u32(s, at, stat.code());
    }
}

impl LockView {
    pub proof fn lemma_cut_encoding(s: Seq<u8>, at: int, x: LockView)
        requires
            x.wf(),
            cut_at(s, at, x.encoding()),
        ensures
            Self::decode(s, at) == Err::<(LockView, int), ProtocolDecodeError>(
                ProtocolDecodeError::Truncated,
            ),
    {
        let e1 = encode_opaque(x.caller_name);
        let e2 = encode_opaque(x.fh);
        let e3 = encode_opaque(x.oh);
        let e4 = encode_i32(x.svid);
        let e5 = encode_u64(x.l_offset);
        let e6 = encode_u64(x.l_len);
        let r5 = e5 + e6;
        let r4 = e4 + r5;
        let r3 = e3 + r4;
        let r2 = e2 + r3;
        assert(x.encoding() =~= e1 + r2);
        lemma_cut_at_split(s, at, e1, r2);
        if cut_at(s, at, e1) {
            lemma_cut_opaque(s, at, x.caller_name);
        } else {
            lemma_decode_opaque(s, at, x.caller_name);
            let at1 = at + e1.len();
            lemma_cut_at_split(s, at1, e2, r3);
            if cut_at(s, at1, e2) {
                lemma_cut_opaque(s, at1, x.fh);
            } else {
                lemma_decode_opaque(s, at1, x.fh);
                let at2 = at1 + e2.len();
                lemma_cut_at_split(s, at2, e3, r4);
                if cut_at(s, at2, e3) {
                    lemma_cut_opaque(s, at2, x.oh);
                } else {
                    lemma_decode_opaque(s, at2, x.oh);
                    let at3 = at2 + e3.len();
                    lemma_cut_at_split(s, at3, e4, r5);
                    if cut_at(s, at3, e4) {
                        lemma_cut_i32(s, at3, x.svid);
                    } else {
                        lemma_decode_i32(s, at3, x.svid);
                        lemma_cut_at_split(s, at3 + 4, e5, e6);
                        if cut_at(s, at3 + 4, e5) {
                            lemma_cut_u64(s, at3 + 4, x.l_offset);
                        } else {
                            lemma_decode_u64(s, at3 + 4, x.l_offset);
                            lemma_cut_u64(s, at3 + 12, x.l_len);
                        }
                    }
                }
            }
        }
    }
}

impl TestArgsView {
    pub proof fn lemma_cut_encoding(s: Seq<u8>, at: int, x: TestArgsView)
        requires
            x.wf(),
            cut_at(s, at, x.encoding()),
        ensures
            Self::decode(s, at) == Err::<(TestArgsView, int), ProtocolDecodeError>(
                ProtocolDecodeError::Truncated,
            ),
    {
        let e1 = encode_opaque(x.cookie);
        let e2 = encode_bool(x.exclusive);
        let e3 = x.alock.encoding();
        let r2 = e2 + e3;
        assert(x.encoding() =~= e1 + r2);
        lemma_cut_at_split(s, at, e1, r2);
        if cut_at(s, at, e1) {
            lemma_cut_opaque(s, at, x.cookie);
        } else {
            lemma_decode_opaque(s, at, x.cookie);
            let at1 = at + e1.len();
            lemma_cut_at_split(s, at1, e2, e3);
            if cut_at(s, at1, e2) {
                lemma_cut_bool(s, at1, x.exclusive);
            } else {
                lemma_decode_bool(s, at1, x.exclusive);
                LockView::lemma_cut_encoding(s, at1 + 4, x.alock);
            }
        }
    }
}

impl TestResView {
    pub proof fn lemma_cut_encoding(s: Seq<u8>, at: int, x: TestResView)
        requires
            x.wf(),
            cut_at(s, at, x.encoding()),
        ensures
            Self::decode(s, at) == Err::<(TestResView, int), ProtocolDecodeError>(
                ProtocolDecodeError::Truncated,
            ),
    {
        let e1 = encode_opaque(x.cookie);
        lemma_cut_at_split(s, at, e1, x.stat.encoding());
        if cut_at(s, at, e1) {
            lemma_cut_opaque(s, at, x.cookie);
        } else {
            lemma_decode_opaque(s, at, x.cookie);
            nlm4_stats::lemma_cut_encoding(s, at + e1.len(), x.stat);
        }
    }
}

impl ResView {
    pub proof fn lemma_cut_encoding(s: Seq<u8>, at: int, x: ResView)
        requires
            x.wf(),
            cut_at(s, at, x.encoding()),
        ensures
            Self::decode(s, at) == Err::<(ResView, int), ProtocolDecodeError>(
                ProtocolDecodeError::Truncated,
            ),
    {
        let e1 = encode_opaque(x.cookie);
        lemma_cut_at_split(s, at, e1, x.stat.encoding());
        if cut_at(s, at, e1) {
            lemma_cut_opaque(s, at, x.cookie);
        } else {
            lemma_decode_opaque(s, at, x.cookie);
            nlm4_stats::lemma_cut_encoding(s, at + e1.len(), x.stat);
        }
    }
}

impl LockArgsView {
    pub proof fn lemma_cut_encoding(s: Seq<u8>, at: int, x: LockArgsView)
        requires
            x.wf(),
            cut_at(s, at, x.encoding()),
        ensures
            Self::decode(s, at) == Err::<(LockArgsView, int), ProtocolDecodeError>(
                ProtocolDecodeError::Truncated,
            ),
    {
        let e1 = encode_opaque(x.cookie);
        let e2 = encode_bool(x.block);
        let e3 = encode_bool(x.exclusive);
        let e4 = x.alock.encoding();
        let e5 = encode_bool(x.reclaim);
        let e6 = encode_i32(x.state);
        let r5 = e5 + e6;
        let r4 = e4 + r5;
        let r3 = e3 + r4;
        let r2 = e2 + r3;
        assert(x.encoding() =~= e1 + r2);
        lemma_cut_at_split(s, at, e1, r2);
        if cut_at(s, at, e1) {
            lemma_cut_opaque(s, at, x.cookie);
        } else {
            lemma_decode_opaque(s, at, x.cookie);
            let at1 = at + e1.len();
            lemma_cut_at_split(s, at1, e2, r3);
            if cut_at(s, at1, e2) {
                lemma_cut_bool(s, at1, x.block);
            } else {
                lemma_decode_bool(s, at1, x.block);
                lemma_cut_at_split(s, at1 + 4, e3, r4);
                if cut_at(s, at1 + 4, e3) {
                    lemma_cut_bool(s, at1 + 4, x.exclusive);
                } else {
                    lemma_decode_bool(s, at1 + 4, x.exclusive);
                    lemma_cut_at_split(s, at1 + 8, e4, r5);
                    if cut_at(s, at1 + 8, e4) {
                        LockView::lemma_cut_encoding(s, at1 + 8, x.alock);
                    } else {
                        LockView::lemma_decode_encoding(s, at1 + 8, x.alock);
                        let at4 = at1 + 8 + e4.len();
                        lemma_cut_at_split(s, at4, e5, e6);
                        if cut_at(s, at4, e5) {
                            lemma_cut_bool(s, at4, x.reclaim);
                        } else {
                            lemma_decode_bool(s, at4, x.reclaim);
                            lemma_cut_i32(s, at4 + 4, x.state);
                        }
                    }
                }
            }
        }
    }
}

impl CancArgsView {
    pub proof fn lemma_cut_encoding(s: Seq<u8>, at: int, x: CancArgsView)
        requires
            x.wf(),
            cut_at(s, at, x.encoding()),
        ensures
            Self::decode(s, at) == Err::<(CancArgsView, int), ProtocolDecodeError>(
                ProtocolDecodeError::Truncated,
            ),
    {
        let e1 = encode_opaque(x.cookie);
        let e2 = encode_bool(x.block);
        let e3 = encode_bool(x.exclusive);
        let e4 = x.alock.encoding();
        let r3 = e3 + e4;
        let r2 = e2 + r3;
        assert(x.encoding() =~= e1 + r2);
        lemma_cut_at_split(s, at, e1, r2);
        if cut_at(s, at, e1) {
            lemma_cut_opaque(s, at, x.cookie);
        } else {
            lemma_decode_opaque(s, at, x.cookie);
            let at1 = at + e1.len();
            lemma_cut_at_split(s, at1, e2, r3);
            if cut_at(s, at1, e2) {
                lemma_cut_bool(s, at1, x.block);
            } else {
                lemma_decode_bool(s, at1, x.block);
                lemma_cut_at_split(s, at1 + 4, e3, e4);
                if cut_at(s, at1 + 4, e3) {
                    lemma_cut_bool(s, at1 + 4, x.exclusive);
                } else {
                    lemma_decode_bool(s, at1 + 4, x.exclusive);
                    LockView::lemma_cut_encoding(s, at1 + 8, x.alock);
                }
            }
        }
    }
}

impl UnlockArgsView {
    pub proof fn lemma_cut_encoding(s: Seq<u8>, at: int, x: UnlockArgsView)
        requires
            x.wf(),
            cut_at(s, at, x.encoding()),
        ensures
            Self::decode(s, at) == Err::<(UnlockArgsView, int), ProtocolDecodeError>(
                ProtocolDecodeError::Truncated,
            ),
    {
        let e1 = encode_opaque(x.cookie);
        lemma_cut_at_split(s, at, e1, x.alock.encoding());
        if cut_at(s, at, e1) {
            lemma_cut_opaque(s, at, x.cookie);
        } else {
            lemma_decode_opaque(s, at, x.cookie);
            LockView::lemma_cut_encoding(s, at + e1.len(), x.alock);
        }
    }
}

/// Truncated input: a descriptor's encoding without its end, however much of
/// it is left, is not read as a descriptor.
pub proof fn law_lock_cut_short(x: LockView, k: int)
    requires
        x.wf(),
        0 <= k < x.encoding().len(),
    ensures
        LockView::decode(x.encoding().subrange(0, k), 0) == Err::<
            (LockView, int),
            ProtocolDecodeError,
        >(ProtocolDecodeError::Truncated),
{
    lemma_cut_at_start(x.encoding(), k);
    LockView::lemma_cut_encoding(x.encoding().subrange(0, k), 0, x);
}

/// Truncated input: the encoding of test arguments without its end is not
/// read as test arguments.
pub proof fn law_testargs_cut_short(x: TestArgsView, k: int)
    requires
        x.wf(),
        0 <= k < x.encoding().len(),
    ensures
        TestArgsView::decode(x.encoding().subrange(0, k), 0) == Err::<
            (TestArgsView, int),
            ProtocolDecodeError,
        >(ProtocolDecodeError::Truncated),
{
    lemma_cut_at_start(x.encoding(), k);
    TestArgsView::lemma_cut_encoding(x.encoding().subrange(0, k), 0, x);
}

/// Truncated input: the encoding of a test result without its end is not read
/// as a test result.
pub proof fn law_testres_cut_short(x: TestResView, k: int)
    requires
        x.wf(),
        0 <= k < x.encoding().len(),
    ensures
        TestResView::decode(x.encoding().subrange(0, k), 0) == Err::<
            (TestResView, int),
            ProtocolDecodeError,
        >(ProtocolDecodeError::Truncated),
{
    lemma_cut_at_start(x.encoding(), k);
    TestResView::lemma_cut_encoding(x.encoding().subrange(0, k), 0, x);
}

/// Truncated input: the encoding of a result without its end is not read as a
/// result.
pub proof fn law_res_cut_short(x: ResView, k: int)
    requires
        x.wf(),
        0 <= k < x.encoding().len(),
    ensures
        ResView::decode(x.encoding().subrange(0, k), 0) == Err::<
            (ResView, int),
            ProtocolDecodeError,
        >(ProtocolDecodeError::Truncated),
{
    lemma_cut_at_start(x.encoding(), k);
    ResView::lemma_cut_encoding(x.encoding().subrange(0, k), 0, x);
}

/// Truncated input: the encoding of lock arguments without its end is not
/// read as lock arguments.
pub proof fn law_lockargs_cut_short(x: LockArgsView, k: int)
    requires
        x.wf(),
        0 <= k < x.encoding().len(),
    ensures
        LockArgsView::decode(x.encoding().subrange(0, k), 0) == Err::<
            (LockArgsView, int),
            ProtocolDecodeError,
        >(ProtocolDecodeError::Truncated),
{
    lemma_cut_at_start(x.encoding(), k);
    LockArgsView::lemma_cut_encoding(x.encoding().subrange(0, k), 0, x);
}

/// Truncated input: the encoding of cancel arguments without its end is not
/// read as cancel arguments.
pub proof fn law_cancargs_cut_short(x: CancArgsView, k: int)
    requires
        x.wf(),
        0 <= k < x.encoding().len(),
    ensures
        CancArgsView::decode(x.encoding().subrange(0, k), 0) == Err::<
            (CancArgsView, int),
            ProtocolDecodeError,
        >(ProtocolDecodeError::Truncated),
{
    lemma_cut_at_start(x.encoding(), k);
    CancArgsView::lemma_cut_encoding(x.encoding().subrange(0, k), 0, x);
}

/// Truncated input: the encoding of unlock arguments without its end is not
/// read as unlock arguments.
pub proof fn law_unlockargs_cut_short(x: UnlockArgsView, k: int)
    requires
        x.wf(),
        0 <= k < x.encoding().len(),
    ensures
        UnlockArgsView::decode(x.encoding().subrange(0, k), 0) == Err::<
            (UnlockArgsView, int),
            ProtocolDecodeError,
        >(ProtocolDecodeError::Truncated),
{
    lemma_cut_at_start(x.encoding(), k);
    UnlockArgsView::lemma_cut_encoding(x.encoding().subrange(0, k), 0, x);
}

} // verus!
