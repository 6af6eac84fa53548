//! The lock-lifecycle state machine as mathematics: what the table of held and
//! pending locks is, and what each of the four operations on it (test,
//! acquire, cancel, release) makes of it.
//!
//! A claim is identified by its file, owner and range. It is absent, pending
//! or held: a blocking request that finds a lock in its way becomes pending,
//! and a pending claim becomes held when a release clears its way, or absent
//! when it is cancelled. A claim also becomes absent when the host that made
//! it is known to have restarted.

use crate::nlm::{nlm4_stats, LockArgsView, LockView, TestArgsView};
use crate::xdr::u64_to_be;
use vstd::prelude::*;

verus! {

impl LockView {
    /// The position just past the last byte of the range.
    pub open spec fn end(self) -> int {
        self.l_offset + self.l_len
    }

    /// Byte `b` of the file lies in the range.
    pub open spec fn covers(self, b: int) -> bool {
        self.l_offset <= b < self.end()
    }

    /// The two ranges have a byte in common. The length is a plain number: a
    /// range of length zero holds no byte.
    pub open spec fn overlaps(self, other: LockView) -> bool {
        &&& self.l_len > 0
        &&& other.l_len > 0
        &&& self.l_offset < other.end()
        &&& other.l_offset < self.end()
    }

    /// The two descriptors name the same claim: the same file, owner and
    /// range. The caller's name plays no part.
    pub open spec fn same_claim(self, other: LockView) -> bool {
        &&& self.fh == other.fh
        &&& self.oh == other.oh
        &&& self.svid == other.svid
        &&& self.l_offset == other.l_offset
        &&& self.l_len == other.l_len
    }

    /// The two descriptors come from the same owner.
    pub open spec fn same_owner(self, other: LockView) -> bool {
        self.oh == other.oh && self.svid == other.svid
    }
}

/// Two ranges overlap exactly when some byte lies in both.
pub proof fn law_overlap_is_a_common_byte(a: LockView, b: LockView)
    ensures
        a.overlaps(b) <==> exists|x: int| a.covers(x) && b.covers(x),
{
    if a.overlaps(b) {
        let x = if a.l_offset >= b.l_offset {
            a.l_offset as int
        } else {
            b.l_offset as int
        };
        assert(a.covers(x) && b.covers(x));
    }
}

/// A lock that has been granted.
pub struct HeldView {
    pub lock: LockView,
    pub exclusive: bool,
    /// The epoch of the server in which it was granted.
    pub epoch: u64,
}

/// A blocking request that waits for its way to clear.
pub struct PendingView {
    pub lock: LockView,
    pub exclusive: bool,
    /// The number the server chose when it queued the request; the GRANTED
    /// callback carries it as its cookie.
    pub cookie: u64,
    /// Where the caller is to be told, as the transport named it.
    pub reply_to: Seq<u8>,
}

/// A GRANTED call that is owed to a caller whose request was waiting.
pub struct CallbackView {
    /// Where it is to be sent.
    pub reply_to: Seq<u8>,
    /// What it says.
    pub args: TestArgsView,
}

impl PendingView {
    /// The held lock that this request becomes when it is granted in `epoch`.
    pub open spec fn granted_in(self, epoch: u64) -> HeldView {
        HeldView { lock: self.lock, exclusive: self.exclusive, epoch }
    }

    /// The GRANTED call that tells the waiting caller. Its cookie is the
    /// server's number in eight bytes, not the cookie of the request.
    pub open spec fn callback(self) -> CallbackView {
        CallbackView {
            reply_to: self.reply_to,
            args: TestArgsView {
                cookie: u64_to_be(self.cookie),
                exclusive: self.exclusive,
                alock: self.lock,
            },
        }
    }
}

/// What the administrator has declared of the server.
#[derive(Clone, Copy, Debug, PartialEq, Eq, Structural)]
pub struct ServerState {
    /// The grace window after a restart is open: only reclaims are honoured.
    pub grace: bool,
    /// The epoch that locks granted now are stamped with.
    pub epoch: u64,
}

/// What a call brings with it besides its bytes.
pub struct CallView {
    pub server: ServerState,
    /// Where the caller can be reached later, as the transport names it.
    pub reply_to: Seq<u8>,
}

/// The held lock stands in the way of a request for `lock`: same file,
/// overlapping ranges, and one of the two is exclusive.
pub open spec fn conflicts(held: HeldView, lock: LockView, exclusive: bool) -> bool {
    &&& held.lock.fh == lock.fh
    &&& held.lock.overlaps(lock)
    &&& (held.exclusive || exclusive)
}

/// Some held lock stands in the way of a request for `lock`.
pub open spec fn blocked(held: Seq<HeldView>, lock: LockView, exclusive: bool) -> bool {
    exists|i: int| 0 <= i < held.len() && conflicts(#[trigger] held[i], lock, exclusive)
}

/// The first held lock that stands in the way of a request for `lock`.
pub open spec fn first_conflict(held: Seq<HeldView>, lock: LockView, exclusive: bool) -> Option<
    int,
>
    decreases held.len(),
{
    if held.len() == 0 {
        None
    } else {
        match first_conflict(held.drop_last(), lock, exclusive) {
            Some(i) => Some(i),
            None => if conflicts(held.last(), lock, exclusive) {
                Some(held.len() - 1)
            } else {
                None
            },
        }
    }
}

/// The predicate of the held locks that are not for the claim `lock`.
pub open spec fn held_for_other_claim(lock: LockView) -> spec_fn(HeldView) -> bool {
    |h: HeldView| !h.lock.same_claim(lock)
}

/// The predicate of the pending requests that are not for the claim `lock`.
pub open spec fn pending_for_other_claim(lock: LockView) -> spec_fn(PendingView) -> bool {
    |p: PendingView| !p.lock.same_claim(lock)
}

/// What a pass over the queue leaves: the held locks, the requests that still
/// wait, and the callbacks owed, each in the order of the queue.
pub struct Resumed {
    pub held: Seq<HeldView>,
    pub pending: Seq<PendingView>,
    pub granted: Seq<CallbackView>,
}

/// The predicate of the held locks that the host `caller` did not ask for.
pub open spec fn held_for_other_host(caller: Seq<u8>) -> spec_fn(HeldView) -> bool {
    |h: HeldView| h.lock.caller_name != caller
}

/// The predicate of the pending requests that the host `caller` did not make.
pub open spec fn pending_for_other_host(caller: Seq<u8>) -> spec_fn(PendingView) -> bool {
    |p: PendingView| p.lock.caller_name != caller
}

/// The request is among those that a pass over the queue looks at: those on
/// the file `scope`, or all where no file is given.
pub open spec fn in_scope(scope: Option<Seq<u8>>, p: PendingView) -> bool {
    match scope {
        Some(fh) => p.lock.fh == fh,
        None => true,
    }
}

/// One pass over the queue, first come first served. A request in `scope`
/// that nothing held stands in the way of any more, the locks granted
/// earlier in the pass included, becomes held in `epoch` and is owed a
/// callback. Every other request keeps waiting.
pub open spec fn resume(
    held: Seq<HeldView>,
    waiting: Seq<PendingView>,
    scope: Option<Seq<u8>>,
    epoch: u64,
) -> Resumed
    decreases waiting.len(),
{
    if waiting.len() == 0 {
        Resumed { held, pending: Seq::empty(), granted: Seq::empty() }
    } else {
        let before = resume(held, waiting.drop_last(), scope, epoch);
        let p = waiting.last();
        if in_scope(scope, p) && !blocked(before.held, p.lock, p.exclusive) {
            Resumed {
                held: before.held.push(p.granted_in(epoch)),
                pending: before.pending,
                granted: before.granted.push(p.callback()),
            }
        } else {
            Resumed { held: before.held, pending: before.pending.push(p), granted: before.granted }
        }
    }
}

/// The number after `n`, starting over after the largest.
pub open spec fn next_after(n: u64) -> u64 {
    if n == u64::MAX {
        0
    } else {
        (n + 1) as u64
    }
}

/// The table of locks.
pub struct TableView {
    /// The locks that are held, oldest first.
    pub held: Seq<HeldView>,
    /// The blocking requests that wait, oldest first.
    pub pending: Seq<PendingView>,
    /// The number that the next queued request gets.
    pub next_cookie: u64,
}

impl TableView {
    /// The table with no lock and no request.
    pub open spec fn empty() -> TableView {
        TableView { held: Seq::empty(), pending: Seq::empty(), next_cookie: 0 }
    }

    /// A request waits only while a held lock stands in its way.
    pub open spec fn wf(self) -> bool {
        forall|j: int|
            0 <= j < self.pending.len() ==> blocked(
                self.held,
                (#[trigger] self.pending[j]).lock,
                self.pending[j].exclusive,
            )
    }

    /// Some held lock is for the claim `lock`.
    pub open spec fn holds(self, lock: LockView) -> bool {
        exists|i: int| 0 <= i < self.held.len() && (#[trigger] self.held[i]).lock.same_claim(lock)
    }

    /// Some pending request is for the claim `lock`.
    pub open spec fn awaits(self, lock: LockView) -> bool {
        exists|j: int|
            0 <= j < self.pending.len() && (#[trigger] self.pending[j]).lock.same_claim(lock)
    }

    /// The owner of the held lock `i` waits on the held lock `k`: it has a
    /// pending request that lock `k` stands in the way of.
    pub open spec fn waits_on(self, i: int, k: int) -> bool {
        exists|j: int|
            0 <= j < self.pending.len() && (#[trigger] self.pending[j]).lock.same_owner(
                self.held[i].lock,
            ) && conflicts(self.held[k], self.pending[j].lock, self.pending[j].exclusive)
    }

    /// A chain of `n` waits leads from a lock that stands in the way of a
    /// request for `lock` to the held lock `k`. With no wait at all, lock `k`
    /// is itself in the way.
    pub open spec fn chain_reaches(self, lock: LockView, exclusive: bool, k: int, n: nat) -> bool
        decreases n,
    {
        if n == 0 {
            0 <= k < self.held.len() && conflicts(self.held[k], lock, exclusive)
        } else {
            exists|i: int|
                0 <= i < self.held.len() && 0 <= k < self.held.len() && self.chain_reaches(
                    lock,
                    exclusive,
                    i,
                    (n - 1) as nat,
                ) && #[trigger] self.waits_on(i, k)
        }
    }

    /// A chain of one or more waits leads from a lock that stands in the way
    /// of a request for `lock` to the held lock `k`.
    pub open spec fn reached(self, lock: LockView, exclusive: bool, k: int) -> bool {
        exists|n: nat| n >= 1 && #[trigger] self.chain_reaches(lock, exclusive, k, n)
    }

    /// Queueing a request for `lock` would close a cycle of waits: the
    /// request would wait on a lock whose owner waits, directly or through
    /// the owners of further locks, on a lock of the requester.
    pub open spec fn would_deadlock(self, lock: LockView, exclusive: bool) -> bool {
        exists|k: int|
            0 <= k < self.held.len() && #[trigger] self.reached(lock, exclusive, k)
                && self.held[k].lock.same_owner(lock)
    }

    /// TEST: granted where nothing stands in the way; else denied, with the
    /// exclusivity of the first lock that does.
    pub open spec fn test(self, lock: LockView, exclusive: bool) -> (nlm4_stats, Option<bool>) {
        match first_conflict(self.held, lock, exclusive) {
            None => (nlm4_stats::NLM4_GRANTED, None),
            Some(i) => (nlm4_stats::NLM4_DENIED, Some(self.held[i].exclusive)),
        }
    }

    /// The table with one more held lock.
    pub open spec fn grant(self, lock: LockView, exclusive: bool, epoch: u64) -> TableView {
        TableView { held: self.held.push(HeldView { lock, exclusive, epoch }), ..self }
    }

    /// The request for `lock` as it stands in the queue: numbered by the
    /// server, and with the place where its caller is to be told.
    pub open spec fn queued(self, lock: LockView, exclusive: bool, reply_to: Seq<u8>)
        -> PendingView {
        PendingView { lock, exclusive, cookie: self.next_cookie, reply_to }
    }

    /// The table with one more pending request.
    pub open spec fn enqueue(self, lock: LockView, exclusive: bool, reply_to: Seq<u8>)
        -> TableView {
        TableView {
            pending: self.pending.push(self.queued(lock, exclusive, reply_to)),
            next_cookie: next_after(self.next_cookie),
            ..self
        }
    }

    /// LOCK. While the grace window is open a reclaim is granted unseen and
    /// anything else is turned away. Otherwise the request is granted where
    /// nothing stands in its way; denied where something does and the caller
    /// will not wait; refused where waiting would close a cycle; and queued
    /// in every other case.
    pub open spec fn acquire(self, args: LockArgsView, call: CallView) -> (TableView, nlm4_stats) {
        if call.server.grace {
            if args.reclaim {
                (
                    self.grant(args.alock, args.exclusive, call.server.epoch),
                    nlm4_stats::NLM4_GRANTED,
                )
            } else {
                (self, nlm4_stats::NLM4_DENIED_GRACE_PERIOD)
            }
        } else if !blocked(self.held, args.alock, args.exclusive) {
            (self.grant(args.alock, args.exclusive, call.server.epoch), nlm4_stats::NLM4_GRANTED)
        } else if !args.block {
            (self, nlm4_stats::NLM4_DENIED)
        } else if self.would_deadlock(args.alock, args.exclusive) {
            (self, nlm4_stats::NLM4_DEADLCK)
        } else {
            (self.enqueue(args.alock, args.exclusive, call.reply_to), nlm4_stats::NLM4_BLOCKED)
        }
    }

    /// CANCEL: every pending request for the claim leaves the queue. Granted
    /// where there was one, denied where there was none.
    pub open spec fn cancel(self, lock: LockView) -> (TableView, nlm4_stats) {
        (
            TableView { pending: self.pending.filter(pending_for_other_claim(lock)), ..self },
            if self.awaits(lock) {
                nlm4_stats::NLM4_GRANTED
            } else {
                nlm4_stats::NLM4_DENIED
            },
        )
    }

    /// UNLOCK: every held lock for the claim leaves the table, and the queue
    /// is passed over once for the requests on that file. The second part is
    /// the callbacks owed to the callers whose requests were granted.
    pub open spec fn release(self, lock: LockView, epoch: u64) -> (TableView, Seq<CallbackView>) {
        let kept = self.held.filter(held_for_other_claim(lock));
        let after = resume(kept, self.pending, Some(lock.fh), epoch);
        (
            TableView { held: after.held, pending: after.pending, next_cookie: self.next_cookie },
            after.granted,
        )
    }

    /// Some held lock or pending request was asked for by the host `caller`.
    pub open spec fn names(self, caller: Seq<u8>) -> bool {
        ||| exists|i: int|
            0 <= i < self.held.len() && (#[trigger] self.held[i]).lock.caller_name == caller
        ||| exists|j: int|
            0 <= j < self.pending.len() && (#[trigger] self.pending[j]).lock.caller_name == caller
    }

    /// The host `caller` is known to have restarted: every lock it held and
    /// every request it made leaves the table, and the whole queue is passed
    /// over once. The second part is the callbacks owed to the callers whose
    /// requests were granted.
    pub open spec fn forget_host(self, caller: Seq<u8>, epoch: u64) -> (
        TableView,
        Seq<CallbackView>,
    ) {
        let kept = self.held.filter(held_for_other_host(caller));
        let waiting = self.pending.filter(pending_for_other_host(caller));
        let after = resume(kept, waiting, None, epoch);
        (
            TableView { held: after.held, pending: after.pending, next_cookie: self.next_cookie },
            after.granted,
        )
    }
}

} // verus!
