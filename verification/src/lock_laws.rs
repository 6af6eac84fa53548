//! What holds of the lock-lifecycle state machine, proved over its model.

use crate::lock_model::{
    blocked, conflicts, first_conflict, held_for_other_claim, held_for_other_host, in_scope,
    pending_for_other_claim, pending_for_other_host, resume, CallView, CallbackView, HeldView,
    PendingView, Resumed, TableView,
};
use crate::nlm::{nlm4_stats, LockArgsView, LockView};
use vstd::prelude::*;

verus! {

// ---------------------------------------------------------------------------
// Conflicts
// ---------------------------------------------------------------------------

/// `first_conflict` finds the least index of a lock that stands in the way,
/// and finds none exactly where nothing does.
pub proof fn lemma_first_conflict(held: Seq<HeldView>, lock: LockView, exclusive: bool)
    ensures
        match first_conflict(held, lock, exclusive) {
            None => !blocked(held, lock, exclusive),
            Some(i) => {
                &&& 0 <= i < held.len()
                &&& conflicts(held[i], lock, exclusive)
                &&& forall|j: int| 0 <= j < i ==> !conflicts(#[trigger] held[j], lock, exclusive)
            },
        },
    decreases held.len(),
{
    if held.len() > 0 {
        let front = held.drop_last();
        lemma_first_conflict(front, lock, exclusive);
        assert forall|j: int| 0 <= j < front.len() implies #[trigger] front[j] == held[j] by {}
        match first_conflict(front, lock, exclusive) {
            Some(i) => {
                assert(front[i] == held[i]);
                assert forall|j: int| 0 <= j < i implies !conflicts(
                    #[trigger] held[j],
                    lock,
                    exclusive,
                ) by {
                    assert(front[j] == held[j]);
                }
            },
            None => {
                assert forall|j: int| 0 <= j < held.len() - 1 implies !conflicts(
                    #[trigger] held[j],
                    lock,
                    exclusive,
                ) by {
                    assert(front[j] == held[j]);
                }
            },
        }
    }
}

/// A new held lock adds itself to what stands in a request's way, and takes
/// nothing from it.
pub proof fn lemma_blocked_push(held: Seq<HeldView>, h: HeldView, lock: LockView, exclusive: bool)
    ensures
        blocked(held.push(h), lock, exclusive) <==> blocked(held, lock, exclusive) || conflicts(
            h,
            lock,
            exclusive,
        ),
{
    let more = held.push(h);
    if blocked(held, lock, exclusive) {
        let i = choose|i: int| 0 <= i < held.len() && conflicts(#[trigger] held[i], lock, exclusive);
        assert(more[i] == held[i]);
    }
    if conflicts(h, lock, exclusive) {
        assert(more[held.len() as int] == h);
    }
    if blocked(more, lock, exclusive) {
        let i = choose|i: int| 0 <= i < more.len() && conflicts(#[trigger] more[i], lock, exclusive);
        if i < held.len() {
            assert(more[i] == held[i]);
        }
    }
}

/// A filter that every element passes keeps the sequence as it is.
pub proof fn lemma_filter_all<A>(s: Seq<A>, pred: spec_fn(A) -> bool)
    requires
        forall|i: int| 0 <= i < s.len() ==> pred(#[trigger] s[i]),
    ensures
        s.filter(pred) == s,
    decreases s.len(),
{
    reveal(Seq::filter);
    if s.len() > 0 {
        let front = s.drop_last();
        assert forall|i: int| 0 <= i < front.len() implies pred(#[trigger] front[i]) by {
            assert(front[i] == s[i]);
        }
        lemma_filter_all(front, pred);
        assert(front.push(s.last()) =~= s);
    }
}

/// What a filter keeps passed it and was there before; what passed it is kept.
pub proof fn lemma_filter_members<A>(s: Seq<A>, pred: spec_fn(A) -> bool)
    ensures
        forall|k: int|
            0 <= k < s.filter(pred).len() ==> pred(#[trigger] s.filter(pred)[k]) && exists|i: int|
                0 <= i < s.len() && s[i] == s.filter(pred)[k],
        forall|i: int|
            0 <= i < s.len() && pred(#[trigger] s[i]) ==> exists|k: int|
                0 <= k < s.filter(pred).len() && s.filter(pred)[k] == s[i],
    decreases s.len(),
{
    reveal(Seq::filter);
    let out = s.filter(pred);
    if s.len() > 0 {
        let front = s.drop_last();
        let sub = front.filter(pred);
        lemma_filter_members(front, pred);
        assert forall|k: int| 0 <= k < out.len() implies pred(#[trigger] out[k]) && exists|i: int|
            0 <= i < s.len() && s[i] == out[k] by {
            if k < sub.len() {
                assert(out[k] == sub[k]);
                let i = choose|i: int| 0 <= i < front.len() && front[i] == sub[k];
                assert(s[i] == out[k]);
            } else {
                assert(s[s.len() - 1] == out[k]);
            }
        }
        assert forall|i: int| 0 <= i < s.len() && pred(#[trigger] s[i]) implies exists|k: int|
            0 <= k < out.len() && out[k] == s[i] by {
            if i < front.len() {
                assert(front[i] == s[i]);
                let k = choose|k: int| 0 <= k < sub.len() && sub[k] == front[i];
                assert(out[k] == s[i]);
            } else {
                assert(out[out.len() - 1] == s[i]);
            }
        }
    }
}

// ---------------------------------------------------------------------------
// The pass over the queue
// ---------------------------------------------------------------------------

/// A pass over the queue moves requests, and makes none: each request either
/// still waits or is held and owed one callback, and the locks that were held
/// stay where they were.
pub proof fn law_resume_moves_requests(
    held: Seq<HeldView>,
    waiting: Seq<PendingView>,
    scope: Option<Seq<u8>>,
    epoch: u64,
)
    ensures
        ({
            let r = resume(held, waiting, scope, epoch);
            &&& r.pending.len() + r.granted.len() == waiting.len()
            &&& r.held.len() == held.len() + r.granted.len()
            &&& forall|i: int| 0 <= i < held.len() ==> #[trigger] r.held[i] == held[i]
        }),
    decreases waiting.len(),
{
    if waiting.len() > 0 {
        law_resume_moves_requests(held, waiting.drop_last(), scope, epoch);
    }
}

/// What stood in a request's way before a pass over the queue stands in its
/// way after it.
pub proof fn lemma_resume_keeps_blocked(
    held: Seq<HeldView>,
    waiting: Seq<PendingView>,
    scope: Option<Seq<u8>>,
    epoch: u64,
    lock: LockView,
    exclusive: bool,
)
    requires
        blocked(held, lock, exclusive),
    ensures
        blocked(resume(held, waiting, scope, epoch).held, lock, exclusive),
    decreases waiting.len(),
{
    if waiting.len() > 0 {
        lemma_resume_keeps_blocked(held, waiting.drop_last(), scope, epoch, lock, exclusive);
        let before = resume(held, waiting.drop_last(), scope, epoch);
        lemma_blocked_push(before.held, waiting.last().granted_in(epoch), lock, exclusive);
    }
}

/// A pass over a queue in which every request that it looks at is still
/// blocked changes nothing and owes no callback.
pub proof fn lemma_resume_idle(
    held: Seq<HeldView>,
    waiting: Seq<PendingView>,
    scope: Option<Seq<u8>>,
    epoch: u64,
)
    requires
        forall|j: int|
            0 <= j < waiting.len() ==> !in_scope(scope, #[trigger] waiting[j]) || blocked(
                held,
                waiting[j].lock,
                waiting[j].exclusive,
            ),
    ensures
        resume(held, waiting, scope, epoch) == (Resumed {
            held,
            pending: waiting,
            granted: Seq::empty(),
        }),
    decreases waiting.len(),
{
    if waiting.len() > 0 {
        let front = waiting.drop_last();
        assert forall|j: int| 0 <= j < front.len() implies !in_scope(scope, #[trigger] front[j])
            || blocked(held, front[j].lock, front[j].exclusive) by {
            assert(front[j] == waiting[j]);
        }
        lemma_resume_idle(held, front, scope, epoch);
        assert(waiting[waiting.len() - 1] == waiting.last());
        assert(front.push(waiting.last()) =~= waiting);
    } else {
        assert(waiting =~= Seq::empty());
    }
}

/// After a pass over the queue every request that still waits is blocked,
/// provided that the requests it does not look at were.
pub proof fn lemma_resume_leaves_blocked(
    held: Seq<HeldView>,
    waiting: Seq<PendingView>,
    scope: Option<Seq<u8>>,
    epoch: u64,
)
    requires
        forall|j: int|
            0 <= j < waiting.len() && !in_scope(scope, #[trigger] waiting[j]) ==> blocked(
                held,
                waiting[j].lock,
                waiting[j].exclusive,
            ),
    ensures
        ({
            let r = resume(held, waiting, scope, epoch);
            forall|k: int|
                0 <= k < r.pending.len() ==> blocked(
                    r.held,
                    (#[trigger] r.pending[k]).lock,
                    r.pending[k].exclusive,
                )
        }),
    decreases waiting.len(),
{
    if waiting.len() > 0 {
        let front = waiting.drop_last();
        let p = waiting.last();
        assert forall|j: int| 0 <= j < front.len() && !in_scope(
            scope,
            #[trigger] front[j],
        ) implies blocked(held, front[j].lock, front[j].exclusive) by {
            assert(front[j] == waiting[j]);
        }
        lemma_resume_leaves_blocked(held, front, scope, epoch);
        let before = resume(held, front, scope, epoch);
        let r = resume(held, waiting, scope, epoch);
        assert forall|k: int| 0 <= k < r.pending.len() implies blocked(
            r.held,
            (#[trigger] r.pending[k]).lock,
            r.pending[k].exclusive,
        ) by {
            let q = r.pending[k];
            if k < before.pending.len() {
                assert(q == before.pending[k]);
                lemma_blocked_push(before.held, p.granted_in(epoch), q.lock, q.exclusive);
            } else {
                assert(q == p);
                if !in_scope(scope, p) {
                    assert(waiting[waiting.len() - 1] == p);
                    lemma_resume_keeps_blocked(held, front, scope, epoch, p.lock, p.exclusive);
                }
            }
        }
    }
}

// ---------------------------------------------------------------------------
// The invariant
// ---------------------------------------------------------------------------

/// LOCK leaves a table in which every pending request is blocked.
pub proof fn lemma_acquire_wf(t: TableView, args: LockArgsView, call: CallView)
    requires
        t.wf(),
    ensures
        t.acquire(args, call).0.wf(),
{
    let after = t.acquire(args, call).0;
    let h = HeldView { lock: args.alock, exclusive: args.exclusive, epoch: call.server.epoch };
    assert forall|j: int| 0 <= j < after.pending.len() implies blocked(
        after.held,
        (#[trigger] after.pending[j]).lock,
        after.pending[j].exclusive,
    ) by {
        let q = after.pending[j];
        if j < t.pending.len() {
            assert(q == t.pending[j]);
            lemma_blocked_push(t.held, h, q.lock, q.exclusive);
        }
    }
}

/// CANCEL leaves a table in which every pending request is blocked.
pub proof fn lemma_cancel_wf(t: TableView, lock: LockView)
    requires
        t.wf(),
    ensures
        t.cancel(lock).0.wf(),
{
    let after = t.cancel(lock).0;
    lemma_filter_members(t.pending, pending_for_other_claim(lock));
    assert forall|j: int| 0 <= j < after.pending.len() implies blocked(
        after.held,
        (#[trigger] after.pending[j]).lock,
        after.pending[j].exclusive,
    ) by {
        let i = choose|i: int| 0 <= i < t.pending.len() && t.pending[i] == after.pending[j];
        assert(t.pending[i] == after.pending[j]);
    }
}

/// UNLOCK leaves a table in which every pending request is blocked.
pub proof fn lemma_release_wf(t: TableView, lock: LockView, epoch: u64)
    requires
        t.wf(),
    ensures
        t.release(lock, epoch).0.wf(),
{
    let kept = t.held.filter(held_for_other_claim(lock));
    lemma_filter_members(t.held, held_for_other_claim(lock));
    assert forall|j: int| 0 <= j < t.pending.len() && (#[trigger] t.pending[j]).lock.fh
        != lock.fh implies blocked(kept, t.pending[j].lock, t.pending[j].exclusive) by {
        let q = t.pending[j];
        let i = choose|i: int| 0 <= i < t.held.len() && conflicts(
            #[trigger] t.held[i],
            q.lock,
            q.exclusive,
        );
        assert(held_for_other_claim(lock)(t.held[i]));
        let k = choose|k: int| 0 <= k < kept.len() && kept[k] == t.held[i];
        assert(conflicts(kept[k], q.lock, q.exclusive));
    }
    lemma_resume_leaves_blocked(kept, t.pending, Some(lock.fh), epoch);
}

/// Forgetting a host leaves a table in which every pending request is
/// blocked.
pub proof fn lemma_forget_host_wf(t: TableView, caller: Seq<u8>, epoch: u64)
    ensures
        t.forget_host(caller, epoch).0.wf(),
{
    let kept = t.held.filter(held_for_other_host(caller));
    let waiting = t.pending.filter(pending_for_other_host(caller));
    lemma_resume_leaves_blocked(kept, waiting, None, epoch);
}

/// A pass over the queue brings in no host: if neither a held lock nor a
/// waiting request was asked for by `caller`, none is afterwards.
pub proof fn lemma_resume_names_no_new_host(
    held: Seq<HeldView>,
    waiting: Seq<PendingView>,
    scope: Option<Seq<u8>>,
    epoch: u64,
    caller: Seq<u8>,
)
    requires
        forall|i: int| 0 <= i < held.len() ==> (#[trigger] held[i]).lock.caller_name != caller,
        forall|j: int|
            0 <= j < waiting.len() ==> (#[trigger] waiting[j]).lock.caller_name != caller,
    ensures
        ({
            let r = resume(held, waiting, scope, epoch);
            &&& forall|i: int|
                0 <= i < r.held.len() ==> (#[trigger] r.held[i]).lock.caller_name != caller
            &&& forall|j: int|
                0 <= j < r.pending.len() ==> (#[trigger] r.pending[j]).lock.caller_name != caller
        }),
    decreases waiting.len(),
{
    if waiting.len() > 0 {
        let front = waiting.drop_last();
        let p = waiting.last();
        assert forall|j: int| 0 <= j < front.len() implies (#[trigger] front[j]).lock.caller_name
            != caller by {
            assert(front[j] == waiting[j]);
        }
        lemma_resume_names_no_new_host(held, front, scope, epoch, caller);
        assert(waiting[waiting.len() - 1] == p);
        let before = resume(held, front, scope, epoch);
        let r = resume(held, waiting, scope, epoch);
        assert forall|i: int| 0 <= i < r.held.len() implies (#[trigger] r.held[i]).lock.caller_name
            != caller by {
            if i < before.held.len() {
                assert(r.held[i] == before.held[i]);
            }
        }
        assert forall|j: int| 0 <= j < r.pending.len() implies (
        #[trigger] r.pending[j]).lock.caller_name != caller by {
            if j < before.pending.len() {
                assert(r.pending[j] == before.pending[j]);
            }
        }
    }
}

// ---------------------------------------------------------------------------
// Laws
// ---------------------------------------------------------------------------

/// A host that has restarted and was forgotten has no lock and no request
/// left in the table.
pub proof fn law_forgotten_host_is_gone(t: TableView, caller: Seq<u8>, epoch: u64)
    ensures
        !t.forget_host(caller, epoch).0.names(caller),
{
    let kept = t.held.filter(held_for_other_host(caller));
    let waiting = t.pending.filter(pending_for_other_host(caller));
    lemma_filter_members(t.held, held_for_other_host(caller));
    lemma_filter_members(t.pending, pending_for_other_host(caller));
    assert forall|i: int| 0 <= i < kept.len() implies (#[trigger] kept[i]).lock.caller_name
        != caller by {
        assert(held_for_other_host(caller)(kept[i]));
    }
    assert forall|j: int| 0 <= j < waiting.len() implies (
    #[trigger] waiting[j]).lock.caller_name != caller by {
        assert(pending_for_other_host(caller)(waiting[j]));
    }
    lemma_resume_names_no_new_host(kept, waiting, None, epoch, caller);
}

/// Forgetting a host that the table does not name leaves the table as it was
/// and owes no callback.
pub proof fn law_forgetting_unknown_host_changes_nothing(
    t: TableView,
    caller: Seq<u8>,
    epoch: u64,
)
    requires
        t.wf(),
        !t.names(caller),
    ensures
        t.forget_host(caller, epoch) == (t, Seq::<CallbackView>::empty()),
{
    let on_held = held_for_other_host(caller);
    let on_pending = pending_for_other_host(caller);
    assert forall|i: int| 0 <= i < t.held.len() implies on_held(#[trigger] t.held[i]) by {}
    assert forall|j: int| 0 <= j < t.pending.len() implies on_pending(#[trigger] t.pending[j]) by {}
    lemma_filter_all(t.held, on_held);
    lemma_filter_all(t.pending, on_pending);
    lemma_resume_idle(t.held, t.pending, None, epoch);
}

/// Mutation is all or nothing: a LOCK that is neither granted nor queued
/// leaves the table as it was, a granted one adds exactly one held lock, and
/// a queued one adds exactly one pending request.
pub proof fn law_acquire_all_or_nothing(t: TableView, args: LockArgsView, call: CallView)
    ensures
        ({
            let (after, stat) = t.acquire(args, call);
            &&& stat == nlm4_stats::NLM4_GRANTED ==> after == t.grant(
                args.alock,
                args.exclusive,
                call.server.epoch,
            )
            &&& stat == nlm4_stats::NLM4_BLOCKED ==> after == t.enqueue(
                args.alock,
                args.exclusive,
                call.reply_to,
            )
            &&& stat != nlm4_stats::NLM4_GRANTED && stat != nlm4_stats::NLM4_BLOCKED ==> after == t
            &&& stat == nlm4_stats::NLM4_GRANTED || stat == nlm4_stats::NLM4_BLOCKED || stat
                == nlm4_stats::NLM4_DENIED || stat == nlm4_stats::NLM4_DEADLCK || stat
                == nlm4_stats::NLM4_DENIED_GRACE_PERIOD
        }),
{
}

/// The overlap conflict rule. After a LOCK was granted, a TEST for an
/// overlapping range of the same file is denied if either of the two is
/// exclusive; if the new lock is all that stands in the way, its exclusivity
/// is what the TEST reports. If both are shared, the TEST is answered as it
/// would have been before the LOCK: granted where nothing else stood in the
/// way.
pub proof fn law_test_after_lock(
    t: TableView,
    args: LockArgsView,
    call: CallView,
    other: LockView,
    other_exclusive: bool,
)
    requires
        t.acquire(args, call).1 == nlm4_stats::NLM4_GRANTED,
        other.fh == args.alock.fh,
        other.overlaps(args.alock),
    ensures
        ({
            let after = t.acquire(args, call).0;
            &&& args.exclusive || other_exclusive ==> after.test(other, other_exclusive).0
                == nlm4_stats::NLM4_DENIED
            &&& (args.exclusive || other_exclusive) && !blocked(t.held, other, other_exclusive)
                ==> after.test(other, other_exclusive) == (
                nlm4_stats::NLM4_DENIED,
                Some(args.exclusive),
            )
            &&& !args.exclusive && !other_exclusive ==> after.test(other, other_exclusive).0
                == t.test(other, other_exclusive).0
            &&& !args.exclusive && !other_exclusive && !blocked(t.held, other, other_exclusive)
                ==> after.test(other, other_exclusive) == (nlm4_stats::NLM4_GRANTED, None::<bool>)
        }),
{
    let after = t.acquire(args, call).0;
    let h = HeldView { lock: args.alock, exclusive: args.exclusive, epoch: call.server.epoch };
    assert(after.held == t.held.push(h));
    lemma_blocked_push(t.held, h, other, other_exclusive);
    lemma_first_conflict(after.held, other, other_exclusive);
    lemma_first_conflict(t.held, other, other_exclusive);
    if (args.exclusive || other_exclusive) && !blocked(t.held, other, other_exclusive) {
        let i = first_conflict(after.held, other, other_exclusive).unwrap();
        if i < t.held.len() {
            assert(after.held[i] == t.held[i]);
        }
    }
}

/// Idempotent unlock: the UNLOCK of a claim that is not held leaves the table
/// as it was and owes no callback.
pub proof fn law_unlock_of_unheld_changes_nothing(t: TableView, lock: LockView, epoch: u64)
    requires
        t.wf(),
        !t.holds(lock),
    ensures
        t.release(lock, epoch) == (t, Seq::<CallbackView>::empty()),
{
    let pred = held_for_other_claim(lock);
    assert forall|i: int| 0 <= i < t.held.len() implies pred(#[trigger] t.held[i]) by {}
    lemma_filter_all(t.held, pred);
    lemma_resume_idle(t.held, t.pending, Some(lock.fh), epoch);
}

/// Blocking grant ordering. A blocking LOCK that finds locks in its way, and
/// would close no cycle, is answered BLOCKED at once and queued behind the
/// requests that wait already. An UNLOCK of a claim on the same file serves
/// those first, as it would have without the new request. If nothing stands
/// in the way of the new request after that, it gets exactly one callback,
/// the last of this UNLOCK, and has left the queue and is held.
pub proof fn law_blocked_request_is_granted_on_release(
    t: TableView,
    args: LockArgsView,
    call: CallView,
    unlock: LockView,
)
    requires
        t.wf(),
        !call.server.grace,
        args.block,
        blocked(t.held, args.alock, args.exclusive),
        !t.would_deadlock(args.alock, args.exclusive),
        args.alock.fh == unlock.fh,
        !blocked(t.release(unlock, call.server.epoch).0.held, args.alock, args.exclusive),
    ensures
        ({
            let (queued, stat) = t.acquire(args, call);
            let (after, granted) = queued.release(unlock, call.server.epoch);
            let (without, earlier) = t.release(unlock, call.server.epoch);
            let request = t.queued(args.alock, args.exclusive, call.reply_to);
            &&& stat == nlm4_stats::NLM4_BLOCKED
            &&& queued == t.enqueue(args.alock, args.exclusive, call.reply_to)
            &&& granted == earlier.push(request.callback())
            &&& after.held == without.held.push(request.granted_in(call.server.epoch))
            &&& after.pending == without.pending
        }),
{
    let request = t.queued(args.alock, args.exclusive, call.reply_to);
    let waiting = t.pending.push(request);
    assert(waiting.drop_last() =~= t.pending);
    assert(waiting.last() == request);
}

/// Blocking grant ordering, where the request is alone: if all that stood in
/// its way was one claim, and nobody else waits for that file, the UNLOCK of
/// that claim owes exactly one callback, the one for this request, and the
/// request has left the queue and is held.
pub proof fn law_sole_waiter_is_granted_on_release(
    t: TableView,
    args: LockArgsView,
    call: CallView,
    unlock: LockView,
)
    requires
        t.wf(),
        !call.server.grace,
        args.block,
        blocked(t.held, args.alock, args.exclusive),
        !t.would_deadlock(args.alock, args.exclusive),
        forall|i: int|
            0 <= i < t.held.len() && conflicts(#[trigger] t.held[i], args.alock, args.exclusive)
                ==> t.held[i].lock.same_claim(unlock),
        forall|j: int| 0 <= j < t.pending.len() ==> (#[trigger] t.pending[j]).lock.fh != unlock.fh,
    ensures
        ({
            let (queued, stat) = t.acquire(args, call);
            let (after, granted) = queued.release(unlock, call.server.epoch);
            let request = t.queued(args.alock, args.exclusive, call.reply_to);
            &&& stat == nlm4_stats::NLM4_BLOCKED
            &&& queued.held == t.held
            &&& queued.pending == t.pending.push(request)
            &&& granted == seq![request.callback()]
            &&& after.pending == t.pending
            &&& after.held == t.held.filter(held_for_other_claim(unlock)).push(
                request.granted_in(call.server.epoch),
            )
        }),
{
    let (queued, stat) = t.acquire(args, call);
    let request = t.queued(args.alock, args.exclusive, call.reply_to);
    let pred = held_for_other_claim(unlock);
    let kept = t.held.filter(pred);
    let waiting = t.pending.push(request);
    assert(waiting.drop_last() =~= t.pending);
    assert(waiting.last() == request);
    lemma_resume_idle(kept, t.pending, Some(unlock.fh), call.server.epoch);
    // The request is for the file of the released claim.
    let i = choose|i: int|
        0 <= i < t.held.len() && conflicts(#[trigger] t.held[i], args.alock, args.exclusive);
    assert(t.held[i].lock.same_claim(unlock));
    assert(request.lock.fh == unlock.fh);
    // Nothing that is kept stands in its way.
    lemma_filter_members(t.held, pred);
    if blocked(kept, request.lock, request.exclusive) {
        let k = choose|k: int|
            0 <= k < kept.len() && conflicts(#[trigger] kept[k], request.lock, request.exclusive);
        assert(pred(kept[k]));
        let m = choose|m: int| 0 <= m < t.held.len() && t.held[m] == kept[k];
        assert(conflicts(t.held[m], args.alock, args.exclusive));
        assert(false);
    }
    let after = resume(kept, waiting, Some(unlock.fh), call.server.epoch);
    assert(after.granted =~= seq![request.callback()]);
}

/// Deadlock. Where a blocking LOCK would wait on a held lock whose owner
/// already waits, with a pending request of its own, on a lock of the
/// requester, the LOCK is refused with DEADLCK and nothing is queued.
pub proof fn law_cross_wait_is_deadlock(
    t: TableView,
    args: LockArgsView,
    call: CallView,
    i: int,
    j: int,
    k: int,
)
    requires
        !call.server.grace,
        args.block,
        0 <= i < t.held.len(),
        0 <= j < t.pending.len(),
        0 <= k < t.held.len(),
        conflicts(t.held[i], args.alock, args.exclusive),
        t.pending[j].lock.same_owner(t.held[i].lock),
        conflicts(t.held[k], t.pending[j].lock, t.pending[j].exclusive),
        t.held[k].lock.same_owner(args.alock),
    ensures
        t.acquire(args, call) == (t, nlm4_stats::NLM4_DEADLCK),
{
    assert(t.waits_on(i, k));
    assert(t.chain_reaches(args.alock, args.exclusive, i, 0));
    assert(t.chain_reaches(args.alock, args.exclusive, k, 1));
    assert(t.reached(args.alock, args.exclusive, k));
    assert(t.would_deadlock(args.alock, args.exclusive));
}

/// Deadlock, however long the cycle. Where a chain of waits leads from a
/// lock in the way of a blocking LOCK to a lock of the requester, the LOCK
/// is refused with DEADLCK and nothing is queued.
pub proof fn law_cycle_is_deadlock(
    t: TableView,
    args: LockArgsView,
    call: CallView,
    k: int,
    n: nat,
)
    requires
        !call.server.grace,
        args.block,
        n >= 1,
        t.chain_reaches(args.alock, args.exclusive, k, n),
        t.held[k].lock.same_owner(args.alock),
    ensures
        t.acquire(args, call) == (t, nlm4_stats::NLM4_DEADLCK),
{
    lemma_chain_starts_in_the_way(t, args.alock, args.exclusive, k, n);
    assert(t.reached(args.alock, args.exclusive, k));
    assert(t.would_deadlock(args.alock, args.exclusive));
}

/// Without a cycle a blocking LOCK that finds a lock in its way is queued.
pub proof fn law_no_cycle_is_no_deadlock(t: TableView, args: LockArgsView, call: CallView)
    requires
        !call.server.grace,
        args.block,
        blocked(t.held, args.alock, args.exclusive),
        forall|k: int, n: nat|
            n >= 1 && #[trigger] t.chain_reaches(args.alock, args.exclusive, k, n)
                ==> !t.held[k].lock.same_owner(args.alock),
    ensures
        t.acquire(args, call) == (
            t.enqueue(args.alock, args.exclusive, call.reply_to),
            nlm4_stats::NLM4_BLOCKED,
        ),
{
    if t.would_deadlock(args.alock, args.exclusive) {
        let k = choose|k: int|
            0 <= k < t.held.len() && #[trigger] t.reached(args.alock, args.exclusive, k)
                && t.held[k].lock.same_owner(args.alock);
        let n = choose|n: nat| n >= 1 && #[trigger] t.chain_reaches(
            args.alock,
            args.exclusive,
            k,
            n,
        );
        assert(false);
    }
}

// ---------------------------------------------------------------------------
// Chains of waits
// ---------------------------------------------------------------------------

/// A chain of waits ends at a held lock and starts at a lock that stands in
/// the way of the request.
pub proof fn lemma_chain_starts_in_the_way(
    t: TableView,
    lock: LockView,
    exclusive: bool,
    k: int,
    n: nat,
)
    requires
        t.chain_reaches(lock, exclusive, k, n),
    ensures
        0 <= k < t.held.len(),
        blocked(t.held, lock, exclusive),
    decreases n,
{
    if n > 0 {
        let i = choose|i: int|
            0 <= i < t.held.len() && 0 <= k < t.held.len() && t.chain_reaches(
                lock,
                exclusive,
                i,
                (n - 1) as nat,
            ) && #[trigger] t.waits_on(i, k);
        lemma_chain_starts_in_the_way(t, lock, exclusive, i, (n - 1) as nat);
    } else {
        assert(conflicts(t.held[k], lock, exclusive));
    }
}

/// One more wait makes a chain one longer: what the owner of a reached lock,
/// or of a lock in the way of the request, waits on is reached.
pub proof fn lemma_wait_extends_chain(
    t: TableView,
    lock: LockView,
    exclusive: bool,
    i: int,
    k: int,
    was_reached: bool,
)
    requires
        0 <= i < t.held.len(),
        0 <= k < t.held.len(),
        t.waits_on(i, k),
        was_reached ==> t.reached(lock, exclusive, i),
        !was_reached ==> conflicts(t.held[i], lock, exclusive),
    ensures
        t.reached(lock, exclusive, k),
{
    if was_reached {
        let n = choose|n: nat| n >= 1 && #[trigger] t.chain_reaches(lock, exclusive, i, n);
        assert(t.chain_reaches(lock, exclusive, i, ((n + 1) - 1) as nat));
        assert(t.chain_reaches(lock, exclusive, k, n + 1));
    } else {
        assert(t.chain_reaches(lock, exclusive, i, 0));
        assert(t.chain_reaches(lock, exclusive, k, 1));
    }
}

/// How many of the marks are set.
pub open spec fn marks(s: Seq<bool>) -> nat
    decreases s.len(),
{
    if s.len() == 0 {
        0
    } else {
        marks(s.drop_last()) + if s.last() {
            1nat
        } else {
            0nat
        }
    }
}

/// No more marks are set than there are.
pub proof fn lemma_marks_bound(s: Seq<bool>)
    ensures
        marks(s) <= s.len(),
    decreases s.len(),
{
    if s.len() > 0 {
        lemma_marks_bound(s.drop_last());
    }
}

/// Setting a mark that was not set makes one more.
pub proof fn lemma_marks_set(s: Seq<bool>, k: int)
    requires
        0 <= k < s.len(),
        !s[k],
    ensures
        marks(s.update(k, true)) == marks(s) + 1,
    decreases s.len(),
{
    let after = s.update(k, true);
    if k == s.len() - 1 {
        assert(after.drop_last() =~= s.drop_last());
    } else {
        assert(after.drop_last() =~= s.drop_last().update(k, true));
        lemma_marks_set(s.drop_last(), k);
    }
}

/// Marks that are closed under waiting hold the end of every chain: if every
/// lock that a marked lock, or a lock in the way of the request, waits on is
/// marked, then so is every lock that a chain of one or more waits reaches.
pub proof fn lemma_closed_marks_hold_chains(
    t: TableView,
    lock: LockView,
    exclusive: bool,
    marked: Seq<bool>,
    k: int,
    n: nat,
)
    requires
        marked.len() == t.held.len(),
        forall|i: int, m: int|
            0 <= i < t.held.len() && 0 <= m < t.held.len() && (conflicts(
                t.held[i],
                lock,
                exclusive,
            ) || marked[i]) && #[trigger] t.waits_on(i, m) ==> marked[m],
        n >= 1,
        t.chain_reaches(lock, exclusive, k, n),
    ensures
        0 <= k < t.held.len(),
        marked[k],
    decreases n,
{
    let i = choose|i: int|
        0 <= i < t.held.len() && 0 <= k < t.held.len() && t.chain_reaches(
            lock,
            exclusive,
            i,
            (n - 1) as nat,
        ) && #[trigger] t.waits_on(i, k);
    if n > 1 {
        lemma_closed_marks_hold_chains(t, lock, exclusive, marked, i, (n - 1) as nat);
    }
    assert(t.waits_on(i, k));
}

/// CANCEL touches the queue alone: afterwards no request for the claim waits,
/// the other requests wait in their old order, and the held locks are as they
/// were. It is granted exactly where a request for the claim was waiting.
pub proof fn law_cancel_removes_the_claim(t: TableView, lock: LockView)
    ensures
        ({
            let (after, stat) = t.cancel(lock);
            &&& !after.awaits(lock)
            &&& after.held == t.held
            &&& after.next_cookie == t.next_cookie
            &&& stat == nlm4_stats::NLM4_GRANTED <==> t.awaits(lock)
            &&& stat == nlm4_stats::NLM4_DENIED <==> !t.awaits(lock)
            &&& !t.awaits(lock) ==> after == t
        }),
{
    let pred = pending_for_other_claim(lock);
    let after = t.cancel(lock).0;
    lemma_filter_members(t.pending, pred);
    if after.awaits(lock) {
        let j = choose|j: int|
            0 <= j < after.pending.len() && (#[trigger] after.pending[j]).lock.same_claim(lock);
        assert(pred(after.pending[j]));
    }
    if !t.awaits(lock) {
        assert forall|i: int| 0 <= i < t.pending.len() implies pred(#[trigger] t.pending[i]) by {}
        lemma_filter_all(t.pending, pred);
    }
}

} // verus!
