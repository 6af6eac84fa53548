//! The table of held and pending locks, and the operations that are all that
//! touches it: test, acquire, cancel and release for the calls of clients,
//! and the forgetting of a host that has restarted. Each does what the model
//! in [`crate::lock_model`] says, and leaves a table in which every pending
//! request is blocked.

use crate::lock_laws::{
    lemma_acquire_wf, lemma_cancel_wf, lemma_closed_marks_hold_chains, lemma_first_conflict,
    lemma_forget_host_wf, lemma_marks_bound, lemma_marks_set, lemma_release_wf,
    lemma_wait_extends_chain, marks,
};
use crate::lock_model::{
    conflicts, first_conflict, held_for_other_claim, held_for_other_host,
    pending_for_other_claim, pending_for_other_host, resume, CallView, CallbackView, HeldView,
    PendingView, ServerState, TableView,
};
use crate::nlm::{nlm4_lock, nlm4_stats, nlm_lockargs, nlm_testargs};
use crate::xdr::put_u64;
use vstd::prelude::*;

verus! {

/// Whether two byte strings are the same.
pub fn bytes_eq(a: &Vec<u8>, b: &Vec<u8>) -> (r: bool)
    ensures
        r == (a@ == b@),
{
    let r = a == b;
    assert(r == (a@ =~= b@));
    r
}

impl nlm4_lock {
    /// Whether the two descriptors name the same claim.
    pub fn same_claim(&self, other: &nlm4_lock) -> (r: bool)
        ensures
            r == self@.same_claim(other@),
    {
        self.svid == other.svid && self.l_offset == other.l_offset && self.l_len == other.l_len
            && bytes_eq(&self.fh, &other.fh) && bytes_eq(&self.oh, &other.oh)
    }

    /// Whether the two descriptors come from the same owner.
    pub fn same_owner(&self, other: &nlm4_lock) -> (r: bool)
        ensures
            r == self@.same_owner(other@),
    {
        self.svid == other.svid && bytes_eq(&self.oh, &other.oh)
    }

    /// Whether the two ranges have a byte in common.
    pub fn overlaps(&self, other: &nlm4_lock) -> (r: bool)
        ensures
            r == self@.overlaps(other@),
    {
        let self_end: u128 = self.l_offset as u128 + self.l_len as u128;
        let other_end: u128 = other.l_offset as u128 + other.l_len as u128;
        self.l_len > 0 && other.l_len > 0 && (self.l_offset as u128) < other_end && (
        other.l_offset as u128) < self_end
    }
}

/// A lock that has been granted.
#[derive(Debug, PartialEq, Eq)]
pub struct HeldLock {
    pub lock: nlm4_lock,
    pub exclusive: bool,
    /// The epoch of the server in which it was granted.
    pub epoch: u64,
}

impl View for HeldLock {
    type V = HeldView;

    open spec fn view(&self) -> HeldView {
        HeldView { lock: self.lock@, exclusive: self.exclusive, epoch: self.epoch }
    }
}

impl Clone for HeldLock {
    fn clone(&self) -> (r: Self)
        ensures
            r@ == self@,
    {
        HeldLock { lock: self.lock.clone(), exclusive: self.exclusive, epoch: self.epoch }
    }
}

/// A blocking request that waits for its way to clear.
#[derive(Debug, PartialEq, Eq)]
pub struct PendingLock {
    pub lock: nlm4_lock,
    pub exclusive: bool,
    /// The number the server chose when it queued the request.
    pub cookie: u64,
    /// Where the caller is to be told, as the transport named it.
    pub reply_to: Vec<u8>,
}

impl View for PendingLock {
    type V = PendingView;

    open spec fn view(&self) -> PendingView {
        PendingView {
            lock: self.lock@,
            exclusive: self.exclusive,
            cookie: self.cookie,
            reply_to: self.reply_to@,
        }
    }
}

impl Clone for PendingLock {
    fn clone(&self) -> (r: Self)
        ensures
            r@ == self@,
    {
        PendingLock {
            lock: self.lock.clone(),
            exclusive: self.exclusive,
            cookie: self.cookie,
            reply_to: self.reply_to.clone(),
        }
    }
}

/// A GRANTED call that is owed to a caller whose request was waiting.
#[derive(Debug, PartialEq, Eq)]
pub struct Callback {
    /// Where it is to be sent.
    pub reply_to: Vec<u8>,
    /// What it says.
    pub args: nlm_testargs,
}

impl View for Callback {
    type V = CallbackView;

    open spec fn view(&self) -> CallbackView {
        CallbackView { reply_to: self.reply_to@, args: self.args@ }
    }
}

impl Clone for Callback {
    fn clone(&self) -> (r: Self)
        ensures
            r@ == self@,
    {
        Callback { reply_to: self.reply_to.clone(), args: self.args.clone() }
    }
}

impl PendingLock {
    /// The GRANTED call that tells the waiting caller.
    pub fn callback(&self) -> (r: Callback)
        ensures
            r@ == self@.callback(),
    {
        let mut cookie: Vec<u8> = Vec::new();
        put_u64(&mut cookie, self.cookie);
        assert(cookie@ =~= self@.callback().args.cookie);
        Callback {
            reply_to: self.reply_to.clone(),
            args: nlm_testargs { cookie, exclusive: self.exclusive, alock: self.lock.clone() },
        }
    }
}

/// What a call brings with it besides its bytes.
#[derive(Debug, PartialEq, Eq)]
pub struct CallContext {
    /// What the administrator has declared of the server.
    pub server: ServerState,
    /// Where the caller can be reached later, as the transport names it.
    pub reply_to: Vec<u8>,
}

impl View for CallContext {
    type V = CallView;

    open spec fn view(&self) -> CallView {
        CallView { server: self.server, reply_to: self.reply_to@ }
    }
}

impl Clone for CallContext {
    fn clone(&self) -> (r: Self)
        ensures
            r@ == self@,
    {
        CallContext { server: self.server, reply_to: self.reply_to.clone() }
    }
}

/// The answer to a TEST.
#[derive(Clone, Copy, Debug, PartialEq, Eq, Structural)]
pub struct TestOutcome {
    pub stat: nlm4_stats,
    /// For a denied test, whether the first lock in the way is exclusive.
    pub holder_exclusive: Option<bool>,
}

/// The held locks as mathematical values.
pub open spec fn held_views(v: Seq<HeldLock>) -> Seq<HeldView> {
    Seq::new(v.len(), |i: int| v[i]@)
}

/// The pending requests as mathematical values.
pub open spec fn pending_views(v: Seq<PendingLock>) -> Seq<PendingView> {
    Seq::new(v.len(), |i: int| v[i]@)
}

/// The callbacks as mathematical values.
pub open spec fn callback_views(v: Seq<Callback>) -> Seq<CallbackView> {
    Seq::new(v.len(), |i: int| v[i]@)
}

/// Whether the held lock stands in the way of a request for `lock`.
fn stands_in_way(h: &HeldLock, lock: &nlm4_lock, exclusive: bool) -> (r: bool)
    ensures
        r == conflicts(h@, lock@, exclusive),
{
    (h.exclusive || exclusive) && bytes_eq(&h.lock.fh, &lock.fh) && h.lock.overlaps(lock)
}

/// The index of the first held lock that stands in the way of a request for
/// `lock`.
fn find_conflict(held: &Vec<HeldLock>, lock: &nlm4_lock, exclusive: bool) -> (r: Option<usize>)
    ensures
        r matches Some(i) ==> i < held@.len() && first_conflict(
            held_views(held@),
            lock@,
            exclusive,
        ) == Some(i as int),
        r is None ==> first_conflict(held_views(held@), lock@, exclusive) is None,
{
    let ghost views = held_views(held@);
    let mut i: usize = 0;
    while i < held.len()
        invariant
            i <= held@.len(),
            views == held_views(held@),
            forall|j: int| 0 <= j < i ==> !conflicts(#[trigger] views[j], lock@, exclusive),
        decreases held@.len() - i,
    {
        if stands_in_way(&held[i], lock, exclusive) {
            proof {
                lemma_first_conflict(views, lock@, exclusive);
                assert(conflicts(views[i as int], lock@, exclusive));
                let found = first_conflict(views, lock@, exclusive).unwrap();
                assert(!conflicts(views[found], lock@, exclusive) || found >= i);
            }
            return Some(i);
        }
        i = i + 1;
    }
    proof {
        lemma_first_conflict(views, lock@, exclusive);
    }
    None
}

/// The table of locks. Nothing but its own operations changes it.
pub struct LockTable {
    held: Vec<HeldLock>,
    pending: Vec<PendingLock>,
    next_cookie: u64,
}

impl View for LockTable {
    type V = TableView;

    closed spec fn view(&self) -> TableView {
        TableView {
            held: held_views(self.held@),
            pending: pending_views(self.pending@),
            next_cookie: self.next_cookie,
        }
    }
}

impl LockTable {
    /// A request waits only while a held lock stands in its way. This holds
    /// of every table at all times.
    #[verifier::type_invariant]
    pub open spec fn well_formed(self) -> bool {
        self@.wf()
    }

    /// The table with no lock and no request.
    pub fn new() -> (r: Self)
        ensures
            r@ == TableView::empty(),
            r@.wf(),
    {
        let r = LockTable { held: Vec::new(), pending: Vec::new(), next_cookie: 0 };
        assert(r@.held =~= Seq::empty());
        assert(r@.pending =~= Seq::empty());
        r
    }

    /// TEST: whether a request for `lock` would find a held lock in its way.
    /// The table is not changed.
    pub fn test(&self, lock: &nlm4_lock, exclusive: bool) -> (r: TestOutcome)
        ensures
            (r.stat, r.holder_exclusive) == self@.test(lock@, exclusive),
            self@.wf(),
    {
        proof {
            use_type_invariant(self);
        }
        match find_conflict(&self.held, lock, exclusive) {
            None => TestOutcome { stat: nlm4_stats::NLM4_GRANTED, holder_exclusive: None },
            Some(i) => TestOutcome {
                stat: nlm4_stats::NLM4_DENIED,
                holder_exclusive: Some(self.held[i].exclusive),
            },
        }
    }

    /// Whether the owner of the held lock `i` has a pending request that the
    /// held lock `k` stands in the way of.
    fn waits_on(&self, i: usize, k: usize) -> (r: bool)
        requires
            i < self@.held.len(),
            k < self@.held.len(),
        ensures
            r == self@.waits_on(i as int, k as int),
    {
        let ghost t = self@;
        let mut j: usize = 0;
        while j < self.pending.len()
            invariant
                j <= self.pending@.len(),
                i < self.held@.len(),
                k < self.held@.len(),
                t == self@,
                forall|m: int|
                    0 <= m < j ==> !((#[trigger] t.pending[m]).lock.same_owner(
                        t.held[i as int].lock,
                    ) && conflicts(t.held[k as int], t.pending[m].lock, t.pending[m].exclusive)),
            decreases self.pending@.len() - j,
        {
            let p = &self.pending[j];
            if p.lock.same_owner(&self.held[i].lock) && stands_in_way(
                &self.held[k],
                &p.lock,
                p.exclusive,
            ) {
                assert(t.pending[j as int].lock.same_owner(t.held[i as int].lock) && conflicts(
                    t.held[k as int],
                    t.pending[j as int].lock,
                    t.pending[j as int].exclusive,
                ));
                return true;
            }
            j = j + 1;
        }
        false
    }

    /// For each held lock, whether it stands in the way of a request for
    /// `lock`.
    fn locks_in_way(&self, lock: &nlm4_lock, exclusive: bool) -> (r: Vec<bool>)
        ensures
            r@.len() == self@.held.len(),
            forall|m: int|
                0 <= m < r@.len() ==> r@[m] == conflicts(#[trigger] self@.held[m], lock@, exclusive),
    {
        let ghost t = self@;
        let mut in_way: Vec<bool> = Vec::new();
        let mut i: usize = 0;
        while i < self.held.len()
            invariant
                i <= self.held@.len(),
                t == self@,
                in_way@.len() == i,
                forall|m: int|
                    0 <= m < i ==> in_way@[m] == conflicts(#[trigger] t.held[m], lock@, exclusive),
            decreases self.held@.len() - i,
        {
            in_way.push(stands_in_way(&self.held[i], lock, exclusive));
            i = i + 1;
        }
        in_way
    }

    /// For each held lock, whether a chain of one or more waits leads to it
    /// from a lock that stands in the way of a request for `lock`. The marks
    /// are spread along the waits until a whole round sets no new one.
    fn locks_reached(&self, lock: &nlm4_lock, exclusive: bool) -> (r: Vec<bool>)
        ensures
            r@.len() == self@.held.len(),
            forall|k: int|
                0 <= k < r@.len() ==> r@[k] == #[trigger] self@.reached(lock@, exclusive, k),
    {
        let ghost t = self@;
        let n: usize = self.held.len();
        let in_way = self.locks_in_way(lock, exclusive);
        let mut reached: Vec<bool> = Vec::new();
        let mut filled: usize = 0;
        while filled < n
            invariant
                filled <= n,
                reached@.len() == filled,
                marks(reached@) == 0,
                forall|k: int| 0 <= k < filled ==> !reached@[k],
            decreases n - filled,
        {
            assert(reached@.push(false).drop_last() =~= reached@);
            reached.push(false);
            filled = filled + 1;
        }
        let mut marked: usize = 0;
        loop
            invariant
                t == self@,
                n == t.held.len(),
                in_way@.len() == n,
                reached@.len() == n,
                forall|m: int|
                    0 <= m < n ==> in_way@[m] == conflicts(#[trigger] t.held[m], lock@, exclusive),
                marked == marks(reached@),
                marked <= n,
                forall|k: int|
                    0 <= k < n && reached@[k] ==> #[trigger] t.reached(lock@, exclusive, k),
            ensures
                reached@.len() == n,
                forall|k: int|
                    0 <= k < n && reached@[k] ==> #[trigger] t.reached(lock@, exclusive, k),
                forall|i: int, m: int|
                    0 <= i < n && 0 <= m < n && (in_way@[i] || reached@[i]) && #[trigger] t.waits_on(
                        i,
                        m,
                    ) ==> reached@[m],
            decreases n - marked,
        {
            let before: usize = marked;
            let ghost start = reached@;
            let mut i: usize = 0;
            while i < n
                invariant
                    i <= n,
                    t == self@,
                    n == t.held.len(),
                    in_way@.len() == n,
                    reached@.len() == n,
                    start.len() == n,
                    forall|m: int|
                        0 <= m < n ==> in_way@[m] == conflicts(
                            #[trigger] t.held[m],
                            lock@,
                            exclusive,
                        ),
                    marked == marks(reached@),
                    before <= marked,
                    marked == before ==> reached@ == start,
                    forall|k: int| 0 <= k < n && start[k] ==> reached@[k],
                    forall|k: int|
                        0 <= k < n && reached@[k] ==> #[trigger] t.reached(lock@, exclusive, k),
                    forall|a: int, m: int|
                        0 <= a < i && 0 <= m < n && (in_way@[a] || start[a]) && #[trigger] t.waits_on(
                            a,
                            m,
                        ) ==> reached@[m],
                decreases n - i,
            {
                if in_way[i] || reached[i] {
                    let mut k: usize = 0;
                    while k < n
                        invariant
                            k <= n,
                            i < n,
                            t == self@,
                            n == t.held.len(),
                            in_way@.len() == n,
                            reached@.len() == n,
                            start.len() == n,
                            in_way@[i as int] || reached@[i as int],
                            forall|m: int|
                                0 <= m < n ==> in_way@[m] == conflicts(
                                    #[trigger] t.held[m],
                                    lock@,
                                    exclusive,
                                ),
                            marked == marks(reached@),
                            before <= marked,
                            marked == before ==> reached@ == start,
                            forall|m: int| 0 <= m < n && start[m] ==> reached@[m],
                            forall|m: int|
                                0 <= m < n && reached@[m] ==> #[trigger] t.reached(
                                    lock@,
                                    exclusive,
                                    m,
                                ),
                            forall|a: int, m: int|
                                0 <= a < i && 0 <= m < n && (in_way@[a] || start[a])
                                    && #[trigger] t.waits_on(a, m) ==> reached@[m],
                            forall|m: int|
                                0 <= m < k && #[trigger] t.waits_on(i as int, m) ==> reached@[m],
                        decreases n - k,
                    {
                        if !reached[k] && self.waits_on(i, k) {
                            proof {
                                lemma_marks_set(reached@, k as int);
                                lemma_marks_bound(reached@.update(k as int, true));
                                lemma_wait_extends_chain(
                                    t,
                                    lock@,
                                    exclusive,
                                    i as int,
                                    k as int,
                                    reached@[i as int],
                                );
                            }
                            reached[k] = true;
                            marked = marked + 1;
                        }
                        k = k + 1;
                    }
                }
                i = i + 1;
            }
            proof {
                lemma_marks_bound(reached@);
            }
            if marked == before {
                break;
            }
        }
        proof {
            assert forall|k: int| 0 <= k < n implies reached@[k] == #[trigger] t.reached(
                lock@,
                exclusive,
                k,
            ) by {
                if t.reached(lock@, exclusive, k) {
                    let m = choose|m: nat|
                        m >= 1 && #[trigger] t.chain_reaches(lock@, exclusive, k, m);
                    lemma_closed_marks_hold_chains(t, lock@, exclusive, reached@, k, m);
                }
            }
        }
        reached
    }

    /// Whether queueing a request for `lock` would close a cycle of waits.
    fn would_deadlock(&self, lock: &nlm4_lock, exclusive: bool) -> (r: bool)
        ensures
            r == self@.would_deadlock(lock@, exclusive),
    {
        let ghost t = self@;
        let reached = self.locks_reached(lock, exclusive);
        let mut k: usize = 0;
        while k < self.held.len()
            invariant
                k <= self.held@.len(),
                t == self@,
                reached@.len() == t.held.len(),
                forall|m: int|
                    0 <= m < reached@.len() ==> reached@[m] == #[trigger] t.reached(
                        lock@,
                        exclusive,
                        m,
                    ),
                forall|m: int|
                    0 <= m < k ==> !(#[trigger] t.reached(lock@, exclusive, m)
                        && t.held[m].lock.same_owner(lock@)),
            decreases self.held@.len() - k,
        {
            if reached[k] && self.held[k].lock.same_owner(lock) {
                assert(t.reached(lock@, exclusive, k as int) && t.held[k as int].lock.same_owner(
                    lock@,
                ));
                return true;
            }
            k = k + 1;
        }
        false
    }

    /// LOCK: grants, denies, refuses or queues the request, as the model says.
    pub fn acquire(&mut self, args: &nlm_lockargs, call: &CallContext) -> (stat: nlm4_stats)
        ensures
            (final(self)@, stat) == old(self)@.acquire(args@, call@),
            old(self)@.wf(),
            final(self)@.wf(),
    {
        proof {
            use_type_invariant(&*self);
            lemma_acquire_wf(self@, args@, call@);
            lemma_first_conflict(self@.held, args.alock@, args.exclusive);
        }
        let state = &call.server;
        let grant = if state.grace {
            if !args.reclaim {
                return nlm4_stats::NLM4_DENIED_GRACE_PERIOD;
            }
            true
        } else {
            find_conflict(&self.held, &args.alock, args.exclusive).is_none()
        };
        if grant {
            let entry = HeldLock {
                lock: args.alock.clone(),
                exclusive: args.exclusive,
                epoch: state.epoch,
            };
            assert(held_views(self.held@.push(entry)) =~= held_views(self.held@).push(entry@));
            let mut pending: Vec<PendingLock> = Vec::new();
            std::mem::swap(&mut self.pending, &mut pending);
            let mut held: Vec<HeldLock> = Vec::new();
            std::mem::swap(&mut self.held, &mut held);
            held.push(entry);
            self.held = held;
            self.pending = pending;
            return nlm4_stats::NLM4_GRANTED;
        }
        if !args.block {
            return nlm4_stats::NLM4_DENIED;
        }
        if self.would_deadlock(&args.alock, args.exclusive) {
            return nlm4_stats::NLM4_DEADLCK;
        }
        let entry = PendingLock {
            lock: args.alock.clone(),
            exclusive: args.exclusive,
            cookie: self.next_cookie,
            reply_to: call.reply_to.clone(),
        };
        let next: u64 = if self.next_cookie == u64::MAX {
            0
        } else {
            self.next_cookie + 1
        };
        assert(pending_views(self.pending@.push(entry)) =~= pending_views(self.pending@).push(
            entry@,
        ));
        let mut pending: Vec<PendingLock> = Vec::new();
        std::mem::swap(&mut self.pending, &mut pending);
        pending.push(entry);
        self.pending = pending;
        self.next_cookie = next;
        nlm4_stats::NLM4_BLOCKED
    }

    /// CANCEL: takes every pending request for the claim `lock` out of the
    /// queue. Granted where there was one, denied where there was none.
    pub fn cancel(&mut self, lock: &nlm4_lock) -> (stat: nlm4_stats)
        ensures
            (final(self)@, stat) == old(self)@.cancel(lock@),
            old(self)@.wf(),
            final(self)@.wf(),
    {
        proof {
            use_type_invariant(&*self);
            lemma_cancel_wf(self@, lock@);
        }
        let mut pending: Vec<PendingLock> = Vec::new();
        std::mem::swap(&mut self.pending, &mut pending);
        let ghost before = pending_views(pending@);
        let ghost pred = pending_for_other_claim(lock@);
        let mut kept: Vec<PendingLock> = Vec::new();
        let mut found = false;
        let mut j: usize = 0;
        assert(before.take(0) =~= Seq::empty());
        assert(pending_views(kept@) =~= Seq::empty());
        assert(before.take(0).filter(pred) =~= Seq::empty()) by {
            reveal(Seq::filter);
        }
        while j < pending.len()
            invariant
                j <= pending@.len(),
                before == pending_views(pending@),
                pred == pending_for_other_claim(lock@),
                pending_views(kept@) == before.take(j as int).filter(pred),
                found <==> exists|m: int|
                    0 <= m < j && (#[trigger] before[m]).lock.same_claim(lock@),
            decreases pending@.len() - j,
        {
            let ghost old_kept = pending_views(kept@);
            if pending[j].lock.same_claim(lock) {
                found = true;
                assert(before[j as int].lock.same_claim(lock@));
            } else {
                let entry = pending[j].clone();
                assert(pending_views(kept@.push(entry)) =~= old_kept.push(entry@));
                kept.push(entry);
            }
            proof {
                assert(before.take(j + 1) =~= before.take(j as int).push(before[j as int]));
                before.take(j as int).lemma_filter_push(before[j as int], pred);
            }
            j = j + 1;
        }
        assert(before.take(j as int) =~= before);
        self.pending = kept;
        if found {
            nlm4_stats::NLM4_GRANTED
        } else {
            nlm4_stats::NLM4_DENIED
        }
    }

    /// UNLOCK: takes every held lock for the claim `lock` out of the table and
    /// passes over the queue once for the requests on that file. Returns the
    /// callbacks owed to the callers whose requests were granted; the answer
    /// to the caller is GRANTED in every case.
    pub fn release(&mut self, lock: &nlm4_lock, state: &ServerState) -> (granted: Vec<Callback>)
        ensures
            (final(self)@, callback_views(granted@)) == old(self)@.release(lock@, state.epoch),
            old(self)@.wf(),
            final(self)@.wf(),
    {
        proof {
            use_type_invariant(&*self);
            lemma_release_wf(self@, lock@, state.epoch);
        }
        let mut pending: Vec<PendingLock> = Vec::new();
        std::mem::swap(&mut self.pending, &mut pending);
        let mut held: Vec<HeldLock> = Vec::new();
        std::mem::swap(&mut self.held, &mut held);
        let kept = without_claim(&held, lock);
        let (kept, waiting, granted) = pass_over_queue(
            kept,
            &pending,
            Some(&lock.fh),
            state.epoch,
        );
        self.held = kept;
        self.pending = waiting;
        granted
    }

    /// The host `caller` is known to have restarted: takes every lock it
    /// held and every request it made out of the table, and passes over the
    /// whole queue once. Returns the callbacks owed to the callers whose
    /// requests were granted.
    pub fn forget_host(&mut self, caller: &Vec<u8>, state: &ServerState) -> (granted: Vec<
        Callback,
    >)
        ensures
            (final(self)@, callback_views(granted@)) == old(self)@.forget_host(
                caller@,
                state.epoch,
            ),
            old(self)@.wf(),
            final(self)@.wf(),
    {
        proof {
            use_type_invariant(&*self);
            lemma_forget_host_wf(self@, caller@, state.epoch);
        }
        let mut pending: Vec<PendingLock> = Vec::new();
        std::mem::swap(&mut self.pending, &mut pending);
        let mut held: Vec<HeldLock> = Vec::new();
        std::mem::swap(&mut self.held, &mut held);
        let kept = without_host_locks(&held, caller);
        let still = without_host_requests(&pending, caller);
        let (kept, waiting, granted) = pass_over_queue(kept, &still, None, state.epoch);
        self.held = kept;
        self.pending = waiting;
        granted
    }

    /// Whether some held lock or pending request was asked for by the host
    /// `caller`.
    pub fn names(&self, caller: &Vec<u8>) -> (r: bool)
        ensures
            r == self@.names(caller@),
    {
        let ghost t = self@;
        let mut i: usize = 0;
        while i < self.held.len()
            invariant
                i <= self.held@.len(),
                t == self@,
                forall|m: int| 0 <= m < i ==> (#[trigger] t.held[m]).lock.caller_name != caller@,
            decreases self.held@.len() - i,
        {
            if bytes_eq(&self.held[i].lock.caller_name, caller) {
                assert(t.held[i as int].lock.caller_name == caller@);
                return true;
            }
            i = i + 1;
        }
        let mut j: usize = 0;
        while j < self.pending.len()
            invariant
                j <= self.pending@.len(),
                t == self@,
                forall|m: int|
                    0 <= m < t.held.len() ==> (#[trigger] t.held[m]).lock.caller_name != caller@,
                forall|m: int|
                    0 <= m < j ==> (#[trigger] t.pending[m]).lock.caller_name != caller@,
            decreases self.pending@.len() - j,
        {
            if bytes_eq(&self.pending[j].lock.caller_name, caller) {
                assert(t.pending[j as int].lock.caller_name == caller@);
                return true;
            }
            j = j + 1;
        }
        false
    }

    /// Whether some held lock is for the claim `lock`.
    pub fn holds(&self, lock: &nlm4_lock) -> (r: bool)
        ensures
            r == self@.holds(lock@),
    {
        let ghost t = self@;
        let mut i: usize = 0;
        while i < self.held.len()
            invariant
                i <= self.held@.len(),
                t == self@,
                forall|m: int| 0 <= m < i ==> !(#[trigger] t.held[m]).lock.same_claim(lock@),
            decreases self.held@.len() - i,
        {
            if self.held[i].lock.same_claim(lock) {
                assert(t.held[i as int].lock.same_claim(lock@));
                return true;
            }
            i = i + 1;
        }
        false
    }

    /// Whether some pending request is for the claim `lock`.
    pub fn awaits(&self, lock: &nlm4_lock) -> (r: bool)
        ensures
            r == self@.awaits(lock@),
    {
        let ghost t = self@;
        let mut j: usize = 0;
        while j < self.pending.len()
            invariant
                j <= self.pending@.len(),
                t == self@,
                forall|m: int| 0 <= m < j ==> !(#[trigger] t.pending[m]).lock.same_claim(lock@),
            decreases self.pending@.len() - j,
        {
            if self.pending[j].lock.same_claim(lock) {
                assert(t.pending[j as int].lock.same_claim(lock@));
                return true;
            }
            j = j + 1;
        }
        false
    }

    /// The locks that are held, oldest first.
    pub fn held_locks(&self) -> (r: Vec<HeldLock>)
        ensures
            held_views(r@) == self@.held,
    {
        let mut out: Vec<HeldLock> = Vec::new();
        let mut i: usize = 0;
        while i < self.held.len()
            invariant
                i <= self.held@.len(),
                out@.len() == i,
                forall|m: int| 0 <= m < i ==> (#[trigger] out@[m])@ == self.held@[m]@,
            decreases self.held@.len() - i,
        {
            out.push(self.held[i].clone());
            i = i + 1;
        }
        assert(held_views(out@) =~= self@.held);
        out
    }

    /// The blocking requests that wait, oldest first.
    pub fn pending_requests(&self) -> (r: Vec<PendingLock>)
        ensures
            pending_views(r@) == self@.pending,
    {
        let mut out: Vec<PendingLock> = Vec::new();
        let mut j: usize = 0;
        while j < self.pending.len()
            invariant
                j <= self.pending@.len(),
                out@.len() == j,
                forall|m: int| 0 <= m < j ==> (#[trigger] out@[m])@ == self.pending@[m]@,
            decreases self.pending@.len() - j,
        {
            out.push(self.pending[j].clone());
            j = j + 1;
        }
        assert(pending_views(out@) =~= self@.pending);
        out
    }
}

/// The held locks that are not for the claim `lock`, in their order.
fn without_claim(held: &Vec<HeldLock>, lock: &nlm4_lock) -> (kept: Vec<HeldLock>)
    ensures
        held_views(kept@) == held_views(held@).filter(held_for_other_claim(lock@)),
{
    let ghost before = held_views(held@);
    let ghost pred = held_for_other_claim(lock@);
    let mut kept: Vec<HeldLock> = Vec::new();
    let mut i: usize = 0;
    assert(before.take(0) =~= Seq::empty());
    assert(held_views(kept@) =~= Seq::empty());
    assert(before.take(0).filter(pred) =~= Seq::empty()) by {
        reveal(Seq::filter);
    }
    while i < held.len()
        invariant
            i <= held@.len(),
            before == held_views(held@),
            pred == held_for_other_claim(lock@),
            held_views(kept@) == before.take(i as int).filter(pred),
        decreases held@.len() - i,
    {
        let ghost old_kept = held_views(kept@);
        if !held[i].lock.same_claim(lock) {
            let entry = held[i].clone();
            assert(held_views(kept@.push(entry)) =~= old_kept.push(entry@));
            kept.push(entry);
        }
        proof {
            assert(before.take(i + 1) =~= before.take(i as int).push(before[i as int]));
            before.take(i as int).lemma_filter_push(before[i as int], pred);
        }
        i = i + 1;
    }
    assert(before.take(i as int) =~= before);
    kept
}

/// The held locks that the host `caller` did not ask for, in their order.
fn without_host_locks(held: &Vec<HeldLock>, caller: &Vec<u8>) -> (kept: Vec<HeldLock>)
    ensures
        held_views(kept@) == held_views(held@).filter(held_for_other_host(caller@)),
{
    let ghost before = held_views(held@);
    let ghost pred = held_for_other_host(caller@);
    let mut kept: Vec<HeldLock> = Vec::new();
    let mut i: usize = 0;
    assert(before.take(0) =~= Seq::empty());
    assert(held_views(kept@) =~= Seq::empty());
    assert(before.take(0).filter(pred) =~= Seq::empty()) by {
        reveal(Seq::filter);
    }
    while i < held.len()
        invariant
            i <= held@.len(),
            before == held_views(held@),
            pred == held_for_other_host(caller@),
            held_views(kept@) == before.take(i as int).filter(pred),
        decreases held@.len() - i,
    {
        let ghost old_kept = held_views(kept@);
        if !bytes_eq(&held[i].lock.caller_name, caller) {
            let entry = held[i].clone();
            assert(held_views(kept@.push(entry)) =~= old_kept.push(entry@));
            kept.push(entry);
        }
        proof {
            assert(before.take(i + 1) =~= before.take(i as int).push(before[i as int]));
            before.take(i as int).lemma_filter_push(before[i as int], pred);
        }
        i = i + 1;
    }
    assert(before.take(i as int) =~= before);
    kept
}

/// The pending requests that the host `caller` did not make, in their order.
fn without_host_requests(pending: &Vec<PendingLock>, caller: &Vec<u8>) -> (kept: Vec<PendingLock>)
    ensures
        pending_views(kept@) == pending_views(pending@).filter(pending_for_other_host(caller@)),
{
    let ghost before = pending_views(pending@);
    let ghost pred = pending_for_other_host(caller@);
    let mut kept: Vec<PendingLock> = Vec::new();
    let mut j: usize = 0;
    assert(before.take(0) =~= Seq::empty());
    assert(pending_views(kept@) =~= Seq::empty());
    assert(before.take(0).filter(pred) =~= Seq::empty()) by {
        reveal(Seq::filter);
    }
    while j < pending.len()
        invariant
            j <= pending@.len(),
            before == pending_views(pending@),
            pred == pending_for_other_host(caller@),
            pending_views(kept@) == before.take(j as int).filter(pred),
        decreases pending@.len() - j,
    {
        let ghost old_kept = pending_views(kept@);
        if !bytes_eq(&pending[j].lock.caller_name, caller) {
            let entry = pending[j].clone();
            assert(pending_views(kept@.push(entry)) =~= old_kept.push(entry@));
            kept.push(entry);
        }
        proof {
            assert(before.take(j + 1) =~= before.take(j as int).push(before[j as int]));
            before.take(j as int).lemma_filter_push(before[j as int], pred);
        }
        j = j + 1;
    }
    assert(before.take(j as int) =~= before);
    kept
}

/// The file that a pass over the queue is for, as a mathematical value.
pub open spec fn scope_view(scope: Option<&Vec<u8>>) -> Option<Seq<u8>> {
    match scope {
        Some(fh) => Some(fh@),
        None => None,
    }
}

/// One pass over the queue `pending` for the requests on the file `scope`,
/// or for all of them where no file is given: the held locks with those
/// granted, the requests that still wait, and the callbacks owed.
fn pass_over_queue(
    held: Vec<HeldLock>,
    pending: &Vec<PendingLock>,
    scope: Option<&Vec<u8>>,
    epoch: u64,
) -> (r: (Vec<HeldLock>, Vec<PendingLock>, Vec<Callback>))
    ensures
        ({
            let after = resume(
                held_views(held@),
                pending_views(pending@),
                scope_view(scope),
                epoch,
            );
            &&& held_views(r.0@) == after.held
            &&& pending_views(r.1@) == after.pending
            &&& callback_views(r.2@) == after.granted
        }),
{
    let ghost start = held_views(held@);
    let ghost queue = pending_views(pending@);
    let ghost fh = scope_view(scope);
    let mut held = held;
    let mut waiting: Vec<PendingLock> = Vec::new();
    let mut granted: Vec<Callback> = Vec::new();
    let mut j: usize = 0;
    assert(queue.take(0) =~= Seq::empty());
    assert(pending_views(waiting@) =~= Seq::empty());
    assert(callback_views(granted@) =~= Seq::empty());
    while j < pending.len()
        invariant
            j <= pending@.len(),
            queue == pending_views(pending@),
            fh == scope_view(scope),
            held_views(held@) == resume(start, queue.take(j as int), fh, epoch).held,
            pending_views(waiting@) == resume(start, queue.take(j as int), fh, epoch).pending,
            callback_views(granted@) == resume(start, queue.take(j as int), fh, epoch).granted,
        decreases pending@.len() - j,
    {
        let p = &pending[j];
        let ghost so_far = resume(start, queue.take(j as int), fh, epoch);
        proof {
            assert(queue.take(j + 1).drop_last() =~= queue.take(j as int));
            assert(queue.take(j + 1).last() == p@);
            lemma_first_conflict(so_far.held, p@.lock, p@.exclusive);
        }
        let looked_at = match scope {
            Some(file) => bytes_eq(&p.lock.fh, file),
            None => true,
        };
        if looked_at && find_conflict(&held, &p.lock, p.exclusive).is_none() {
            let entry = HeldLock { lock: p.lock.clone(), exclusive: p.exclusive, epoch };
            let call = p.callback();
            assert(held_views(held@.push(entry)) =~= so_far.held.push(entry@));
            assert(callback_views(granted@.push(call)) =~= so_far.granted.push(call@));
            held.push(entry);
            granted.push(call);
        } else {
            let entry = p.clone();
            assert(pending_views(waiting@.push(entry)) =~= so_far.pending.push(entry@));
            waiting.push(entry);
        }
        j = j + 1;
    }
    assert(queue.take(j as int) =~= queue);
    (held, waiting, granted)
}

} // verus!
