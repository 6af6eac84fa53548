use nlm_service::lock_model::ServerState;
use nlm_service::lock_table::{CallContext, Callback, HeldLock, LockTable};
use nlm_service::nlm::{
    nlm4_lock, nlm4_stats, nlm_cancargs, nlm_lockargs, nlm_res, nlm_testargs, nlm_testres,
    nlm_unlockargs,
};
use nlm_service::nlm_handlers::{
    drain_argument, handle_nlm, nlmproc4_cancel, nlmproc4_lock, nlmproc4_null, nlmproc4_test,
    nlmproc4_unlock, ArgumentShape, NlmProgram, Outcome,
};
use nlm_service::rpc::call_body;
use nlm_service::xdr::ProtocolDecodeError;

fn normal() -> CallContext {
    CallContext { server: ServerState { grace: false, epoch: 1 }, reply_to: b"client".to_vec() }
}

fn grace() -> CallContext {
    CallContext { server: ServerState { grace: true, epoch: 2 }, reply_to: b"client".to_vec() }
}

const SUCCESS: [u8; 20] = [0, 0, 0, 1, 0, 0, 0, 0, 0, 0, 0, 0, 0, 0, 0, 0, 0, 0, 0, 0];
const PROC_UNAVAIL: [u8; 20] = [0, 0, 0, 1, 0, 0, 0, 0, 0, 0, 0, 0, 0, 0, 0, 0, 0, 0, 0, 3];
const MISMATCH: [u8; 28] =
    [0, 0, 0, 1, 0, 0, 0, 0, 0, 0, 0, 0, 0, 0, 0, 0, 0, 0, 0, 2, 0, 0, 0, 4, 0, 0, 0, 4];

fn call(vers: u32, proc: u32) -> call_body {
    call_body { rpcvers: 2, prog: 100021, vers, proc }
}

fn lock_of(owner: u8, l_offset: u64, l_len: u64) -> nlm4_lock {
    nlm4_lock {
        caller_name: b"host".to_vec(),
        fh: vec![1, 2, 3, 4, 5, 6],
        oh: vec![owner],
        svid: 100 + owner as i32,
        l_offset,
        l_len,
    }
}

fn lock_call(cookie: &[u8], lock: &nlm4_lock, exclusive: bool, block: bool) -> Vec<u8> {
    let args = nlm_lockargs {
        cookie: cookie.to_vec(),
        block,
        exclusive,
        alock: lock.clone(),
        reclaim: false,
        state: 0,
    };
    let mut bytes = Vec::new();
    args.serialize(&mut bytes);
    bytes
}

fn test_call(cookie: &[u8], lock: &nlm4_lock, exclusive: bool) -> Vec<u8> {
    let args = nlm_testargs { cookie: cookie.to_vec(), exclusive, alock: lock.clone() };
    let mut bytes = Vec::new();
    args.serialize(&mut bytes);
    bytes
}

fn cancel_call(cookie: &[u8], lock: &nlm4_lock) -> Vec<u8> {
    let args =
        nlm_cancargs { cookie: cookie.to_vec(), block: true, exclusive: true, alock: lock.clone() };
    let mut bytes = Vec::new();
    args.serialize(&mut bytes);
    bytes
}

fn unlock_call(cookie: &[u8], lock: &nlm4_lock) -> Vec<u8> {
    let args = nlm_unlockargs { cookie: cookie.to_vec(), alock: lock.clone() };
    let mut bytes = Vec::new();
    args.serialize(&mut bytes);
    bytes
}

fn envelope(xid: u32, rest: &[u8]) -> Vec<u8> {
    let mut bytes = xid.to_be_bytes().to_vec();
    bytes.extend_from_slice(rest);
    bytes
}

fn res_reply(xid: u32, cookie: &[u8], stat: nlm4_stats) -> Vec<u8> {
    let mut bytes = envelope(xid, &SUCCESS);
    nlm_res { cookie: cookie.to_vec(), stat }.serialize(&mut bytes);
    bytes
}

fn plain(consumed: usize) -> Outcome {
    Outcome { consumed, holder_exclusive: None, granted: Vec::new() }
}

#[test]
fn procedure_numbers() {
    assert_eq!(NlmProgram::from_u32(0), NlmProgram::NLMPROC4_NULL);
    assert_eq!(NlmProgram::from_u32(1), NlmProgram::NLMPROC4_TEST);
    assert_eq!(NlmProgram::from_u32(2), NlmProgram::NLMPROC4_LOCK);
    assert_eq!(NlmProgram::from_u32(3), NlmProgram::NLMPROC4_CANCEL);
    assert_eq!(NlmProgram::from_u32(4), NlmProgram::NLMPROC4_UNLOCK);
    assert_eq!(NlmProgram::from_u32(5), NlmProgram::NLMPROC4_GRANTED);
    assert_eq!(NlmProgram::from_u32(6), NlmProgram::NLMPROC4_TEST_MSG);
    assert_eq!(NlmProgram::from_u32(10), NlmProgram::NLMPROC4_GRANTED_MSG);
    assert_eq!(NlmProgram::from_u32(11), NlmProgram::NLMPROC4_TEST_RES);
    assert_eq!(NlmProgram::from_u32(15), NlmProgram::NLMPROC4_GRANTED_RES);
    assert_eq!(NlmProgram::from_u32(16), NlmProgram::INVALID);
    assert_eq!(NlmProgram::from_u32(19), NlmProgram::INVALID);
    assert_eq!(NlmProgram::from_u32(20), NlmProgram::NLMPROC4_SHARE);
    assert_eq!(NlmProgram::from_u32(21), NlmProgram::NLMPROC4_UNSHARE);
    assert_eq!(NlmProgram::from_u32(22), NlmProgram::NLMPROC4_NM_LOCK);
    assert_eq!(NlmProgram::from_u32(23), NlmProgram::NLMPROC4_FREE_ALL);
    assert_eq!(NlmProgram::from_u32(24), NlmProgram::INVALID);
    assert_eq!(NlmProgram::from_u32(u32::MAX), NlmProgram::INVALID);
    assert_eq!(NlmProgram::NLMPROC4_LOCK.argument_to_drain(), None);
    assert_eq!(NlmProgram::NLMPROC4_LOCK_MSG.argument_to_drain(), Some(ArgumentShape::LockArgs));
    assert_eq!(NlmProgram::NLMPROC4_GRANTED_RES.argument_to_drain(), Some(ArgumentShape::Res));
    assert_eq!(NlmProgram::NLMPROC4_FREE_ALL.argument_to_drain(), None);
}

#[test]
fn wrong_version_is_told_the_version_and_reaches_no_handler() {
    let a = lock_of(1, 0, 10);
    for vers in [0u32, 1, 3, 5, u32::MAX] {
        for proc in [0u32, 1, 2, 3, 4, 7, 99] {
            let mut table = LockTable::new();
            table.acquire(
                &nlm_lockargs {
                    cookie: vec![],
                    block: false,
                    exclusive: true,
                    alock: a.clone(),
                    reclaim: false,
                    state: 0,
                },
                &normal(),
            );
            let held_before = table.held_locks();
            let input = unlock_call(b"c", &a);
            let mut output = vec![0x42];
            let r = handle_nlm(77, call(vers, proc), &input, &mut output, &normal(), &mut table);
            assert_eq!(r, Ok(plain(0)));
            let mut expected = vec![0x42];
            expected.extend_from_slice(&envelope(77, &MISMATCH));
            assert_eq!(output, expected);
            assert_eq!(table.held_locks(), held_before);
            assert!(table.pending_requests().is_empty());
        }
    }
}

#[test]
fn null_says_success_and_reads_nothing() {
    let mut table = LockTable::new();
    let mut output = Vec::new();
    let r = handle_nlm(5, call(4, 0), &[1, 2, 3], &mut output, &normal(), &mut table);
    assert_eq!(r, Ok(plain(0)));
    assert_eq!(output, envelope(5, &SUCCESS));
    let mut output = Vec::new();
    assert_eq!(nlmproc4_null(6, &[], &mut output), Ok(plain(0)));
    assert_eq!(output, envelope(6, &SUCCESS));
}

#[test]
fn unknown_procedure_is_unavailable() {
    for proc in [5u32, 16, 19, 20, 21, 22, 23, 24, 1000] {
        let mut table = LockTable::new();
        let mut output = Vec::new();
        let input = lock_call(b"x", &lock_of(1, 0, 1), true, true);
        let r = handle_nlm(9, call(4, proc), &input, &mut output, &normal(), &mut table);
        assert_eq!(r, Ok(plain(0)));
        assert_eq!(output, envelope(9, &PROC_UNAVAIL));
        assert!(table.held_locks().is_empty());
        assert!(table.pending_requests().is_empty());
    }
}

#[test]
fn lock_then_test_through_the_dispatcher() {
    let mut table = LockTable::new();
    let a = lock_of(1, 0, 100);
    let input = lock_call(b"lock-cookie", &a, true, false);
    let mut output = Vec::new();
    let r = handle_nlm(1, call(4, 2), &input, &mut output, &normal(), &mut table);
    assert_eq!(r, Ok(plain(input.len())));
    assert_eq!(output, res_reply(1, b"lock-cookie", nlm4_stats::NLM4_GRANTED));
    assert_eq!(table.held_locks(), vec![HeldLock { lock: a.clone(), exclusive: true, epoch: 1 }]);

    let input = test_call(b"t", &lock_of(2, 50, 100), false);
    let mut output = Vec::new();
    let r = handle_nlm(2, call(4, 1), &input, &mut output, &normal(), &mut table);
    assert_eq!(
        r,
        Ok(Outcome { consumed: input.len(), holder_exclusive: Some(true), granted: Vec::new() })
    );
    let mut expected = envelope(2, &SUCCESS);
    nlm_testres { cookie: b"t".to_vec(), stat: nlm4_stats::NLM4_DENIED }.serialize(&mut expected);
    assert_eq!(output, expected);

    let input = test_call(b"u", &lock_of(2, 100, 100), true);
    let mut output = Vec::new();
    let r = handle_nlm(3, call(4, 1), &input, &mut output, &normal(), &mut table);
    assert_eq!(r, Ok(plain(input.len())));
    let mut expected = envelope(3, &SUCCESS);
    nlm_testres { cookie: b"u".to_vec(), stat: nlm4_stats::NLM4_GRANTED }.serialize(&mut expected);
    assert_eq!(output, expected);
}

#[test]
fn reply_is_appended_to_the_sink() {
    let mut table = LockTable::new();
    let input = test_call(b"", &lock_of(1, 0, 1), true);
    let mut output = vec![1, 2, 3];
    nlmproc4_test(8, &input, &mut output, &table).unwrap();
    assert_eq!(&output[..3], &[1, 2, 3]);
    assert_eq!(output.len(), 3 + 24 + 8);
    let input = lock_call(b"", &lock_of(1, 0, 1), true, false);
    nlmproc4_lock(8, &input, &mut output, &normal(), &mut table).unwrap();
    assert_eq!(output.len(), 3 + 2 * (24 + 8));
}

#[test]
fn blocked_lock_is_answered_at_once_and_granted_on_unlock() {
    let mut table = LockTable::new();
    let holder = lock_of(1, 0, 100);
    let waiter = lock_of(2, 0, 100);
    let mut output = Vec::new();
    handle_nlm(
        1,
        call(4, 2),
        &lock_call(b"a", &holder, true, false),
        &mut output,
        &normal(),
        &mut table,
    )
    .unwrap();
    let input = lock_call(b"wait", &waiter, true, true);
    let mut output = Vec::new();
    let r = handle_nlm(2, call(4, 2), &input, &mut output, &normal(), &mut table);
    assert_eq!(r, Ok(plain(input.len())));
    assert_eq!(output, res_reply(2, b"wait", nlm4_stats::NLM4_BLOCKED));
    assert!(table.awaits(&waiter));

    let input = unlock_call(b"bye", &holder);
    let mut output = Vec::new();
    let r = handle_nlm(3, call(4, 4), &input, &mut output, &normal(), &mut table);
    assert_eq!(
        r,
        Ok(Outcome {
            consumed: input.len(),
            holder_exclusive: None,
            granted: vec![Callback {
                reply_to: b"client".to_vec(),
                args: nlm_testargs { cookie: vec![0; 8], exclusive: true, alock: waiter.clone() },
            }],
        })
    );
    assert_eq!(output, res_reply(3, b"bye", nlm4_stats::NLM4_GRANTED));
    assert!(table.holds(&waiter));
    assert!(!table.awaits(&waiter));
    assert!(!table.holds(&holder));
}

#[test]
fn unlock_is_granted_even_where_nothing_was_held() {
    let mut table = LockTable::new();
    let input = unlock_call(b"k", &lock_of(1, 0, 100));
    let mut output = Vec::new();
    let r = nlmproc4_unlock(4, &input, &mut output, &normal(), &mut table);
    assert_eq!(r, Ok(plain(input.len())));
    assert_eq!(output, res_reply(4, b"k", nlm4_stats::NLM4_GRANTED));
    assert!(table.held_locks().is_empty());
}

#[test]
fn cancel_through_the_dispatcher() {
    let mut table = LockTable::new();
    let holder = lock_of(1, 0, 100);
    let waiter = lock_of(2, 0, 100);
    let mut sink = Vec::new();
    nlmproc4_lock(1, &lock_call(b"", &holder, true, false), &mut sink, &normal(), &mut table)
        .unwrap();
    nlmproc4_lock(2, &lock_call(b"", &waiter, true, true), &mut sink, &normal(), &mut table)
        .unwrap();
    let input = cancel_call(b"cc", &waiter);
    let mut output = Vec::new();
    let r = handle_nlm(3, call(4, 3), &input, &mut output, &normal(), &mut table);
    assert_eq!(r, Ok(plain(input.len())));
    assert_eq!(output, res_reply(3, b"cc", nlm4_stats::NLM4_GRANTED));
    assert!(!table.awaits(&waiter));
    let mut output = Vec::new();
    let r = nlmproc4_cancel(4, &input, &mut output, &mut table);
    assert_eq!(r, Ok(plain(input.len())));
    assert_eq!(output, res_reply(4, b"cc", nlm4_stats::NLM4_DENIED));
    assert!(table.holds(&holder));
}

#[test]
fn grace_period_and_deadlock_statuses_reach_the_wire() {
    let mut table = LockTable::new();
    let mut output = Vec::new();
    let input = lock_call(b"g", &lock_of(1, 0, 10), true, false);
    handle_nlm(1, call(4, 2), &input, &mut output, &grace(), &mut table).unwrap();
    assert_eq!(output, res_reply(1, b"g", nlm4_stats::NLM4_DENIED_GRACE_PERIOD));

    let mut sink = Vec::new();
    nlmproc4_lock(2, &lock_call(b"", &lock_of(1, 0, 10), true, false), &mut sink, &normal(), &mut table)
        .unwrap();
    nlmproc4_lock(3, &lock_call(b"", &lock_of(2, 50, 10), true, false), &mut sink, &normal(), &mut table)
        .unwrap();
    nlmproc4_lock(4, &lock_call(b"", &lock_of(1, 50, 10), true, true), &mut sink, &normal(), &mut table)
        .unwrap();
    let mut output = Vec::new();
    let input = lock_call(b"d", &lock_of(2, 0, 10), true, true);
    handle_nlm(5, call(4, 2), &input, &mut output, &normal(), &mut table).unwrap();
    assert_eq!(output, res_reply(5, b"d", nlm4_stats::NLM4_DEADLCK));
    assert_eq!(table.pending_requests().len(), 1);
}

#[test]
fn arguments_that_cannot_be_decoded_leave_no_trace() {
    let a = lock_of(1, 0, 100);
    let full = lock_call(b"cookie", &a, true, false);
    for proc in [1u32, 2, 3, 4] {
        let mut table = LockTable::new();
        let mut output = vec![0xaa, 0xbb];
        let r = handle_nlm(1, call(4, proc), &full[..20], &mut output, &normal(), &mut table);
        assert_eq!(r, Err(ProtocolDecodeError::Truncated));
        assert_eq!(output, vec![0xaa, 0xbb]);
        assert!(table.held_locks().is_empty());
        assert!(table.pending_requests().is_empty());
        let r = handle_nlm(1, call(4, proc), &[], &mut output, &normal(), &mut table);
        assert_eq!(r, Err(ProtocolDecodeError::Truncated));
        assert_eq!(output, vec![0xaa, 0xbb]);
    }
}

#[test]
fn no_reply_procedures_drain_their_arguments() {
    let a = lock_of(1, 0, 100);
    let mut res_bytes = Vec::new();
    nlm_res { cookie: vec![1, 2, 3], stat: nlm4_stats::NLM4_GRANTED }.serialize(&mut res_bytes);
    let cases: [(u32, Vec<u8>); 10] = [
        (6, test_call(b"abc", &a, true)),
        (7, lock_call(b"abcd", &a, true, true)),
        (8, cancel_call(b"abcde", &a)),
        (9, unlock_call(b"", &a)),
        (10, test_call(b"", &a, false)),
        (11, res_bytes.clone()),
        (12, res_bytes.clone()),
        (13, res_bytes.clone()),
        (14, res_bytes.clone()),
        (15, res_bytes.clone()),
    ];
    for (proc, args) in cases {
        let mut table = LockTable::new();
        let mut input = args.clone();
        input.extend_from_slice(&[0xde, 0xad, 0xbe, 0xef]);
        let mut output = Vec::new();
        let r = handle_nlm(3, call(4, proc), &input, &mut output, &normal(), &mut table);
        assert_eq!(r, Ok(plain(args.len())));
        assert_eq!(output, envelope(3, &PROC_UNAVAIL));
        assert!(table.held_locks().is_empty());
        assert!(table.pending_requests().is_empty());

        let mut output = Vec::new();
        let cut = &args[..args.len() - 1];
        let r = handle_nlm(3, call(4, proc), cut, &mut output, &normal(), &mut table);
        assert_eq!(r, Err(ProtocolDecodeError::Truncated));
        assert!(output.is_empty());
    }
}

#[test]
fn drained_result_with_unknown_status_is_a_decode_error() {
    let mut table = LockTable::new();
    let mut output = Vec::new();
    let input = [0, 0, 0, 0, 0, 0, 0, 42];
    let r = handle_nlm(3, call(4, 12), &input, &mut output, &normal(), &mut table);
    assert_eq!(r, Err(ProtocolDecodeError::UnknownDiscriminant(42)));
    assert!(output.is_empty());
    assert_eq!(
        drain_argument(ArgumentShape::TestRes, &input),
        Err(ProtocolDecodeError::UnknownDiscriminant(42))
    );
    assert_eq!(drain_argument(ArgumentShape::Res, &[0, 0, 0, 0, 0, 0, 0, 9]), Ok(8));
}

#[test]
fn pipelined_calls_stay_in_step() {
    let mut table = LockTable::new();
    let a = lock_of(1, 0, 100);
    let mut stream = lock_call(b"one", &a, true, false);
    let first_len = stream.len();
    stream.extend_from_slice(&lock_call(b"msg", &lock_of(2, 0, 1), true, true));
    let second_len = stream.len() - first_len;
    stream.extend_from_slice(&unlock_call(b"three", &a));
    let mut output = Vec::new();
    let mut at = 0;
    let r = handle_nlm(1, call(4, 2), &stream[at..], &mut output, &normal(), &mut table).unwrap();
    assert_eq!(r.consumed, first_len);
    at += r.consumed;
    let r = handle_nlm(2, call(4, 7), &stream[at..], &mut output, &normal(), &mut table).unwrap();
    assert_eq!(r.consumed, second_len);
    at += r.consumed;
    let r = handle_nlm(3, call(4, 4), &stream[at..], &mut output, &normal(), &mut table).unwrap();
    at += r.consumed;
    assert_eq!(at, stream.len());
    let mut expected = res_reply(1, b"one", nlm4_stats::NLM4_GRANTED);
    expected.extend_from_slice(&envelope(2, &PROC_UNAVAIL));
    expected.extend_from_slice(&res_reply(3, b"three", nlm4_stats::NLM4_GRANTED));
    assert_eq!(output, expected);
    assert!(table.held_locks().is_empty());
}
