use nlm_service::nlm::{
    nlm4_lock, nlm4_stats, nlm_cancargs, nlm_lockargs, nlm_res, nlm_testargs, nlm_testres,
    nlm_unlockargs, IPPROTO_TCP, IPPROTO_UDP, PROGRAM, VERSION,
};
use nlm_service::rpc::{
    make_success_reply, proc_unavail_reply_message, prog_mismatch_reply_message, ReplyStatus,
};
use nlm_service::xdr::{
    get_bool, get_i32, get_opaque, get_u32, get_u64, put_bool, put_i32, put_opaque, put_u32,
    put_u64, ProtocolDecodeError,
};

fn sample_lock() -> nlm4_lock {
    nlm4_lock {
        caller_name: b"client-7".to_vec(),
        fh: vec![0xde, 0xad, 0xbe, 0xef, 0x01],
        oh: vec![9, 8, 7],
        svid: -42,
        l_offset: 4096,
        l_len: 512,
    }
}

fn boundary_lock() -> nlm4_lock {
    nlm4_lock {
        caller_name: Vec::new(),
        fh: Vec::new(),
        oh: Vec::new(),
        svid: i32::MIN,
        l_offset: u64::MAX,
        l_len: u64::MAX,
    }
}

#[test]
fn u32_is_written_big_endian() {
    let mut out = vec![0x55];
    put_u32(&mut out, 0x0102_0304);
    assert_eq!(out, vec![0x55, 1, 2, 3, 4]);
}

#[test]
fn u32_is_read_big_endian_at_a_position() {
    let src = [0xaa, 0x00, 0x00, 0x01, 0x02, 0xbb];
    assert_eq!(get_u32(&src, 1), Ok((0x0000_0102, 5)));
    assert_eq!(get_u32(&src, 2), Ok((0x0001_02bb, 6)));
}

#[test]
fn u32_boundaries_round_trip() {
    for n in [0u32, 1, 0x7fff_ffff, 0x8000_0000, u32::MAX] {
        let mut out = Vec::new();
        put_u32(&mut out, n);
        assert_eq!(out.len(), 4);
        assert_eq!(get_u32(&out, 0), Ok((n, 4)));
    }
}

#[test]
fn i32_is_twos_complement() {
    let mut out = Vec::new();
    put_i32(&mut out, -1);
    put_i32(&mut out, -2);
    put_i32(&mut out, i32::MIN);
    put_i32(&mut out, i32::MAX);
    assert_eq!(
        out,
        vec![
            0xff, 0xff, 0xff, 0xff, 0xff, 0xff, 0xff, 0xfe, 0x80, 0, 0, 0, 0x7f, 0xff, 0xff, 0xff
        ]
    );
    assert_eq!(get_i32(&out, 0), Ok((-1, 4)));
    assert_eq!(get_i32(&out, 4), Ok((-2, 8)));
    assert_eq!(get_i32(&out, 8), Ok((i32::MIN, 12)));
    assert_eq!(get_i32(&out, 12), Ok((i32::MAX, 16)));
}

#[test]
fn u64_is_written_big_endian() {
    let mut out = Vec::new();
    put_u64(&mut out, 0x0102_0304_0506_0708);
    assert_eq!(out, vec![1, 2, 3, 4, 5, 6, 7, 8]);
    assert_eq!(get_u64(&out, 0), Ok((0x0102_0304_0506_0708, 8)));
}

#[test]
fn u64_boundaries_round_trip() {
    for n in [0u64, 1, 0xffff_ffff, 0x1_0000_0000, u64::MAX - 1, u64::MAX] {
        let mut out = Vec::new();
        put_u64(&mut out, n);
        assert_eq!(out.len(), 8);
        assert_eq!(get_u64(&out, 0), Ok((n, 8)));
    }
}

#[test]
fn bool_is_one_or_zero() {
    let mut out = Vec::new();
    put_bool(&mut out, true);
    put_bool(&mut out, false);
    assert_eq!(out, vec![0, 0, 0, 1, 0, 0, 0, 0]);
    assert_eq!(get_bool(&out, 0), Ok((true, 4)));
    assert_eq!(get_bool(&out, 4), Ok((false, 8)));
}

#[test]
fn any_nonzero_integer_reads_as_true() {
    assert_eq!(get_bool(&[0, 0, 0, 2], 0), Ok((true, 4)));
    assert_eq!(get_bool(&[0xff, 0xff, 0xff, 0xff], 0), Ok((true, 4)));
    assert_eq!(get_bool(&[0x80, 0, 0, 0], 0), Ok((true, 4)));
    assert_eq!(get_bool(&[0, 0, 0, 0], 0), Ok((false, 4)));
}

#[test]
fn opaque_is_padded_with_zeros_to_four() {
    let cases: [(Vec<u8>, Vec<u8>); 6] = [
        (vec![], vec![0, 0, 0, 0]),
        (vec![0xaa], vec![0, 0, 0, 1, 0xaa, 0, 0, 0]),
        (vec![0xaa, 0xbb], vec![0, 0, 0, 2, 0xaa, 0xbb, 0, 0]),
        (vec![0xaa, 0xbb, 0xcc], vec![0, 0, 0, 3, 0xaa, 0xbb, 0xcc, 0]),
        (vec![1, 2, 3, 4], vec![0, 0, 0, 4, 1, 2, 3, 4]),
        (vec![1, 2, 3, 4, 5], vec![0, 0, 0, 5, 1, 2, 3, 4, 5, 0, 0, 0]),
    ];
    for (data, expected) in cases {
        let mut out = Vec::new();
        put_opaque(&mut out, &data);
        assert_eq!(out, expected);
        assert_eq!(get_opaque(&out, 0), Ok((data, expected.len())));
    }
}

#[test]
fn opaque_is_appended_to_what_is_there() {
    let mut out = vec![7, 7];
    put_opaque(&mut out, &vec![1]);
    assert_eq!(out, vec![7, 7, 0, 0, 0, 1, 1, 0, 0, 0]);
    assert_eq!(get_opaque(&out, 2), Ok((vec![1], 10)));
}

#[test]
fn nonzero_padding_is_skipped_not_checked() {
    let src = [0, 0, 0, 1, 0xaa, 0xff, 0xfe, 0xfd, 0x11];
    assert_eq!(get_opaque(&src, 0), Ok((vec![0xaa], 8)));
    let src = [0, 0, 0, 3, 1, 2, 3, 0x99];
    assert_eq!(get_opaque(&src, 0), Ok((vec![1, 2, 3], 8)));
}

#[test]
fn opaque_without_its_padding_is_truncated() {
    assert_eq!(get_opaque(&[0, 0, 0, 1, 0xaa], 0), Err(ProtocolDecodeError::Truncated));
    assert_eq!(get_opaque(&[0, 0, 0, 1, 0xaa, 0, 0], 0), Err(ProtocolDecodeError::Truncated));
    assert_eq!(get_opaque(&[0, 0, 0, 5, 1, 2, 3, 4], 0), Err(ProtocolDecodeError::Truncated));
    assert_eq!(get_opaque(&[0xff, 0xff, 0xff, 0xff], 0), Err(ProtocolDecodeError::Truncated));
}

#[test]
fn primitives_do_not_read_past_the_end() {
    assert_eq!(get_u32(&[], 0), Err(ProtocolDecodeError::Truncated));
    assert_eq!(get_u32(&[1, 2, 3], 0), Err(ProtocolDecodeError::Truncated));
    assert_eq!(get_u32(&[1, 2, 3, 4], 1), Err(ProtocolDecodeError::Truncated));
    assert_eq!(get_u32(&[1, 2, 3, 4], 9), Err(ProtocolDecodeError::Truncated));
    assert_eq!(get_u32(&[1, 2, 3, 4], usize::MAX), Err(ProtocolDecodeError::Truncated));
    assert_eq!(get_i32(&[1, 2, 3], 0), Err(ProtocolDecodeError::Truncated));
    assert_eq!(get_u64(&[1, 2, 3, 4, 5, 6, 7], 0), Err(ProtocolDecodeError::Truncated));
    assert_eq!(get_bool(&[0, 0, 1], 0), Err(ProtocolDecodeError::Truncated));
    assert_eq!(get_opaque(&[0, 0, 0], 0), Err(ProtocolDecodeError::Truncated));
}

#[test]
fn status_codes_are_zero_to_nine() {
    let all = [
        (nlm4_stats::NLM4_GRANTED, 0u32),
        (nlm4_stats::NLM4_DENIED, 1),
        (nlm4_stats::NLM4_DENIED_NOLOCKS, 2),
        (nlm4_stats::NLM4_BLOCKED, 3),
        (nlm4_stats::NLM4_DENIED_GRACE_PERIOD, 4),
        (nlm4_stats::NLM4_DEADLCK, 5),
        (nlm4_stats::NLM4_ROFS, 6),
        (nlm4_stats::NLM4_STALE_FH, 7),
        (nlm4_stats::NLM4_FBIG, 8),
        (nlm4_stats::NLM4_FAILED, 9),
    ];
    for (stat, code) in all {
        assert_eq!(stat.to_u32(), code);
        assert_eq!(nlm4_stats::from_u32(code), Some(stat));
        let mut out = Vec::new();
        stat.serialize(&mut out);
        assert_eq!(out, vec![0, 0, 0, code as u8]);
        assert_eq!(nlm4_stats::deserialize(&out, 0), Ok((stat, 4)));
    }
}

#[test]
fn unknown_status_is_an_error_not_a_default() {
    assert_eq!(nlm4_stats::from_u32(10), None);
    assert_eq!(nlm4_stats::from_u32(u32::MAX), None);
    assert_eq!(
        nlm4_stats::deserialize(&[0, 0, 0, 10], 0),
        Err(ProtocolDecodeError::UnknownDiscriminant(10))
    );
    assert_eq!(
        nlm4_stats::deserialize(&[0, 0, 1, 0], 0),
        Err(ProtocolDecodeError::UnknownDiscriminant(256))
    );
    assert_eq!(nlm4_stats::deserialize(&[0, 0, 0], 0), Err(ProtocolDecodeError::Truncated));
}

#[test]
fn lock_descriptor_has_its_fields_in_order() {
    let lock = nlm4_lock {
        caller_name: vec![b'h'],
        fh: vec![1, 2, 3, 4],
        oh: vec![],
        svid: 258,
        l_offset: 1,
        l_len: 0x0100_0000_0000_0000,
    };
    let mut out = Vec::new();
    lock.serialize(&mut out);
    assert_eq!(
        out,
        vec![
            0, 0, 0, 1, b'h', 0, 0, 0, // caller_name
            0, 0, 0, 4, 1, 2, 3, 4, // fh
            0, 0, 0, 0, // oh
            0, 0, 1, 2, // svid
            0, 0, 0, 0, 0, 0, 0, 1, // l_offset
            1, 0, 0, 0, 0, 0, 0, 0, // l_len
        ]
    );
}

#[test]
fn lock_descriptor_round_trips() {
    for lock in [sample_lock(), boundary_lock(), nlm4_lock::default()] {
        let mut out = Vec::new();
        lock.serialize(&mut out);
        let end = out.len();
        out.extend_from_slice(&[1, 2, 3]);
        assert_eq!(nlm4_lock::deserialize(&out, 0), Ok((lock, end)));
    }
}

#[test]
fn shortest_lock_descriptor_is_32_bytes() {
    let mut out = Vec::new();
    boundary_lock().serialize(&mut out);
    assert_eq!(out.len(), 32);
    for short in 0..32 {
        assert_eq!(
            nlm4_lock::deserialize(&out[..short], 0),
            Err(ProtocolDecodeError::Truncated)
        );
    }
}

#[test]
fn testargs_round_trip() {
    for (cookie, exclusive, alock) in [
        (vec![1u8, 2, 3], true, sample_lock()),
        (vec![], false, boundary_lock()),
        (vec![0; 8], true, nlm4_lock::default()),
    ] {
        let args = nlm_testargs { cookie, exclusive, alock };
        let mut out = Vec::new();
        args.serialize(&mut out);
        let end = out.len();
        assert_eq!(nlm_testargs::deserialize(&out, 0), Ok((args, end)));
    }
}

#[test]
fn testres_round_trip() {
    for (cookie, stat) in
        [(vec![5u8], nlm4_stats::NLM4_DENIED), (vec![], nlm4_stats::NLM4_GRANTED)]
    {
        let res = nlm_testres { cookie, stat };
        let mut out = Vec::new();
        res.serialize(&mut out);
        let end = out.len();
        assert_eq!(nlm_testres::deserialize(&out, 0), Ok((res, end)));
    }
}

#[test]
fn lockargs_round_trip() {
    for (block, exclusive, reclaim, state, alock) in [
        (true, false, true, i32::MAX, sample_lock()),
        (false, true, false, i32::MIN, boundary_lock()),
        (false, false, false, 0, nlm4_lock::default()),
    ] {
        let args =
            nlm_lockargs { cookie: vec![0xc0, 0x0c], block, exclusive, alock, reclaim, state };
        let mut out = Vec::new();
        args.serialize(&mut out);
        let end = out.len();
        assert_eq!(nlm_lockargs::deserialize(&out, 0), Ok((args, end)));
    }
}

#[test]
fn lockargs_have_their_fields_in_order() {
    let args = nlm_lockargs {
        cookie: vec![7],
        block: true,
        exclusive: false,
        alock: nlm4_lock::default(),
        reclaim: true,
        state: -3,
    };
    let mut out = Vec::new();
    args.serialize(&mut out);
    let mut expected = vec![0, 0, 0, 1, 7, 0, 0, 0, 0, 0, 0, 1, 0, 0, 0, 0];
    expected.extend_from_slice(&[0; 32]);
    expected.extend_from_slice(&[0, 0, 0, 1, 0xff, 0xff, 0xff, 0xfd]);
    assert_eq!(out, expected);
}

#[test]
fn res_round_trip() {
    for (cookie, stat) in
        [(vec![1u8, 2, 3, 4, 5], nlm4_stats::NLM4_FAILED), (vec![], nlm4_stats::NLM4_BLOCKED)]
    {
        let res = nlm_res { cookie, stat };
        let mut out = Vec::new();
        res.serialize(&mut out);
        let end = out.len();
        assert_eq!(nlm_res::deserialize(&out, 0), Ok((res, end)));
    }
}

#[test]
fn cancargs_round_trip() {
    for (block, exclusive, alock) in
        [(true, true, sample_lock()), (false, false, boundary_lock())]
    {
        let args = nlm_cancargs { cookie: vec![1, 2, 3, 4], block, exclusive, alock };
        let mut out = Vec::new();
        args.serialize(&mut out);
        let end = out.len();
        assert_eq!(nlm_cancargs::deserialize(&out, 0), Ok((args, end)));
    }
}

#[test]
fn unlockargs_round_trip() {
    for alock in [sample_lock(), boundary_lock()] {
        let args = nlm_unlockargs { cookie: vec![], alock };
        let mut out = Vec::new();
        args.serialize(&mut out);
        let end = out.len();
        assert_eq!(nlm_unlockargs::deserialize(&out, 0), Ok((args, end)));
    }
}

#[test]
fn records_decode_at_a_position() {
    let args = nlm_unlockargs { cookie: vec![1], alock: sample_lock() };
    let mut out = vec![0xee; 5];
    args.serialize(&mut out);
    let end = out.len();
    out.push(0xee);
    assert_eq!(nlm_unlockargs::deserialize(&out, 5), Ok((args, end)));
}

#[test]
fn records_shorter_than_their_minimum_are_truncated() {
    let zeros = [0u8; 64];
    for short in 0..40 {
        assert_eq!(
            nlm_testargs::deserialize(&zeros[..short], 0),
            Err(ProtocolDecodeError::Truncated)
        );
    }
    assert!(nlm_testargs::deserialize(&zeros[..40], 0).is_ok());
    for short in 0..52 {
        assert_eq!(
            nlm_lockargs::deserialize(&zeros[..short], 0),
            Err(ProtocolDecodeError::Truncated)
        );
    }
    assert!(nlm_lockargs::deserialize(&zeros[..52], 0).is_ok());
    for short in 0..44 {
        assert_eq!(
            nlm_cancargs::deserialize(&zeros[..short], 0),
            Err(ProtocolDecodeError::Truncated)
        );
    }
    assert!(nlm_cancargs::deserialize(&zeros[..44], 0).is_ok());
    for short in 0..36 {
        assert_eq!(
            nlm_unlockargs::deserialize(&zeros[..short], 0),
            Err(ProtocolDecodeError::Truncated)
        );
    }
    assert!(nlm_unlockargs::deserialize(&zeros[..36], 0).is_ok());
    for short in 0..8 {
        assert_eq!(
            nlm_res::deserialize(&zeros[..short], 0),
            Err(ProtocolDecodeError::Truncated)
        );
        assert_eq!(
            nlm_testres::deserialize(&zeros[..short], 0),
            Err(ProtocolDecodeError::Truncated)
        );
    }
    assert!(nlm_res::deserialize(&zeros[..8], 0).is_ok());
    assert!(nlm_testres::deserialize(&zeros[..8], 0).is_ok());
}

#[test]
fn every_cut_of_an_encoding_is_truncated() {
    let args = nlm_lockargs {
        cookie: vec![1, 2, 3, 4, 5],
        block: true,
        exclusive: true,
        alock: sample_lock(),
        reclaim: false,
        state: 11,
    };
    let mut out = Vec::new();
    args.serialize(&mut out);
    for cut in 0..out.len() {
        assert_eq!(
            nlm_lockargs::deserialize(&out[..cut], 0),
            Err(ProtocolDecodeError::Truncated)
        );
    }
}

#[test]
fn result_with_unknown_status_is_rejected() {
    let src = [0, 0, 0, 0, 0, 0, 0, 77];
    assert_eq!(nlm_res::deserialize(&src, 0), Err(ProtocolDecodeError::UnknownDiscriminant(77)));
    assert_eq!(
        nlm_testres::deserialize(&src, 0),
        Err(ProtocolDecodeError::UnknownDiscriminant(77))
    );
}

#[test]
fn defaults_are_empty() {
    let lock = nlm4_lock::default();
    assert!(lock.caller_name.is_empty() && lock.fh.is_empty() && lock.oh.is_empty());
    assert_eq!((lock.svid, lock.l_offset, lock.l_len), (0, 0, 0));
    let t = nlm_testargs::default();
    assert!(t.cookie.is_empty() && !t.exclusive && t.alock == lock);
    let l = nlm_lockargs::default();
    assert!(l.cookie.is_empty() && !l.block && !l.exclusive && !l.reclaim && l.state == 0);
    let c = nlm_cancargs::default();
    assert!(c.cookie.is_empty() && !c.block && !c.exclusive && c.alock == lock);
}

#[test]
fn clones_are_equal() {
    let lock = sample_lock();
    assert_eq!(lock.clone(), lock);
    let args = nlm_lockargs {
        cookie: vec![1],
        block: true,
        exclusive: false,
        alock: sample_lock(),
        reclaim: true,
        state: 5,
    };
    assert_eq!(args.clone(), args);
}

#[test]
fn protocol_constants() {
    assert_eq!(IPPROTO_TCP, 6);
    assert_eq!(IPPROTO_UDP, 17);
    assert_eq!(PROGRAM, 100021);
    assert_eq!(VERSION, 4);
}

#[test]
fn success_envelope_bytes() {
    let reply = make_success_reply(0x0a0b_0c0d);
    assert_eq!(reply.status, ReplyStatus::Success);
    let mut out = Vec::new();
    reply.serialize(&mut out);
    assert_eq!(
        out,
        vec![
            0x0a, 0x0b, 0x0c, 0x0d, // xid
            0, 0, 0, 1, // reply
            0, 0, 0, 0, // accepted
            0, 0, 0, 0, // verifier flavor
            0, 0, 0, 0, // verifier body
            0, 0, 0, 0, // success
        ]
    );
}

#[test]
fn version_mismatch_envelope_carries_the_version() {
    let reply = prog_mismatch_reply_message(1, 4);
    assert_eq!(reply.status, ReplyStatus::ProgMismatch { low: 4, high: 4 });
    let mut out = Vec::new();
    reply.serialize(&mut out);
    assert_eq!(
        out,
        vec![
            0, 0, 0, 1, 0, 0, 0, 1, 0, 0, 0, 0, 0, 0, 0, 0, 0, 0, 0, 0, 0, 0, 0, 2, 0, 0, 0, 4, 0,
            0, 0, 4
        ]
    );
}

#[test]
fn procedure_unavailable_envelope_bytes() {
    let reply = proc_unavail_reply_message(0xffff_ffff);
    assert_eq!(reply.status, ReplyStatus::ProcUnavail);
    let mut out = vec![9];
    reply.serialize(&mut out);
    assert_eq!(
        out,
        vec![
            9, 0xff, 0xff, 0xff, 0xff, 0, 0, 0, 1, 0, 0, 0, 0, 0, 0, 0, 0, 0, 0, 0, 0, 0, 0, 0, 3
        ]
    );
}
