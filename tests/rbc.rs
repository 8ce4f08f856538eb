use ccbrb::coding::{decode, encode, frame, unframe, CodingError};
use ccbrb::hash::{hash_eq, Hash32};
use ccbrb::merkle::{depth, merkle_root, node, pair_level, prove, verify};
use ccbrb::msg::{EchoMsg, ProtMsg, ReadyMsg, SendMsg, Share};
use ccbrb::protocol::{commit, leaf_digests};
use ccbrb::state::{Config, RBCState, Status};

fn cfg(me: usize) -> Config {
    Config { n: 4, f: 1, k: 2, me, id: 7, origin: 0 }
}

fn send_for(payload: &[u8], to: usize) -> SendMsg {
    let shares = encode(&payload.to_vec(), 4, 2).unwrap();
    let d_hashes = leaf_digests(&shares);
    SendMsg { id: 7, d_j: shares[to].copy(), d_hashes, origin: 0 }
}

fn echo_of(out: &[ProtMsg]) -> EchoMsg {
    match &out[0] {
        ProtMsg::Echo(e, _) => EchoMsg {
            id: e.id,
            d_i: e.d_i.copy(),
            pi_i: e.pi_i.clone(),
            c: e.c,
            origin: e.origin,
        },
        _ => panic!("expected an echo"),
    }
}

fn ready_of(out: &[ProtMsg]) -> ReadyMsg {
    match &out[0] {
        ProtMsg::Ready(r, _) => ReadyMsg { id: r.id, c: r.c, pi_i: r.pi_i.clone(), origin: r.origin },
        _ => panic!("expected a ready"),
    }
}

#[test]
fn new_state_is_waiting_and_empty() {
    let s = RBCState::new();
    assert_eq!(s.status, Status::WAITING);
    assert_eq!(s.get_max_echo_count(), (0, None));
    assert!(s.output_message.is_empty());
    let d = RBCState::default();
    assert_eq!(d.status, Status::WAITING);
    assert!(!d.sent_ready);
}

#[test]
fn quorum_constants() {
    let c = Config { n: 7, f: 2, k: 3, me: 0, id: 1, origin: 0 };
    assert_eq!(c.echo_quorum(), 5);
    assert_eq!(c.ready_amplification(), 3);
    assert_eq!(c.ready_quorum(), 5);
}

#[test]
fn round_trip_any_k_fragments() {
    let payload = b"reliable broadcast payload_".to_vec();
    let shares = encode(&payload, 4, 2).unwrap();
    assert_eq!(shares.len(), 4);
    for i in 0..4 {
        for j in 0..4 {
            if i != j {
                let pick = vec![shares[i].copy(), shares[j].copy()];
                if i >= 2 && j >= 2 {
                    // k parity fragments alone: the coder needs one more
                    assert!(matches!(decode(&pick, 4, 2), Err(CodingError::InsufficientFragments)));
                } else {
                    assert_eq!(decode(&pick, 4, 2).ok().unwrap(), payload);
                }
                for l in 0..4 {
                    if l != i && l != j {
                        let three = vec![shares[i].copy(), shares[j].copy(), shares[l].copy()];
                        assert_eq!(decode(&three, 4, 2).ok().unwrap(), payload);
                    }
                }
            }
        }
    }
    let all: Vec<Share> = shares.iter().map(|s| s.copy()).collect();
    assert_eq!(decode(&all, 4, 2).ok().unwrap(), payload);
}

#[test]
fn round_trip_empty_and_padding_bytes() {
    for p in [vec![], vec![0x5fu8, 0x5f, 0x5f], vec![0x80u8], vec![1u8, 2, 3, 4, 5, 6, 7]] {
        let shares = encode(&p, 5, 3).unwrap();
        let pick = vec![shares[4].copy(), shares[0].copy(), shares[2].copy()];
        assert_eq!(decode(&pick, 5, 3).ok().unwrap(), p);
    }
}

#[test]
fn encode_rejects_bad_thresholds() {
    assert!(encode(&vec![1, 2, 3], 4, 0).is_none());
    assert!(encode(&vec![1, 2, 3], 2, 3).is_none());
    assert!(encode(&vec![1, 2, 3], 257, 2).is_none());
    assert!(encode(&vec![1, 2, 3], 256, 1).is_some());
}

#[test]
fn encode_fragments_are_numbered_and_coded() {
    let shares = encode(&b"abcd".to_vec(), 3, 2).unwrap();
    for (i, s) in shares.iter().enumerate() {
        assert_eq!(s.number, i);
        assert_eq!(s.data.len(), 3);
    }
    // the systematic part holds the framed payload
    assert_eq!(shares[0].data, b"abc".to_vec());
    assert_eq!(shares[1].data, vec![b'd', 0x80, 0x5f]);
}

#[test]
fn decode_errors() {
    let shares = encode(&b"hello".to_vec(), 4, 2).unwrap();
    assert!(matches!(decode(&vec![shares[0].copy()], 4, 2), Err(CodingError::InsufficientFragments)));
    assert!(matches!(decode(&vec![shares[0].copy(), shares[1].copy()], 4, 0), Err(CodingError::InvalidParameters)));
    assert!(matches!(
        decode(&vec![shares[0].copy(), shares[0].copy()], 4, 2),
        Err(CodingError::CorruptFragments)
    ));
    let short = Share { number: 1, data: vec![1] };
    assert!(matches!(decode(&vec![shares[0].copy(), short], 4, 2), Err(CodingError::CorruptFragments)));
    let out_of_range = Share { number: 9, data: shares[1].data.clone() };
    assert!(matches!(decode(&vec![shares[0].copy(), out_of_range], 4, 2), Err(CodingError::CorruptFragments)));
}

#[test]
fn frame_and_unframe() {
    let f = frame(&vec![1, 2, 0x5f]);
    assert_eq!(f, vec![1, 2, 0x5f, 0x80]);
    assert_eq!(unframe(&vec![1, 2, 0x5f, 0x80, 0x5f, 0x5f]), Some(vec![1, 2, 0x5f]));
    assert_eq!(unframe(&vec![1, 2, 3]), None);
    assert_eq!(unframe(&vec![]), None);
    assert_eq!(unframe(&vec![0x80]), Some(vec![]));
}

#[test]
fn merkle_proofs_verify_and_flips_fail() {
    let shares = encode(&b"commitment soundness".to_vec(), 5, 2).unwrap();
    let leaves = leaf_digests(&shares);
    let root = merkle_root(&leaves);
    assert_eq!(depth(5), 3);
    for i in 0..5 {
        let path = prove(&leaves, i);
        assert_eq!(path.len(), 3);
        assert!(verify(&leaves[i], i, 5, &path, &root));
        assert!(!verify(&leaves[i], i, 4, &path, &root));
        assert!(!verify(&leaves[i], 5, 5, &path, &root));
        for byte in [0usize, 17, 31] {
            for bit in 0..8 {
                let mut leaf = leaves[i];
                leaf[byte] ^= 1 << bit;
                assert!(!verify(&leaf, i, 5, &path, &root));
                let mut p2 = path.clone();
                p2[0][byte] ^= 1 << bit;
                assert!(!verify(&leaves[i], i, 5, &p2, &root));
                let mut r2 = root;
                r2[byte] ^= 1 << bit;
                assert!(!verify(&leaves[i], i, 5, &path, &r2));
            }
        }
        let other = (i + 1) % 5;
        assert!(!verify(&leaves[other], i, 5, &path, &root));
        let mut short = path.clone();
        short.pop();
        assert!(!verify(&leaves[i], i, 5, &short, &root));
    }
}

#[test]
fn merkle_shapes() {
    let a: Hash32 = [1u8; 32];
    let b: Hash32 = [2u8; 32];
    assert_eq!(merkle_root(&vec![a]), a);
    assert_eq!(merkle_root(&vec![a, b]), node(&a, &b));
    assert_ne!(node(&a, &b), node(&b, &a));
    assert_eq!(merkle_root(&vec![]), [0u8; 32]);
    let lvl = pair_level(&vec![a, b, a]);
    assert_eq!(lvl, vec![node(&a, &b), node(&a, &[0u8; 32])]);
    assert!(hash_eq(&a, &a));
    assert!(!hash_eq(&a, &b));
    assert_eq!(depth(1), 0);
    assert_eq!(depth(2), 1);
    assert_eq!(depth(4), 2);
}

#[test]
fn leaf_digests_are_sha256() {
    let shares = vec![Share { number: 0, data: b"abc".to_vec() }];
    let d = leaf_digests(&shares);
    assert_eq!(
        d[0][..4].to_vec(),
        vec![0xba, 0x78, 0x16, 0xbf],
    );
}

#[test]
fn scenario_four_replicas_deliver() {
    let payload = b"the exact payload sent".to_vec();
    let mut states: Vec<RBCState> = (0..4).map(|_| RBCState::new()).collect();
    let mut echoes = Vec::new();
    for r in 0..3 {
        let out = states[r].handle_send(&cfg(r), &send_for(&payload, r), 0);
        assert_eq!(out.len(), 1);
        assert_eq!(states[r].status, Status::ECHO);
        echoes.push((echo_of(&out), r));
    }
    let mut readies = Vec::new();
    for r in 0..3 {
        for (k, (e, from)) in echoes.iter().enumerate() {
            let out = states[r].handle_echo(&cfg(r), e, *from);
            if k < 2 {
                assert!(out.is_empty());
            } else {
                assert_eq!(out.len(), 1);
                assert_eq!(states[r].status, Status::READY);
                readies.push((ready_of(&out), r));
            }
        }
        assert_eq!(states[r].received_echo_count(&echoes[0].0.c), 3);
    }
    for r in 0..3 {
        for (k, (m, from)) in readies.iter().enumerate() {
            states[r].handle_ready(&cfg(r), m, *from);
            if k < 2 {
                assert_ne!(states[r].status, Status::OUTPUT);
            }
        }
        assert_eq!(states[r].status, Status::OUTPUT);
        assert_eq!(states[r].output_message, payload);
        assert!(states[r].is_delivered());
    }
    // the silent replica is carried along by f + 1 readies and delivers too
    let mut silent = RBCState::new();
    let mut sent = 0;
    for (e, from) in echoes.iter() {
        silent.handle_echo(&cfg(3), e, *from);
    }
    for (m, from) in readies.iter() {
        sent += silent.handle_ready(&cfg(3), m, *from).len();
    }
    assert_eq!(sent, 0);
    assert_eq!(silent.output_message, payload);
    states[0].terminate();
    assert_eq!(states[0].status, Status::TERMINATED);
    assert!(states[0].handle_ready(&cfg(0), &readies[0].0, 3).is_empty());
}

#[test]
fn ready_amplification_on_f_plus_one() {
    let payload = b"amplify".to_vec();
    let mut src = RBCState::new();
    let out = src.handle_send(&cfg(1), &send_for(&payload, 1), 0);
    let e = echo_of(&out);
    let c = e.c;
    let mut s = RBCState::new();
    let r = ReadyMsg { id: 7, c, pi_i: e.pi_i.clone(), origin: 0 };
    assert!(s.handle_ready(&cfg(2), &r, 0).is_empty());
    let out = s.handle_ready(&cfg(2), &r, 1);
    assert_eq!(out.len(), 1);
    assert_eq!(s.status, Status::READY);
    assert!(s.handle_ready(&cfg(2), &r, 3).is_empty());
    assert_eq!(s.received_ready_count(&cfg(2), &c), 3);
    // readies alone carry no fragments: nothing to deliver yet
    assert_ne!(s.status, Status::OUTPUT);
}

#[test]
fn scenario_equivocation_never_outputs() {
    let mut states: Vec<RBCState> = (0..4).map(|_| RBCState::new()).collect();
    let mut echoes = Vec::new();
    for r in 0..4 {
        let payload: &[u8] = if r % 2 == 0 { b"left" } else { b"right" };
        let out = states[r].handle_send(&cfg(r), &send_for(payload, r), 0);
        echoes.push((echo_of(&out), r));
    }
    let mut all_out = 0;
    for r in 0..4 {
        for (e, from) in echoes.iter() {
            all_out += states[r].handle_echo(&cfg(r), e, *from).len();
        }
        assert_eq!(states[r].get_max_echo_count().0, 2);
        assert_ne!(states[r].status, Status::OUTPUT);
    }
    assert_eq!(all_out, 0);
    // a second Send with the other payload is ignored
    let before = states[0].status;
    let out = states[0].handle_send(&cfg(0), &send_for(b"right", 0), 0);
    assert!(out.is_empty());
    assert_eq!(states[0].status, before);
}

#[test]
fn scenario_duplicate_echo_counts_once() {
    let payload = b"duplicate vote".to_vec();
    let mut faulty = RBCState::new();
    let out = faulty.handle_send(&cfg(2), &send_for(&payload, 2), 0);
    let e = echo_of(&out);
    let mut s = RBCState::new();
    assert_eq!(s.received_echo_count(&e.c), 0);
    for _ in 0..5 {
        assert!(s.handle_echo(&cfg(1), &e, 2).is_empty());
    }
    assert_eq!(s.received_echo_count(&e.c), 1);
    assert_eq!(s.get_max_echo_count(), (1, Some(e.c)));
    assert_eq!(s.e, 0);
}

#[test]
fn invalid_echo_is_dropped_and_noted() {
    let payload = b"tampered".to_vec();
    let mut src = RBCState::new();
    let out = src.handle_send(&cfg(2), &send_for(&payload, 2), 0);
    let mut e = echo_of(&out);
    e.d_i.data[0] ^= 1;
    let mut s = RBCState::new();
    assert!(s.handle_echo(&cfg(1), &e, 2).is_empty());
    assert_eq!(s.e, 1);
    assert_eq!(s.received_echo_count(&e.c), 0);
    // claimed from the wrong position
    let good = echo_of(&out);
    assert!(s.handle_echo(&cfg(1), &good, 3).is_empty());
    assert_eq!(s.e, 2);
    // another instance's id is ignored without note
    let mut other = echo_of(&out);
    other.id = 8;
    assert!(s.handle_echo(&cfg(1), &other, 2).is_empty());
    assert_eq!(s.e, 2);
}

#[test]
fn invalid_send_is_noted() {
    let mut s = RBCState::new();
    let mut m = send_for(b"x", 1);
    m.d_j.data.push(9);
    assert!(s.handle_send(&cfg(1), &m, 0).is_empty());
    assert_eq!(s.e, 1);
    assert_eq!(s.status, Status::WAITING);
    let m2 = send_for(b"x", 1);
    assert!(s.handle_send(&cfg(1), &m2, 3).is_empty());
    assert_eq!(s.status, Status::WAITING);
    assert_eq!(s.handle_send(&cfg(1), &m2, 0).len(), 1);
    assert!(s.handle_send(&cfg(1), &m2, 0).is_empty());
}

#[test]
fn dispatch_by_kind() {
    let mut s = RBCState::new();
    let m = ProtMsg::Init(send_for(b"dispatch", 0), 0);
    let out = s.handle(&cfg(0), &m);
    assert_eq!(out.len(), 1);
    assert!(matches!(out[0], ProtMsg::Echo(_, 0)));
}

#[test]
fn redelivery_changes_nothing() {
    let payload = b"idempotent".to_vec();
    let mut s = RBCState::new();
    let send = send_for(&payload, 1);
    let out = s.handle_send(&cfg(1), &send, 0);
    let e = echo_of(&out);
    s.handle_echo(&cfg(1), &e, 1);
    let r = ReadyMsg { id: 7, c: e.c, pi_i: e.pi_i.clone(), origin: 0 };
    s.handle_ready(&cfg(1), &r, 2);
    let snapshot = (s.status, s.e, s.sent_ready, s.sent_echo, s.received_echo_count(&e.c), s.received_ready_count(&cfg(1), &e.c));
    assert!(s.handle_send(&cfg(1), &send, 0).is_empty());
    assert!(s.handle_echo(&cfg(1), &e, 1).is_empty());
    assert!(s.handle_ready(&cfg(1), &r, 2).is_empty());
    let again = (s.status, s.e, s.sent_ready, s.sent_echo, s.received_echo_count(&e.c), s.received_ready_count(&cfg(1), &e.c));
    assert_eq!(snapshot, again);
    assert_eq!(again, (Status::ECHO, 0, false, true, 1, 1));
}

#[test]
fn commit_gives_root_and_every_proof() {
    let shares = encode(&b"commit all".to_vec(), 6, 2).unwrap();
    let (root, proofs) = commit(&shares);
    let leaves = leaf_digests(&shares);
    assert_eq!(root, merkle_root(&leaves));
    assert_eq!(proofs.len(), 6);
    for i in 0..6 {
        assert!(verify(&leaves[i], i, 6, &proofs[i], &root));
        assert!(!verify(&leaves[i], (i + 1) % 6, 6, &proofs[i], &root));
    }
}

#[test]
fn malformed_ready_is_dropped_and_noted() {
    let payload = b"ready paths".to_vec();
    let mut src = RBCState::new();
    let e = echo_of(&src.handle_send(&cfg(2), &send_for(&payload, 2), 0));
    let mut s = RBCState::new();
    // a path of the wrong depth for four leaves
    let empty = ReadyMsg { id: 7, c: e.c, pi_i: vec![], origin: 0 };
    assert!(s.handle_ready(&cfg(1), &empty, 3).is_empty());
    assert_eq!(s.e, 1);
    assert_eq!(s.received_ready_count(&cfg(1), &e.c), 0);
    // replica 2 echoed; its Ready must carry a path from its own fragment
    s.handle_echo(&cfg(1), &e, 2);
    let mut wrong = e.pi_i.clone();
    wrong[0][0] ^= 1;
    let bad = ReadyMsg { id: 7, c: e.c, pi_i: wrong, origin: 0 };
    assert!(s.handle_ready(&cfg(1), &bad, 2).is_empty());
    assert_eq!(s.e, 2);
    assert_eq!(s.received_ready_count(&cfg(1), &e.c), 0);
    let good = ReadyMsg { id: 7, c: e.c, pi_i: e.pi_i.clone(), origin: 0 };
    assert!(s.handle_ready(&cfg(1), &good, 2).is_empty());
    assert_eq!(s.e, 2);
    assert_eq!(s.received_ready_count(&cfg(1), &e.c), 1);
}

