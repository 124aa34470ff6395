//! Whole-protocol scenarios: two peers driven by generate and receive.

use docsync::{Automerge, BloomFilter, Change, ChangeHash, Have, Message, State};

fn h(n: u8) -> ChangeHash {
    let mut b = [0u8; 32];
    b[0] = n;
    ChangeHash(b)
}

fn ch(id: u8, deps: Vec<ChangeHash>) -> Change {
    Change { hash: h(id), deps, payload: vec![id] }
}

/// Shuttles messages (through the wire codec) until both sides fall
/// silent; returns the number of messages exchanged.
fn run_sync(a: &mut Automerge, sa: &mut State, b: &mut Automerge, sb: &mut State) -> usize {
    let mut n = 0;
    for _ in 0..20 {
        let ma = a.generate_sync_message(sa);
        if let Some(m) = ma {
            n += 1;
            let m = Message::decode(&m.encode()).unwrap();
            b.receive_sync_message(sb, m).unwrap();
        }
        let mb = b.generate_sync_message(sb);
        if let Some(m) = mb {
            n += 1;
            let m = Message::decode(&m.encode()).unwrap();
            a.receive_sync_message(sa, m).unwrap();
        } else if a.generate_sync_message(sa).is_none() {
            return n;
        }
    }
    panic!("peers did not quiesce");
}

#[test]
fn already_synced_empty_peers() {
    let mut a = Automerge::new();
    let mut b = Automerge::new();
    let mut sa = State::new();
    let mut sb = State::new();
    let m = a.generate_sync_message(&mut sa).expect("first call speaks");
    assert_eq!(m.heads, vec![]);
    assert_eq!(m.need, vec![]);
    assert_eq!(m.have.len(), 1);
    assert_eq!(m.have[0].last_sync, vec![]);
    assert_eq!(m.changes.len(), 0);
    b.receive_sync_message(&mut sb, m).unwrap();
    assert!(b.generate_sync_message(&mut sb).is_none());
}

#[test]
fn one_way_catch_up() {
    let mut a = Automerge::new();
    a.apply_changes(vec![ch(1, vec![]), ch(2, vec![h(1)])]).unwrap();
    let mut b = Automerge::new();
    let mut sa = State::new();
    let mut sb = State::new();
    run_sync(&mut a, &mut sa, &mut b, &mut sb);
    assert_eq!(b.get_heads(), vec![h(2)]);
    assert_eq!(a.get_heads(), vec![h(2)]);
    assert_eq!(sa.shared_heads, vec![h(2)]);
    assert!(a.generate_sync_message(&mut sa).is_none());
    assert!(b.generate_sync_message(&mut sb).is_none());
}

#[test]
fn concurrent_divergence() {
    let mut a = Automerge::new();
    a.apply_changes(vec![ch(1, vec![])]).unwrap();
    let mut b = Automerge::new();
    b.apply_changes(vec![ch(2, vec![])]).unwrap();
    let mut sa = State::new();
    let mut sb = State::new();
    run_sync(&mut a, &mut sa, &mut b, &mut sb);
    assert_eq!(a.get_heads(), vec![h(1), h(2)]);
    assert_eq!(b.get_heads(), vec![h(1), h(2)]);
    assert!(a.generate_sync_message(&mut sa).is_none());
    assert!(b.generate_sync_message(&mut sb).is_none());
}

#[test]
fn bloom_false_positive_is_corrected_by_dependents() {
    // B holds a few changes of its own and summarizes them.
    let mut b = Automerge::new();
    b.apply_changes(vec![ch(200, vec![]), ch(201, vec![h(200)])]).unwrap();
    let mut sb = State::new();
    let probe = b.generate_sync_message(&mut sb).expect("b speaks first");
    let bloom = &probe.have[0].bloom;
    // Find a hash B's bloom wrongly reports present.
    let mut fp: Option<ChangeHash> = None;
    'search: for x in 0..=255u8 {
        for y in 0..=255u8 {
            let mut bytes = [0u8; 32];
            bytes[0] = x;
            bytes[1] = y;
            bytes[31] = 1;
            let cand = ChangeHash(bytes);
            if bloom.contains_hash(&cand) && b.get_change_by_hash(&cand).is_none() {
                fp = Some(cand);
                break 'search;
            }
        }
    }
    let z_hash = fp.expect("a one-percent filter yields a false positive in 65536 tries");
    // A holds the false-positive change and a descendant the bloom
    // correctly reports absent.
    let mut w_hash = h(7);
    for n in 7..=255u8 {
        if !bloom.contains_hash(&h(n)) {
            w_hash = h(n);
            break;
        }
    }
    assert!(!bloom.contains_hash(&w_hash));
    let mut a = Automerge::new();
    let z = Change { hash: z_hash, deps: vec![], payload: vec![b'z'] };
    let w = Change { hash: w_hash, deps: vec![z_hash], payload: vec![b'w'] };
    a.apply_changes(vec![z, w.clone()]).unwrap();
    let mut sa = State::new();
    run_sync(&mut a, &mut sa, &mut b, &mut sb);
    // The false positive still arrived, dragged in by its dependent.
    assert!(b.get_change_by_hash(&z_hash).is_some());
    assert!(b.get_change_by_hash(&w.hash).is_some());
}

#[test]
fn peer_wipe_forces_full_resend() {
    let mut a = Automerge::new();
    a.apply_changes(vec![ch(1, vec![]), ch(2, vec![h(1)])]).unwrap();
    let mut b = Automerge::new();
    let mut sa = State::new();
    let mut sb = State::new();
    run_sync(&mut a, &mut sa, &mut b, &mut sb);
    assert_eq!(b.get_heads(), vec![h(2)]);
    // B restarts empty.
    let mut b2 = Automerge::new();
    let mut sb2 = State::new();
    let m = b2.generate_sync_message(&mut sb2).expect("fresh peer speaks");
    assert_eq!(m.heads, vec![]);
    a.receive_sync_message(&mut sa, m).unwrap();
    // The wipe reset the session memory, so everything goes out again.
    assert_eq!(sa.sent_hashes, vec![]);
    assert_eq!(sa.last_sent_heads, vec![]);
    run_sync(&mut a, &mut sa, &mut b2, &mut sb2);
    assert_eq!(b2.get_heads(), vec![h(2)]);
}

#[test]
fn no_change_rides_twice_in_one_session() {
    let mut a = Automerge::new();
    a.apply_changes(vec![ch(1, vec![]), ch(2, vec![h(1)])]).unwrap();
    let mut b = Automerge::new();
    let mut sa = State::new();
    let mut sb = State::new();
    let mut seen: Vec<ChangeHash> = Vec::new();
    for _ in 0..10 {
        if let Some(m) = a.generate_sync_message(&mut sa) {
            for c in &m.changes {
                assert!(!seen.contains(&c.hash), "a hash went out twice");
                seen.push(c.hash);
            }
            b.receive_sync_message(&mut sb, m).unwrap();
        }
        if let Some(m) = b.generate_sync_message(&mut sb) {
            a.receive_sync_message(&mut sa, m).unwrap();
        } else {
            break;
        }
    }
    assert_eq!(seen.len(), 2);
}

#[test]
fn reset_requested_when_summary_rests_on_unknown_heads() {
    // The peer's summary rests on a head we have never seen: the next
    // message we generate must be a reset request.
    let mut a = Automerge::new();
    a.apply_changes(vec![ch(1, vec![])]).unwrap();
    let mut sa = State::new();
    let from_peer = Message {
        heads: vec![h(9)],
        need: vec![],
        have: vec![Have { last_sync: vec![h(9)], bloom: BloomFilter::from_hashes(&[h(9)]) }],
        changes: vec![],
    };
    a.receive_sync_message(&mut sa, from_peer).unwrap();
    let reset = a.generate_sync_message(&mut sa).expect("a reset goes out");
    assert_eq!(reset.heads, vec![h(1)]);
    assert_eq!(reset.need, vec![]);
    assert_eq!(reset.have, vec![Have::default()]);
    assert_eq!(reset.changes.len(), 0);
}

#[test]
fn state_new_is_empty() {
    let s = State::new();
    assert_eq!(s.shared_heads, vec![]);
    assert_eq!(s.last_sent_heads, vec![]);
    assert!(s.their_heads.is_none());
    assert!(s.their_need.is_none());
    assert!(s.their_have.is_none());
    assert_eq!(s.sent_hashes, vec![]);
}

#[test]
fn quiescent_pair_stays_silent() {
    let mut a = Automerge::new();
    a.apply_changes(vec![ch(1, vec![])]).unwrap();
    let mut b = Automerge::new();
    let mut sa = State::new();
    let mut sb = State::new();
    run_sync(&mut a, &mut sa, &mut b, &mut sb);
    for _ in 0..3 {
        assert!(a.generate_sync_message(&mut sa).is_none());
        assert!(b.generate_sync_message(&mut sb).is_none());
    }
}
