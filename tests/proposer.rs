use fairdag_proposer::attacks::{AttackType, Attacker};
use fairdag_proposer::committee::{Authority, Committee};
use fairdag_proposer::messages::{Certificate, Digest, Header, PublicKey};
use fairdag_proposer::proposer::Proposer;

fn key(i: u8) -> PublicKey {
    PublicKey([i; 32])
}

fn digest(i: u8) -> Digest {
    Digest([i; 32])
}

fn committee() -> Committee {
    Committee {
        authorities: (0..4u8)
            .map(|i| Authority { name: key(i), stake: 1, is_victim: i != 0 })
            .collect(),
    }
}

fn proposer(kind: AttackType, tries: usize) -> Proposer {
    Proposer::new(key(0), committee(), 64, 100, Attacker::new(committee(), kind, tries), vec![])
}

fn cert(author: u8, round: u64, parents: Vec<Digest>) -> Certificate {
    Certificate::new(Header::new(key(author), round, &vec![], &parents))
}

/// A proposer at round 3 whose leader certificate (round 2, author 2) is known.
fn odd_round_with_leader() -> (Proposer, Digest) {
    let mut p = proposer(AttackType::Honest, 1);
    let leader = cert(2, 2, vec![]);
    let leader_id = leader.digest;
    p.process_parents(vec![leader], 2);
    assert!(p.advance());
    (p, leader_id)
}

#[test]
fn quorum_of_references_advances() {
    let (mut p, l) = odd_round_with_leader();
    p.process_parents(vec![cert(1, 3, vec![l]), cert(2, 3, vec![l]), cert(3, 3, vec![l])], 3);
    assert_eq!(p.round(), 3);
    assert!(p.advance());
}

#[test]
fn validity_of_abstentions_advances() {
    let (mut p, l) = odd_round_with_leader();
    p.process_parents(
        vec![cert(0, 3, vec![l]), cert(1, 3, vec![l]), cert(2, 3, vec![]), cert(3, 3, vec![])],
        3,
    );
    assert!(p.advance());
}

#[test]
fn neither_threshold_blocks() {
    let (mut p, l) = odd_round_with_leader();
    p.process_parents(vec![cert(1, 3, vec![l]), cert(2, 3, vec![])], 3);
    assert!(!p.advance());
    assert!(!p.should_propose(false));
    assert!(p.should_propose(true));
}

#[test]
fn even_round_without_leader_does_not_advance() {
    let mut p = proposer(AttackType::Honest, 1);
    p.process_parents(vec![cert(1, 4, vec![])], 4);
    assert!(!p.advance());
}

#[test]
fn later_batch_replaces_parents() {
    let mut p = proposer(AttackType::Honest, 1);
    p.process_parents(vec![cert(1, 4, vec![]), cert(2, 4, vec![])], 4);
    assert_eq!(p.round(), 4);
    assert_eq!(p.parents_len(), 2);
    p.process_parents(vec![cert(3, 10, vec![])], 10);
    assert_eq!(p.round(), 10);
    assert_eq!(p.parent_digests(), vec![cert(3, 10, vec![]).digest]);
}

#[test]
fn same_round_batch_extends_and_older_is_dropped() {
    let mut p = proposer(AttackType::Honest, 1);
    p.process_parents(vec![cert(1, 4, vec![])], 4);
    p.process_parents(vec![cert(2, 4, vec![])], 4);
    assert_eq!(p.parents_len(), 2);
    p.process_parents(vec![cert(3, 2, vec![])], 2);
    assert_eq!(p.round(), 4);
    assert_eq!(p.parents_len(), 2);
}

#[test]
fn honest_proposal_drains_buffers() {
    let mut p = proposer(AttackType::Honest, 1);
    let parents = vec![cert(1, 4, vec![]), cert(2, 4, vec![])];
    let ids: Vec<Digest> = parents.iter().map(|c| c.digest).collect();
    p.process_parents(parents, 4);
    p.process_digest(digest(9), 0);
    p.process_digest(digest(5), 1);
    assert_eq!(p.payload_size(), 64);
    assert!(p.should_propose(false) == p.advance());
    let out = p.propose();
    assert_eq!(p.round(), 5);
    assert_eq!(out.header.round, 5);
    assert_eq!(out.header.author, key(0));
    assert_eq!(out.header.payload, vec![(digest(5), 1), (digest(9), 0)]);
    let mut sorted = ids.clone();
    sorted.sort_by(|a, b| a.0.cmp(&b.0));
    assert_eq!(out.header.parents, sorted);
    assert_eq!(out.left_over, 0);
    assert_eq!(out.next_delay, 100);
    assert_eq!(p.parents_len(), 0);
    assert_eq!(p.digests_len(), 0);
    assert_eq!(p.payload_size(), 0);
    assert!(!p.should_propose(true));
}

#[test]
fn latch_and_release_victim() {
    let mut p = proposer(AttackType::Fissure, 1);
    p.process_parents(vec![cert(1, 4, vec![])], 4);
    p.process_observed_header(Header::new(key(1), 3, &vec![], &vec![]));
    assert!(!p.is_attacking());
    p.process_observed_header(Header::new(key(1), 6, &vec![], &vec![]));
    assert!(p.is_attacking());
    assert_eq!(p.victim_round(), Some(6));
    p.process_observed_header(Header::new(key(2), 8, &vec![], &vec![]));
    assert_eq!(p.victim_round(), Some(6));
    p.process_cleaned_certificate(&cert(2, 5, vec![]));
    assert!(p.is_attacking());
    p.process_cleaned_certificate(&cert(2, 6, vec![]));
    assert!(!p.is_attacking());
    assert_eq!(p.victim_round(), None);
}

#[test]
fn honest_node_never_latches() {
    let mut p = proposer(AttackType::Honest, 1);
    p.process_observed_header(Header::new(key(1), 6, &vec![], &vec![]));
    assert!(!p.is_attacking());
}

#[test]
fn sluggish_doubles_delay_while_idle() {
    let mut p = proposer(AttackType::Sluggish, 1);
    p.process_parents(vec![cert(1, 4, vec![])], 4);
    assert_eq!(p.propose().next_delay, 200);
    p.process_observed_header(Header::new(key(1), 6, &vec![], &vec![]));
    p.process_parents(vec![cert(1, 5, vec![])], 5);
    assert_eq!(p.propose().next_delay, 100);
}

#[test]
fn speculative_round_emits_greatest_prefix() {
    let mut p = proposer(AttackType::Speculative, 3);
    let parents = vec![cert(1, 6, vec![]), cert(2, 6, vec![])];
    let ids: Vec<Digest> = parents.iter().map(|c| c.digest).collect();
    p.process_parents(parents, 6);
    p.process_observed_header(Header::new(key(1), 7, &vec![], &vec![]));
    assert!(p.is_attacking());
    let pending = vec![(digest(30), 0u32), (digest(10), 1u32), (digest(20), 2u32)];
    for (d, w) in &pending {
        p.process_digest(*d, *w);
    }
    let out = p.propose();
    assert_eq!(p.round(), 7);

    let a = Attacker::new(committee(), AttackType::Speculative, 3);
    let mut best = 0usize;
    let mut best_id = None;
    for k in 0..3 {
        let h = a.get_header_id(key(0), 7, k, &pending, &ids);
        let c = a.get_certificate_digest(key(0), 7, &h);
        if best_id.map_or(true, |b: Digest| c.0 > b.0) {
            best = k;
            best_id = Some(c);
        }
    }
    let chosen = best + 1;
    assert_eq!(out.header.payload.len(), chosen);
    assert_eq!(out.left_over, 3 - chosen);
    assert_eq!(p.digests_len(), 3 - chosen);
    assert_eq!(p.payload_size(), 32 * (3 - chosen));
    assert_eq!(p.parents_len(), 0);
    let emitted = a.get_certificate_digest(key(0), 7, &out.header.id);
    assert_eq!(Some(emitted), best_id);
}

#[test]
fn speculative_outside_attacking_round_takes_everything() {
    let mut p = proposer(AttackType::Speculative, 3);
    p.process_parents(vec![cert(1, 4, vec![])], 4);
    p.process_observed_header(Header::new(key(1), 5, &vec![], &vec![]));
    p.process_digest(digest(1), 0);
    p.process_digest(digest(2), 0);
    let out = p.propose();
    assert_eq!(out.header.round, 5);
    assert_eq!(out.header.payload.len(), 2);
    assert_eq!(out.left_over, 0);
}

#[test]
fn rounds_never_go_back() {
    let mut p = proposer(AttackType::Honest, 1);
    let mut last = p.round();
    let steps: Vec<u64> = vec![3, 1, 3, 8, 2, 8];
    for r in steps {
        p.process_parents(vec![cert(1, r, vec![])], r);
        assert!(p.round() >= last);
        last = p.round();
        p.propose();
        assert_eq!(p.round(), last + 1);
        last = p.round();
    }
}
