use ed25519_dalek::Digest as _;
use ed25519_dalek::Sha512;
use fairdag_proposer::attacks::{select_extremal, AttackType, Attacker};
use fairdag_proposer::committee::{Authority, Committee};
use fairdag_proposer::messages::{Certificate, Digest, Header, PublicKey};

fn key(i: u8) -> PublicKey {
    PublicKey([i; 32])
}

fn digest(i: u8) -> Digest {
    Digest([i; 32])
}

fn committee(victims: &[bool]) -> Committee {
    Committee {
        authorities: victims
            .iter()
            .enumerate()
            .map(|(i, v)| Authority { name: key(i as u8 + 1), stake: 1, is_victim: *v })
            .collect(),
    }
}

fn sha_prefix(data: &[u8]) -> [u8; 32] {
    let h = Sha512::digest(data);
    let mut out = [0u8; 32];
    out.copy_from_slice(&h.as_slice()[..32]);
    out
}

#[test]
fn victims_keep_committee_order() {
    let a = Attacker::new(committee(&[false, true, false, true]), AttackType::Fissure, 1);
    assert_eq!(a.victims(), vec![key(2), key(4)]);
    assert_eq!(a.target_victim(), Some(key(2)));
    assert!(a.is_target_victim(key(2)));
    assert!(!a.is_target_victim(key(4)));
}

#[test]
fn no_victim_means_no_target() {
    let a = Attacker::new(committee(&[false, false]), AttackType::Sluggish, 2);
    assert!(a.victims().is_empty());
    assert_eq!(a.target_victim(), None);
    assert!(!a.is_target_victim(key(1)));
    assert_eq!(a.attack_type(), AttackType::Sluggish);
    assert_eq!(a.speculative_try_times(), 2);
}

#[test]
fn header_id_hashes_canonical_fields() {
    let a = Attacker::new(committee(&[true]), AttackType::Speculative, 3);
    let payload = vec![(digest(9), 1u32), (digest(3), 2u32), (digest(9), 5u32)];
    let parents = vec![digest(7), digest(4), digest(7)];
    let id = a.get_header_id(key(1), 7, 2, &payload, &parents);
    let mut buf = Vec::new();
    buf.extend_from_slice(&[1u8; 32]);
    buf.extend_from_slice(&7u64.to_le_bytes());
    buf.extend_from_slice(&[3u8; 32]);
    buf.extend_from_slice(&2u32.to_le_bytes());
    buf.extend_from_slice(&[9u8; 32]);
    buf.extend_from_slice(&5u32.to_le_bytes());
    buf.extend_from_slice(&[4u8; 32]);
    buf.extend_from_slice(&[7u8; 32]);
    assert_eq!(id.0, sha_prefix(&buf));
}

#[test]
fn header_id_prefix_takes_first_entries_only() {
    let a = Attacker::new(committee(&[true]), AttackType::Speculative, 3);
    let payload = vec![(digest(9), 1u32), (digest(3), 2u32)];
    let parents = vec![digest(4)];
    let id = a.get_header_id(key(1), 5, 0, &payload, &parents);
    let mut buf = Vec::new();
    buf.extend_from_slice(&[1u8; 32]);
    buf.extend_from_slice(&5u64.to_le_bytes());
    buf.extend_from_slice(&[9u8; 32]);
    buf.extend_from_slice(&1u32.to_le_bytes());
    buf.extend_from_slice(&[4u8; 32]);
    assert_eq!(id.0, sha_prefix(&buf));
}

#[test]
fn certificate_digest_hashes_id_round_author() {
    let a = Attacker::new(committee(&[true]), AttackType::Speculative, 3);
    let d = a.get_certificate_digest(key(2), 11, &digest(5));
    let mut buf = Vec::new();
    buf.extend_from_slice(&[5u8; 32]);
    buf.extend_from_slice(&11u64.to_le_bytes());
    buf.extend_from_slice(&[2u8; 32]);
    assert_eq!(d.0, sha_prefix(&buf));
}

#[test]
fn header_new_matches_header_id_and_certificate() {
    let a = Attacker::new(committee(&[true]), AttackType::Honest, 1);
    let payload = vec![(digest(8), 0u32), (digest(2), 1u32), (digest(8), 3u32)];
    let parents = vec![digest(6), digest(1)];
    let h = Header::new(key(3), 4, &payload, &parents);
    assert_eq!(h.payload, vec![(digest(2), 1u32), (digest(8), 3u32)]);
    assert_eq!(h.parents, vec![digest(1), digest(6)]);
    assert_eq!(h.id, a.get_header_id(key(3), 4, 2, &payload, &parents));
    let c = Certificate::new(h);
    assert_eq!(c.digest, a.get_certificate_digest(key(3), 4, &c.header.id));
    assert_eq!(c.origin(), key(3));
}

#[test]
fn select_extremal_picks_first_greatest() {
    let mut hi = [0u8; 32];
    hi[0] = 1;
    let cands = vec![digest(0), Digest(hi), digest(1), Digest(hi)];
    assert_eq!(select_extremal(&cands), 2);
    let cands = vec![Digest(hi), digest(0), Digest(hi)];
    assert_eq!(select_extremal(&cands), 0);
    assert_eq!(select_extremal(&vec![digest(4)]), 0);
}

#[test]
fn speculative_candidates_cover_bounded_prefixes() {
    let a = Attacker::new(committee(&[true]), AttackType::Speculative, 2);
    let payload = vec![(digest(9), 1u32), (digest(3), 2u32), (digest(5), 0u32)];
    let parents = vec![digest(4)];
    let c = a.speculative_candidates(key(1), 7, &payload, &parents);
    assert_eq!(c.len(), 2);
    for (k, cand) in c.iter().enumerate() {
        let id = a.get_header_id(key(1), 7, k, &payload, &parents);
        assert_eq!(*cand, a.get_certificate_digest(key(1), 7, &id));
    }
}

#[test]
fn committee_thresholds_and_leader() {
    let c = committee(&[true, true, true, true]);
    assert_eq!(c.total(), 4);
    assert_eq!(c.quorum_threshold(), 3);
    assert_eq!(c.validity_threshold(), 2);
    assert_eq!(c.leader(6), key(3));
    assert_eq!(c.stake(&key(4)), 1);
    assert_eq!(c.stake(&key(9)), 0);
}

#[test]
fn header_id_prefix_saturates_at_whole_payload() {
    let a = Attacker::new(committee(&[true]), AttackType::Speculative, 3);
    let payload = vec![(digest(9), 1u32), (digest(3), 2u32)];
    let parents = vec![digest(4)];
    let whole = a.get_header_id(key(1), 5, 1, &payload, &parents);
    assert_eq!(a.get_header_id(key(1), 5, 2, &payload, &parents), whole);
    assert_eq!(a.get_header_id(key(1), 5, usize::MAX, &payload, &parents), whole);
}

#[test]
fn header_id_of_empty_payload() {
    let a = Attacker::new(committee(&[true]), AttackType::Speculative, 3);
    let id = a.get_header_id(key(1), 5, 0, &vec![], &vec![digest(4)]);
    let mut buf = Vec::new();
    buf.extend_from_slice(&[1u8; 32]);
    buf.extend_from_slice(&5u64.to_le_bytes());
    buf.extend_from_slice(&[4u8; 32]);
    assert_eq!(id.0, sha_prefix(&buf));
    let b = Attacker::new(committee(&[false, true]), AttackType::Honest, 1);
    assert_eq!(b.get_header_id(key(1), 5, 0, &vec![], &vec![digest(4)]), id);
}
