use crate::bytes::{bytes_lt, key_lt, sorted_keys, lemma_key_lt_total, lemma_key_lt_transitive};
use crate::committee::{victims_of, Committee};
use crate::messages::{
    canonical_parents, canonical_payload, certificate_digest_of, digest_certificate_fields,
    digest_header_fields, header_digest, is_canonical_parents, is_canonical_payload, Digest,
    PublicKey, WorkerId,
};
use vstd::prelude::*;

verus! {

/// Rounds in which the speculative strategy strikes are the multiples of this.
pub const ATTACKING_INTERVAL: u64 = 7;

/// Upper bound on the prefixes that the speculative strategy tries.
pub const SPECULATIVE_MAX_TRIES: usize = 50;

/// Factor by which the sluggish strategy stretches its timer while idle.
pub const SLUGGISH_DELAY_MULTI_FACTOR: u64 = 2;

/// The strategy a node follows.
#[derive(Clone, Copy, Debug, PartialEq, Eq, Structural)]
pub enum AttackType {
    Honest,
    /// Delegate of the fissure strategy.
    Fissure,
    FissureNotActive,
    Sluggish,
    SluggishNotActive,
    /// Delegate of the speculative strategy.
    Speculative,
    SpeculativeNotDelegate,
    /// Observes victims without changing what it proposes.
    MonitorNothing,
}

impl AttackType {
    pub open spec fn tracks_victims_spec(&self) -> bool {
        !(*self is Honest)
    }

    pub open spec fn is_sluggish_spec(&self) -> bool {
        *self is Sluggish || *self is SluggishNotActive
    }

    pub open spec fn is_speculative_spec(&self) -> bool {
        *self is Speculative || *self is SpeculativeNotDelegate
    }

    /// Every strategy but the honest one latches onto victim headers.
    pub fn tracks_victims(&self) -> (r: bool)
        ensures
            r == self.tracks_victims_spec(),
    {
        !matches!(self, AttackType::Honest)
    }

    pub fn is_sluggish(&self) -> (r: bool)
        ensures
            r == self.is_sluggish_spec(),
    {
        matches!(self, AttackType::Sluggish | AttackType::SluggishNotActive)
    }

    pub fn is_speculative(&self) -> (r: bool)
        ensures
            r == self.is_speculative_spec(),
    {
        matches!(self, AttackType::Speculative | AttackType::SpeculativeNotDelegate)
    }
}

/// `id` is the identifier of a header by `author` in `round` over payload `p`
/// and parents `q`, each put in canonical form.
pub open spec fn is_header_candidate(
    id: Seq<u8>,
    author: Seq<u8>,
    round: u64,
    p: Seq<(Digest, WorkerId)>,
    q: Seq<Digest>,
) -> bool {
    exists|c: Seq<(Digest, WorkerId)>, d: Seq<Digest>|
        #![trigger is_canonical_payload(c, p), is_canonical_parents(d, q)]
        is_canonical_payload(c, p) && is_canonical_parents(d, q) && id == header_digest(
            author,
            round,
            c,
            d,
        )
}

/// `cert` is the certificate identifier of such a header.
pub open spec fn is_certificate_candidate(
    cert: Seq<u8>,
    author: Seq<u8>,
    round: u64,
    p: Seq<(Digest, WorkerId)>,
    q: Seq<Digest>,
) -> bool {
    exists|id: Seq<u8>|
        #![trigger is_header_candidate(id, author, round, p, q)]
        is_header_candidate(id, author, round, p, q) && cert == certificate_digest_of(
            id,
            round,
            author,
        )
}

/// `k` indexes a greatest element of `c`, the first one among equals.
pub open spec fn is_first_maximum(c: Seq<Seq<u8>>, k: int) -> bool {
    &&& 0 <= k < c.len()
    &&& forall|j: int| 0 <= j < c.len() ==> !key_lt(#[trigger] c[k], c[j])
    &&& forall|j: int| 0 <= j < k ==> key_lt(#[trigger] c[j], c[k])
}

/// Length of the payload prefix up to index `i`: `i + 1`, capped at `len`.
pub open spec fn prefix_len(i: usize, len: nat) -> int {
    if (i as nat) < len {
        i + 1
    } else {
        len as int
    }
}

/// Number of prefixes the speculative strategy tries.
pub open spec fn tries_spec(bound: usize, len: nat) -> nat {
    if (bound as nat) < len {
        bound as nat
    } else {
        len
    }
}

/// The configuration of the strategy layer, fixed for the life of a node.
pub struct Attacker {
    committee: Committee,
    attack_type: AttackType,
    speculative_try_times: usize,
}

impl Attacker {
    pub closed spec fn committee_spec(&self) -> &Committee {
        &self.committee
    }

    pub closed spec fn attack_type_spec(&self) -> AttackType {
        self.attack_type
    }

    pub closed spec fn try_times_spec(&self) -> usize {
        self.speculative_try_times
    }

    pub open spec fn victims_spec(&self) -> Seq<Seq<u8>> {
        victims_of(self.committee_spec().authorities@)
    }

    pub open spec fn wf(&self) -> bool {
        &&& self.committee_spec().wf()
        &&& 1 <= self.try_times_spec() <= SPECULATIVE_MAX_TRIES
    }

    pub fn new(committee: Committee, attack_type: AttackType, speculative_try_times: usize) -> (r:
        Self)
        requires
            committee.wf(),
            1 <= speculative_try_times <= SPECULATIVE_MAX_TRIES,
        ensures
            r.wf(),
            *r.committee_spec() == committee,
            r.attack_type_spec() == attack_type,
            r.try_times_spec() == speculative_try_times,
    {
        Attacker { committee, attack_type, speculative_try_times }
    }

    pub fn committee(&self) -> (r: &Committee)
        ensures
            r == self.committee_spec(),
    {
        &self.committee
    }

    pub fn attack_type(&self) -> (r: AttackType)
        ensures
            r == self.attack_type_spec(),
    {
        self.attack_type
    }

    pub fn speculative_try_times(&self) -> (r: usize)
        ensures
            r == self.try_times_spec(),
    {
        self.speculative_try_times
    }

    /// The authorities that may be targeted, in committee order, which sorts them.
    pub fn victims(&self) -> (r: Vec<PublicKey>)
        ensures
            r@.map_values(|k: PublicKey| k@) == self.victims_spec(),
            self.wf() ==> sorted_keys(r@.map_values(|k: PublicKey| k@)),
    {
        self.committee.victims()
    }

    /// Whether `node` is the one target: the first victim.
    pub fn is_target_victim(&self, node: PublicKey) -> (r: bool)
        ensures
            r == (self.victims_spec().len() > 0 && self.victims_spec()[0] == node@),
    {
        let v = self.victims();
        if v.len() > 0 {
            assert(v@.map_values(|k: PublicKey| k@)[0] == v@[0]@);
            crate::bytes::bytes_eq(&v[0].0, &node.0)
        } else {
            false
        }
    }

    /// The one target, if any authority may be targeted.
    pub fn target_victim(&self) -> (r: Option<PublicKey>)
        ensures
            match r {
                Some(k) => self.victims_spec().len() > 0 && k@ == self.victims_spec()[0],
                None => self.victims_spec().len() == 0,
            },
    {
        let v = self.victims();
        if v.len() > 0 {
            assert(v@.map_values(|k: PublicKey| k@)[0] == v@[0]@);
            Some(v[0])
        } else {
            None
        }
    }

    /// Identifier of the header that would carry the first `ele_index + 1`
    /// payload entries (all of them when there are fewer) and the given parents.
    pub fn get_header_id(
        &self,
        author: PublicKey,
        round: u64,
        ele_index: usize,
        payload: &Vec<(Digest, WorkerId)>,
        parents: &Vec<Digest>,
    ) -> (r: Digest)
        ensures
            is_header_candidate(
                r@,
                author@,
                round,
                payload@.take(prefix_len(ele_index, payload@.len())),
                parents@,
            ),
    {
        let len = payload.len();
        let n = if ele_index < len {
            ele_index + 1
        } else {
            len
        };
        let cp = canonical_payload(payload, n);
        let cq = canonical_parents(parents);
        let r = digest_header_fields(&author, round, &cp, &cq);
        assert(is_canonical_payload(cp@, payload@.take(n as int)) && is_canonical_parents(
            cq@,
            parents@,
        ));
        r
    }

    /// Identifier of the certificate over a header with identifier `header_id`.
    pub fn get_certificate_digest(&self, author: PublicKey, round: u64, header_id: &Digest) -> (r:
        Digest)
        ensures
            r@ == certificate_digest_of(header_id@, round, author@),
    {
        digest_certificate_fields(header_id, round, &author)
    }

    /// The certificate identifiers for the prefixes of length 1, 2, ... up to
    /// the try bound or the payload length, whichever is smaller.
    pub fn speculative_candidates(
        &self,
        author: PublicKey,
        round: u64,
        payload: &Vec<(Digest, WorkerId)>,
        parents: &Vec<Digest>,
    ) -> (r: Vec<Digest>)
        ensures
            r@.len() == tries_spec(self.try_times_spec(), payload@.len()),
            forall|j: int|
                0 <= j < r@.len() ==> is_certificate_candidate(
                    #[trigger] r@[j]@,
                    author@,
                    round,
                    payload@.take(j + 1),
                    parents@,
                ),
    {
        let n = if self.speculative_try_times < payload.len() {
            self.speculative_try_times
        } else {
            payload.len()
        };
        let mut r: Vec<Digest> = Vec::new();
        let mut j: usize = 0;
        while j < n
            invariant
                j <= n,
                n == tries_spec(self.try_times_spec(), payload@.len()),
                n <= payload@.len(),
                r@.len() == j,
                forall|m: int|
                    0 <= m < j ==> is_certificate_candidate(
                        #[trigger] r@[m]@,
                        author@,
                        round,
                        payload@.take(m + 1),
                        parents@,
                    ),
            decreases n - j,
        {
            let id = self.get_header_id(author, round, j, payload, parents);
            let c = self.get_certificate_digest(author, round, &id);
            assert(prefix_len(j, payload@.len()) == j + 1);
            assert(is_header_candidate(id@, author@, round, payload@.take(j + 1), parents@));
            r.push(c);
            j = j + 1;
        }
        r
    }
}

/// Index of the greatest identifier, the first one among equals.
pub fn select_extremal(cands: &Vec<Digest>) -> (r: usize)
    requires
        cands@.len() > 0,
    ensures
        is_first_maximum(cands@.map_values(|d: Digest| d@), r as int),
{
    let ghost c = cands@.map_values(|d: Digest| d@);
    let mut best: usize = 0;
    let mut j: usize = 1;
    while j < cands.len()
        invariant
            c == cands@.map_values(|d: Digest| d@),
            1 <= j <= cands@.len(),
            best < j,
            forall|m: int| 0 <= m < j ==> !key_lt(#[trigger] c[best as int], c[m]),
            forall|m: int| 0 <= m < best ==> key_lt(#[trigger] c[m], c[best as int]),
        decreases cands@.len() - j,
    {
        if bytes_lt(&cands[best].0, &cands[j].0) {
            assert(c[best as int] == cands@[best as int]@ && c[j as int] == cands@[j as int]@);
            assert forall|m: int| 0 <= m < j + 1 implies !key_lt(#[trigger] c[j as int], c[m]) by {
                if m < j && key_lt(c[j as int], c[m]) {
                    lemma_key_lt_transitive(c[best as int], c[j as int], c[m]);
                }
                if m == j {
                    crate::bytes::lemma_key_lt_irreflexive(c[m]);
                }
            }
            assert forall|m: int| 0 <= m < j implies key_lt(#[trigger] c[m], c[j as int]) by {
                assert(!key_lt(c[best as int], c[m]));
                if c[m] != c[best as int] {
                    assert(c[m].len() == 32 && c[best as int].len() == 32);
                    lemma_key_lt_total(c[m], c[best as int]);
                    lemma_key_lt_transitive(c[m], c[best as int], c[j as int]);
                }
            }
            best = j;
        } else {
            assert(c[best as int] == cands@[best as int]@ && c[j as int] == cands@[j as int]@);
        }
        j = j + 1;
    }
    best
}

} // verus!
