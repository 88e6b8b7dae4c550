use crate::attacks::{
    is_certificate_candidate, is_first_maximum, select_extremal, tries_spec, AttackType, Attacker,
    ATTACKING_INTERVAL, SLUGGISH_DELAY_MULTI_FACTOR,
};
use crate::bytes::bytes_eq;
use crate::committee::{quorum_of, stake_of, total_stake, validity_of, Authority, Committee};
use crate::messages::{
    digest_set, is_canonical_parents, is_canonical_payload, Certificate, Digest, Header,
    PublicKey, Round, WorkerId,
};
use vstd::prelude::*;

verus! {

/// Size in bytes of one payload identifier.
pub const DIGEST_SIZE: usize = 32;

/// The digest of the first certificate in `parents` authored by `name`.
pub open spec fn find_leader(parents: Seq<Certificate>, name: Seq<u8>) -> Option<Digest>
    decreases parents.len(),
{
    if parents.len() == 0 {
        None
    } else if parents[0].header.author@ == name {
        Some(parents[0].digest)
    } else {
        find_leader(parents.drop_first(), name)
    }
}

/// Whether a parent references the leader's certificate.
pub open spec fn votes_for_leader(c: Certificate, leader: Seq<u8>) -> bool {
    digest_set(c.header.parents@).contains(leader)
}

/// Stake of the parents that reference (`support`) or do not reference the leader.
pub open spec fn vote_stake(
    parents: Seq<Certificate>,
    leader: Seq<u8>,
    auths: Seq<Authority>,
    support: bool,
) -> nat
    decreases parents.len(),
{
    if parents.len() == 0 {
        0
    } else {
        vote_stake(parents.drop_last(), leader, auths, support) + if votes_for_leader(
            parents.last(),
            leader,
        ) == support {
            stake_of(auths, parents.last().header.author@) as nat
        } else {
            0
        }
    }
}

/// The local round after a parent batch of round `batch` arrives at round `current`.
pub open spec fn round_after_batch(current: Round, batch: Round) -> Round {
    if batch > current {
        batch
    } else {
        current
    }
}

/// The round never goes back on a parent batch; it moves only by adopting a
/// strictly greater batch round.
pub proof fn lemma_round_never_decreases(current: Round, batch: Round)
    ensures
        round_after_batch(current, batch) >= current,
        round_after_batch(current, batch) != current ==> batch > current
            && round_after_batch(current, batch) == batch,
{
}

/// Over any step of the event loop the round never goes back: it grows by
/// one when a header is cut, or jumps to the round of a parent batch that is
/// strictly ahead; otherwise it stays.
pub proof fn lemma_step_round_monotone(s: &Proposer, s2: &Proposer)
    requires
        Proposer::step(s, s2),
    ensures
        s2.round_spec() >= s.round_spec(),
        s2.round_spec() == s.round_spec() || Proposer::propose_step(s, s2) || exists|r: Round|
            #![trigger Proposer::parents_step(s, s2, r)]
            r > s.round_spec() && s2.round_spec() == r && Proposer::parents_step(s, s2, r),
{
    if exists|r: Round| #[trigger] Proposer::parents_step(s, s2, r) {
        let r = choose|r: Round| #[trigger] Proposer::parents_step(s, s2, r);
        lemma_round_never_decreases(s.round_spec(), r);
    }
}

/// Over any step of the event loop a victim is latched only on an observed
/// header that is not behind the local round, while none is latched; it is
/// released only on a certificate of its round or later; it does not change
/// while latched otherwise; and an honest node never latches one.
pub proof fn lemma_step_latch(s: &Proposer, s2: &Proposer)
    requires
        Proposer::step(s, s2),
    ensures
        !s.is_attacking_spec() && s2.is_attacking_spec() ==> exists|h: Header|
            #![trigger Proposer::observed_step(s, s2, h)]
            Proposer::observed_step(s, s2, h) && s.round_spec() <= h.round && s2.victim_spec()
                == Some(h),
        s.is_attacking_spec() && !s2.is_attacking_spec() ==> exists|r: Round|
            #![trigger Proposer::cleaned_step(s, s2, r)]
            Proposer::cleaned_step(s, s2, r) && r >= s.victim_spec()->Some_0.round,
        s.is_attacking_spec() && s2.is_attacking_spec() ==> s2.victim_spec() == s.victim_spec(),
        s.attack_type_spec() is Honest && !s.is_attacking_spec() ==> !s2.is_attacking_spec(),
{
    if exists|h: Header| #[trigger] Proposer::observed_step(s, s2, h) {
        let h = choose|h: Header| #[trigger] Proposer::observed_step(s, s2, h);
        assert(Proposer::observed_step(s, s2, h));
    }
    if exists|r: Round| #[trigger] Proposer::cleaned_step(s, s2, r) {
        let r = choose|r: Round| #[trigger] Proposer::cleaned_step(s, s2, r);
        assert(Proposer::cleaned_step(s, s2, r));
    }
}

/// The identifiers of a list of certificates.
pub open spec fn cert_digests(s: Seq<Certificate>) -> Seq<Digest> {
    s.map_values(|c: Certificate| c.digest)
}

/// Splits the pending payload after its first `n` entries.
fn split_pending(v: &Vec<(Digest, WorkerId)>, n: usize) -> (r: (
    Vec<(Digest, WorkerId)>,
    Vec<(Digest, WorkerId)>,
))
    requires
        n <= v@.len(),
    ensures
        r.0@ == v@.take(n as int),
        r.1@ == v@.skip(n as int),
{
    let mut head: Vec<(Digest, WorkerId)> = Vec::new();
    let mut rest: Vec<(Digest, WorkerId)> = Vec::new();
    let mut i: usize = 0;
    while i < v.len()
        invariant
            n <= v@.len(),
            i <= v@.len(),
            head@ == v@.take(if i < n { i as int } else { n as int }),
            rest@ == if i < n { Seq::empty() } else { v@.subrange(n as int, i as int) },
        decreases v@.len() - i,
    {
        if i < n {
            head.push(v[i]);
            assert(v@.take(i + 1) =~= v@.take(i as int).push(v@[i as int]));
        } else {
            rest.push(v[i]);
            assert(v@.subrange(n as int, i + 1) =~= v@.subrange(n as int, i as int).push(
                v@[i as int],
            ));
        }
        i = i + 1;
    }
    assert(v@.subrange(n as int, v@.len() as int) =~= v@.skip(n as int));
    (head, rest)
}

/// A new header together with the delay before the next deadline.
pub struct Proposal {
    pub header: Header,
    /// Milliseconds until the timer fires again.
    pub next_delay: u64,
    /// Payload entries kept back for the next header.
    pub left_over: usize,
}

/// The round-advancement state of one node.
pub struct Proposer {
    name: PublicKey,
    committee: Committee,
    header_size: usize,
    max_header_delay: u64,
    round: Round,
    last_parents: Vec<Certificate>,
    last_leader: Option<Digest>,
    advance: bool,
    digests: Vec<(Digest, WorkerId)>,
    payload_size: usize,
    attacker: Attacker,
    victim_header: Option<Header>,
}

impl Proposer {
    pub closed spec fn name_spec(&self) -> PublicKey {
        self.name
    }

    pub closed spec fn committee_spec(&self) -> &Committee {
        &self.committee
    }

    pub closed spec fn header_size_spec(&self) -> usize {
        self.header_size
    }

    pub closed spec fn delay_spec(&self) -> u64 {
        self.max_header_delay
    }

    pub closed spec fn round_spec(&self) -> Round {
        self.round
    }

    pub closed spec fn parents_spec(&self) -> Seq<Certificate> {
        self.last_parents@
    }

    pub closed spec fn leader_spec(&self) -> Option<Digest> {
        self.last_leader
    }

    pub closed spec fn advance_spec(&self) -> bool {
        self.advance
    }

    pub closed spec fn digests_spec(&self) -> Seq<(Digest, WorkerId)> {
        self.digests@
    }

    pub closed spec fn payload_size_spec(&self) -> usize {
        self.payload_size
    }

    pub closed spec fn attacker_spec(&self) -> &Attacker {
        &self.attacker
    }

    pub closed spec fn victim_spec(&self) -> Option<Header> {
        self.victim_header
    }

    pub open spec fn attack_type_spec(&self) -> AttackType {
        self.attacker_spec().attack_type_spec()
    }

    pub open spec fn is_attacking_spec(&self) -> bool {
        self.victim_spec() is Some
    }

    /// Whether the pending parents give enough support for, or enough
    /// abstention from, the leader's certificate; true when there is none.
    pub open spec fn enough_votes_spec(&self) -> bool {
        match self.leader_spec() {
            None => true,
            Some(d) => vote_stake(self.parents_spec(), d@, self.committee_spec().authorities@, true)
                >= quorum_of(total_stake(self.committee_spec().authorities@)) || vote_stake(
                self.parents_spec(),
                d@,
                self.committee_spec().authorities@,
                false,
            ) >= validity_of(total_stake(self.committee_spec().authorities@)),
        }
    }

    /// Whether the next header is cut by the speculative strategy: the node
    /// follows it, its victim is of the coming round, that round is an
    /// attacking one, and some payload is pending.
    pub open spec fn speculative_applies(&self) -> bool {
        &&& self.attack_type_spec().is_speculative_spec()
        &&& match self.victim_spec() {
            Some(v) => v.round == self.round_spec() + 1,
            None => false,
        }
        &&& (self.round_spec() + 1) % (ATTACKING_INTERVAL as int) == 0
        &&& self.digests_spec().len() > 0
    }

    /// Delay before the next deadline after a header: doubled for an idle sluggish node.
    pub open spec fn next_delay_spec(&self) -> u64 {
        if self.attack_type_spec().is_sluggish_spec() && !self.is_attacking_spec() {
            (SLUGGISH_DELAY_MULTI_FACTOR * self.delay_spec()) as u64
        } else {
            self.delay_spec()
        }
    }

    /// Round and victim after a parent batch of round `r`.
    pub open spec fn parents_step(s: &Proposer, s2: &Proposer, r: Round) -> bool {
        &&& s2.round_spec() == round_after_batch(s.round_spec(), r)
        &&& s2.victim_spec() == s.victim_spec()
        &&& s2.attack_type_spec() == s.attack_type_spec()
    }

    /// Round and victim after a header is cut.
    pub open spec fn propose_step(s: &Proposer, s2: &Proposer) -> bool {
        &&& s2.round_spec() == s.round_spec() + 1
        &&& s2.victim_spec() == s.victim_spec()
        &&& s2.attack_type_spec() == s.attack_type_spec()
    }

    /// Round and victim after a payload identifier arrives.
    pub open spec fn digest_step(s: &Proposer, s2: &Proposer) -> bool {
        &&& s2.round_spec() == s.round_spec()
        &&& s2.victim_spec() == s.victim_spec()
        &&& s2.attack_type_spec() == s.attack_type_spec()
    }

    /// Round and victim after header `h` is observed.
    pub open spec fn observed_step(s: &Proposer, s2: &Proposer, h: Header) -> bool {
        &&& s2.round_spec() == s.round_spec()
        &&& s2.attack_type_spec() == s.attack_type_spec()
        &&& s2.victim_spec() == if s.attack_type_spec().tracks_victims_spec()
            && !s.is_attacking_spec() && s.round_spec() <= h.round {
            Some(h)
        } else {
            s.victim_spec()
        }
    }

    /// Round and victim after a certificate of round `r` is committed or collected.
    pub open spec fn cleaned_step(s: &Proposer, s2: &Proposer, r: Round) -> bool {
        &&& s2.round_spec() == s.round_spec()
        &&& s2.attack_type_spec() == s.attack_type_spec()
        &&& s2.victim_spec() == match s.victim_spec() {
            Some(v) => if s.attack_type_spec().tracks_victims_spec() && r >= v.round {
                None
            } else {
                Some(v)
            },
            None => None,
        }
    }

    /// One step of the event loop: one inbound event handled, or one header cut.
    pub open spec fn step(s: &Proposer, s2: &Proposer) -> bool {
        ||| (exists|r: Round| #[trigger] Self::parents_step(s, s2, r))
        ||| Self::propose_step(s, s2)
        ||| Self::digest_step(s, s2)
        ||| (exists|h: Header| #[trigger] Self::observed_step(s, s2, h))
        ||| (exists|r: Round| #[trigger] Self::cleaned_step(s, s2, r))
    }

    /// The state's invariant: the byte count follows the pending list.
    pub open spec fn wf(&self) -> bool {
        &&& self.committee_spec().wf()
        &&& self.attacker_spec().wf()
        &&& self.delay_spec() <= u64::MAX / 2
        &&& self.payload_size_spec() as nat == DIGEST_SIZE as nat * self.digests_spec().len()
    }

    /// Fields that only the configuration decides.
    pub open spec fn same_config(&self, other: &Proposer) -> bool {
        &&& self.name_spec() == other.name_spec()
        &&& self.committee_spec() == other.committee_spec()
        &&& self.header_size_spec() == other.header_size_spec()
        &&& self.delay_spec() == other.delay_spec()
        &&& self.attacker_spec() == other.attacker_spec()
    }

    /// Starts at round 0 with the genesis certificates as parents.
    pub fn new(
        name: PublicKey,
        committee: Committee,
        header_size: usize,
        max_header_delay: u64,
        attacker: Attacker,
        genesis: Vec<Certificate>,
    ) -> (r: Self)
        requires
            committee.wf(),
            attacker.wf(),
            max_header_delay <= u64::MAX / 2,
        ensures
            r.wf(),
            r.name_spec() == name,
            *r.committee_spec() == committee,
            r.header_size_spec() == header_size,
            r.delay_spec() == max_header_delay,
            *r.attacker_spec() == attacker,
            r.round_spec() == 0,
            r.parents_spec() == genesis@,
            r.leader_spec() is None,
            r.advance_spec(),
            r.digests_spec().len() == 0,
            r.victim_spec() is None,
    {
        Proposer {
            name,
            committee,
            header_size,
            max_header_delay,
            round: 0,
            last_parents: genesis,
            last_leader: None,
            advance: true,
            digests: Vec::new(),
            payload_size: 0,
            attacker,
            victim_header: None,
        }
    }

    pub fn round(&self) -> (r: Round)
        ensures
            r == self.round_spec(),
    {
        self.round
    }

    pub fn attack_type(&self) -> (r: AttackType)
        ensures
            r == self.attack_type_spec(),
    {
        self.attacker.attack_type()
    }

    pub fn is_attacking(&self) -> (r: bool)
        ensures
            r == self.is_attacking_spec(),
    {
        self.victim_header.is_some()
    }

    /// Round of the latched victim header, if any.
    pub fn victim_round(&self) -> (r: Option<Round>)
        ensures
            match self.victim_spec() {
                Some(h) => r == Some(h.round),
                None => r is None,
            },
    {
        match &self.victim_header {
            Some(h) => Some(h.round),
            None => None,
        }
    }

    pub fn advance(&self) -> (r: bool)
        ensures
            r == self.advance_spec(),
    {
        self.advance
    }

    pub fn parents_len(&self) -> (r: usize)
        ensures
            r == self.parents_spec().len(),
    {
        self.last_parents.len()
    }

    pub fn digests_len(&self) -> (r: usize)
        ensures
            r == self.digests_spec().len(),
    {
        self.digests.len()
    }

    pub fn payload_size(&self) -> (r: usize)
        ensures
            r == self.payload_size_spec(),
    {
        self.payload_size
    }

    /// Identifiers of the pending parents, in arrival order.
    pub fn parent_digests(&self) -> (r: Vec<Digest>)
        ensures
            r@ == cert_digests(self.parents_spec()),
    {
        let mut r: Vec<Digest> = Vec::new();
        let mut i: usize = 0;
        while i < self.last_parents.len()
            invariant
                i <= self.last_parents@.len(),
                r@ == cert_digests(self.last_parents@.take(i as int)),
            decreases self.last_parents@.len() - i,
        {
            r.push(self.last_parents[i].digest);
            assert(cert_digests(self.last_parents@.take(i + 1)) =~= cert_digests(
                self.last_parents@.take(i as int),
            ).push(self.last_parents@[i as int].digest));
            i = i + 1;
        }
        assert(self.last_parents@.take(i as int) =~= self.last_parents@);
        r
    }

    /// Recomputes the leader's certificate among the pending parents.
    pub fn update_leader(&mut self) -> (r: bool)
        requires
            old(self).wf(),
        ensures
            final(self).wf(),
            final(self).same_config(old(self)),
            final(self).round_spec() == old(self).round_spec(),
            final(self).parents_spec() == old(self).parents_spec(),
            final(self).advance_spec() == old(self).advance_spec(),
            final(self).digests_spec() == old(self).digests_spec(),
            final(self).victim_spec() == old(self).victim_spec(),
            final(self).leader_spec() == find_leader(
                old(self).parents_spec(),
                old(self).committee_spec().leader_spec(old(self).round_spec()),
            ),
            r == final(self).leader_spec() is Some,
    {
        let leader_name = self.committee.leader(self.round);
        let ghost ps = self.last_parents@;
        let mut found: Option<Digest> = None;
        let mut i: usize = 0;
        assert(ps.subrange(0, ps.len() as int) =~= ps);
        while i < self.last_parents.len()
            invariant_except_break
                found is None,
            invariant
                ps == self.last_parents@,
                i <= ps.len(),
                find_leader(ps, leader_name@) == find_leader(
                    ps.subrange(i as int, ps.len() as int),
                    leader_name@,
                ),
            ensures
                found == find_leader(ps, leader_name@),
            decreases ps.len() - i,
        {
            let ghost rest = ps.subrange(i as int, ps.len() as int);
            assert(rest.drop_first() =~= ps.subrange(i + 1, ps.len() as int));
            assert(rest[0] == ps[i as int]);
            if bytes_eq(&self.last_parents[i].header.author.0, &leader_name.0) {
                found = Some(self.last_parents[i].digest);
                break;
            }
            i = i + 1;
        }
        self.last_leader = found;
        self.last_leader.is_some()
    }

    /// Whether the pending parents give enough support for, or enough
    /// abstention from, the leader's certificate; true when there is none.
    pub fn enough_votes(&self) -> (r: bool)
        requires
            self.wf(),
        ensures
            r == self.enough_votes_spec(),
    {
        let leader = match &self.last_leader {
            Some(x) => *x,
            None => {
                return true;
            },
        };
        let ghost auths = self.committee.authorities@;
        let ghost ps = self.last_parents@;
        let mut yes: u64 = 0;
        let mut no: u64 = 0;
        let mut i: usize = 0;
        while i < self.last_parents.len()
            invariant
                ps == self.last_parents@,
                auths == self.committee.authorities@,
                i <= ps.len(),
                yes as nat == if vote_stake(ps.take(i as int), leader@, auths, true) < u64::MAX {
                    vote_stake(ps.take(i as int), leader@, auths, true)
                } else {
                    u64::MAX as nat
                },
                no as nat == if vote_stake(ps.take(i as int), leader@, auths, false) < u64::MAX {
                    vote_stake(ps.take(i as int), leader@, auths, false)
                } else {
                    u64::MAX as nat
                },
            decreases ps.len() - i,
        {
            let certificate = &self.last_parents[i];
            let stake = self.committee.stake(&certificate.header.author);
            assert(ps.take(i + 1).drop_last() =~= ps.take(i as int));
            assert(ps.take(i + 1).last() == ps[i as int]);
            if certificate.header.has_parent(&leader) {
                yes = if yes > u64::MAX - stake {
                    u64::MAX
                } else {
                    yes + stake
                };
            } else {
                no = if no > u64::MAX - stake {
                    u64::MAX
                } else {
                    no + stake
                };
            }
            i = i + 1;
        }
        assert(ps.take(i as int) =~= ps);
        let quorum = self.committee.quorum_threshold();
        let validity = self.committee.validity_threshold();
        yes >= quorum || no >= validity
    }

    /// Takes in a batch of parents for `round`: a later round is adopted with
    /// its batch, the current round extends the batch, an earlier one is
    /// dropped. Then recomputes whether the node may advance.
    pub fn process_parents(&mut self, parents: Vec<Certificate>, round: Round)
        requires
            old(self).wf(),
        ensures
            Self::parents_step(old(self), final(self), round),
            final(self).wf(),
            final(self).same_config(old(self)),
            final(self).digests_spec() == old(self).digests_spec(),
            final(self).victim_spec() == old(self).victim_spec(),
            final(self).round_spec() == round_after_batch(old(self).round_spec(), round),
            round > old(self).round_spec() ==> final(self).parents_spec() == parents@,
            round == old(self).round_spec() ==> final(self).parents_spec() == old(
                self,
            ).parents_spec() + parents@,
            round < old(self).round_spec() ==> final(self).parents_spec() == old(
                self,
            ).parents_spec(),
            final(self).round_spec() % 2 == 0 ==> final(self).leader_spec() == find_leader(
                final(self).parents_spec(),
                final(self).committee_spec().leader_spec(final(self).round_spec()),
            ) && final(self).advance_spec() == final(self).leader_spec() is Some,
            final(self).round_spec() % 2 == 1 ==> final(self).leader_spec() == old(
                self,
            ).leader_spec() && final(self).advance_spec() == final(self).enough_votes_spec(),
    {
        let mut parents = parents;
        if round > self.round {
            self.round = round;
            self.last_parents = parents;
        } else if round == self.round {
            self.last_parents.append(&mut parents);
        }
        self.advance = if self.round % 2 == 0 {
            self.update_leader()
        } else {
            self.enough_votes()
        };
    }

    /// Queues a payload identifier from a worker.
    pub fn process_digest(&mut self, digest: Digest, worker_id: WorkerId)
        requires
            old(self).wf(),
            old(self).payload_size_spec() + DIGEST_SIZE <= usize::MAX,
        ensures
            Self::digest_step(old(self), final(self)),
            final(self).wf(),
            final(self).same_config(old(self)),
            final(self).round_spec() == old(self).round_spec(),
            final(self).parents_spec() == old(self).parents_spec(),
            final(self).leader_spec() == old(self).leader_spec(),
            final(self).advance_spec() == old(self).advance_spec(),
            final(self).victim_spec() == old(self).victim_spec(),
            final(self).digests_spec() == old(self).digests_spec().push((digest, worker_id)),
            final(self).payload_size_spec() == old(self).payload_size_spec() + DIGEST_SIZE,
    {
        self.payload_size = self.payload_size + DIGEST_SIZE;
        self.digests.push((digest, worker_id));
    }

    /// Latches onto an observed header when the strategy tracks victims, no
    /// victim is latched, and the header is not behind the local round.
    pub fn process_observed_header(&mut self, header: Header)
        requires
            old(self).wf(),
        ensures
            Self::observed_step(old(self), final(self), header),
            final(self).wf(),
            final(self).same_config(old(self)),
            final(self).round_spec() == old(self).round_spec(),
            final(self).parents_spec() == old(self).parents_spec(),
            final(self).leader_spec() == old(self).leader_spec(),
            final(self).advance_spec() == old(self).advance_spec(),
            final(self).digests_spec() == old(self).digests_spec(),
            final(self).victim_spec() == if old(self).attack_type_spec().tracks_victims_spec()
                && !old(self).is_attacking_spec() && old(self).round_spec() <= header.round {
                Some(header)
            } else {
                old(self).victim_spec()
            },
    {
        if self.attacker.attack_type().tracks_victims() && self.victim_header.is_none()
            && self.round <= header.round {
            self.victim_header = Some(header);
        }
    }

    /// Releases the victim once a certificate of its round or later has been
    /// committed or collected.
    pub fn process_cleaned_certificate(&mut self, certificate: &Certificate)
        requires
            old(self).wf(),
        ensures
            Self::cleaned_step(old(self), final(self), certificate.header.round),
            final(self).wf(),
            final(self).same_config(old(self)),
            final(self).round_spec() == old(self).round_spec(),
            final(self).parents_spec() == old(self).parents_spec(),
            final(self).leader_spec() == old(self).leader_spec(),
            final(self).advance_spec() == old(self).advance_spec(),
            final(self).digests_spec() == old(self).digests_spec(),
            final(self).victim_spec() == match old(self).victim_spec() {
                Some(v) => if old(self).attack_type_spec().tracks_victims_spec()
                    && certificate.header.round >= v.round {
                    None
                } else {
                    Some(v)
                },
                None => None,
            },
    {
        let release = match &self.victim_header {
            Some(v) => self.attacker.attack_type().tracks_victims() && certificate.header.round
                >= v.round,
            None => false,
        };
        if release {
            self.victim_header = None;
        }
    }

    /// Moves to the next round and cuts its header from the pending parents
    /// and payload, which are consumed. Under the speculative strategy, in an
    /// attacking round with the victim's round matching, only the prefix of
    /// the payload whose certificate identifier is greatest goes in; the rest
    /// stays pending.
    pub fn propose(&mut self) -> (p: Proposal)
        requires
            old(self).wf(),
            old(self).round_spec() < u64::MAX,
        ensures
            Self::propose_step(old(self), final(self)),
            final(self).wf(),
            final(self).same_config(old(self)),
            final(self).round_spec() == old(self).round_spec() + 1,
            final(self).leader_spec() == old(self).leader_spec(),
            final(self).advance_spec() == old(self).advance_spec(),
            final(self).victim_spec() == old(self).victim_spec(),
            final(self).parents_spec().len() == 0,
            p.header.wf(),
            p.header.author == old(self).name_spec(),
            p.header.round == final(self).round_spec(),
            is_canonical_parents(p.header.parents@, cert_digests(old(self).parents_spec())),
            p.next_delay == old(self).next_delay_spec(),
            p.left_over == final(self).digests_spec().len(),
            !old(self).speculative_applies() ==> p.left_over == 0 && is_canonical_payload(
                p.header.payload@,
                old(self).digests_spec(),
            ),
            old(self).speculative_applies() ==> {
                let pending = old(self).digests_spec();
                let k = pending.len() - p.left_over;
                let n = tries_spec(old(self).attacker_spec().try_times_spec(), pending.len());
                &&& 1 <= k <= n
                &&& is_canonical_payload(p.header.payload@, pending.take(k))
                &&& final(self).digests_spec() == pending.skip(k)
                &&& exists|c: Seq<Seq<u8>>|
                    #![trigger is_first_maximum(c, k - 1)]
                    c.len() == n && is_first_maximum(c, k - 1) && forall|j: int|
                        0 <= j < n ==> is_certificate_candidate(
                            #[trigger] c[j],
                            old(self).name_spec()@,
                            final(self).round_spec(),
                            pending.take(j + 1),
                            cert_digests(old(self).parents_spec()),
                        )
            },
    {
        let ghost pending = self.digests@;
        let ghost applies = self.speculative_applies();
        self.round = self.round + 1;
        let parent_ids = self.parent_digests();
        let strikes = self.attacker.attack_type().is_speculative() && match &self.victim_header {
            Some(v) => v.round == self.round,
            None => false,
        } && self.round % ATTACKING_INTERVAL == 0 && self.digests.len() > 0;
        assert(strikes == applies);
        let mut left_over: usize = 0;
        let header;
        if strikes {
            let cands = self.attacker.speculative_candidates(
                self.name,
                self.round,
                &self.digests,
                &parent_ids,
            );
            let best = select_extremal(&cands);
            let (head, rest) = split_pending(&self.digests, best + 1);
            header = Header::new(self.name, self.round, &head, &parent_ids);
            left_over = rest.len();
            proof {
                let c = cands@.map_values(|d: Digest| d@);
                assert(c.len() == tries_spec(self.attacker.try_times_spec(), pending.len()));
                assert forall|j: int|
                    0 <= j < c.len() implies is_certificate_candidate(
                    #[trigger] c[j],
                    self.name@,
                    self.round,
                    pending.take(j + 1),
                    parent_ids@,
                ) by {
                    assert(c[j] == cands@[j]@);
                }
                assert(is_first_maximum(c, best as int));
                assert(left_over <= pending.len());
                assert(DIGEST_SIZE * left_over <= DIGEST_SIZE * pending.len()) by (nonlinear_arith)
                    requires
                        left_over <= pending.len(),
                ;
            }
            self.digests = rest;
            self.payload_size = DIGEST_SIZE * left_over;
        } else {
            header = Header::new(self.name, self.round, &self.digests, &parent_ids);
            self.digests = Vec::new();
            self.payload_size = 0;
        }
        self.last_parents = Vec::new();
        let next_delay = if self.attacker.attack_type().is_sluggish()
            && self.victim_header.is_none() {
            SLUGGISH_DELAY_MULTI_FACTOR * self.max_header_delay
        } else {
            self.max_header_delay
        };
        Proposal { header, next_delay, left_over }
    }

    /// The decision predicate: parents are pending, and the timer expired or
    /// enough payload has gathered on the happy path.
    pub fn should_propose(&self, timer_expired: bool) -> (r: bool)
        ensures
            r == (self.parents_spec().len() > 0 && (timer_expired || (self.payload_size_spec()
                >= self.header_size_spec() && self.advance_spec()))),
    {
        let enough_parents = self.last_parents.len() > 0;
        let enough_digests = self.payload_size >= self.header_size;
        enough_parents && (timer_expired || (enough_digests && self.advance))
    }
}

} // verus!
