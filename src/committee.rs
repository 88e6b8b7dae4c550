use crate::bytes::{bytes_eq, key_lt, sorted_keys};
use crate::messages::PublicKey;
use vstd::prelude::*;

verus! {

/// One member of the committee.
#[derive(Clone, Copy, Debug)]
pub struct Authority {
    pub name: PublicKey,
    pub stake: u64,
    /// Whether this authority runs honestly and may be targeted.
    pub is_victim: bool,
}

/// The committee, its authorities in canonical order.
#[derive(Clone, Debug)]
pub struct Committee {
    pub authorities: Vec<Authority>,
}

/// Sum of the stakes.
pub open spec fn total_stake(s: Seq<Authority>) -> nat
    decreases s.len(),
{
    if s.len() == 0 {
        0
    } else {
        total_stake(s.drop_last()) + s.last().stake as nat
    }
}

/// Stake of the first authority named `name`, zero if there is none.
pub open spec fn stake_of(s: Seq<Authority>, name: Seq<u8>) -> u64
    decreases s.len(),
{
    if s.len() == 0 {
        0
    } else if s[0].name@ == name {
        s[0].stake
    } else {
        stake_of(s.drop_first(), name)
    }
}

/// Names of the authorities flagged as victims, in committee order.
pub open spec fn victims_of(s: Seq<Authority>) -> Seq<Seq<u8>>
    decreases s.len(),
{
    if s.len() == 0 {
        Seq::empty()
    } else if s.last().is_victim {
        victims_of(s.drop_last()).push(s.last().name@)
    } else {
        victims_of(s.drop_last())
    }
}

/// Names strictly increasing: the canonical order of a committee.
pub open spec fn sorted_names(s: Seq<Authority>) -> bool {
    forall|i: int, j: int| 0 <= i < j < s.len() ==> key_lt(#[trigger] s[i].name@, #[trigger] s[j].name@)
}

/// The victims of a sorted committee are sorted, and each is a member.
pub proof fn lemma_victims_sorted(s: Seq<Authority>)
    requires
        sorted_names(s),
    ensures
        sorted_keys(victims_of(s)),
        forall|i: int|
            #![trigger victims_of(s)[i]]
            0 <= i < victims_of(s).len() ==> exists|j: int|
                #![trigger s[j]]
                0 <= j < s.len() && s[j].name@ == victims_of(s)[i],
    decreases s.len(),
{
    if s.len() > 0 {
        let t = s.drop_last();
        assert(sorted_names(t)) by {
            assert forall|i: int, j: int| 0 <= i < j < t.len() implies key_lt(
                #[trigger] t[i].name@,
                #[trigger] t[j].name@,
            ) by {
                assert(t[i] == s[i] && t[j] == s[j]);
            }
        }
        lemma_victims_sorted(t);
        let vt = victims_of(t);
        let v = victims_of(s);
        assert forall|i: int| #![trigger vt[i]] 0 <= i < vt.len() implies exists|j: int|
            #![trigger s[j]]
            0 <= j < s.len() && s[j].name@ == vt[i] by {
            let j = choose|j: int| #![trigger t[j]] 0 <= j < t.len() && t[j].name@ == vt[i];
            assert(s[j] == t[j]);
        }
        if s.last().is_victim {
            assert(v == vt.push(s.last().name@));
            assert forall|i: int, j: int| 0 <= i < j < v.len() implies key_lt(
                #[trigger] v[i],
                #[trigger] v[j],
            ) by {
                if j == v.len() - 1 {
                    let m = choose|m: int| #![trigger t[m]] 0 <= m < t.len() && t[m].name@ == vt[i];
                    assert(s[m] == t[m]);
                    assert(key_lt(s[m].name@, s[s.len() - 1].name@));
                } else {
                    assert(key_lt(vt[i], vt[j]));
                }
            }
            assert forall|i: int| #![trigger v[i]] 0 <= i < v.len() implies exists|j: int|
                #![trigger s[j]]
                0 <= j < s.len() && s[j].name@ == v[i] by {
                if i == v.len() - 1 {
                    assert(s[s.len() - 1].name@ == v[i]);
                } else {
                    assert(v[i] == vt[i]);
                }
            }
        } else {
            assert(v == vt);
        }
    }
}

/// Stake needed for a quorum: more than two thirds of the total.
pub open spec fn quorum_of(total: nat) -> nat {
    2 * total / 3 + 1
}

/// Stake that guarantees one honest member: at least a third of the total.
pub open spec fn validity_of(total: nat) -> nat {
    (total + 2) / 3
}

impl Committee {
    /// Non-empty, in canonical order, and twice the total stake fits in a `u64`.
    pub open spec fn wf(&self) -> bool {
        &&& self.authorities@.len() > 0
        &&& sorted_names(self.authorities@)
        &&& total_stake(self.authorities@) <= u64::MAX / 2
    }

    pub open spec fn size(&self) -> nat {
        self.authorities@.len()
    }

    /// The leader of a round.
    pub open spec fn leader_spec(&self, round: u64) -> Seq<u8> {
        self.authorities@[(round % (self.size() as u64)) as int].name@
    }

    pub fn leader(&self, round: u64) -> (r: PublicKey)
        requires
            self.wf(),
        ensures
            r@ == self.leader_spec(round),
    {
        let n = self.authorities.len() as u64;
        self.authorities[(round % n) as usize].name
    }

    pub fn stake(&self, name: &PublicKey) -> (r: u64)
        ensures
            r == stake_of(self.authorities@, name@),
    {
        let mut i: usize = 0;
        assert(self.authorities@.subrange(0, self.authorities@.len() as int) =~= self.authorities@);
        while i < self.authorities.len()
            invariant
                i <= self.authorities@.len(),
                stake_of(self.authorities@, name@) == stake_of(
                    self.authorities@.subrange(i as int, self.authorities@.len() as int),
                    name@,
                ),
            decreases self.authorities@.len() - i,
        {
            let ghost rest = self.authorities@.subrange(i as int, self.authorities@.len() as int);
            assert(rest.drop_first() =~= self.authorities@.subrange(
                i + 1,
                self.authorities@.len() as int,
            ));
            if bytes_eq(&self.authorities[i].name.0, &name.0) {
                return self.authorities[i].stake;
            }
            i = i + 1;
        }
        0
    }

    pub fn total(&self) -> (r: u64)
        requires
            self.wf(),
        ensures
            r == total_stake(self.authorities@),
    {
        let mut sum: u64 = 0;
        let mut i: usize = 0;
        while i < self.authorities.len()
            invariant
                i <= self.authorities@.len(),
                self.wf(),
                sum == total_stake(self.authorities@.take(i as int)),
            decreases self.authorities@.len() - i,
        {
            proof {
                lemma_total_stake_prefix(self.authorities@, i as int + 1);
            }
            assert(self.authorities@.take(i + 1).drop_last() =~= self.authorities@.take(i as int));
            sum = sum + self.authorities[i].stake;
            i = i + 1;
        }
        assert(self.authorities@.take(i as int) =~= self.authorities@);
        sum
    }

    pub fn quorum_threshold(&self) -> (r: u64)
        requires
            self.wf(),
        ensures
            r == quorum_of(total_stake(self.authorities@)),
    {
        let t = self.total();
        2 * t / 3 + 1
    }

    pub fn validity_threshold(&self) -> (r: u64)
        requires
            self.wf(),
        ensures
            r == validity_of(total_stake(self.authorities@)),
    {
        let t = self.total();
        (t + 2) / 3
    }

    /// Names of the authorities flagged as victims, in committee order.
    pub fn victims(&self) -> (r: Vec<PublicKey>)
        ensures
            r@.map_values(|k: PublicKey| k@) == victims_of(self.authorities@),
            self.wf() ==> sorted_keys(r@.map_values(|k: PublicKey| k@)),
    {
        proof {
            if self.wf() {
                lemma_victims_sorted(self.authorities@);
            }
        }
        let mut r: Vec<PublicKey> = Vec::new();
        let mut i: usize = 0;
        while i < self.authorities.len()
            invariant
                i <= self.authorities@.len(),
                r@.map_values(|k: PublicKey| k@) == victims_of(self.authorities@.take(i as int)),
            decreases self.authorities@.len() - i,
        {
            assert(self.authorities@.take(i + 1).drop_last() =~= self.authorities@.take(i as int));
            if self.authorities[i].is_victim {
                r.push(self.authorities[i].name);
            }
            assert(r@.map_values(|k: PublicKey| k@) =~= victims_of(
                self.authorities@.take(i + 1),
            ));
            i = i + 1;
        }
        assert(self.authorities@.take(i as int) =~= self.authorities@);
        r
    }
}

/// The stake of a prefix is at most the total.
pub proof fn lemma_total_stake_prefix(s: Seq<Authority>, n: int)
    requires
        0 <= n <= s.len(),
    ensures
        total_stake(s.take(n)) <= total_stake(s),
    decreases s.len(),
{
    if n < s.len() {
        assert(s.drop_last().take(n) =~= s.take(n));
        lemma_total_stake_prefix(s.drop_last(), n);
    } else {
        assert(s.take(n) =~= s);
    }
}

} // verus!
