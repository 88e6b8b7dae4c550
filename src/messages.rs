use crate::bytes::{
    bytes_eq, bytes_lt, key_lt, le_bytes, lemma_insert_keeps_sorted, lemma_key_lt_irreflexive,
    lemma_key_lt_total, push_bytes, push_le, sorted_keys,
};
use ed25519_dalek::Digest as _;
use vstd::prelude::*;

verus! {

/// Identifier of a batch, a header or a certificate: 32 bytes.
#[derive(Clone, Copy, Debug, PartialEq, Eq, Hash)]
pub struct Digest(pub [u8; 32]);

impl View for Digest {
    type V = Seq<u8>;

    open spec fn view(&self) -> Seq<u8> {
        self.0@
    }
}

/// Identity of an authority: 32 bytes.
#[derive(Clone, Copy, Debug, PartialEq, Eq, Hash)]
pub struct PublicKey(pub [u8; 32]);

impl View for PublicKey {
    type V = Seq<u8>;

    open spec fn view(&self) -> Seq<u8> {
        self.0@
    }
}

pub type WorkerId = u32;

pub type Round = u64;

/// The SHA-512 digest of a byte string.
pub uninterp spec fn sha512_of(data: Seq<u8>) -> Seq<u8>;

/// Relies on ed25519_dalek::Sha512 (sha2 0.9) through `Digest::digest`: the
/// 64-byte SHA-512 digest of the input, which depends on the input alone.
#[verifier::external_body]
fn sha512(data: &Vec<u8>) -> (r: Vec<u8>)
    ensures
        r@ == sha512_of(data@),
        r@.len() == 64,
{
    ed25519_dalek::Sha512::digest(data.as_slice()).to_vec()
}

/// An identifier is the first 32 bytes of the SHA-512 digest.
pub open spec fn digest_of(data: Seq<u8>) -> Seq<u8> {
    sha512_of(data).take(32)
}

/// Hashes `data` into an identifier.
pub fn hash_to_digest(data: &Vec<u8>) -> (r: Digest)
    ensures
        r@ == digest_of(data@),
{
    let h = sha512(data);
    let mut a: [u8; 32] = [0u8; 32];
    let mut i: usize = 0;
    while i < 32
        invariant
            0 <= i <= 32,
            h@.len() == 64,
            a@.len() == 32,
            forall|m: int| 0 <= m < i ==> #[trigger] a@[m] == h@[m],
        decreases 32 - i,
    {
        a[i] = h[i];
        i = i + 1;
    }
    assert(a@ =~= h@.take(32));
    Digest(a)
}

/// Keys strictly increasing, hence unique.
pub open spec fn sorted_entries(s: Seq<(Digest, WorkerId)>) -> bool {
    forall|i: int, j: int| 0 <= i < j < s.len() ==> key_lt(#[trigger] s[i].0@, #[trigger] s[j].0@)
}

/// Digests strictly increasing, hence unique.
pub open spec fn sorted_digests(s: Seq<Digest>) -> bool {
    forall|i: int, j: int| 0 <= i < j < s.len() ==> key_lt(#[trigger] s[i]@, #[trigger] s[j]@)
}

/// The mapping that a list of entries denotes: a later entry overrides an earlier one.
pub open spec fn entries_map(s: Seq<(Digest, WorkerId)>) -> Map<Seq<u8>, WorkerId>
    decreases s.len(),
{
    if s.len() == 0 {
        Map::empty()
    } else {
        entries_map(s.drop_last()).insert(s.last().0@, s.last().1)
    }
}

/// The set of identifiers in a list.
pub open spec fn digest_set(s: Seq<Digest>) -> Set<Seq<u8>> {
    Set::new(|k: Seq<u8>| exists|i: int| 0 <= i < s.len() && #[trigger] s[i]@ == k)
}

/// `c` is the canonical form of the payload `p`: its mapping, sorted by identifier.
pub open spec fn is_canonical_payload(c: Seq<(Digest, WorkerId)>, p: Seq<(Digest, WorkerId)>) -> bool {
    sorted_entries(c) && entries_map(c) == entries_map(p)
}

/// `c` is the canonical form of the parent list `p`: its set, sorted.
pub open spec fn is_canonical_parents(c: Seq<Digest>, p: Seq<Digest>) -> bool {
    sorted_digests(c) && digest_set(c) == digest_set(p)
}

proof fn lemma_entries_map_keys(s: Seq<(Digest, WorkerId)>)
    ensures
        forall|k: Seq<u8>|
            #[trigger] entries_map(s).contains_key(k) <==> exists|i: int|
                0 <= i < s.len() && #[trigger] s[i].0@ == k,
    decreases s.len(),
{
    if s.len() > 0 {
        let t = s.drop_last();
        lemma_entries_map_keys(t);
        assert(entries_map(s) == entries_map(t).insert(s.last().0@, s.last().1));
        assert forall|i: int| 0 <= i < t.len() implies #[trigger] t[i] == s[i] by {}
        assert forall|k: Seq<u8>|
            #[trigger] entries_map(s).contains_key(k) <==> exists|i: int|
                0 <= i < s.len() && #[trigger] s[i].0@ == k by {
            if entries_map(s).contains_key(k) && k != s.last().0@ {
                let i = choose|i: int| 0 <= i < t.len() && #[trigger] t[i].0@ == k;
                assert(s[i].0@ == k);
            }
            if exists|i: int| 0 <= i < s.len() && #[trigger] s[i].0@ == k {
                let i = choose|i: int| 0 <= i < s.len() && #[trigger] s[i].0@ == k;
                if i < s.len() - 1 {
                    assert(t[i].0@ == k);
                }
            }
        }
    }
}

proof fn lemma_entries_map_values(s: Seq<(Digest, WorkerId)>)
    requires
        sorted_entries(s),
    ensures
        forall|i: int| 0 <= i < s.len() ==> entries_map(s)[#[trigger] s[i].0@] == s[i].1,
    decreases s.len(),
{
    lemma_entries_map_keys(s);
    if s.len() > 0 {
        let t = s.drop_last();
        assert(sorted_entries(t));
        lemma_entries_map_values(t);
        assert forall|i: int| 0 <= i < s.len() implies entries_map(s)[#[trigger] s[i].0@]
            == s[i].1 by {
            if i < s.len() - 1 {
                assert(t[i] == s[i]);
                assert(key_lt(s[i].0@, s[s.len() - 1].0@));
                lemma_key_lt_irreflexive(s[i].0@);
            }
        }
    }
}

/// Puts `(d, w)` into a sorted entry list, replacing the entry of `d` if there is one.
pub fn insert_entry(v: &mut Vec<(Digest, WorkerId)>, d: Digest, w: WorkerId)
    requires
        sorted_entries(old(v)@),
    ensures
        sorted_entries(final(v)@),
        entries_map(final(v)@) == entries_map(old(v)@).insert(d@, w),
{
    let ghost o = v@;
    let mut i: usize = 0;
    while i < v.len()
        invariant
            v@ == o,
            i <= v.len(),
            forall|m: int| 0 <= m < i ==> key_lt(#[trigger] o[m].0@, d@),
        ensures
            i <= v.len(),
            i < v.len() ==> !key_lt(o[i as int].0@, d@),
        decreases v.len() - i,
    {
        if !bytes_lt(&v[i].0.0, &d.0) {
            break;
        }
        i = i + 1;
    }
    proof {
        lemma_entries_map_keys(o);
        lemma_entries_map_values(o);
    }
    if i < v.len() && bytes_eq(&v[i].0.0, &d.0) {
        v.set(i, (d, w));
        let ghost r = v@;
        assert(o[i as int].0@ == d@ && r[i as int].0@ == d@);
        assert(sorted_entries(r)) by {
            assert forall|a: int, b: int| 0 <= a < b < r.len() implies key_lt(
                #[trigger] r[a].0@,
                #[trigger] r[b].0@,
            ) by {
                assert(key_lt(o[a].0@, o[b].0@));
            }
        }
        proof {
            lemma_entries_map_keys(r);
            lemma_entries_map_values(r);
            assert forall|k: Seq<u8>| #[trigger]
                entries_map(r).contains_key(k) == entries_map(o).insert(d@, w).contains_key(k) by {
                if exists|j: int| 0 <= j < o.len() && #[trigger] o[j].0@ == k {
                    let j = choose|j: int| 0 <= j < o.len() && #[trigger] o[j].0@ == k;
                    assert(r[j].0@ == k);
                }
                if exists|j: int| 0 <= j < r.len() && #[trigger] r[j].0@ == k {
                    let j = choose|j: int| 0 <= j < r.len() && #[trigger] r[j].0@ == k;
                    assert(o[j].0@ == k);
                }
            }
            assert forall|k: Seq<u8>| #[trigger] entries_map(r).contains_key(k) implies entries_map(
                r,
            )[k] == entries_map(o).insert(d@, w)[k] by {
                let j = choose|j: int| 0 <= j < r.len() && #[trigger] r[j].0@ == k;
                assert(entries_map(r)[r[j].0@] == r[j].1);
                if j != i {
                    assert(o[j] == r[j]);
                    if j < i {
                        assert(key_lt(r[j].0@, r[i as int].0@));
                    } else {
                        assert(key_lt(r[i as int].0@, r[j].0@));
                    }
                    lemma_key_lt_irreflexive(k);
                }
            }
            assert(entries_map(r) =~= entries_map(o).insert(d@, w));
        }
    } else {
        proof {
            if i < o.len() {
                assert(o[i as int].0@.len() == 32 && d@.len() == 32);
                lemma_key_lt_total(o[i as int].0@, d@);
            }
        }
        v.insert(i, (d, w));
        let ghost r = v@;
        assert(sorted_entries(r)) by {
            let ko = o.map_values(|e: (Digest, WorkerId)| e.0@);
            assert(sorted_keys(ko)) by {
                assert forall|x: int, y: int| 0 <= x < y < ko.len() implies key_lt(
                    #[trigger] ko[x],
                    #[trigger] ko[y],
                ) by {
                    assert(key_lt(o[x].0@, o[y].0@));
                }
            }
            assert(forall|m: int| 0 <= m < i ==> key_lt(#[trigger] ko[m], d@));
            lemma_insert_keeps_sorted(ko, i as int, d@);
            let kr = ko.insert(i as int, d@);
            assert(kr =~= r.map_values(|e: (Digest, WorkerId)| e.0@));
            assert forall|x: int, y: int| 0 <= x < y < r.len() implies key_lt(
                #[trigger] r[x].0@,
                #[trigger] r[y].0@,
            ) by {
                assert(key_lt(kr[x], kr[y]));
            }
        }
        proof {
            lemma_entries_map_keys(r);
            lemma_entries_map_values(r);
            assert forall|k: Seq<u8>| #[trigger]
                entries_map(r).contains_key(k) == entries_map(o).insert(d@, w).contains_key(k) by {
                if exists|j: int| 0 <= j < o.len() && #[trigger] o[j].0@ == k {
                    let j = choose|j: int| 0 <= j < o.len() && #[trigger] o[j].0@ == k;
                    if j < i {
                        assert(r[j].0@ == k);
                    } else {
                        assert(r[j + 1].0@ == k);
                    }
                }
                if k == d@ {
                    assert(r[i as int].0@ == k);
                }
                if exists|j: int| 0 <= j < r.len() && #[trigger] r[j].0@ == k {
                    let j = choose|j: int| 0 <= j < r.len() && #[trigger] r[j].0@ == k;
                    if j < i {
                        assert(o[j].0@ == k);
                    } else if j > i {
                        assert(o[j - 1].0@ == k);
                    }
                }
            }
            assert forall|k: Seq<u8>| #[trigger] entries_map(r).contains_key(k) implies entries_map(
                r,
            )[k] == entries_map(o).insert(d@, w)[k] by {
                let j = choose|j: int| 0 <= j < r.len() && #[trigger] r[j].0@ == k;
                assert(entries_map(r)[r[j].0@] == r[j].1);
                if j != i {
                    if j < i {
                        assert(o[j] == r[j]);
                        assert(key_lt(r[j].0@, r[i as int].0@));
                    } else {
                        assert(o[j - 1] == r[j]);
                        assert(key_lt(r[i as int].0@, r[j].0@));
                    }
                    lemma_key_lt_irreflexive(k);
                }
            }
            assert(entries_map(r) =~= entries_map(o).insert(d@, w));
        }
    }
}

/// Puts `d` into a sorted list of identifiers, unless it is there already.
pub fn insert_digest(v: &mut Vec<Digest>, d: Digest)
    requires
        sorted_digests(old(v)@),
    ensures
        sorted_digests(final(v)@),
        digest_set(final(v)@) == digest_set(old(v)@).insert(d@),
{
    let ghost o = v@;
    let mut i: usize = 0;
    while i < v.len()
        invariant
            v@ == o,
            i <= v.len(),
            forall|m: int| 0 <= m < i ==> key_lt(#[trigger] o[m]@, d@),
        ensures
            i <= v.len(),
            i < v.len() ==> !key_lt(o[i as int]@, d@),
        decreases v.len() - i,
    {
        if !bytes_lt(&v[i].0, &d.0) {
            break;
        }
        i = i + 1;
    }
    if i < v.len() && bytes_eq(&v[i].0, &d.0) {
        assert(digest_set(o) =~= digest_set(o).insert(d@)) by {
            assert(o[i as int]@ == d@);
        }
    } else {
        proof {
            if i < o.len() {
                assert(o[i as int]@.len() == 32 && d@.len() == 32);
                lemma_key_lt_total(o[i as int]@, d@);
            }
        }
        v.insert(i, d);
        let ghost r = v@;
        assert(sorted_digests(r)) by {
            let ko = o.map_values(|e: Digest| e@);
            assert(sorted_keys(ko)) by {
                assert forall|x: int, y: int| 0 <= x < y < ko.len() implies key_lt(
                    #[trigger] ko[x],
                    #[trigger] ko[y],
                ) by {
                    assert(key_lt(o[x]@, o[y]@));
                }
            }
            assert(forall|m: int| 0 <= m < i ==> key_lt(#[trigger] ko[m], d@));
            lemma_insert_keeps_sorted(ko, i as int, d@);
            let kr = ko.insert(i as int, d@);
            assert(kr =~= r.map_values(|e: Digest| e@));
            assert forall|x: int, y: int| 0 <= x < y < r.len() implies key_lt(
                #[trigger] r[x]@,
                #[trigger] r[y]@,
            ) by {
                assert(key_lt(kr[x], kr[y]));
            }
        }
        assert forall|k: Seq<u8>| #[trigger]
            digest_set(r).contains(k) == digest_set(o).insert(d@).contains(k) by {
            if exists|j: int| 0 <= j < o.len() && #[trigger] o[j]@ == k {
                let j = choose|j: int| 0 <= j < o.len() && #[trigger] o[j]@ == k;
                if j < i {
                    assert(r[j]@ == k);
                } else {
                    assert(r[j + 1]@ == k);
                }
            }
            if k == d@ {
                assert(r[i as int]@ == k);
            }
            if exists|j: int| 0 <= j < r.len() && #[trigger] r[j]@ == k {
                let j = choose|j: int| 0 <= j < r.len() && #[trigger] r[j]@ == k;
                if j < i {
                    assert(o[j]@ == k);
                } else if j > i {
                    assert(o[j - 1]@ == k);
                }
            }
        }
        assert(digest_set(r) =~= digest_set(o).insert(d@));
    }
}

/// The canonical form of the first `n` entries of `p`.
pub fn canonical_payload(p: &Vec<(Digest, WorkerId)>, n: usize) -> (r: Vec<(Digest, WorkerId)>)
    requires
        n <= p@.len(),
    ensures
        is_canonical_payload(r@, p@.take(n as int)),
{
    let mut r: Vec<(Digest, WorkerId)> = Vec::new();
    let mut j: usize = 0;
    while j < n
        invariant
            j <= n <= p@.len(),
            sorted_entries(r@),
            entries_map(r@) == entries_map(p@.take(j as int)),
        decreases n - j,
    {
        insert_entry(&mut r, p[j].0, p[j].1);
        assert(p@.take(j + 1).drop_last() =~= p@.take(j as int));
        j = j + 1;
    }
    r
}

/// The canonical form of a list of identifiers.
pub fn canonical_parents(p: &Vec<Digest>) -> (r: Vec<Digest>)
    ensures
        is_canonical_parents(r@, p@),
{
    let mut r: Vec<Digest> = Vec::new();
    let mut j: usize = 0;
    while j < p.len()
        invariant
            j <= p@.len(),
            sorted_digests(r@),
            digest_set(r@) == digest_set(p@.take(j as int)),
        decreases p@.len() - j,
    {
        insert_digest(&mut r, p[j]);
        assert(digest_set(p@.take(j + 1)) =~= digest_set(p@.take(j as int)).insert(p@[j as int]@)) by {
            assert forall|k: Seq<u8>| #[trigger] digest_set(p@.take(j + 1)).contains(k) implies
                digest_set(p@.take(j as int)).insert(p@[j as int]@).contains(k) by {
                let m = choose|m: int| 0 <= m < j + 1 && #[trigger] p@.take(j + 1)[m]@ == k;
                if m < j {
                    assert(p@.take(j as int)[m]@ == k);
                }
            }
            assert forall|k: Seq<u8>| #[trigger] digest_set(p@.take(j as int)).contains(k) implies
                digest_set(p@.take(j + 1)).contains(k) by {
                let m = choose|m: int| 0 <= m < j && #[trigger] p@.take(j as int)[m]@ == k;
                assert(p@.take(j + 1)[m]@ == k);
            }
            assert(p@.take(j + 1)[j as int]@ == p@[j as int]@);
        }
        j = j + 1;
    }
    assert(p@.take(p@.len() as int) =~= p@);
    r
}

/// Bytes of a payload list: each identifier followed by its worker, little-endian.
pub open spec fn payload_bytes(p: Seq<(Digest, WorkerId)>) -> Seq<u8>
    decreases p.len(),
{
    if p.len() == 0 {
        Seq::empty()
    } else {
        payload_bytes(p.drop_last()) + p.last().0@ + le_bytes(p.last().1 as nat, 4)
    }
}

/// Bytes of a list of identifiers, one after the other.
pub open spec fn digests_bytes(p: Seq<Digest>) -> Seq<u8>
    decreases p.len(),
{
    if p.len() == 0 {
        Seq::empty()
    } else {
        digests_bytes(p.drop_last()) + p.last()@
    }
}

/// What is hashed into a header's identifier.
pub open spec fn header_preimage(
    author: Seq<u8>,
    round: u64,
    payload: Seq<(Digest, WorkerId)>,
    parents: Seq<Digest>,
) -> Seq<u8> {
    author + le_bytes(round as nat, 8) + payload_bytes(payload) + digests_bytes(parents)
}

/// The identifier of a header with the given (canonical) contents.
pub open spec fn header_digest(
    author: Seq<u8>,
    round: u64,
    payload: Seq<(Digest, WorkerId)>,
    parents: Seq<Digest>,
) -> Seq<u8> {
    digest_of(header_preimage(author, round, payload, parents))
}

/// The identifier of the certificate over a header.
pub open spec fn certificate_digest_of(header_id: Seq<u8>, round: u64, author: Seq<u8>) -> Seq<u8> {
    digest_of(header_id + le_bytes(round as nat, 8) + author)
}

/// Hashes the header fields, taking payload and parents in the order given.
pub fn digest_header_fields(
    author: &PublicKey,
    round: u64,
    payload: &Vec<(Digest, WorkerId)>,
    parents: &Vec<Digest>,
) -> (r: Digest)
    ensures
        r@ == header_digest(author@, round, payload@, parents@),
{
    let mut buf: Vec<u8> = Vec::new();
    push_bytes(&mut buf, &author.0);
    push_le(&mut buf, round, 8);
    let ghost head = buf@;
    let mut i: usize = 0;
    while i < payload.len()
        invariant
            i <= payload@.len(),
            buf@ == head + payload_bytes(payload@.take(i as int)),
        decreases payload@.len() - i,
    {
        push_bytes(&mut buf, &payload[i].0.0);
        push_le(&mut buf, payload[i].1 as u64, 4);
        assert(payload@.take(i + 1).drop_last() =~= payload@.take(i as int));
        assert(buf@ =~= head + payload_bytes(payload@.take(i + 1)));
        i = i + 1;
    }
    assert(payload@.take(payload@.len() as int) =~= payload@);
    let ghost mid = buf@;
    let mut j: usize = 0;
    while j < parents.len()
        invariant
            j <= parents@.len(),
            buf@ == mid + digests_bytes(parents@.take(j as int)),
        decreases parents@.len() - j,
    {
        push_bytes(&mut buf, &parents[j].0);
        assert(parents@.take(j + 1).drop_last() =~= parents@.take(j as int));
        assert(buf@ =~= mid + digests_bytes(parents@.take(j + 1)));
        j = j + 1;
    }
    assert(parents@.take(parents@.len() as int) =~= parents@);
    hash_to_digest(&buf)
}

/// Hashes a header identifier, a round and an author into a certificate identifier.
pub fn digest_certificate_fields(header_id: &Digest, round: u64, author: &PublicKey) -> (r: Digest)
    ensures
        r@ == certificate_digest_of(header_id@, round, author@),
{
    let mut buf: Vec<u8> = Vec::new();
    push_bytes(&mut buf, &header_id.0);
    push_le(&mut buf, round, 8);
    push_bytes(&mut buf, &author.0);
    hash_to_digest(&buf)
}

/// A proposal for a round: payload identifiers with their workers, and parent
/// certificate identifiers, both kept sorted; `id` is derived from the rest.
#[derive(Debug)]
pub struct Header {
    pub author: PublicKey,
    pub round: Round,
    pub payload: Vec<(Digest, WorkerId)>,
    pub parents: Vec<Digest>,
    pub id: Digest,
}

impl Header {
    /// A header is well formed when its lists are canonical and `id` matches its fields.
    pub open spec fn wf(&self) -> bool {
        &&& sorted_entries(self.payload@)
        &&& sorted_digests(self.parents@)
        &&& self.id@ == header_digest(self.author@, self.round, self.payload@, self.parents@)
    }

    /// Builds the header over the given payload (later entries of one identifier
    /// win) and parents (duplicates collapse).
    pub fn new(
        author: PublicKey,
        round: Round,
        payload: &Vec<(Digest, WorkerId)>,
        parents: &Vec<Digest>,
    ) -> (h: Header)
        ensures
            h.wf(),
            h.author == author,
            h.round == round,
            is_canonical_payload(h.payload@, payload@),
            is_canonical_parents(h.parents@, parents@),
    {
        let cp = canonical_payload(payload, payload.len());
        assert(payload@.take(payload@.len() as int) =~= payload@);
        let cq = canonical_parents(parents);
        let id = digest_header_fields(&author, round, &cp, &cq);
        Header { author, round, payload: cp, parents: cq, id }
    }

    /// Whether `d` is among the parents.
    pub fn has_parent(&self, d: &Digest) -> (r: bool)
        ensures
            r == digest_set(self.parents@).contains(d@),
    {
        let mut i: usize = 0;
        while i < self.parents.len()
            invariant
                i <= self.parents@.len(),
                forall|m: int| 0 <= m < i ==> #[trigger] self.parents@[m]@ != d@,
            decreases self.parents@.len() - i,
        {
            if bytes_eq(&self.parents[i].0, &d.0) {
                assert(self.parents@[i as int]@ == d@);
                assert(digest_set(self.parents@).contains(d@));
                return true;
            }
            i = i + 1;
        }
        assert(!digest_set(self.parents@).contains(d@));
        false
    }
}

/// A header together with the identifier of its certificate.
#[derive(Debug)]
pub struct Certificate {
    pub header: Header,
    pub digest: Digest,
}

impl Certificate {
    /// The certificate identifier matches the header.
    pub open spec fn wf(&self) -> bool {
        self.digest@ == certificate_digest_of(self.header.id@, self.header.round, self.header.author@)
    }

    pub fn new(header: Header) -> (c: Certificate)
        ensures
            c.header == header,
            c.wf(),
    {
        let digest = digest_certificate_fields(&header.id, header.round, &header.author);
        Certificate { header, digest }
    }

    /// The author of the certified header.
    pub fn origin(&self) -> (r: PublicKey)
        ensures
            r == self.header.author,
    {
        self.header.author
    }
}

} // verus!
