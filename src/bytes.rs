use vstd::prelude::*;

verus! {

/// Strict lexicographic order on byte strings of equal length.
pub open spec fn key_lt(a: Seq<u8>, b: Seq<u8>) -> bool {
    exists|i: int|
        #![trigger a[i], b[i]]
        0 <= i < a.len() && i < b.len() && a[i] < b[i] && forall|m: int|
            0 <= m < i ==> #[trigger] a[m] == b[m]
}

/// Strictly increasing byte strings.
pub open spec fn sorted_keys(s: Seq<Seq<u8>>) -> bool {
    forall|i: int, j: int| 0 <= i < j < s.len() ==> key_lt(#[trigger] s[i], #[trigger] s[j])
}

/// Putting `d` at a position where everything before is smaller and the
/// first thing after is greater keeps a sorted sequence sorted.
pub proof fn lemma_insert_keeps_sorted(o: Seq<Seq<u8>>, i: int, d: Seq<u8>)
    requires
        sorted_keys(o),
        0 <= i <= o.len(),
        forall|m: int| 0 <= m < i ==> key_lt(#[trigger] o[m], d),
        i < o.len() ==> key_lt(d, o[i]),
    ensures
        sorted_keys(o.insert(i, d)),
{
    let r = o.insert(i, d);
    assert forall|a: int, b: int| 0 <= a < b < r.len() implies key_lt(#[trigger] r[a], #[trigger] r[b]) by {
        if b < i {
            assert(key_lt(o[a], o[b]));
        } else if b == i {
            assert(key_lt(o[a], d));
        } else if a < i {
            assert(key_lt(o[a], d));
            if b - 1 > i {
                assert(key_lt(o[i], o[b - 1]));
                lemma_key_lt_transitive(d, o[i], o[b - 1]);
            }
            lemma_key_lt_transitive(o[a], d, o[b - 1]);
        } else if a == i {
            if b - 1 > i {
                assert(key_lt(o[i], o[b - 1]));
                lemma_key_lt_transitive(d, o[i], o[b - 1]);
            }
        } else {
            assert(key_lt(o[a - 1], o[b - 1]));
        }
    }
}

pub proof fn lemma_key_lt_irreflexive(a: Seq<u8>)
    ensures
        !key_lt(a, a),
{
}

pub proof fn lemma_key_lt_transitive(a: Seq<u8>, b: Seq<u8>, c: Seq<u8>)
    requires
        key_lt(a, b),
        key_lt(b, c),
    ensures
        key_lt(a, c),
{
    let i = choose|i: int|
        #![trigger a[i], b[i]]
        0 <= i < a.len() && i < b.len() && a[i] < b[i] && forall|m: int|
            0 <= m < i ==> #[trigger] a[m] == b[m];
    let j = choose|j: int|
        #![trigger b[j], c[j]]
        0 <= j < b.len() && j < c.len() && b[j] < c[j] && forall|m: int|
            0 <= m < j ==> #[trigger] b[m] == c[m];
    let k = if i < j { i } else { j };
    assert(forall|m: int| 0 <= m < k ==> #[trigger] a[m] == c[m]) by {
        assert forall|m: int| 0 <= m < k implies #[trigger] a[m] == c[m] by {
            assert(a[m] == b[m]);
            assert(b[m] == c[m]);
        }
    }
    if i < j {
        assert(b[i] == c[i]);
    } else if j < i {
        assert(a[j] == b[j]);
    }
    assert(a[k] < c[k]);
}

pub proof fn lemma_key_lt_asymmetric(a: Seq<u8>, b: Seq<u8>)
    requires
        key_lt(a, b),
    ensures
        !key_lt(b, a),
{
    if key_lt(b, a) {
        lemma_key_lt_transitive(a, b, a);
        lemma_key_lt_irreflexive(a);
    }
}

proof fn lemma_key_lt_total_from(a: Seq<u8>, b: Seq<u8>, k: int)
    requires
        a.len() == b.len(),
        a != b,
        0 <= k <= a.len(),
        forall|m: int| 0 <= m < k ==> #[trigger] a[m] == b[m],
    ensures
        key_lt(a, b) || key_lt(b, a),
    decreases a.len() - k,
{
    if k == a.len() {
        assert(a =~= b);
    } else if a[k] < b[k] {
        assert(key_lt(a, b));
    } else if b[k] < a[k] {
        assert forall|m: int| 0 <= m < k implies #[trigger] b[m] == a[m] by {
            assert(a[m] == b[m]);
        }
        assert(key_lt(b, a));
    } else {
        lemma_key_lt_total_from(a, b, k + 1);
    }
}

pub proof fn lemma_key_lt_total(a: Seq<u8>, b: Seq<u8>)
    requires
        a.len() == b.len(),
        a != b,
    ensures
        key_lt(a, b) || key_lt(b, a),
{
    lemma_key_lt_total_from(a, b, 0);
}

/// Equality of two 32-byte strings.
pub fn bytes_eq(a: &[u8; 32], b: &[u8; 32]) -> (r: bool)
    ensures
        r == (a@ == b@),
{
    let mut i: usize = 0;
    while i < 32
        invariant
            0 <= i <= 32,
            forall|m: int| 0 <= m < i ==> #[trigger] a@[m] == b@[m],
        decreases 32 - i,
    {
        if a[i] != b[i] {
            return false;
        }
        i = i + 1;
    }
    assert(a@ =~= b@);
    true
}

/// Lexicographic comparison of two 32-byte strings.
pub fn bytes_lt(a: &[u8; 32], b: &[u8; 32]) -> (r: bool)
    ensures
        r == key_lt(a@, b@),
{
    let mut i: usize = 0;
    while i < 32
        invariant
            0 <= i <= 32,
            a@.len() == 32,
            b@.len() == 32,
            forall|m: int| 0 <= m < i ==> #[trigger] a@[m] == b@[m],
        decreases 32 - i,
    {
        if a[i] < b[i] {
            assert(key_lt(a@, b@));
            return true;
        }
        if a[i] > b[i] {
            assert forall|m: int| 0 <= m < i implies #[trigger] b@[m] == a@[m] by {
                assert(a@[m] == b@[m]);
            }
            assert(key_lt(b@, a@));
            proof {
                lemma_key_lt_asymmetric(b@, a@);
            }
            return false;
        }
        i = i + 1;
    }
    assert(a@ =~= b@);
    proof {
        lemma_key_lt_irreflexive(a@);
    }
    false
}

/// Little-endian encoding of `x` over `n` bytes.
pub open spec fn le_bytes(x: nat, n: nat) -> Seq<u8>
    decreases n,
{
    if n == 0 {
        Seq::empty()
    } else {
        seq![(x % 256) as u8] + le_bytes(x / 256, (n - 1) as nat)
    }
}

/// Appends the `n`-byte little-endian encoding of `x`.
pub fn push_le(out: &mut Vec<u8>, x: u64, n: usize)
    requires
        n <= 8,
    ensures
        final(out)@ == old(out)@ + le_bytes(x as nat, n as nat),
{
    let mut v: u64 = x;
    let mut i: usize = 0;
    while i < n
        invariant
            i <= n,
            out@ + le_bytes(v as nat, (n - i) as nat) == old(out)@ + le_bytes(x as nat, n as nat),
        decreases n - i,
    {
        let ghost prev = out@;
        out.push((v % 256) as u8);
        assert(le_bytes(v as nat, (n - i) as nat) == seq![(v % 256) as u8] + le_bytes(
            (v / 256) as nat,
            (n - i - 1) as nat,
        ));
        assert(out@ + le_bytes((v / 256) as nat, (n - i - 1) as nat) =~= prev + le_bytes(
            v as nat,
            (n - i) as nat,
        ));
        v = v / 256;
        i = i + 1;
    }
    assert(le_bytes(v as nat, 0) =~= Seq::<u8>::empty());
    assert(out@ =~= out@ + le_bytes(v as nat, 0));
}

/// Appends the 32 bytes of `b`.
pub fn push_bytes(out: &mut Vec<u8>, b: &[u8; 32])
    ensures
        final(out)@ == old(out)@ + b@,
{
    let mut i: usize = 0;
    while i < 32
        invariant
            0 <= i <= 32,
            b@.len() == 32,
            out@ == old(out)@ + b@.take(i as int),
        decreases 32 - i,
    {
        out.push(b[i]);
        assert(b@.take(i + 1) =~= b@.take(i as int).push(b@[i as int]));
        i = i + 1;
    }
    assert(b@.take(32) =~= b@);
}

} // verus!
