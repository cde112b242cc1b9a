//! A filter that tells which keys a table may hold.

use vstd::prelude::*;

use crate::bytes::{self, copy_range, push_bytes, push_u32, read_u32};
use crate::error::{self, corruption, Fault, Result};

verus! {

/// The most and the fewest probes per key.
const MAX_PROBES: u32 = 30;

pub struct Bloom {
    bits: Vec<u8>,
    k: u32,
}

/// A filter: its bits, in bytes, and how many probes it makes per key.
#[verifier::ext_equal]
pub struct BloomView {
    pub bits: Seq<u8>,
    pub k: u32,
}

/// FNV-1a over `key`, starting from `seed`.
pub open spec fn fnv1a_of(key: Seq<u8>, seed: u64) -> u64
    decreases key.len(),
{
    if key.len() == 0 {
        seed
    } else {
        (fnv1a_of(key.drop_last(), seed) ^ key.last() as u64).wrapping_mul(0x100000001b3)
    }
}

pub open spec fn hash_one(key: Seq<u8>) -> u64 {
    fnv1a_of(key, 0xcbf29ce484222325)
}

pub open spec fn hash_two(key: Seq<u8>) -> u64 {
    if fnv1a_of(key, 0x100000001b3) > 1 {
        fnv1a_of(key, 0x100000001b3)
    } else {
        1
    }
}

/// The bit that the `i`-th probe for `key` looks at, in `nbytes` bytes.
pub open spec fn probe(key: Seq<u8>, i: nat, nbytes: nat) -> nat {
    let hash = hash_one(key).wrapping_add(hash_two(key).wrapping_mul(i as u64));
    (hash as usize as nat) % (8 * nbytes)
}

/// Whether bit `at` is set.
pub open spec fn bit_is_set(bits: Seq<u8>, at: nat) -> bool {
    bits[at as int / 8] & (1u8 << (at % 8)) != 0
}

/// `bits` with bit `at` set.
pub open spec fn with_bit(bits: Seq<u8>, at: nat) -> Seq<u8> {
    bits.update(at as int / 8, bits[at as int / 8] | (1u8 << (at % 8)))
}

/// `bits` with the first `n` probes for `key` set.
pub open spec fn with_probes(bits: Seq<u8>, key: Seq<u8>, n: nat) -> Seq<u8>
    decreases n,
{
    if n == 0 {
        bits
    } else {
        with_bit(
            with_probes(bits, key, (n - 1) as nat),
            probe(key, (n - 1) as nat, bits.len()),
        )
    }
}

/// `bits` with `k` probes set for each of `keys`.
pub open spec fn with_keys(bits: Seq<u8>, keys: Seq<Seq<u8>>, k: nat) -> Seq<u8>
    decreases keys.len(),
{
    if keys.len() == 0 {
        bits
    } else {
        with_probes(with_keys(bits, keys.drop_last(), k), keys.last(), k)
    }
}

/// How many probes go with so many bits per key: 0.69 of them, rounded, at
/// least one and at most thirty.
pub open spec fn probes_for(bits_per_key: nat) -> u32 {
    if bits_per_key >= 44 {
        30
    } else if 69 * bits_per_key + 50 < 100 {
        1
    } else {
        ((69 * bits_per_key + 50) / 100) as u32
    }
}

/// How many bytes the filter for so many keys has.
pub open spec fn bytes_for(keys: nat, bits_per_key: nat) -> nat {
    let nbits = if keys * bits_per_key > 64 {
        keys * bits_per_key
    } else {
        64
    };
    (nbits + 7) / 8
}

/// The filter for `keys`.
pub open spec fn bloom_of(keys: Seq<Seq<u8>>, bits_per_key: nat) -> BloomView {
    let k = probes_for(bits_per_key);
    let empty = Seq::new(bytes_for(keys.len(), bits_per_key), |i: int| 0u8);
    BloomView { bits: with_keys(empty, keys, k as nat), k }
}

/// The filter that `to_bytes` wrote, or what is wrong with the bytes.
pub open spec fn bloom_from(bytes: Seq<u8>) -> core::result::Result<BloomView, Fault> {
    if bytes.len() < 12 {
        Err(error::corrupt("bloom too short"@))
    } else if !(1 <= bytes::u32_at(bytes, 0) <= 30) {
        Err(error::corrupt("bloom k out of range"@))
    } else {
        Ok(BloomView { bits: bytes.skip(4), k: bytes::u32_at(bytes, 0) })
    }
}

impl BloomView {
    /// Every probe for `key` finds its bit set.
    pub open spec fn may_contain(self, key: Seq<u8>) -> bool {
        forall|i: nat| i < self.k ==> bit_is_set(self.bits, #[trigger] probe(key, i, self.bits.len()))
    }

    pub open spec fn to_bytes(self) -> Seq<u8> {
        bytes::le32(self.k) + self.bits
    }
}

impl View for Bloom {
    type V = BloomView;

    closed spec fn view(&self) -> BloomView {
        BloomView { bits: self.bits@, k: self.k }
    }
}

proof fn set_bit(x: u8, m: u8, j: u8)
    requires
        m < 8,
        j < 8,
    ensures
        (x | (1u8 << m)) & (1u8 << j) != 0 <==> (x & (1u8 << j) != 0 || j == m),
{
    assert((x | (1u8 << m)) & (1u8 << j) != 0 <==> (x & (1u8 << j) != 0 || j == m)) by (bit_vector)
        requires
            m < 8,
            j < 8,
    ;
}

/// Setting a bit sets that bit and no other.
proof fn with_bit_sets(bits: Seq<u8>, at: nat, other: nat)
    requires
        at < 8 * bits.len(),
        other < 8 * bits.len(),
    ensures
        with_bit(bits, at).len() == bits.len(),
        bit_is_set(with_bit(bits, at), other) <==> bit_is_set(bits, other) || at == other,
{
    let (m, j) = ((at % 8) as u8, (other % 8) as u8);
    if at as int / 8 == other as int / 8 {
        set_bit(bits[at as int / 8], m, j);
        assert(at == other <==> m == j);
    }
}

/// After the probes for `key`, a bit is set if it was or if one of them hits it.
proof fn with_probes_sets(bits: Seq<u8>, key: Seq<u8>, n: nat, at: nat)
    requires
        bits.len() > 0,
        at < 8 * bits.len(),
    ensures
        with_probes(bits, key, n).len() == bits.len(),
        bit_is_set(with_probes(bits, key, n), at) <==> bit_is_set(bits, at) || exists|i: nat|
            i < n && #[trigger] probe(key, i, bits.len()) == at,
    decreases n,
{
    if n > 0 {
        let m = (n - 1) as nat;
        with_probes_sets(bits, key, m, at);
        with_bit_sets(with_probes(bits, key, m), probe(key, m, bits.len()), at);
    }
}

/// A bit is set exactly if it was, or if a probe for one of the keys hits it.
pub proof fn with_keys_sets(bits: Seq<u8>, keys: Seq<Seq<u8>>, k: nat, at: nat)
    requires
        bits.len() > 0,
        at < 8 * bits.len(),
    ensures
        with_keys(bits, keys, k).len() == bits.len(),
        bit_is_set(with_keys(bits, keys, k), at) <==> bit_is_set(bits, at) || exists|j: int, i: nat|
            0 <= j < keys.len() && i < k && #[trigger] probe(keys[j], i, bits.len()) == at,
    decreases keys.len(),
{
    if keys.len() > 0 {
        let before = keys.drop_last();
        let last = keys.len() - 1;
        with_keys_sets(bits, before, k, at);
        with_probes_sets(with_keys(bits, before, k), keys.last(), k, at);
        if exists|j: int, i: nat|
            0 <= j < before.len() && i < k && #[trigger] probe(before[j], i, bits.len()) == at {
            let (j, i) = choose|j: int, i: nat|
                0 <= j < before.len() && i < k && #[trigger] probe(before[j], i, bits.len()) == at;
            assert(probe(keys[j], i, bits.len()) == at);
        }
        if exists|i: nat| i < k && #[trigger] probe(keys.last(), i, bits.len()) == at {
            let i = choose|i: nat| i < k && #[trigger] probe(keys.last(), i, bits.len()) == at;
            assert(probe(keys[last], i, bits.len()) == at);
        }
        if exists|j: int, i: nat|
            0 <= j < keys.len() && i < k && #[trigger] probe(keys[j], i, bits.len()) == at {
            let (j, i) = choose|j: int, i: nat|
                0 <= j < keys.len() && i < k && #[trigger] probe(keys[j], i, bits.len()) == at;
            if j < last {
                assert(probe(before[j], i, bits.len()) == at);
            } else {
                assert(probe(keys.last(), i, bits.len()) == at);
            }
        }
    }
}

/// A filter never denies a key that it was built with.
pub proof fn no_false_negatives(keys: Seq<Seq<u8>>, bits_per_key: nat, j: int)
    requires
        0 <= j < keys.len(),
    ensures
        bloom_of(keys, bits_per_key).may_contain(keys[j]),
{
    let n = bytes_for(keys.len(), bits_per_key);
    let empty = Seq::new(n, |i: int| 0u8);
    let bloom = bloom_of(keys, bits_per_key);
    assert forall|i: nat| i < bloom.k implies bit_is_set(
        bloom.bits,
        #[trigger] probe(keys[j], i, bloom.bits.len()),
    ) by {
        with_keys_sets(empty, keys, bloom.k as nat, 0);
        with_keys_sets(empty, keys, bloom.k as nat, probe(keys[j], i, n));
    }
}

/// One of `keys` looks at the bit `at`, among the first `k` that it looks at.
pub open spec fn is_looked_at(keys: Seq<Seq<u8>>, k: nat, nbytes: nat, at: nat) -> bool {
    exists|j: int, i: nat|
        0 <= j < keys.len() && i < k && #[trigger] probe(keys[j], i, nbytes) == at
}

proof fn a_built_bit(keys: Seq<Seq<u8>>, bits_per_key: nat, at: nat)
    requires
        at < 8 * bytes_for(keys.len(), bits_per_key),
    ensures
        ({
            let bloom = bloom_of(keys, bits_per_key);
            bit_is_set(bloom.bits, at) <==> is_looked_at(
                keys,
                bloom.k as nat,
                bloom.bits.len(),
                at,
            )
        }),
{
    let n = bytes_for(keys.len(), bits_per_key);
    built_is_readable(keys, bits_per_key);
    let empty = Seq::new(n, |i: int| 0u8);
    with_keys_sets(empty, keys, probes_for(bits_per_key) as nat, at);
    let shift = (at % 8) as u8;
    assert((0u8 >> shift) & 1 == 0) by (bit_vector);
    assert((0u8 & (1u8 << shift)) == 0) by (bit_vector);
}

/// A filter admits a key exactly if every bit that the key looks at is one
/// that some key of the filter looks at too. So a filter of no keys admits none.
pub proof fn a_filter_admits_by_shared_bits(
    keys: Seq<Seq<u8>>,
    bits_per_key: nat,
    key: Seq<u8>,
)
    ensures
        ({
            let bloom = bloom_of(keys, bits_per_key);
            let (k, n) = (bloom.k as nat, bloom.bits.len());
            &&& bloom.may_contain(key) <==> forall|i: nat|
                i < k ==> is_looked_at(keys, k, n, #[trigger] probe(key, i, n))
            &&& keys.len() == 0 ==> !bloom.may_contain(key)
        }),
{
    let bloom = bloom_of(keys, bits_per_key);
    built_is_readable(keys, bits_per_key);
    let (k, n) = (bloom.k as nat, bloom.bits.len());
    assert forall|i: nat| i < k implies (bit_is_set(bloom.bits, #[trigger] probe(key, i, n))
        <==> is_looked_at(keys, k, n, probe(key, i, n))) by {
        a_built_bit(keys, bits_per_key, probe(key, i, n));
    }
    if keys.len() == 0 {
        assert(!is_looked_at(keys, k, n, probe(key, 0, n)));
    }
}

/// A filter has at least the bits that were asked for with each key, and no
/// byte more than it takes, but never fewer than eight bytes. The bits that it
/// looks at for a key are 0.69 of those asked for, to the nearest, one at least
/// and thirty at most.
pub proof fn a_filter_is_as_large_as_asked(keys: Seq<Seq<u8>>, bits_per_key: nat)
    ensures
        ({
            let bloom = bloom_of(keys, bits_per_key);
            let bits = 8 * bloom.bits.len();
            &&& bits >= 64
            &&& bits >= keys.len() * bits_per_key
            &&& bits > 64 ==> bits < keys.len() * bits_per_key + 8
            &&& 1 <= bloom.k <= 30
            &&& 1 <= bits_per_key <= 43 ==> 100 * bloom.k - 50 <= 69 * bits_per_key < 100 * bloom.k
                + 50
            &&& bits_per_key >= 44 ==> bloom.k == 30
        }),
{
    built_is_readable(keys, bits_per_key);
}

/// A filter reads back from its bytes.
pub proof fn bloom_round_trip(bloom: BloomView)
    requires
        1 <= bloom.k <= 30,
        bloom.bits.len() >= 8,
    ensures
        bloom_from(bloom.to_bytes()) == Ok::<BloomView, Fault>(bloom),
{
    bytes::le32_round_trip(bloom.k);
    assert(bloom.to_bytes().subrange(0, 4) =~= bytes::le32(bloom.k));
    assert(bloom.to_bytes().skip(4) =~= bloom.bits);
}

/// A built filter can be written and read back.
pub proof fn built_is_readable(keys: Seq<Seq<u8>>, bits_per_key: nat)
    ensures
        1 <= bloom_of(keys, bits_per_key).k <= 30,
        bloom_of(keys, bits_per_key).bits.len() == bytes_for(keys.len(), bits_per_key),
        bytes_for(keys.len(), bits_per_key) >= 8,
{
    let empty = Seq::new(bytes_for(keys.len(), bits_per_key), |i: int| 0u8);
    with_keys_sets(empty, keys, probes_for(bits_per_key) as nat, 0);
}

fn fnv1a(key: &[u8], seed: u64) -> (r: u64)
    ensures
        r == fnv1a_of(key@, seed),
{
    let mut h: u64 = seed;
    let mut i: usize = 0;
    assert(key@.take(0) =~= Seq::empty());
    while i < key.len()
        invariant
            i <= key@.len(),
            h == fnv1a_of(key@.take(i as int), seed),
        decreases key@.len() - i,
    {
        assert(key@.take(i + 1).drop_last() =~= key@.take(i as int));
        h = (h ^ (key[i] as u64)).wrapping_mul(0x100000001b3);
        i = i + 1;
    }
    assert(key@.take(i as int) =~= key@);
    h
}

fn double_hash(key: &[u8]) -> (r: (u64, u64))
    ensures
        r.0 == hash_one(key@),
        r.1 == hash_two(key@),
{
    let h1: u64 = fnv1a(key, 0xcbf29ce484222325);
    let h2: u64 = fnv1a(key, 0x100000001b3);
    (h1, if h2 > 1 { h2 } else { 1 })
}

/// The bit that a probe looks at.
fn locate(hashes: (u64, u64), i: u32, nbytes: usize, key: Ghost<Seq<u8>>) -> (r: (usize, u8))
    requires
        nbytes > 0,
        hashes.0 == hash_one(key@),
        hashes.1 == hash_two(key@),
    ensures
        r.0 == probe(key@, i as nat, nbytes as nat) as int / 8,
        r.1 == probe(key@, i as nat, nbytes as nat) % 8,
        r.0 < nbytes,
        probe(key@, i as nat, nbytes as nat) < 8 * nbytes,
{
    let hash: u64 = hashes.0.wrapping_add(hashes.1.wrapping_mul(i as u64));
    let at: u128 = (hash as usize) as u128 % (8 * nbytes as u128);
    assert(at == probe(key@, i as nat, nbytes as nat));
    ((at / 8) as usize, (at % 8) as u8)
}

impl Bloom {
    #[verifier::type_invariant]
    spec fn inv(self) -> bool {
        self.bits@.len() > 0
    }

    /// A filter for `keys`, with so many bits per key.
    pub fn build(keys: &[&[u8]], bits_per_key: usize) -> (r: Bloom)
        requires
            keys@.len() * bits_per_key <= usize::MAX,
        ensures
            r@ == bloom_of(bytes::slices_view(keys@), bits_per_key as nat),
    {
        let k: u32 = if bits_per_key >= 44 {
            MAX_PROBES
        } else if 69 * bits_per_key + 50 < 100 {
            1
        } else {
            ((69 * bits_per_key + 50) / 100) as u32
        };
        let wanted: usize = keys.len() * bits_per_key;
        let nbits: usize = if wanted > 64 { wanted } else { 64 };
        let nbytes: usize = nbits / 8 + if nbits % 8 == 0 { 0 } else { 1 };
        let ghost all = bytes::slices_view(keys@);
        let ghost empty = Seq::new(nbytes as nat, |i: int| 0u8);
        let mut bits: Vec<u8> = vec![0u8; nbytes];
        assert(bits@ =~= empty);
        assert(nbytes == bytes_for(all.len(), bits_per_key as nat));
        let mut j: usize = 0;
        assert(all.take(0) =~= Seq::empty());
        while j < keys.len()
            invariant
                j <= keys@.len(),
                nbytes > 0,
                empty.len() == nbytes,
                all == bytes::slices_view(keys@),
                bits@.len() == nbytes,
                bits@ == with_keys(empty, all.take(j as int), k as nat),
            decreases keys@.len() - j,
        {
            let key: &[u8] = keys[j];
            let hashes = double_hash(key);
            let ghost before = bits@;
            let mut i: u32 = 0;
            while i < k
                invariant
                    i <= k,
                    nbytes > 0,
                    before.len() == nbytes,
                    bits@.len() == nbytes,
                    hashes.0 == hash_one(key@),
                    hashes.1 == hash_two(key@),
                    bits@ == with_probes(before, key@, i as nat),
                decreases k - i,
            {
                let (at, bit) = locate(hashes, i, nbytes, Ghost(key@));
                let byte: u8 = bits[at];
                bits.set(at, byte | (1u8 << bit));
                i = i + 1;
            }
            proof {
                assert(all.take(j + 1).drop_last() =~= all.take(j as int));
                assert(all.take(j + 1).last() == key@);
            }
            j = j + 1;
        }
        assert(all.take(j as int) =~= all);
        Bloom { bits, k }
    }

    fn probe_hits(&self, hashes: (u64, u64), i: u32, key: Ghost<Seq<u8>>) -> (r: bool)
        requires
            self.bits@.len() > 0,
            hashes.0 == hash_one(key@),
            hashes.1 == hash_two(key@),
        ensures
            r == bit_is_set(self.bits@, probe(key@, i as nat, self.bits@.len())),
    {
        let (at, bit) = locate(hashes, i, self.bits.len(), key);
        self.bits[at] & (1u8 << bit) != 0
    }

    /// Whether `key` may be among the keys of the filter. A key that is one of
    /// them is never denied.
    pub fn contains(&self, key: &[u8]) -> (r: bool)
        ensures
            r == self@.may_contain(key@),
    {
        proof {
            use_type_invariant(self);
        }
        let nbytes: usize = self.bits.len();
        let hashes = double_hash(key);
        let mut i: u32 = 0;
        while i < self.k
            invariant
                i <= self.k,
                nbytes > 0,
                nbytes == self.bits@.len(),
                hashes.0 == hash_one(key@),
                hashes.1 == hash_two(key@),
                forall|j: nat|
                    j < i ==> bit_is_set(self.bits@, #[trigger] probe(key@, j, nbytes as nat)),
            decreases self.k - i,
        {
            if !self.probe_hits(hashes, i, Ghost(key@)) {
                assert(!bit_is_set(self@.bits, probe(key@, i as nat, self@.bits.len())));
                return false;
            }
            i = i + 1;
        }
        true
    }

    pub fn to_bytes(&self) -> (r: Vec<u8>)
        ensures
            r@ == self@.to_bytes(),
    {
        let mut out: Vec<u8> = Vec::new();
        push_u32(&mut out, self.k);
        push_bytes(&mut out, self.bits.as_slice());
        assert(out@ =~= self@.to_bytes());
        out
    }

    pub fn from_bytes(bytes: &[u8]) -> (r: Result<Bloom>)
        ensures
            match r {
                Ok(bloom) => bloom_from(bytes@) == Ok::<BloomView, Fault>(bloom@),
                Err(e) => bloom_from(bytes@) == Err::<BloomView, Fault>(e@),
            },
    {
        if bytes.len() < 12 {
            return Err(corruption("bloom too short"));
        }
        let k: u32 = read_u32(bytes, 0);
        if k < 1 || k > MAX_PROBES {
            return Err(corruption("bloom k out of range"));
        }
        let bits = copy_range(bytes, 4, bytes.len());
        assert(bits@ =~= bytes@.skip(4));
        Ok(Bloom { bits, k })
    }
}

} // verus!
