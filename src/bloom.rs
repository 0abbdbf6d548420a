use crate::bits::{bit_on, check_bit, set_bit};
use crate::codec::{be_bytes, be_value, lemma_be_round_trip, push_word};
use vstd::prelude::*;

verus! {

#[verifier::external_type_specification]
#[verifier::external_body]
pub struct ExBytes(bytes::Bytes);

/// The bytes that a `Bytes` buffer holds.
pub uninterp spec fn bytes_content(b: bytes::Bytes) -> Seq<u8>;

/// Relies on `impl From<Vec<u8>> for bytes::Bytes`: the buffer takes over the
/// vector and holds its bytes.
#[verifier::external_body]
fn bytes_from_vec(v: Vec<u8>) -> (r: bytes::Bytes)
    ensures
        bytes_content(r) == v@,
{
    bytes::Bytes::from(v)
}

/// Relies on `bytes::Bytes::copy_from_slice`: a new buffer holding a copy of
/// the slice.
#[verifier::external_body]
fn bytes_copy(b: &[u8]) -> (r: bytes::Bytes)
    ensures
        bytes_content(r) == b@,
{
    bytes::Bytes::copy_from_slice(b)
}

/// Relies on `impl Clone for bytes::Bytes`: a handle on the same bytes.
#[verifier::external_body]
fn bytes_clone(b: &bytes::Bytes) -> (r: bytes::Bytes)
    ensures
        bytes_content(r) == bytes_content(*b),
{
    b.clone()
}

/// Relies on `Bytes: Deref<Target = [u8]>` and `<[u8]>::to_vec`: a vector
/// holding a copy of the buffer's bytes.
#[verifier::external_body]
fn bytes_to_vec(b: &bytes::Bytes) -> (r: Vec<u8>)
    ensures
        r@ == bytes_content(*b),
{
    b.to_vec()
}

/// The big-endian value of the eight bytes of `b` at `p`.
fn read_word(b: &[u8], p: usize) -> (r: u64)
    requires
        p + 8 <= b@.len(),
    ensures
        r == be_value(b@.subrange(p as int, p + 8)),
{
    ((b[p] as u64) << 56u64) | ((b[p + 1] as u64) << 48u64) | ((b[p + 2] as u64) << 40u64) | ((b[p
        + 3] as u64) << 32u64) | ((b[p + 4] as u64) << 24u64) | ((b[p + 5] as u64) << 16u64) | ((b[p
        + 6] as u64) << 8u64) | (b[p + 7] as u64)
}

/// Number of bytes that hold `n` packed bits.
pub open spec fn packed_len(n: nat) -> nat {
    (n + 7) / 8
}

/// The big-endian value of four bytes.
pub open spec fn be_u32(b0: u8, b1: u8, b2: u8, b3: u8) -> u32 {
    ((b0 as u32) << 24u32) | ((b1 as u32) << 16u32) | ((b2 as u32) << 8u32) | (b3 as u32)
}

/// `buf` is the encoding of a filter with bits `bits` and `n` probes: the
/// bits packed least significant first and zero-padded to whole bytes, then
/// the number of bits as eight big-endian bytes, then `n` as four.
pub open spec fn is_encoding(bits: Seq<bool>, n: u32, buf: Seq<u8>) -> bool {
    let p = packed_len(bits.len()) as int;
    &&& buf.len() == p + 12
    &&& forall|i: int| 0 <= i < 8 * p ==> #[trigger] bit_on(buf, i) == (i < bits.len() && bits[i])
    &&& be_value(buf.subrange(p, p + 8)) == bits.len()
    &&& be_u32(buf[p + 8], buf[p + 9], buf[p + 10], buf[p + 11]) == n
}

/// The number of bits that an encoding records: its eight-byte field, but
/// no more than its packed bytes hold.
pub open spec fn decoded_len(buf: Seq<u8>) -> nat {
    let p = buf.len() - 12;
    let count = be_value(buf.subrange(p, p + 8)) as nat;
    if count <= 8 * p {
        count
    } else {
        (8 * p) as nat
    }
}

/// The bits that a decoded filter holds.
pub open spec fn decoded_bits(buf: Seq<u8>) -> Seq<bool> {
    Seq::new(decoded_len(buf), |i: int| bit_on(buf, i))
}

/// The number of probes that a decoded filter holds: the last four bytes,
/// big-endian.
pub open spec fn decoded_probes(buf: Seq<u8>) -> u32 {
    let p = buf.len() - 4;
    be_u32(buf[p], buf[p + 1], buf[p + 2], buf[p + 3])
}

/// Decoding an encoding gives back exactly the filter's bits and probe count.
pub proof fn lemma_decode_encoding(bits: Seq<bool>, n: u32, buf: Seq<u8>)
    requires
        is_encoding(bits, n, buf),
    ensures
        decoded_probes(buf) == n,
        decoded_bits(buf) == bits,
{
    assert(decoded_len(buf) == bits.len());
    assert(decoded_bits(buf) =~= bits);
}

proof fn lemma_zero_byte_bits(x: u8)
    requires
        x < 8,
    ensures
        0u8 & (1u8 << x) == 0,
{
    assert(0u8 & (1u8 << x) == 0) by (bit_vector);
}

/// What std's default hasher (SipHash with its fixed keys) gives for a byte
/// string.
pub uninterp spec fn default_hash(key: Seq<u8>) -> u64;

/// Relies on `BuildHasher::hash_one` over `BuildHasherDefault<DefaultHasher>`:
/// hashes `key` as a `[u8]` with a freshly made `DefaultHasher`, whose keys
/// are fixed, so the result depends on the bytes alone.
#[verifier::external_body]
fn hash_bytes(key: &[u8]) -> (r: u64)
    ensures
        r == default_hash(key@),
{
    std::hash::BuildHasher::hash_one(
        &std::hash::BuildHasherDefault::<std::hash::DefaultHasher>::default(),
        key,
    )
}

/// The `i`-th probe of double hashing: the low half of the hash plus `i`
/// times the high half, modulo 2^64, then modulo the filter's size.
pub open spec fn probe(hash: u64, size: nat, i: nat) -> int {
    (((hash as nat % 0x1_0000_0000) + i * (hash as nat / 0x1_0000_0000)) % 0x1_0000_0000_0000_0000)
        as int % size as int
}

/// Whether bit `j` is among the first `n` probes of `hash`.
pub open spec fn probed(hash: u64, size: nat, n: nat, j: int) -> bool {
    exists|i: nat| i < n && #[trigger] probe(hash, size, i) == j
}

/// The bits of `bits` after setting every probe of `hash`.
pub open spec fn with_probes(bits: Seq<bool>, hash: u64, n: nat) -> Seq<bool> {
    Seq::new(bits.len(), |j: int| bits[j] || probed(hash, bits.len(), n, j))
}

/// Whether all probes of `hash` land on set bits.
pub open spec fn all_probes_set(bits: Seq<bool>, hash: u64, n: nat) -> bool {
    forall|i: nat| i < n ==> bits[#[trigger] probe(hash, bits.len(), i)]
}

/// The first `num_probes` probe positions of `hash` in a filter of `size` bits.
pub fn probe_indices(hash: u64, size: usize, num_probes: u32) -> (r: Vec<usize>)
    requires
        size > 0 || num_probes == 0,
    ensures
        r@.len() == num_probes,
        forall|i: int| 0 <= i < num_probes ==> #[trigger] r@[i] == probe(hash, size as nat, i as nat),
{
    let h1: u64 = (hash << 32u64) >> 32u64;
    let h2: u64 = hash >> 32u64;
    assert(h1 == hash % 0x1_0000_0000 && h2 == hash / 0x1_0000_0000) by (bit_vector)
        requires
            h1 == (hash << 32u64) >> 32u64,
            h2 == hash >> 32u64,
    ;
    let size64 = size as u64;
    let mut result: Vec<usize> = Vec::new();
    let mut i: u32 = 0;
    while i < num_probes
        invariant
            size > 0 || num_probes == 0,
            size64 == size,
            h1 == hash % 0x1_0000_0000,
            h2 == hash / 0x1_0000_0000,
            i <= num_probes,
            result@.len() == i,
            forall|k: int| 0 <= k < i ==> #[trigger] result@[k] == probe(hash, size as nat, k as nat),
        decreases num_probes - i,
    {
        assert((i as u64) * h2 <= 0xFFFF_FFFF * 0xFFFF_FFFF) by (nonlinear_arith)
            requires
                i <= 0xFFFF_FFFF,
                h2 <= 0xFFFF_FFFF,
        ;
        let step: u64 = (i as u64) * h2;
        let index = (h1.wrapping_add(step) % size64) as usize;
        result.push(index);
        i = i + 1;
    }
    result
}

/// Sets every probe of `hash` in `bits`.
fn set_probes(bits: &mut Vec<bool>, hash: u64, num_probes: u32)
    requires
        old(bits)@.len() > 0 || num_probes == 0,
    ensures
        final(bits)@ == with_probes(old(bits)@, hash, num_probes as nat),
{
    let indices = probe_indices(hash, bits.len(), num_probes);
    let ghost size = bits@.len();
    let mut k: usize = 0;
    while k < indices.len()
        invariant
            bits@.len() == size,
            size == old(bits)@.len(),
            size > 0 || num_probes == 0,
            indices@.len() == num_probes,
            k <= indices@.len(),
            forall|i: int| 0 <= i < num_probes ==> #[trigger] indices@[i] == probe(hash, size, i as nat),
            forall|j: int|
                0 <= j < size ==> #[trigger] bits@[j] == (old(bits)@[j] || probed(hash, size, k as nat, j)),
        decreases indices@.len() - k,
    {
        let ghost before = bits@;
        let idx = indices[k];
        assert(0 <= probe(hash, size, k as nat) < size);
        bits.set(idx, true);
        proof {
            assert forall|j: int| 0 <= j < size implies #[trigger] bits@[j] == (old(bits)@[j]
                || probed(hash, size, (k + 1) as nat, j)) by {
                if probed(hash, size, (k + 1) as nat, j) && !probed(hash, size, k as nat, j) {
                    let i = choose|i: nat| i < k + 1 && #[trigger] probe(hash, size, i) == j;
                    assert(i == k);
                }
                if probed(hash, size, k as nat, j) {
                    let i = choose|i: nat| i < k && #[trigger] probe(hash, size, i) == j;
                    assert(i < k + 1 && probe(hash, size, i) == j);
                }
                if j == idx as int {
                    assert(probe(hash, size, k as nat) == j);
                }
            }
        }
        k = k + 1;
    }
    assert(bits@ =~= with_probes(old(bits)@, hash, num_probes as nat));
}

/// Whether every probe of `hash` falls on a set bit.
fn probes_all_set(bits: &Vec<bool>, hash: u64, num_probes: u32) -> (r: bool)
    requires
        bits@.len() > 0 || num_probes == 0,
    ensures
        r == all_probes_set(bits@, hash, num_probes as nat),
{
    let indices = probe_indices(hash, bits.len(), num_probes);
    let mut k: usize = 0;
    while k < indices.len()
        invariant
            bits@.len() > 0 || num_probes == 0,
            indices@.len() == num_probes,
            k <= indices@.len(),
            forall|i: int|
                0 <= i < num_probes ==> #[trigger] indices@[i] == probe(hash, bits@.len(), i as nat),
            forall|i: nat| i < k ==> bits@[#[trigger] probe(hash, bits@.len(), i)],
        decreases indices@.len() - k,
    {
        assert(indices@[k as int] == probe(hash, bits@.len(), k as nat));
        if !bits[indices[k]] {
            return false;
        }
        k = k + 1;
    }
    true
}

/// Setting the probes of a hash makes the check for that hash succeed:
/// a filter has no false negatives.
pub proof fn lemma_added_hash_found(bits: Seq<bool>, hash: u64, n: nat)
    requires
        bits.len() > 0 || n == 0,
    ensures
        all_probes_set(with_probes(bits, hash, n), hash, n),
{
    assert forall|i: nat| i < n implies with_probes(bits, hash, n)[#[trigger] probe(
        hash,
        bits.len(),
        i,
    )] by {
        assert(probed(hash, bits.len(), n, probe(hash, bits.len(), i)));
    }
}

/// Adding probes never clears a bit, so keys added earlier stay found.
pub proof fn lemma_found_stays_found(bits: Seq<bool>, h: u64, g: u64, n: nat)
    requires
        bits.len() > 0 || n == 0,
        all_probes_set(bits, h, n),
    ensures
        all_probes_set(with_probes(bits, g, n), h, n),
{
    assert forall|i: nat| i < n implies with_probes(bits, g, n)[#[trigger] probe(
        h,
        bits.len(),
        i,
    )] by {
        assert(bits[probe(h, bits.len(), i)]);
    }
}

/// A Bloom filter over a vector of bits: a firm no, or a probable yes.
pub struct SimpleBloomFilter {
    pub bit_set: Vec<bool>,
    /// Number of probes (hash functions) per key.
    pub num_probes: u32,
}

impl SimpleBloomFilter {
    /// An empty filter of `size` bits.
    pub fn new(size: usize, num_probes: u32) -> (r: Self)
        ensures
            r.bit_set@ == Seq::new(size as nat, |i: int| false),
            r.num_probes == num_probes,
    {
        let r = Self { bit_set: vec![false; size], num_probes };
        assert(r.bit_set@ =~= Seq::new(size as nat, |i: int| false));
        r
    }

    /// Sets the bits that a key of hash `hash` probes.
    pub fn add_hash(&mut self, hash: u64)
        requires
            old(self).bit_set@.len() > 0 || old(self).num_probes == 0,
        ensures
            final(self).bit_set@ == with_probes(
                old(self).bit_set@,
                hash,
                old(self).num_probes as nat,
            ),
            final(self).num_probes == old(self).num_probes,
    {
        set_probes(&mut self.bit_set, hash, self.num_probes);
    }

    /// Adds `key` to the filter.
    pub fn add_key(&mut self, key: &[u8])
        requires
            old(self).bit_set@.len() > 0 || old(self).num_probes == 0,
        ensures
            final(self).bit_set@ == with_probes(
                old(self).bit_set@,
                default_hash(key@),
                old(self).num_probes as nat,
            ),
            final(self).num_probes == old(self).num_probes,
            all_probes_set(final(self).bit_set@, default_hash(key@), final(self).num_probes as nat),
    {
        let h = hash_bytes(key);
        self.add_hash(h);
        proof {
            lemma_added_hash_found(old(self).bit_set@, h, self.num_probes as nat);
        }
    }

    /// Whether every bit that a key of hash `hash` probes is set.
    pub fn has_hash(&self, hash: u64) -> (r: bool)
        requires
            self.bit_set@.len() > 0 || self.num_probes == 0,
        ensures
            r == all_probes_set(self.bit_set@, hash, self.num_probes as nat),
    {
        probes_all_set(&self.bit_set, hash, self.num_probes)
    }

    /// False when `key` was surely never added; true when it may have been.
    pub fn has_key(&self, key: &[u8]) -> (r: bool)
        requires
            self.bit_set@.len() > 0 || self.num_probes == 0,
        ensures
            r == all_probes_set(self.bit_set@, default_hash(key@), self.num_probes as nat),
    {
        self.has_hash(hash_bytes(key))
    }

    /// The bit positions that `key` probes.
    pub fn hash_key(&self, key: &[u8]) -> (r: Vec<usize>)
        requires
            self.bit_set@.len() > 0 || self.num_probes == 0,
        ensures
            r@.len() == self.num_probes,
            forall|i: int|
                0 <= i < self.num_probes ==> #[trigger] r@[i] == probe(
                    default_hash(key@),
                    self.bit_set@.len(),
                    i as nat,
                ),
    {
        probe_indices(hash_bytes(key), self.bit_set.len(), self.num_probes)
    }
}

/// A Bloom filter over a vector of bits, with a byte encoding: a firm no,
/// or a probable yes.
pub struct SlatedbBloomFilter {
    pub bit_set: Vec<bool>,
    /// Number of probes (hash functions) per key.
    pub num_probes: u32,
}

impl SlatedbBloomFilter {
    /// An empty filter of `size` bits.
    pub fn new(size: usize, num_probes: u32) -> (r: Self)
        ensures
            r.bit_set@ == Seq::new(size as nat, |i: int| false),
            r.num_probes == num_probes,
    {
        let r = Self { bit_set: vec![false; size], num_probes };
        assert(r.bit_set@ =~= Seq::new(size as nat, |i: int| false));
        r
    }

    /// Sets the bits that a key of hash `hash` probes.
    pub fn add_hash(&mut self, hash: u64)
        requires
            old(self).bit_set@.len() > 0 || old(self).num_probes == 0,
        ensures
            final(self).bit_set@ == with_probes(
                old(self).bit_set@,
                hash,
                old(self).num_probes as nat,
            ),
            final(self).num_probes == old(self).num_probes,
    {
        set_probes(&mut self.bit_set, hash, self.num_probes);
    }

    /// Adds `key` to the filter.
    pub fn add_key(&mut self, key: &[u8])
        requires
            old(self).bit_set@.len() > 0 || old(self).num_probes == 0,
        ensures
            final(self).bit_set@ == with_probes(
                old(self).bit_set@,
                default_hash(key@),
                old(self).num_probes as nat,
            ),
            final(self).num_probes == old(self).num_probes,
            all_probes_set(final(self).bit_set@, default_hash(key@), final(self).num_probes as nat),
    {
        let h = hash_bytes(key);
        self.add_hash(h);
        proof {
            lemma_added_hash_found(old(self).bit_set@, h, self.num_probes as nat);
        }
    }

    /// Whether every bit that a key of hash `hash` probes is set.
    pub fn has_hash(&self, hash: u64) -> (r: bool)
        requires
            self.bit_set@.len() > 0 || self.num_probes == 0,
        ensures
            r == all_probes_set(self.bit_set@, hash, self.num_probes as nat),
    {
        probes_all_set(&self.bit_set, hash, self.num_probes)
    }

    /// False when `key` was surely never added; true when it may have been.
    pub fn has_key(&self, key: &[u8]) -> (r: bool)
        requires
            self.bit_set@.len() > 0 || self.num_probes == 0,
        ensures
            r == all_probes_set(self.bit_set@, default_hash(key@), self.num_probes as nat),
    {
        self.has_hash(hash_bytes(key))
    }

    /// The bit positions that `key` probes.
    pub fn hash_key(&self, key: &[u8]) -> (r: Vec<usize>)
        requires
            self.bit_set@.len() > 0 || self.num_probes == 0,
        ensures
            r@.len() == self.num_probes,
            forall|i: int|
                0 <= i < self.num_probes ==> #[trigger] r@[i] == probe(
                    default_hash(key@),
                    self.bit_set@.len(),
                    i as nat,
                ),
    {
        probe_indices(hash_bytes(key), self.bit_set.len(), self.num_probes)
    }

    /// The filter that `buf` encodes (see `is_encoding`). A bit count larger
    /// than the packed bytes hold is cut to what they hold.
    pub fn decode(buf: &[u8]) -> (r: SlatedbBloomFilter)
        requires
            buf@.len() >= 12,
            8 * (buf@.len() - 12) <= usize::MAX,
        ensures
            r.bit_set@ == decoded_bits(buf@),
            r.num_probes == decoded_probes(buf@),
    {
        let p = buf.len() - 12;
        let count = read_word(buf, p);
        let cap = 8 * p;
        let nbits: usize = if count <= cap as u64 {
            count as usize
        } else {
            cap
        };
        assert(nbits == decoded_len(buf@));
        let mut bit_set: Vec<bool> = Vec::new();
        let mut i: usize = 0;
        while i < nbits
            invariant
                p == buf@.len() - 12,
                nbits <= 8 * p,
                i <= nbits,
                bit_set@.len() == i,
                forall|k: int| 0 <= k < i ==> #[trigger] bit_set@[k] == bit_on(buf@, k),
            decreases nbits - i,
        {
            let on = check_bit(i, buf);
            bit_set.push(on);
            i = i + 1;
        }
        let q = p + 8;
        let num_probes = ((buf[q] as u32) << 24u32) | ((buf[q + 1] as u32) << 16u32) | ((buf[q
            + 2] as u32) << 8u32) | (buf[q + 3] as u32);
        assert(bit_set@ =~= decoded_bits(buf@));
        SlatedbBloomFilter { bit_set, num_probes }
    }

    /// The byte encoding of the filter (see `is_encoding`).
    pub fn encode_to_vec(&self) -> (r: Vec<u8>)
        requires
            self.bit_set@.len() + 7 <= usize::MAX,
        ensures
            is_encoding(self.bit_set@, self.num_probes, r@),
    {
        let n = self.bit_set.len();
        let p = (n + 7) / 8;
        let mut buf: Vec<u8> = Vec::new();
        let mut k: usize = 0;
        while k < p
            invariant
                k <= p,
                buf@.len() == k,
                forall|j: int| 0 <= j < k ==> #[trigger] buf@[j] == 0u8,
            decreases p - k,
        {
            buf.push(0u8);
            k = k + 1;
        }
        assert forall|j: int| 0 <= j < 8 * p implies !#[trigger] bit_on(buf@, j) by {
            lemma_zero_byte_bits((j % 8) as u8);
        }
        let mut i: usize = 0;
        while i < n
            invariant
                n == self.bit_set@.len(),
                p == packed_len(n as nat),
                i <= n,
                buf@.len() == p,
                forall|j: int|
                    0 <= j < 8 * p ==> #[trigger] bit_on(buf@, j) == (j < i && self.bit_set@[j]),
            decreases n - i,
        {
            if self.bit_set[i] {
                set_bit(i, &mut buf);
            }
            i = i + 1;
        }
        if n == 0 {
            assert(p == 0);
        }
        let ghost packed = buf@;
        push_word(&mut buf, n as u64);
        proof {
            lemma_be_round_trip(n as u64);
            assert(buf@.subrange(p as int, p + 8) =~= be_bytes(n as u64));
        }
        let ghost counted = buf@;
        let v = self.num_probes;
        buf.push(#[verifier::truncate] ((v >> 24u32) as u8));
        buf.push(#[verifier::truncate] ((v >> 16u32) as u8));
        buf.push(#[verifier::truncate] ((v >> 8u32) as u8));
        buf.push(#[verifier::truncate] (v as u8));
        proof {
            assert(be_u32((v >> 24u32) as u8, (v >> 16u32) as u8, (v >> 8u32) as u8, v as u8) == v)
                by (bit_vector);
            assert forall|j: int| 0 <= j < 8 * p implies #[trigger] bit_on(buf@, j) == bit_on(
                packed,
                j,
            ) by {
                assert(buf@[j / 8] == packed[j / 8]);
            }
            assert(buf@.subrange(p as int, p + 8) == counted.subrange(p as int, p + 8));
        }
        buf
    }

    /// The byte encoding of the filter as a shared buffer.
    pub fn encode(&self) -> (r: bytes::Bytes)
        requires
            self.bit_set@.len() + 7 <= usize::MAX,
        ensures
            is_encoding(self.bit_set@, self.num_probes, bytes_content(r)),
    {
        bytes_from_vec(self.encode_to_vec())
    }
}


/// A Bloom filter kept in its encoded form (see `is_encoding`) and queried
/// in place: a firm no, or a probable yes.
pub struct BloomFilter {
    pub buffer: bytes::Bytes,
}

impl BloomFilter {
    /// The filter whose encoding is `buf`.
    pub fn decode(buf: &[u8]) -> (r: BloomFilter)
        ensures
            bytes_content(r.buffer) == buf@,
    {
        BloomFilter { buffer: bytes_copy(buf) }
    }

    /// The filter's encoding.
    pub fn encode(&self) -> (r: bytes::Bytes)
        ensures
            bytes_content(r) == bytes_content(self.buffer),
    {
        bytes_clone(&self.buffer)
    }

    /// Whether every bit that a key of hash `hash` probes is set in the
    /// encoded bits.
    pub fn has_hash(&self, hash: u64) -> (r: bool)
        requires
            bytes_content(self.buffer).len() >= 12,
            8 * (bytes_content(self.buffer).len() - 12) <= usize::MAX,
            decoded_len(bytes_content(self.buffer)) > 0 || decoded_probes(bytes_content(self.buffer))
                == 0,
        ensures
            r == all_probes_set(
                decoded_bits(bytes_content(self.buffer)),
                hash,
                decoded_probes(bytes_content(self.buffer)) as nat,
            ),
    {
        let v = bytes_to_vec(&self.buffer);
        let p = v.len() - 12;
        let count = read_word(v.as_slice(), p);
        let cap = 8 * p;
        let size: usize = if count <= cap as u64 {
            count as usize
        } else {
            cap
        };
        let q = p + 8;
        let num_probes = ((v[q] as u32) << 24u32) | ((v[q + 1] as u32) << 16u32) | ((v[q + 2] as u32)
            << 8u32) | (v[q + 3] as u32);
        let ghost bits = decoded_bits(v@);
        assert(num_probes == decoded_probes(v@));
        assert(size == decoded_len(v@));
        let indices = probe_indices(hash, size, num_probes);
        let mut k: usize = 0;
        while k < indices.len()
            invariant
                v@ == bytes_content(self.buffer),
                p == v@.len() - 12,
                size <= 8 * p,
                size > 0 || num_probes == 0,
                bits == decoded_bits(v@),
                bits.len() == size,
                num_probes == decoded_probes(v@),
                indices@.len() == num_probes,
                k <= indices@.len(),
                forall|i: int|
                    0 <= i < num_probes ==> #[trigger] indices@[i] == probe(hash, size as nat, i as nat),
                forall|i: nat| i < k ==> bits[#[trigger] probe(hash, bits.len(), i)],
            decreases indices@.len() - k,
        {
            let idx = indices[k];
            assert(idx == probe(hash, size as nat, k as nat));
            let on = check_bit(idx, v.as_slice());
            if !on {
                assert(!bits[probe(hash, bits.len(), k as nat)]);
                return false;
            }
            k = k + 1;
        }
        true
    }

    /// False when `key` was surely never added; true when it may have been.
    pub fn has_key(&self, key: &[u8]) -> (r: bool)
        requires
            bytes_content(self.buffer).len() >= 12,
            8 * (bytes_content(self.buffer).len() - 12) <= usize::MAX,
            decoded_len(bytes_content(self.buffer)) > 0 || decoded_probes(bytes_content(self.buffer))
                == 0,
        ensures
            r == all_probes_set(
                decoded_bits(bytes_content(self.buffer)),
                default_hash(key@),
                decoded_probes(bytes_content(self.buffer)) as nat,
            ),
    {
        self.has_hash(hash_bytes(key))
    }
}

} // verus!
