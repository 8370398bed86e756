//! Bloom filters: set membership with no false negatives.
//!
//! A filter answers whether a key may be stored, so that a lookup of an absent key
//! is mostly settled without touching the disk.

use siphasher::sip128::Hasher128;
use std::hash::Hasher;
use vstd::prelude::*;

use crate::codec::{get_le32, get_le64, le32, le64, put_le32, put_le64, read_le32, read_le64};

verus! {

broadcast use crate::codec::group_codec;

/// The two halves of the 128-bit SipHash-2-4 of `item` under the zero key.
pub uninterp spec fn sip128(item: Seq<u8>) -> (u64, u64);

/// Hashes `item` with `siphasher::sip128::SipHasher24`, whose two keys are zero: a
/// fresh hasher is fed the bytes by one `write`, and `finish128` gives `h1` and `h2`.
/// The claim is that the pair is a function of the bytes alone, named [`sip128`].
#[verifier::external_body]
fn hash_pair(item: &[u8]) -> (r: (u64, u64))
    ensures
        r == sip128(item@),
{
    let mut hasher = siphasher::sip128::SipHasher24::new();
    hasher.write(item);
    let hash = hasher.finish128();
    (hash.h1, hash.h2)
}

/// Position of the `i`-th probe among `n` cells: `h1 + i * h2` in 64-bit arithmetic,
/// reduced to the table.
pub open spec fn probe(h: (u64, u64), i: int, n: int) -> int {
    ((h.0 + i * h.1) % 0x1_0000_0000_0000_0000) % n
}

/// The cells that `item` occupies in a table of `n` cells with `k` probes.
pub open spec fn cells(item: Seq<u8>, k: int, n: int) -> Set<int> {
    Set::new(|p: int| exists|i: int| 0 <= i < k && p == #[trigger] probe(sip128(item), i, n))
}

/// Computes [`probe`].
fn probe_index(h1: u64, h2: u64, i: u32, n: usize) -> (p: usize)
    requires
        n > 0,
    ensures
        p == probe((h1, h2), i as int, n as int),
        p < n,
{
    let step: u64 = (i as u64).wrapping_mul(h2);
    let hash: u64 = h1.wrapping_add(step);
    proof {
        let m = 0x1_0000_0000_0000_0000int;
        let full = (i as int) * (h2 as int);
        assert(full >= 0) by (nonlinear_arith)
            requires
                full == (i as int) * (h2 as int),
                i >= 0,
                h2 >= 0,
        ;
        assert(step == full % m);
        assert(hash == (h1 + step) % m);
        vstd::arithmetic::div_mod::lemma_add_mod_noop_right(h1 as int, full, m);
        assert((h1 + full % m) % m == (h1 + full) % m);
    }
    (hash % (n as u64)) as usize
}

/// Whether bit `i` is set in an array of 64-bit words, lowest bit of the first word first.
pub open spec fn bit_set(words: Seq<u64>, i: int) -> bool {
    0 <= i < 64 * words.len() && (words[i / 64] >> ((i % 64) as u64)) & 1 == 1
}

/// The set bits of an array of 64-bit words.
pub open spec fn set_bits(words: Seq<u64>) -> Set<int> {
    Set::new(|i: int| bit_set(words, i))
}

proof fn lemma_or_bit(w: u64, b: u64, c: u64)
    requires
        b < 64,
        c < 64,
    ensures
        ((w | (1u64 << b)) >> c) & 1 == 1 <==> (c == b || (w >> c) & 1 == 1),
{
    assert(((w | (1u64 << b)) >> c) & 1 == 1 <==> (c == b || (w >> c) & 1 == 1)) by (bit_vector)
        requires
            b < 64,
            c < 64,
    ;
}

proof fn lemma_or_words(v: u64, w: u64, c: u64)
    requires
        c < 64,
    ensures
        ((v | w) >> c) & 1 == 1 <==> ((v >> c) & 1 == 1 || (w >> c) & 1 == 1),
{
    assert(((v | w) >> c) & 1 == 1 <==> ((v >> c) & 1 == 1 || (w >> c) & 1 == 1)) by (bit_vector)
        requires
            c < 64,
    ;
}

proof fn lemma_no_bit_in_zero(words: Seq<u64>)
    requires
        forall|j: int| 0 <= j < words.len() ==> words[j] == 0,
    ensures
        set_bits(words) == Set::<int>::empty(),
{
    assert forall|i: int| !bit_set(words, i) by {
        if 0 <= i < 64 * words.len() {
            let c = (i % 64) as u64;
            assert(words[i / 64] == 0);
            assert((0u64 >> c) & 1 == 0) by (bit_vector)
                requires
                    c < 64,
            ;
        }
    }
    assert(set_bits(words) =~= Set::<int>::empty());
}

/// A vector of `n` zero words.
fn zero_words(n: usize) -> (v: Vec<u64>)
    ensures
        v@ == Seq::new(n as nat, |i: int| 0u64),
{
    let v: Vec<u64> = vec![0u64; n];
    assert(v@ =~= Seq::new(n as nat, |i: int| 0u64));
    v
}

/// Number of words that hold `bits` bits.
pub open spec fn words_for(bits: int, per_word: int) -> int {
    (bits + per_word - 1) / per_word
}

/// Bloom filter: a bit array that each inserted item marks in a fixed number of places.
///
/// If `may_contain` returns false, the item was not inserted.
#[derive(Clone)]
pub struct BloomFilter {
    bits: Vec<u64>,
    num_bits: usize,
    num_hashes: u32,
    count: usize,
}

impl BloomFilter {
    /// The words of the bit array.
    pub closed spec fn words(&self) -> Seq<u64> {
        self.bits@
    }

    /// Number of bits that probes address.
    pub closed spec fn spec_num_bits(&self) -> int {
        self.num_bits as int
    }

    /// Number of probes per item.
    pub closed spec fn spec_num_hashes(&self) -> int {
        self.num_hashes as int
    }

    /// Number of insertions, summed over merges.
    pub closed spec fn spec_count(&self) -> int {
        self.count as int
    }

    /// The bit array has exactly the words that its bits need.
    pub open spec fn wf(&self) -> bool {
        &&& self.words().len() == words_for(self.spec_num_bits(), 64)
        &&& 0 <= self.spec_num_bits() <= usize::MAX
        &&& 0 <= self.spec_num_hashes() <= u32::MAX
        &&& 0 <= self.spec_count() <= usize::MAX
    }

    /// Probes have somewhere to go.
    pub open spec fn usable(&self) -> bool {
        self.wf() && (self.spec_num_bits() > 0 || self.spec_num_hashes() == 0)
    }

    /// The bits that are set.
    pub open spec fn marks(&self) -> Set<int> {
        set_bits(self.words())
    }

    /// The bits that `item` needs.
    pub open spec fn marks_of(&self, item: Seq<u8>) -> Set<int> {
        cells(item, self.spec_num_hashes(), self.spec_num_bits())
    }

    /// The answer of `may_contain`.
    pub open spec fn admits(&self, item: Seq<u8>) -> bool {
        self.marks_of(item).subset_of(self.marks())
    }

    /// Two filters have the same parameters.
    pub open spec fn same_shape(&self, other: &BloomFilter) -> bool {
        self.spec_num_bits() == other.spec_num_bits()
            && self.spec_num_hashes() == other.spec_num_hashes()
    }

    /// Creates an empty filter of `num_bits` bits with `num_hashes` probes per item.
    pub fn with_params(num_bits: usize, num_hashes: u32) -> (r: Self)
        ensures
            r.wf(),
            r.spec_num_bits() == num_bits,
            r.spec_num_hashes() == num_hashes,
            r.spec_count() == 0,
            r.words() == Seq::new(words_for(num_bits as int, 64) as nat, |i: int| 0u64),
            r.marks() == Set::<int>::empty(),
    {
        let num_words: usize = num_bits / 64 + (if num_bits % 64 == 0 { 0 } else { 1 });
        let bits = zero_words(num_words);
        proof {
            lemma_no_bit_in_zero(bits@);
        }
        BloomFilter { bits, num_bits, num_hashes, count: 0 }
    }

    /// Inserts an item: its bits are set, all others keep their value.
    pub fn insert(&mut self, item: &[u8])
        requires
            old(self).usable(),
            old(self).spec_count() < usize::MAX,
        ensures
            final(self).usable(),
            final(self).same_shape(old(self)),
            final(self).spec_count() == old(self).spec_count() + 1,
            final(self).marks() == old(self).marks().union(old(self).marks_of(item@)),
    {
        let (h1, h2) = hash_pair(item);
        let ghost before = *self;
        let mut i: u32 = 0;
        proof {
            assert(cells(item@, 0, before.spec_num_bits()) =~= Set::<int>::empty());
            assert(self.marks() =~= before.marks().union(cells(item@, 0, before.spec_num_bits())));
        }
        while i < self.num_hashes
            invariant
                i <= self.num_hashes,
                before.usable(),
                self.wf(),
                self.num_bits == before.num_bits,
                self.num_hashes == before.num_hashes,
                self.count == before.count,
                before.count < usize::MAX,
                (h1, h2) == sip128(item@),
                self.marks() == before.marks().union(
                    cells(item@, i as int, before.spec_num_bits()),
                ),
            decreases self.num_hashes - i,
        {
            let ghost mid = self.marks();
            let idx: usize = self.get_bit_index(h1, h2, i);
            self.set_bit(idx);
            proof {
                let n = before.spec_num_bits();
                let done = cells(item@, i as int, n);
                let next = cells(item@, i + 1, n);
                assert forall|p: int| next.contains(p) <==> (done.contains(p) || p == idx) by {
                    if next.contains(p) {
                        let j = choose|j: int| 0 <= j < i + 1 && p == #[trigger] probe(sip128(item@), j, n);
                        if j < i {
                            assert(p == probe(sip128(item@), j, n));
                        }
                    }
                    if p == idx {
                        assert(p == probe(sip128(item@), i as int, n));
                    }
                }
                assert(mid.insert(idx as int) =~= before.marks().union(next));
            }
            i = i + 1;
        }
        self.count = self.count + 1;
    }

    /// Whether an item may have been inserted: all of its bits are set.
    pub fn may_contain(&self, item: &[u8]) -> (r: bool)
        requires
            self.usable(),
        ensures
            r == self.admits(item@),
    {
        let (h1, h2) = hash_pair(item);
        let mut i: u32 = 0;
        while i < self.num_hashes
            invariant
                i <= self.num_hashes,
                self.usable(),
                (h1, h2) == sip128(item@),
                forall|j: int|
                    0 <= j < i ==> self.marks().contains(
                        #[trigger] probe(sip128(item@), j, self.spec_num_bits()),
                    ),
            decreases self.num_hashes - i,
        {
            let idx: usize = self.get_bit_index(h1, h2, i);
            if !self.get_bit(idx) {
                proof {
                    assert(self.marks_of(item@).contains(
                        probe(sip128(item@), i as int, self.spec_num_bits()),
                    ));
                }
                return false;
            }
            i = i + 1;
        }
        true
    }

    /// Number of insertions.
    pub fn count(&self) -> (r: usize)
        ensures
            r == self.spec_count(),
    {
        self.count
    }

    /// Number of addressable bits.
    pub fn num_bits(&self) -> (r: usize)
        ensures
            r == self.spec_num_bits(),
    {
        self.num_bits
    }

    /// Number of probes per item.
    pub fn num_hashes(&self) -> (r: u32)
        ensures
            r == self.spec_num_hashes(),
    {
        self.num_hashes
    }

    /// Memory of the bit array in bytes.
    pub fn memory_usage(&self) -> (r: usize)
        requires
            self.wf(),
        ensures
            r == 8 * self.words().len(),
    {
        self.bits.len() * 8
    }

    /// Forgets all items.
    pub fn clear(&mut self)
        requires
            old(self).wf(),
        ensures
            final(self).wf(),
            final(self).same_shape(old(self)),
            final(self).spec_count() == 0,
            final(self).marks() == Set::<int>::empty(),
    {
        let n: usize = self.bits.len();
        self.bits = zero_words(n);
        self.count = 0;
        proof {
            lemma_no_bit_in_zero(self.bits@);
        }
    }

    /// Adds the items of a filter of the same shape.
    pub fn merge(&mut self, other: &BloomFilter)
        requires
            old(self).wf(),
            other.wf(),
            old(self).same_shape(other),
            old(self).spec_count() + other.spec_count() <= usize::MAX,
        ensures
            final(self).wf(),
            final(self).same_shape(old(self)),
            final(self).spec_count() == old(self).spec_count() + other.spec_count(),
            final(self).marks() == old(self).marks().union(other.marks()),
    {
        let ghost before = *self;
        let mut i: usize = 0;
        while i < self.bits.len()
            invariant
                i <= self.bits.len(),
                self.bits.len() == before.bits.len(),
                self.bits.len() == other.bits.len(),
                self.num_bits == before.num_bits,
                self.num_hashes == before.num_hashes,
                self.count == before.count,
                forall|j: int| 0 <= j < i ==> self.bits@[j] == before.bits@[j] | other.bits@[j],
                forall|j: int| i <= j < self.bits.len() ==> self.bits@[j] == before.bits@[j],
            decreases self.bits.len() - i,
        {
            let word: u64 = self.bits[i] | other.bits[i];
            self.bits.set(i, word);
            i = i + 1;
        }
        self.count = self.count + other.count;
        proof {
            assert forall|b: int|
                self.marks().contains(b) <==> before.marks().contains(b) || other.marks().contains(
                    b,
                ) by {
                if 0 <= b < 64 * self.bits.len() {
                    lemma_or_words(before.bits@[b / 64], other.bits@[b / 64], (b % 64) as u64);
                }
            }
            assert(self.marks() =~= before.marks().union(other.marks()));
        }
    }

    /// The serialized filter: three 32-bit fields, then the words of the bit array.
    pub open spec fn encoding(&self) -> Seq<u8> {
        le32((self.spec_num_bits() % 4294967296) as u32) + le32(self.spec_num_hashes() as u32)
            + le32((self.spec_count() % 4294967296) as u32) + words_encoding(self.words())
    }

    /// Serializes the filter.
    pub fn to_bytes(&self) -> (out: Vec<u8>)
        requires
            self.wf(),
        ensures
            out@ == self.encoding(),
            out@.len() == 12 + 8 * self.words().len(),
    {
        let mut out: Vec<u8> = Vec::with_capacity(12 + self.bits.len() * 8);
        put_le32(&mut out, ((self.num_bits as u64) % 4294967296) as u32);
        put_le32(&mut out, self.num_hashes);
        put_le32(&mut out, ((self.count as u64) % 4294967296) as u32);
        let ghost head = out@;
        let mut i: usize = 0;
        proof {
            assert(self.bits@.take(0) =~= Seq::<u64>::empty());
        }
        while i < self.bits.len()
            invariant
                i <= self.bits.len(),
                out@ == head + words_encoding(self.bits@.take(i as int)),
            decreases self.bits.len() - i,
        {
            let ghost sofar = out@;
            put_le64(&mut out, self.bits[i]);
            i = i + 1;
            proof {
                let t = self.bits@.take(i as int);
                assert(t.drop_last() =~= self.bits@.take(i - 1));
                assert(out@ =~= head + words_encoding(t));
            }
        }
        proof {
            assert(self.bits@.take(i as int) =~= self.bits@);
            lemma_words_encoding_len(self.bits@);
        }
        out
    }

    /// Restores a filter. Bytes that are too short for the fields or for the bit array
    /// that the first field announces give `None`; bytes behind the array are ignored.
    pub fn from_bytes(data: &[u8]) -> (r: Option<Self>)
        ensures
            r is Some <==> data@.len() >= 12 && data@.len() >= 12 + 8 * words_for(
                read_le32(data@, 0),
                64,
            ),
            r matches Some(f) ==> {
                &&& f.wf()
                &&& f.spec_num_bits() == read_le32(data@, 0)
                &&& f.spec_num_hashes() == read_le32(data@, 4)
                &&& f.spec_count() == read_le32(data@, 8)
                &&& forall|i: int|
                    0 <= i < f.words().len() ==> #[trigger] f.words()[i] == read_le64(
                        data@,
                        12 + 8 * i,
                    )
            },
    {
        if data.len() < 12 {
            return None;
        }
        let num_bits: usize = get_le32(data, 0) as usize;
        let num_hashes: u32 = get_le32(data, 4);
        let count: usize = get_le32(data, 8) as usize;
        let num_words: usize = num_bits / 64 + (if num_bits % 64 == 0 { 0 } else { 1 });
        if data.len() < 12 + num_words * 8 {
            return None;
        }
        let mut bits: Vec<u64> = Vec::with_capacity(num_words);
        let mut i: usize = 0;
        while i < num_words
            invariant
                i <= num_words,
                12 + num_words * 8 <= usize::MAX,
                12 + num_words * 8 <= data@.len(),
                bits@.len() == i,
                forall|j: int| 0 <= j < i ==> #[trigger] bits@[j] == read_le64(data@, 12 + 8 * j),
            decreases num_words - i,
        {
            let word: u64 = get_le64(data, 12 + i * 8);
            bits.push(word);
            i = i + 1;
        }
        Some(BloomFilter { bits, num_bits, num_hashes, count })
    }

    fn get_bit_index(&self, h1: u64, h2: u64, i: u32) -> (idx: usize)
        requires
            self.num_bits > 0,
        ensures
            idx == probe((h1, h2), i as int, self.spec_num_bits()),
            idx < self.num_bits,
    {
        probe_index(h1, h2, i, self.num_bits)
    }

    fn set_bit(&mut self, idx: usize)
        requires
            old(self).wf(),
            idx < old(self).num_bits,
        ensures
            final(self).wf(),
            final(self).num_bits == old(self).num_bits,
            final(self).num_hashes == old(self).num_hashes,
            final(self).count == old(self).count,
            final(self).marks() == old(self).marks().insert(idx as int),
    {
        let word_idx: usize = idx / 64;
        let bit_idx: u64 = (idx % 64) as u64;
        let ghost before = self.bits@;
        let word: u64 = self.bits[word_idx] | (1u64 << bit_idx);
        self.bits.set(word_idx, word);
        proof {
            let after = self.bits@;
            assert forall|b: int| bit_set(after, b) <==> bit_set(before, b) || b == idx by {
                if 0 <= b < 64 * after.len() {
                    lemma_or_bit(before[word_idx as int], bit_idx, (b % 64) as u64);
                    if b / 64 == word_idx && b % 64 == bit_idx {
                        assert(b == idx);
                    }
                }
            }
            assert(set_bits(after) =~= set_bits(before).insert(idx as int));
        }
    }

    fn get_bit(&self, idx: usize) -> (r: bool)
        requires
            self.wf(),
            idx < self.num_bits,
        ensures
            r == self.marks().contains(idx as int),
    {
        let word_idx: usize = idx / 64;
        let bit_idx: u64 = (idx % 64) as u64;
        (self.bits[word_idx] >> bit_idx) & 1 == 1
    }
}

/// The bytes of a sequence of words.
pub open spec fn words_encoding(words: Seq<u64>) -> Seq<u8>
    decreases words.len(),
{
    if words.len() == 0 {
        Seq::empty()
    } else {
        words_encoding(words.drop_last()) + le64(words.last())
    }
}

proof fn lemma_words_encoding_len(words: Seq<u64>)
    ensures
        words_encoding(words).len() == 8 * words.len(),
    decreases words.len(),
{
    if words.len() > 0 {
        lemma_words_encoding_len(words.drop_last());
    }
}

proof fn lemma_words_encoding_at(words: Seq<u64>, i: int)
    requires
        0 <= i < words.len(),
    ensures
        words_encoding(words).len() == 8 * words.len(),
        words_encoding(words).subrange(8 * i, 8 * i + 8) == le64(words[i]),
    decreases words.len(),
{
    lemma_words_encoding_len(words);
    lemma_words_encoding_len(words.drop_last());
    if i < words.len() - 1 {
        lemma_words_encoding_at(words.drop_last(), i);
        assert(words_encoding(words).subrange(8 * i, 8 * i + 8) =~= words_encoding(
            words.drop_last(),
        ).subrange(8 * i, 8 * i + 8));
    } else {
        assert(words_encoding(words).subrange(8 * i, 8 * i + 8) =~= le64(words[i]));
    }
}

/// An inserted item is admitted: there are no false negatives.
pub proof fn law_no_false_negatives(before: BloomFilter, after: BloomFilter, item: Seq<u8>)
    requires
        after.same_shape(&before),
        after.marks() == before.marks().union(before.marks_of(item)),
    ensures
        after.admits(item),
{
    assert(after.marks_of(item) =~= before.marks_of(item));
}

/// An item that was admitted stays admitted when bits are only added, as insertions and
/// merges do.
pub proof fn law_admission_is_monotone(before: BloomFilter, after: BloomFilter, item: Seq<u8>)
    requires
        after.same_shape(&before),
        before.marks().subset_of(after.marks()),
        before.admits(item),
    ensures
        after.admits(item),
{
}

/// Inserting an item a second time changes no answer.
pub proof fn law_insert_is_idempotent(
    before: BloomFilter,
    once: BloomFilter,
    twice: BloomFilter,
    item: Seq<u8>,
    query: Seq<u8>,
)
    requires
        once.same_shape(&before),
        twice.same_shape(&once),
        once.marks() == before.marks().union(before.marks_of(item)),
        twice.marks() == once.marks().union(once.marks_of(item)),
    ensures
        twice.admits(query) == once.admits(query),
{
    assert(once.marks_of(item) =~= before.marks_of(item));
    assert(twice.marks() =~= once.marks());
}

/// A cleared filter admits nothing, as long as it probes at all.
pub proof fn law_cleared_filter_admits_nothing(filter: BloomFilter, item: Seq<u8>)
    requires
        filter.marks() == Set::<int>::empty(),
        filter.spec_num_hashes() > 0,
    ensures
        !filter.admits(item),
{
    let p = probe(sip128(item), 0, filter.spec_num_bits());
    assert(filter.marks_of(item).contains(p));
}

/// A merged filter admits whatever either part admits.
pub proof fn law_merge_keeps_both(
    left: BloomFilter,
    right: BloomFilter,
    merged: BloomFilter,
    item: Seq<u8>,
)
    requires
        left.same_shape(&right),
        merged.same_shape(&left),
        merged.marks() == left.marks().union(right.marks()),
        left.admits(item) || right.admits(item),
    ensures
        merged.admits(item),
{
}

proof fn lemma_header_parts(a: Seq<u8>, b: Seq<u8>, c: Seq<u8>, d: Seq<u8>)
    requires
        a.len() == 4,
        b.len() == 4,
        c.len() == 4,
    ensures
        (a + b + c + d).subrange(0, 4) == a,
        (a + b + c + d).subrange(4, 8) == b,
        (a + b + c + d).subrange(8, 12) == c,
        (a + b + c + d).len() == 12 + d.len(),
{
    assert((a + b + c + d).subrange(0, 4) =~= a);
    assert((a + b + c + d).subrange(4, 8) =~= b);
    assert((a + b + c + d).subrange(8, 12) =~= c);
}

proof fn lemma_encoding_fields(filter: BloomFilter)
    requires
        filter.wf(),
        filter.spec_num_bits() < 4294967296,
        filter.spec_count() < 4294967296,
    ensures
        filter.encoding().len() == 12 + 8 * filter.words().len(),
        read_le32(filter.encoding(), 0) == filter.spec_num_bits(),
        read_le32(filter.encoding(), 4) == filter.spec_num_hashes(),
        read_le32(filter.encoding(), 8) == filter.spec_count(),
{
    let enc = filter.encoding();
    lemma_words_encoding_len(filter.words());
    lemma_header_parts(
        le32(filter.spec_num_bits() as u32),
        le32(filter.spec_num_hashes() as u32),
        le32(filter.spec_count() as u32),
        words_encoding(filter.words()),
    );
    crate::codec::lemma_le32_round_trip(enc, 0, filter.spec_num_bits() as u32);
    crate::codec::lemma_le32_round_trip(enc, 4, filter.spec_num_hashes() as u32);
    crate::codec::lemma_le32_round_trip(enc, 8, filter.spec_count() as u32);
}

proof fn lemma_encoding_word(filter: BloomFilter, i: int)
    requires
        0 <= i < filter.words().len(),
    ensures
        read_le64(filter.encoding(), 12 + 8 * i) == filter.words()[i],
{
    let enc = filter.encoding();
    let w = filter.words();
    lemma_words_encoding_at(w, i);
    assert(enc.subrange(12 + 8 * i, 12 + 8 * i + 8) =~= words_encoding(w).subrange(
        8 * i,
        8 * i + 8,
    ));
    crate::codec::lemma_le64_round_trip(enc, 12 + 8 * i, w[i]);
}

/// What `from_bytes` reads out of a serialized filter is that filter, as long as its
/// sizes fit the 32-bit fields.
pub proof fn law_serialization_round_trip(filter: BloomFilter, restored: BloomFilter)
    requires
        filter.wf(),
        filter.spec_num_bits() < 4294967296,
        filter.spec_count() < 4294967296,
        restored.wf(),
        restored.spec_num_bits() == read_le32(filter.encoding(), 0),
        restored.spec_num_hashes() == read_le32(filter.encoding(), 4),
        restored.spec_count() == read_le32(filter.encoding(), 8),
        forall|i: int|
            0 <= i < restored.words().len() ==> #[trigger] restored.words()[i] == read_le64(
                filter.encoding(),
                12 + 8 * i,
            ),
    ensures
        filter.encoding().len() == 12 + 8 * words_for(read_le32(filter.encoding(), 0), 64),
        restored.same_shape(&filter),
        restored.spec_count() == filter.spec_count(),
        restored.words() == filter.words(),
        forall|item: Seq<u8>| restored.admits(item) == filter.admits(item),
{
    lemma_encoding_fields(filter);
    let w = filter.words();
    assert forall|i: int| 0 <= i < w.len() implies restored.words()[i] == w[i] by {
        lemma_encoding_word(filter, i);
    }
    assert(restored.words() =~= w);
}

/// The four-bit counter `i` in an array of 64-bit words, lowest counter of the first word first.
pub open spec fn counter_at(words: Seq<u64>, i: int) -> int {
    ((words[i / 16] >> (((i % 16) * 4) as u64)) & 0xF) as int
}

/// Number of the first `k` probes of `item` that fall on cell `c` of `n`.
pub open spec fn hits(item: Seq<u8>, k: int, n: int, c: int) -> int
    decreases k,
{
    if k <= 0 {
        0
    } else {
        hits(item, k - 1, n, c) + (if probe(sip128(item), k - 1, n) == c {
            1int
        } else {
            0int
        })
    }
}

proof fn lemma_hits_bounds(item: Seq<u8>, k: int, n: int, c: int)
    requires
        0 <= k,
    ensures
        0 <= hits(item, k, n, c) <= k,
        hits(item, k, n, c) > 0 <==> cells(item, k, n).contains(c),
    decreases k,
{
    if k > 0 {
        lemma_hits_bounds(item, k - 1, n, c);
        if cells(item, k, n).contains(c) {
            let i = choose|i: int| 0 <= i < k && c == #[trigger] probe(sip128(item), i, n);
            if i < k - 1 {
                assert(cells(item, k - 1, n).contains(c));
            }
        }
        if cells(item, k - 1, n).contains(c) {
            let i = choose|i: int| 0 <= i < k - 1 && c == #[trigger] probe(sip128(item), i, n);
            assert(c == probe(sip128(item), i, n));
        }
        if probe(sip128(item), k - 1, n) == c {
            assert(cells(item, k, n).contains(c));
        }
    }
}

proof fn lemma_nibble_up(w: u64, s: u64, t: u64)
    requires
        s < 64,
        s % 4 == 0,
        t < 64,
        t % 4 == 0,
        (w >> s) & 0xF < 15,
    ensures
        w + (1u64 << s) <= u64::MAX,
        (((w + (1u64 << s)) as u64) >> t) & 0xF == (if s == t {
            (((w >> s) & 0xF) + 1) as u64
        } else {
            (w >> t) & 0xF
        }),
{
    assert(w + (1u64 << s) <= 0xffff_ffff_ffff_ffffu64) by (bit_vector)
        requires
            s < 64,
            s % 4 == 0,
            (w >> s) & 0xF < 15,
    ;
    assert((((w + (1u64 << s)) as u64) >> t) & 0xF == (if s == t {
        (((w >> s) & 0xF) + 1) as u64
    } else {
        (w >> t) & 0xF
    })) by (bit_vector)
        requires
            s < 64,
            s % 4 == 0,
            t < 64,
            t % 4 == 0,
            (w >> s) & 0xF < 15,
    ;
}

proof fn lemma_nibble_down(w: u64, s: u64, t: u64)
    requires
        s < 64,
        s % 4 == 0,
        t < 64,
        t % 4 == 0,
        (w >> s) & 0xF > 0,
    ensures
        w >= (1u64 << s),
        (((w - (1u64 << s)) as u64) >> t) & 0xF == (if s == t {
            (((w >> s) & 0xF) - 1) as u64
        } else {
            (w >> t) & 0xF
        }),
{
    assert(w >= (1u64 << s)) by (bit_vector)
        requires
            s < 64,
            s % 4 == 0,
            (w >> s) & 0xF > 0,
    ;
    assert((((w - (1u64 << s)) as u64) >> t) & 0xF == (if s == t {
        (((w >> s) & 0xF) - 1) as u64
    } else {
        (w >> t) & 0xF
    })) by (bit_vector)
        requires
            s < 64,
            s % 4 == 0,
            t < 64,
            t % 4 == 0,
            (w >> s) & 0xF > 0,
    ;
}

/// Counting Bloom filter: every cell is a counter of four bits, so items can be removed.
///
/// A counter that has reached 15 stays there under further insertions.
#[derive(Clone)]
pub struct CountingBloomFilter {
    counters: Vec<u64>,
    num_counters: usize,
    num_hashes: u32,
    count: usize,
}

impl CountingBloomFilter {
    /// Number of counters.
    pub closed spec fn spec_num_counters(&self) -> int {
        self.num_counters as int
    }

    /// Number of probes per item.
    pub closed spec fn spec_num_hashes(&self) -> int {
        self.num_hashes as int
    }

    /// Number of items.
    pub closed spec fn spec_count(&self) -> int {
        self.count as int
    }

    /// The words that hold the counters.
    pub closed spec fn words(&self) -> Seq<u64> {
        self.counters@
    }

    /// Value of counter `c`.
    pub open spec fn counter(&self, c: int) -> int {
        counter_at(self.words(), c)
    }

    /// The array has exactly the words that its counters need.
    pub open spec fn wf(&self) -> bool {
        &&& self.words().len() == words_for(self.spec_num_counters(), 16)
        &&& 0 <= self.spec_num_counters() <= usize::MAX
        &&& 0 <= self.spec_num_hashes() <= u32::MAX
        &&& 0 <= self.spec_count() <= usize::MAX
    }

    /// Probes have somewhere to go.
    pub open spec fn usable(&self) -> bool {
        self.wf() && (self.spec_num_counters() > 0 || self.spec_num_hashes() == 0)
    }

    /// How often `item` probes counter `c`.
    pub open spec fn hits_of(&self, item: Seq<u8>, c: int) -> int {
        hits(item, self.spec_num_hashes(), self.spec_num_counters(), c)
    }

    /// The answer of `may_contain`: no counter that the item probes is zero.
    pub open spec fn admits(&self, item: Seq<u8>) -> bool {
        forall|c: int|
            0 <= c < self.spec_num_counters() && self.hits_of(item, c) > 0
                ==> #[trigger] self.counter(c) > 0
    }

    /// Two filters have the same parameters.
    pub open spec fn same_shape(&self, other: &CountingBloomFilter) -> bool {
        self.spec_num_counters() == other.spec_num_counters()
            && self.spec_num_hashes() == other.spec_num_hashes()
    }

    /// Creates an empty filter of `num_counters` counters with `num_hashes` probes per item.
    pub fn with_params(num_counters: usize, num_hashes: u32) -> (r: Self)
        ensures
            r.wf(),
            r.spec_num_counters() == num_counters,
            r.spec_num_hashes() == num_hashes,
            r.spec_count() == 0,
            forall|c: int| 0 <= c < num_counters ==> #[trigger] r.counter(c) == 0,
    {
        let num_words: usize = num_counters / 16 + (if num_counters % 16 == 0 { 0 } else { 1 });
        let counters = zero_words(num_words);
        let r = CountingBloomFilter { counters, num_counters, num_hashes, count: 0 };
        proof {
            r.lemma_zero_counters();
        }
        r
    }

    proof fn lemma_zero_counters(&self)
        requires
            self.wf(),
            forall|j: int| 0 <= j < self.words().len() ==> self.words()[j] == 0,
        ensures
            forall|c: int| 0 <= c < self.spec_num_counters() ==> #[trigger] self.counter(c) == 0,
    {
        assert forall|c: int| 0 <= c < self.spec_num_counters() implies #[trigger] self.counter(c)
            == 0 by {
            let t = ((c % 16) * 4) as u64;
            assert(self.words()[c / 16] == 0);
            assert((0u64 >> t) & 0xF == 0) by (bit_vector)
                requires
                    t < 64,
            ;
        }
    }

    /// Inserts an item: each counter grows by the item's hits, up to 15.
    pub fn insert(&mut self, item: &[u8])
        requires
            old(self).usable(),
            old(self).spec_count() < usize::MAX,
        ensures
            final(self).usable(),
            final(self).same_shape(old(self)),
            final(self).spec_count() == old(self).spec_count() + 1,
            forall|c: int|
                0 <= c < old(self).spec_num_counters() ==> #[trigger] final(self).counter(c)
                    == capped(old(self).counter(c) + old(self).hits_of(item@, c)),
    {
        let (h1, h2) = hash_pair(item);
        let ghost before = *self;
        let mut i: u32 = 0;
        proof {
            before.lemma_counter_range();
        }
        while i < self.num_hashes
            invariant
                i <= self.num_hashes,
                before.usable(),
                self.usable(),
                self.num_counters == before.num_counters,
                self.num_hashes == before.num_hashes,
                self.count == before.count,
                before.count < usize::MAX,
                (h1, h2) == sip128(item@),
                forall|c: int|
                    0 <= c < before.spec_num_counters() ==> #[trigger] self.counter(c) == capped(
                        before.counter(c) + hits(item@, i as int, before.spec_num_counters(), c),
                    ),
            decreases self.num_hashes - i,
        {
            let idx: usize = self.get_index(h1, h2, i);
            self.increment_counter(idx);
            proof {
                assert forall|c: int| 0 <= c < before.spec_num_counters() implies
                    #[trigger] self.counter(c) == capped(
                    before.counter(c) + hits(item@, i + 1, before.spec_num_counters(), c),
                ) by {
                    lemma_hits_bounds(item@, i as int, before.spec_num_counters(), c);
                }
            }
            i = i + 1;
        }
        let ghost done = *self;
        self.count = self.count + 1;
        proof {
            assert forall|c: int| 0 <= c < before.spec_num_counters() implies
                #[trigger] self.counter(c) == capped(
                before.counter(c) + before.hits_of(item@, c),
            ) by {
                assert(done.counter(c) == self.counter(c));
            }
        }
    }

    /// Removes an item. An item that the filter does not admit is left alone, with the
    /// answer false; else each counter drops by the item's hits, down to 0.
    pub fn remove(&mut self, item: &[u8]) -> (r: bool)
        requires
            old(self).usable(),
        ensures
            final(self).usable(),
            final(self).same_shape(old(self)),
            r == old(self).admits(item@),
            !r ==> *final(self) == *old(self),
            r ==> final(self).spec_count() == floored(old(self).spec_count() - 1),
            r ==> forall|c: int|
                0 <= c < old(self).spec_num_counters() ==> #[trigger] final(self).counter(c)
                    == floored(old(self).counter(c) - old(self).hits_of(item@, c)),
    {
        if !self.may_contain(item) {
            return false;
        }
        let (h1, h2) = hash_pair(item);
        let ghost before = *self;
        let mut i: u32 = 0;
        proof {
            before.lemma_counter_range();
        }
        while i < self.num_hashes
            invariant
                i <= self.num_hashes,
                before.usable(),
                self.usable(),
                self.num_counters == before.num_counters,
                self.num_hashes == before.num_hashes,
                self.count == before.count,
                (h1, h2) == sip128(item@),
                forall|c: int|
                    0 <= c < before.spec_num_counters() ==> #[trigger] self.counter(c) == floored(
                        before.counter(c) - hits(item@, i as int, before.spec_num_counters(), c),
                    ),
            decreases self.num_hashes - i,
        {
            let idx: usize = self.get_index(h1, h2, i);
            self.decrement_counter(idx);
            proof {
                assert forall|c: int| 0 <= c < before.spec_num_counters() implies
                    #[trigger] self.counter(c) == floored(
                    before.counter(c) - hits(item@, i + 1, before.spec_num_counters(), c),
                ) by {
                    lemma_hits_bounds(item@, i as int, before.spec_num_counters(), c);
                }
            }
            i = i + 1;
        }
        let ghost done = *self;
        self.count = self.count.saturating_sub(1);
        proof {
            assert forall|c: int| 0 <= c < before.spec_num_counters() implies
                #[trigger] self.counter(c) == floored(
                before.counter(c) - before.hits_of(item@, c),
            ) by {
                assert(done.counter(c) == self.counter(c));
            }
        }
        true
    }

    /// Whether an item may be in the filter: none of its counters is zero.
    pub fn may_contain(&self, item: &[u8]) -> (r: bool)
        requires
            self.usable(),
        ensures
            r == self.admits(item@),
    {
        let (h1, h2) = hash_pair(item);
        let n = Ghost(self.spec_num_counters());
        let mut i: u32 = 0;
        while i < self.num_hashes
            invariant
                i <= self.num_hashes,
                self.usable(),
                n@ == self.spec_num_counters(),
                (h1, h2) == sip128(item@),
                forall|j: int|
                    0 <= j < i ==> self.counter(#[trigger] probe(sip128(item@), j, n@)) > 0,
            decreases self.num_hashes - i,
        {
            let idx: usize = self.get_index(h1, h2, i);
            if self.get_counter(idx) == 0 {
                proof {
                    let k = self.spec_num_hashes();
                    lemma_hits_bounds(item@, k, n@, idx as int);
                    assert(probe(sip128(item@), i as int, n@) == idx);
                    assert(cells(item@, k, n@).contains(idx as int));
                    assert(self.counter(idx as int) == 0);
                }
                return false;
            }
            i = i + 1;
        }
        proof {
            let k = self.spec_num_hashes();
            assert forall|c: int| 0 <= c < n@ && self.hits_of(item@, c) > 0 implies
                #[trigger] self.counter(c) > 0 by {
                lemma_hits_bounds(item@, k, n@, c);
                let j = choose|j: int| 0 <= j < k && c == #[trigger] probe(sip128(item@), j, n@);
                assert(self.counter(probe(sip128(item@), j, n@)) > 0);
            }
        }
        true
    }

    /// Number of items.
    pub fn count(&self) -> (r: usize)
        ensures
            r == self.spec_count(),
    {
        self.count
    }

    /// Forgets all items.
    pub fn clear(&mut self)
        requires
            old(self).wf(),
        ensures
            final(self).wf(),
            final(self).same_shape(old(self)),
            final(self).spec_count() == 0,
            forall|c: int|
                0 <= c < old(self).spec_num_counters() ==> #[trigger] final(self).counter(c) == 0,
    {
        let n: usize = self.counters.len();
        self.counters = zero_words(n);
        self.count = 0;
        proof {
            self.lemma_zero_counters();
        }
    }

    /// Every counter lies between 0 and 15.
    pub proof fn lemma_counter_range(&self)
        requires
            self.wf(),
        ensures
            forall|c: int|
                0 <= c < self.spec_num_counters() ==> 0 <= #[trigger] self.counter(c) <= 15,
    {
        assert forall|c: int| 0 <= c < self.spec_num_counters() implies 0
            <= #[trigger] self.counter(c) <= 15 by {
            let w = self.words()[c / 16];
            let t = ((c % 16) * 4) as u64;
            assert((w >> t) & 0xF <= 15) by (bit_vector)
                requires
                    t < 64,
            ;
        }
    }

    fn get_index(&self, h1: u64, h2: u64, i: u32) -> (idx: usize)
        requires
            self.num_counters > 0,
        ensures
            idx == probe((h1, h2), i as int, self.spec_num_counters()),
            idx < self.num_counters,
    {
        probe_index(h1, h2, i, self.num_counters)
    }

    /// Value of a counter.
    pub fn get_counter(&self, idx: usize) -> (r: u8)
        requires
            self.wf(),
            idx < self.spec_num_counters(),
        ensures
            r == self.counter(idx as int),
    {
        let word_idx: usize = idx / 16;
        let counter_idx: u64 = ((idx % 16) * 4) as u64;
        let word: u64 = self.counters[word_idx];
        let nibble: u64 = (word >> counter_idx) & 0xF;
        assert((word >> counter_idx) & 0xF <= 15) by (bit_vector)
            requires
                counter_idx < 64,
        ;
        nibble as u8
    }

    /// Raises a counter by one, up to its limit.
    pub fn increment_counter(&mut self, idx: usize)
        requires
            old(self).wf(),
            idx < old(self).spec_num_counters(),
        ensures
            final(self).wf(),
            counter_raised(*old(self), *final(self), idx as int),
    {
        let word_idx: usize = idx / 16;
        let counter_idx: u64 = ((idx % 16) * 4) as u64;
        let ghost before = self.counters@;
        let word: u64 = self.counters[word_idx];
        let current: u64 = (word >> counter_idx) & 0xF;
        proof {
            self.lemma_counter_range();
            assert(self.counter(idx as int) == current);
        }
        if current < 15 {
            proof {
                lemma_nibble_up(word, counter_idx, counter_idx);
            }
            self.counters.set(word_idx, word + (1u64 << counter_idx));
            proof {
                assert forall|c: int| 0 <= c < self.num_counters implies #[trigger] self.counter(c)
                    == (if c == idx {
                    capped(counter_at(before, c) + 1)
                } else {
                    counter_at(before, c)
                }) by {
                    if c / 16 == word_idx {
                        lemma_nibble_up(word, counter_idx, ((c % 16) * 4) as u64);
                        assert(c % 16 == idx % 16 <==> c == idx);
                    }
                }
            }
        }
    }

    fn decrement_counter(&mut self, idx: usize)
        requires
            old(self).wf(),
            idx < old(self).num_counters,
        ensures
            final(self).wf(),
            final(self).num_counters == old(self).num_counters,
            final(self).num_hashes == old(self).num_hashes,
            final(self).count == old(self).count,
            forall|c: int|
                0 <= c < old(self).num_counters ==> #[trigger] final(self).counter(c) == (if c
                    == idx {
                    floored(old(self).counter(c) - 1)
                } else {
                    old(self).counter(c)
                }),
    {
        let word_idx: usize = idx / 16;
        let counter_idx: u64 = ((idx % 16) * 4) as u64;
        let ghost before = self.counters@;
        let word: u64 = self.counters[word_idx];
        let current: u64 = (word >> counter_idx) & 0xF;
        proof {
            assert(self.counter(idx as int) == current);
        }
        if current > 0 {
            proof {
                lemma_nibble_down(word, counter_idx, counter_idx);
            }
            self.counters.set(word_idx, word - (1u64 << counter_idx));
            proof {
                assert forall|c: int| 0 <= c < self.num_counters implies #[trigger] self.counter(c)
                    == (if c == idx {
                    floored(counter_at(before, c) - 1)
                } else {
                    counter_at(before, c)
                }) by {
                    if c / 16 == word_idx {
                        lemma_nibble_down(word, counter_idx, ((c % 16) * 4) as u64);
                        assert(c % 16 == idx % 16 <==> c == idx);
                    }
                }
            }
        }
    }
}

/// `x`, but at most 15.
pub open spec fn capped(x: int) -> int {
    if x > 15 {
        15
    } else {
        x
    }
}

/// `x`, but at least 0.
pub open spec fn floored(x: int) -> int {
    if x < 0 {
        0
    } else {
        x
    }
}

/// The counters of `filter` after the insertion of `item`.
pub open spec fn counting_inserted(
    before: CountingBloomFilter,
    after: CountingBloomFilter,
    item: Seq<u8>,
) -> bool {
    &&& after.same_shape(&before)
    &&& forall|c: int|
        0 <= c < before.spec_num_counters() ==> #[trigger] after.counter(c) == capped(
            before.counter(c) + before.hits_of(item, c),
        )
}

/// The counters of `filter` after the removal of `item`.
pub open spec fn counting_removed(
    before: CountingBloomFilter,
    after: CountingBloomFilter,
    item: Seq<u8>,
) -> bool {
    &&& after.same_shape(&before)
    &&& forall|c: int|
        0 <= c < before.spec_num_counters() ==> #[trigger] after.counter(c) == floored(
            before.counter(c) - before.hits_of(item, c),
        )
}

/// One counter was raised by one, up to 15, and nothing else changed.
pub open spec fn counter_raised(
    before: CountingBloomFilter,
    after: CountingBloomFilter,
    idx: int,
) -> bool {
    &&& after.same_shape(&before)
    &&& after.spec_count() == before.spec_count()
    &&& forall|c: int|
        0 <= c < before.spec_num_counters() ==> #[trigger] after.counter(c) == (if c == idx {
            capped(before.counter(c) + 1)
        } else {
            before.counter(c)
        })
}

/// A counter that is raised goes up by one and stays at 15 once it is there; the other counters
/// and the number of items stay as they are, and whatever was admitted still is.
pub proof fn law_counters_saturate(
    before: CountingBloomFilter,
    after: CountingBloomFilter,
    idx: int,
    item: Seq<u8>,
)
    requires
        before.wf(),
        0 <= idx < before.spec_num_counters(),
        counter_raised(before, after, idx),
    ensures
        after.counter(idx) == (if before.counter(idx) < 15 {
            before.counter(idx) + 1
        } else {
            15
        }),
        forall|c: int|
            0 <= c < before.spec_num_counters() && c != idx ==> #[trigger] after.counter(c)
                == before.counter(c),
        after.spec_count() == before.spec_count(),
        before.admits(item) ==> after.admits(item),
{
    before.lemma_counter_range();
    if before.admits(item) {
        assert forall|c: int|
            0 <= c < after.spec_num_counters() && after.hits_of(item, c) > 0 implies
            #[trigger] after.counter(c) > 0 by {
            assert(before.counter(c) > 0);
        }
    }
}

/// A counting filter admits what was inserted last.
pub proof fn law_counting_no_false_negatives(
    before: CountingBloomFilter,
    after: CountingBloomFilter,
    item: Seq<u8>,
)
    requires
        before.wf(),
        counting_inserted(before, after, item),
    ensures
        after.admits(item),
{
    before.lemma_counter_range();
    assert forall|c: int|
        0 <= c < after.spec_num_counters() && after.hits_of(item, c) > 0 implies
        #[trigger] after.counter(c) > 0 by {
        assert(before.counter(c) >= 0);
    }
}

/// What a counting filter admits stays admitted when another item is inserted.
pub proof fn law_counting_insert_is_monotone(
    before: CountingBloomFilter,
    after: CountingBloomFilter,
    item: Seq<u8>,
    query: Seq<u8>,
)
    requires
        before.usable(),
        counting_inserted(before, after, item),
        before.admits(query),
    ensures
        after.admits(query),
{
    before.lemma_counter_range();
    assert forall|c: int|
        0 <= c < after.spec_num_counters() && after.hits_of(query, c) > 0 implies
        #[trigger] after.counter(c) > 0 by {
        lemma_hits_bounds(item, before.spec_num_hashes(), before.spec_num_counters(), c);
        assert(before.counter(c) > 0);
    }
}

/// Removing an item that was just inserted restores every counter, unless the insertion
/// pushed one past its limit.
pub proof fn law_remove_undoes_insert(
    before: CountingBloomFilter,
    inserted: CountingBloomFilter,
    removed: CountingBloomFilter,
    item: Seq<u8>,
)
    requires
        before.wf(),
        counting_inserted(before, inserted, item),
        counting_removed(inserted, removed, item),
        forall|c: int|
            0 <= c < before.spec_num_counters() ==> #[trigger] before.counter(c) + before.hits_of(
                item,
                c,
            ) <= 15,
    ensures
        removed.same_shape(&before),
        forall|c: int|
            0 <= c < before.spec_num_counters() ==> #[trigger] removed.counter(c)
                == before.counter(c),
        forall|query: Seq<u8>| removed.admits(query) == before.admits(query),
{
    before.lemma_counter_range();
    assert forall|c: int| 0 <= c < before.spec_num_counters() implies #[trigger] removed.counter(c)
        == before.counter(c) by {
        assert(inserted.counter(c) == capped(before.counter(c) + before.hits_of(item, c)));
        assert(before.counter(c) >= 0);
    }
    assert forall|query: Seq<u8>| removed.admits(query) == before.admits(query) by {
        if removed.admits(query) {
            assert forall|c: int|
                0 <= c < before.spec_num_counters() && before.hits_of(query, c) > 0 implies
                #[trigger] before.counter(c) > 0 by {
                assert(removed.counter(c) > 0);
            }
        }
        if before.admits(query) {
            assert forall|c: int|
                0 <= c < removed.spec_num_counters() && removed.hits_of(query, c) > 0 implies
                #[trigger] removed.counter(c) > 0 by {
                assert(before.counter(c) > 0);
            }
        }
    }
}

/// Probes of an item are spread by its two hashes: the first is the first hash, reduced to the
/// table, and each further step goes on by the second hash, in 64-bit arithmetic.
pub proof fn law_probes(h: (u64, u64), i: int, n: int)
    requires
        0 <= i,
        n > 0,
    ensures
        probe(h, 0, n) == h.0 as int % n,
        probe(h, 1, n) == ((h.0 + h.1) % 0x1_0000_0000_0000_0000) % n,
        probe(h, i + 1, n) == probe(
            (((h.0 + h.1) % 0x1_0000_0000_0000_0000) as u64, h.1),
            i,
            n,
        ),
        0 <= probe(h, i, n) < n,
{
    let m: int = 0x1_0000_0000_0000_0000;
    assert(0 * h.1 == 0) by (nonlinear_arith);
    assert(1 * h.1 == h.1) by (nonlinear_arith);
    let a = (h.0 + h.1) % m;
    assert((i + 1) * h.1 == i * h.1 + h.1) by (nonlinear_arith);
    vstd::arithmetic::div_mod::lemma_add_mod_noop_right(i * h.1, h.0 + h.1, m);
    assert((i * h.1 + a) % m == (i * h.1 + (h.0 + h.1)) % m);
    vstd::arithmetic::div_mod::lemma_mod_bound((h.0 + i * h.1) % m, n);
}

/// An item needs the bits at all its probes, and no others. So a filter admits it exactly where
/// all of these are set.
pub proof fn law_admission(filter: BloomFilter, item: Seq<u8>)
    ensures
        forall|i: int|
            0 <= i < filter.spec_num_hashes() ==> filter.marks_of(item).contains(
                #[trigger] probe(sip128(item), i, filter.spec_num_bits()),
            ),
        forall|p: int| #[trigger]
            filter.marks_of(item).contains(p) ==> exists|i: int|
                0 <= i < filter.spec_num_hashes() && p == #[trigger] probe(
                    sip128(item),
                    i,
                    filter.spec_num_bits(),
                ),
        filter.admits(item) <==> forall|i: int|
            0 <= i < filter.spec_num_hashes() ==> filter.marks().contains(
                #[trigger] probe(sip128(item), i, filter.spec_num_bits()),
            ),
{
    let bits = filter.spec_num_bits();
    if filter.admits(item) {
        assert forall|i: int| 0 <= i < filter.spec_num_hashes() implies filter.marks().contains(
            #[trigger] probe(sip128(item), i, bits),
        ) by {
            assert(filter.marks_of(item).contains(probe(sip128(item), i, bits)));
        }
    }
}

/// A table has as many words as its bits need, and no more.
pub proof fn law_words_for(bits: int, per_word: int)
    requires
        bits >= 0,
        per_word > 0,
    ensures
        bits <= per_word * words_for(bits, per_word) < bits + per_word,
{
    let x = bits + per_word - 1;
    vstd::arithmetic::div_mod::lemma_fundamental_div_mod(x, per_word);
    vstd::arithmetic::div_mod::lemma_mod_bound(x, per_word);
}

/// An item probes a counter as often as there are probes that fall on it.
pub proof fn law_hits(item: Seq<u8>, k: nat, n: int, c: int)
    ensures
        hits(item, k as int, n, c) == Seq::new(k, |i: int| probe(sip128(item), i, n)).filter(
            |p: int| p == c,
        ).len(),
    decreases k,
{
    reveal(Seq::filter);
    let all = Seq::new(k, |i: int| probe(sip128(item), i, n));
    if k > 0 {
        let less = (k - 1) as nat;
        law_hits(item, less, n, c);
        assert(all.drop_last() =~= Seq::new(less, |i: int| probe(sip128(item), i, n)));
    }
}

/// A removal lowers a counter once for each probe of the item that falls on it, down to zero; an
/// insertion raises it so, up to fifteen.
pub proof fn law_counters_move_by_probes(
    before: CountingBloomFilter,
    inserted: CountingBloomFilter,
    removed: CountingBloomFilter,
    item: Seq<u8>,
    c: int,
)
    requires
        0 <= c < before.spec_num_counters(),
        counting_inserted(before, inserted, item),
        counting_removed(before, removed, item),
    ensures
        ({
            let n = before.hits_of(item, c);
            &&& before.counter(c) + n <= 15 ==> inserted.counter(c) == before.counter(c) + n
            &&& before.counter(c) + n > 15 ==> inserted.counter(c) == 15
            &&& before.counter(c) >= n ==> removed.counter(c) == before.counter(c) - n
            &&& before.counter(c) < n ==> removed.counter(c) == 0
        }),
{
}

} // verus!
