//! LZ4 compression of stored and transferred bytes.

use vstd::prelude::*;

use crate::codec::{append_bytes, copy_range, get_le32, read_le32};

verus! {

/// The output of `lz4_flex::decompress_size_prepended` on `block`, or `None` where it
/// fails.
pub uninterp spec fn lz4_unpack(block: Seq<u8>) -> Option<Seq<u8>>;

/// Whether a block announces more bytes than a vector can hold.
pub open spec fn oversized(block: Seq<u8>) -> bool {
    block.len() >= 4 && read_le32(block, 0) > isize::MAX
}

/// First position from `at` on that does not hold 255, or the end.
pub open spec fn run_end(block: Seq<u8>, at: int) -> int
    decreases block.len() - at,
{
    if 0 <= at < block.len() && block[at] == 255 {
        run_end(block, at + 1)
    } else {
        at
    }
}

/// What the bytes of the length field at `at` add up to: bytes of 255, and the one behind them,
/// if there is one.
pub open spec fn field_sum(block: Seq<u8>, at: int) -> int {
    let end = run_end(block, at);
    255 * (end - at) + (if 0 <= end < block.len() {
        block[end] as int
    } else {
        0
    })
}

/// Whether the length field at `at` can be added up: in a `u32`, and, with the 19 that a length
/// may have besides and the position in what the block announces, in a `usize`.
pub open spec fn field_fits(block: Seq<u8>, at: int) -> bool {
    &&& field_sum(block, at) <= u32::MAX
    &&& read_le32(block, 0) + 19 + field_sum(block, at) <= usize::MAX
}

/// Whether the literals of the token at `at` have a length field behind the token.
pub open spec fn has_literal_field(block: Seq<u8>, at: int) -> bool {
    block[at] / 16 == 15
}

/// Whether the match of the token at `at` has a length field behind the offset.
pub open spec fn has_match_field(block: Seq<u8>, at: int) -> bool {
    block[at] % 16 == 15
}

/// Position behind the literals of the token at `at`: behind the token, its length field where
/// it has one, and as many bytes as it says.
pub open spec fn literals_end(block: Seq<u8>, at: int) -> int {
    if has_literal_field(block, at) {
        run_end(block, at + 1) + 1 + 15 + field_sum(block, at + 1)
    } else {
        at + 1 + block[at] / 16
    }
}

/// Whether every length field that is met from the token at `at` on can be added up. A token is
/// followed by a length field where its upper half is full, the literals, two bytes of an
/// offset, and another length field where its lower half is full; literals that reach the end
/// are the last.
pub open spec fn lengths_fit(block: Seq<u8>, at: int) -> bool
    decreases block.len() - at,
{
    if at < 0 || at >= block.len() {
        true
    } else if has_literal_field(block, at) && !field_fits(block, at + 1) {
        false
    } else {
        proof {
            lemma_run_end(block, at + 1);
        }
        let behind = literals_end(block, at) + 2;
        if behind > block.len() {
            true
        } else if !has_match_field(block, at) {
            lengths_fit(block, behind)
        } else if !field_fits(block, behind) {
            false
        } else if run_end(block, behind) >= block.len() {
            true
        } else {
            proof {
                lemma_run_end(block, behind);
            }
            lengths_fit(block, run_end(block, behind) + 1)
        }
    }
}

/// The length field at a position ends at or behind it, and adds up to no less than nothing.
pub proof fn lemma_run_end(block: Seq<u8>, at: int)
    requires
        0 <= at <= block.len(),
    ensures
        at <= run_end(block, at) <= block.len(),
        field_sum(block, at) >= 0,
    decreases block.len() - at,
{
    if at < block.len() && block[at] == 255 {
        lemma_run_end(block, at + 1);
    }
}

/// Whether a block holds some data: it begins with the length of the data, as far as four
/// bytes hold it, and where they hold it all, its length fields can be added up and it unpacks
/// to the data.
pub open spec fn packs(data: Seq<u8>, block: Seq<u8>) -> bool {
    &&& block.len() >= 4
    &&& read_le32(block, 0) == data.len() % 0x1_0000_0000
    &&& data.len() <= u32::MAX ==> lengths_fit(block, 4) && lz4_unpack(block) == Some(data)
}

/// Calls `lz4_flex::compress_prepend_size`. As its documentation says, it puts the length in
/// front as a little-endian `u32`, and `decompress_size_prepended` gives the data back, as long
/// as the length fits. Behind the length stand tokens in the order that [`lengths_fit`] follows,
/// and no length field adds up to more than the length of the data. The other bytes are not
/// said: which of several encodings is chosen depends on the machine's word size and byte order.
/// The crate computes the size of its buffer from 110 times the length, hence the bound.
#[verifier::external_body]
fn pack(data: &[u8]) -> (r: Vec<u8>)
    requires
        110 * data@.len() <= usize::MAX,
    ensures
        packs(data@, r@),
{
    lz4_flex::compress_prepend_size(data)
}

/// Calls `lz4_flex::decompress_size_prepended`. Its outcome is a function of the block,
/// named [`lz4_unpack`]; the kinds of failure are not told apart. It reserves as many bytes as
/// the block announces, adds the bytes of a length field up in a `u32`, and the length to a
/// position in a `usize`, hence the bounds.
#[verifier::external_body]
fn unpack(block: &[u8]) -> (r: Option<Vec<u8>>)
    requires
        !oversized(block@),
        lengths_fit(block@, 4),
    ensures
        match r {
            Some(v) => lz4_unpack(block@) == Some(v@),
            None => lz4_unpack(block@) is None,
        },
{
    lz4_flex::decompress_size_prepended(block).ok()
}

/// Where a length field ends, what it adds up to, and whether it can be added up.
fn read_field(block: &[u8], at: usize) -> (r: (usize, u128, bool))
    requires
        4 <= at <= block@.len(),
    ensures
        r.0 == run_end(block@, at as int),
        at <= r.0 <= block@.len(),
        r.1 == field_sum(block@, at as int),
        r.2 == field_fits(block@, at as int),
{
    let mut end: usize = at;
    while end < block.len() && block[end] == 255
        invariant
            at <= end <= block@.len(),
            run_end(block@, end as int) == run_end(block@, at as int),
        decreases block@.len() - end,
    {
        end = end + 1;
    }
    let last: u128 = if end < block.len() {
        block[end] as u128
    } else {
        0
    };
    let sum: u128 = 255 * ((end - at) as u128) + last;
    let announced: u128 = get_le32(block, 0) as u128;
    let fits: bool = sum <= u32::MAX as u128 && announced + 19 + sum <= usize::MAX as u128;
    (end, sum, fits)
}

/// Whether every length field of a block can be added up.
fn all_lengths_fit(block: &[u8]) -> (r: bool)
    ensures
        r == lengths_fit(block@, 4),
{
    let mut at: usize = 4;
    while at < block.len()
        invariant
            4 <= at,
            lengths_fit(block@, at as int) == lengths_fit(block@, 4),
        decreases block@.len() - at,
    {
        let token: u8 = block[at];
        let mut behind: u128 = at as u128 + 3 + (token / 16) as u128;
        if token / 16 == 15 {
            let (end, sum, fits) = read_field(block, at + 1);
            if !fits {
                return false;
            }
            behind = end as u128 + 18 + sum;
        }
        if behind > block.len() as u128 {
            return true;
        }
        let next: usize = behind as usize;
        if token % 16 != 15 {
            at = next;
        } else {
            let (end, _, fits) = read_field(block, next);
            if !fits {
                return false;
            }
            if end >= block.len() {
                return true;
            }
            at = end + 1;
        }
    }
    true
}

/// Why bytes could not be decompressed.
#[derive(Debug, Clone, Copy, PartialEq, Eq, Structural)]
pub enum CompressionError {
    /// The first byte is neither of the two markers.
    InvalidMarker(u8),
    /// The block behind the marker is not valid.
    Corrupt,
}

impl CompressionError {
    /// The message of the error.
    pub open spec fn text(&self) -> Seq<char> {
        match *self {
            CompressionError::InvalidMarker(b) => "Invalid compression marker: "@
                + crate::text::decimal(b as nat),
            CompressionError::Corrupt => "Failed to decompress data"@,
        }
    }

    /// The message of the error.
    pub fn message(&self) -> (s: String)
        ensures
            s@ == self.text(),
    {
        match *self {
            CompressionError::InvalidMarker(b) => {
                let mut s = crate::text::copy_str("Invalid compression marker: ");
                crate::text::push_decimal(&mut s, b as u64);
                s
            },
            CompressionError::Corrupt => crate::text::copy_str("Failed to decompress data"),
        }
    }
}

/// What `decompress` returns: nothing for nothing, the rest behind a zero marker, the
/// unpacked rest behind a one marker. A block that announces more bytes than there can be, or
/// that has a length field which cannot be added up, is not valid: no length in a block exceeds
/// what the block announces.
pub open spec fn decompressed(data: Seq<u8>) -> Result<Seq<u8>, CompressionError> {
    if data.len() == 0 {
        Ok(Seq::empty())
    } else if data[0] == 0 {
        Ok(data.skip(1))
    } else if data[0] == 1 {
        match lz4_unpack(data.skip(1)) {
            Some(v) if !oversized(data.skip(1)) && lengths_fit(data.skip(1), 4) => Ok(v),
            _ => Err(CompressionError::Corrupt),
        }
    } else {
        Err(CompressionError::InvalidMarker(data[0]))
    }
}

/// A result with its bytes taken by their view.
pub open spec fn outcome(r: Result<Vec<u8>, CompressionError>) -> Result<Seq<u8>, CompressionError> {
    match r {
        Ok(v) => Ok(v@),
        Err(e) => Err(e),
    }
}

/// Compressor with a threshold below which data is stored as it is.
#[derive(Clone, Debug)]
pub struct Compressor {
    min_compress_size: usize,
}

impl Default for Compressor {
    fn default() -> (r: Self)
        ensures
            r.threshold() == 64,
    {
        Compressor::new()
    }
}

impl Compressor {
    /// Data shorter than this is not compressed.
    pub closed spec fn threshold(&self) -> int {
        self.min_compress_size as int
    }

    /// Whether data of some length can be compressed: it is left alone, or the size of the
    /// buffer for it can be computed.
    pub open spec fn takes(&self, len: int) -> bool {
        len < self.threshold() || 110 * len <= usize::MAX
    }

    /// Whether bytes may come out of `compress`: a marker byte, then the data as it is or
    /// packed.
    pub open spec fn compresses(&self, data: Seq<u8>, r: Seq<u8>) -> bool {
        if data.len() < self.threshold() {
            r == seq![0u8] + data
        } else {
            r.len() > 0 && r[0] == 1 && packs(data, r.skip(1))
        }
    }

    /// Whether data of some length comes back from compression: it lies below the threshold, or
    /// its length fits 32 bits and a vector can hold it.
    pub open spec fn restores(&self, len: int) -> bool {
        len < self.threshold() || (len <= u32::MAX && len <= isize::MAX)
    }

    /// Creates a compressor that leaves data below 64 bytes alone.
    pub fn new() -> (r: Self)
        ensures
            r.threshold() == 64,
    {
        Compressor { min_compress_size: 64 }
    }

    /// Creates a compressor with another threshold.
    pub fn with_min_size(min_compress_size: usize) -> (r: Self)
        ensures
            r.threshold() == min_compress_size,
    {
        Compressor { min_compress_size }
    }

    /// Compresses data. What comes out decompresses to the data again, as long as its length
    /// fits 32 bits or lies below the threshold.
    pub fn compress(&self, data: &[u8]) -> (r: Vec<u8>)
        requires
            self.takes(data@.len() as int),
        ensures
            self.compresses(data@, r@),
            data@.len() <= u32::MAX || data@.len() < self.threshold() ==> decompressed(r@) == Ok::<
                Seq<u8>,
                CompressionError,
            >(data@),
    {
        let mut result: Vec<u8> = Vec::new();
        if data.len() < self.min_compress_size {
            result.push(0x00);
            append_bytes(&mut result, data);
            proof {
                assert(result@ =~= seq![0u8] + data@);
                assert(result@.skip(1) =~= data@);
            }
            return result;
        }
        let packed = pack(data);
        result.push(0x01);
        append_bytes(&mut result, packed.as_slice());
        proof {
            assert(result@ =~= seq![1u8] + packed@);
            assert(result@.skip(1) =~= packed@);
        }
        result
    }

    /// Decompresses data.
    pub fn decompress(&self, data: &[u8]) -> (r: Result<Vec<u8>, CompressionError>)
        ensures
            outcome(r) == decompressed(data@),
    {
        if data.len() == 0 {
            return Ok(Vec::new());
        }
        let rest = copy_range(data, 1, data.len());
        assert(rest@ =~= data@.skip(1));
        if data[0] == 0 {
            Ok(rest)
        } else if data[0] == 1 {
            if rest.len() >= 4 && get_le32(rest.as_slice(), 0) as u64 > isize::MAX as u64 {
                return Err(CompressionError::Corrupt);
            }
            if !all_lengths_fit(rest.as_slice()) {
                return Err(CompressionError::Corrupt);
            }
            match unpack(rest.as_slice()) {
                Some(v) => Ok(v),
                None => Err(CompressionError::Corrupt),
            }
        } else {
            Err(CompressionError::InvalidMarker(data[0]))
        }
    }

    /// Compresses and reports the sizes.
    pub fn compress_with_stats(&self, data: &[u8]) -> (r: (Vec<u8>, CompressionStats))
        requires
            self.takes(data@.len() as int),
        ensures
            self.compresses(data@, r.0@),
            r.1.original_size == data@.len(),
            r.1.compressed_size == r.0@.len(),
            r.1.was_compressed == (data@.len() >= self.threshold()),
    {
        let compressed = self.compress(data);
        let stats = CompressionStats {
            original_size: data.len(),
            compressed_size: compressed.len(),
            was_compressed: data.len() >= self.min_compress_size,
        };
        (compressed, stats)
    }

    /// Compresses each chunk.
    pub fn compress_batch(&self, chunks: &[&[u8]]) -> (r: Vec<Vec<u8>>)
        requires
            forall|i: int|
                0 <= i < chunks@.len() ==> self.takes((#[trigger] chunks@[i])@.len() as int),
        ensures
            r@.len() == chunks@.len(),
            forall|i: int|
                0 <= i < chunks@.len() ==> self.compresses(chunks@[i]@, (#[trigger] r@[i])@),
    {
        let mut out: Vec<Vec<u8>> = Vec::new();
        let mut i: usize = 0;
        while i < chunks.len()
            invariant
                i <= chunks@.len(),
                out@.len() == i,
                forall|j: int|
                    0 <= j < chunks@.len() ==> self.takes((#[trigger] chunks@[j])@.len() as int),
                forall|j: int| 0 <= j < i ==> self.compresses(chunks@[j]@, (#[trigger] out@[j])@),
            decreases chunks@.len() - i,
        {
            out.push(self.compress(chunks[i]));
            i = i + 1;
        }
        out
    }

    /// Decompresses each chunk. The first chunk that fails decides the error.
    pub fn decompress_batch(&self, chunks: &[&[u8]]) -> (r: Result<Vec<Vec<u8>>, CompressionError>)
        ensures
            match r {
                Ok(out) => {
                    &&& out@.len() == chunks@.len()
                    &&& forall|i: int|
                        0 <= i < chunks@.len() ==> decompressed(chunks@[i]@) == Ok::<
                            Seq<u8>,
                            CompressionError,
                        >((#[trigger] out@[i])@)
                },
                Err(e) => exists|i: int|
                    {
                        &&& 0 <= i < chunks@.len()
                        &&& #[trigger] decompressed(chunks@[i]@) == Err::<Seq<u8>, CompressionError>(e)
                        &&& forall|j: int|
                            0 <= j < i ==> (#[trigger] decompressed(chunks@[j]@)) is Ok
                    },
            },
    {
        let mut out: Vec<Vec<u8>> = Vec::new();
        let mut i: usize = 0;
        while i < chunks.len()
            invariant
                i <= chunks@.len(),
                out@.len() == i,
                forall|j: int|
                    0 <= j < i ==> decompressed(chunks@[j]@) == Ok::<Seq<u8>, CompressionError>(
                        (#[trigger] out@[j])@,
                    ),
                forall|j: int| 0 <= j < i ==> (#[trigger] decompressed(chunks@[j]@)) is Ok,
            decreases chunks@.len() - i,
        {
            match self.decompress(chunks[i]) {
                Ok(v) => {
                    out.push(v);
                },
                Err(e) => {
                    assert(decompressed(chunks@[i as int]@) == Err::<Seq<u8>, CompressionError>(e));
                    return Err(e);
                },
            }
            i = i + 1;
        }
        Ok(out)
    }
}

/// What one compressor has compressed, every compressor decompresses to the data again,
/// whatever the two thresholds are. The length of the data has to fit 32 bits or to lie below
/// the threshold of the first, and a vector has to hold the data.
pub proof fn law_compression_round_trip(compressor: &Compressor, data: Seq<u8>, r: Seq<u8>)
    requires
        compressor.compresses(data, r),
        compressor.restores(data.len() as int),
    ensures
        decompressed(r) == Ok::<Seq<u8>, CompressionError>(data),
{
    if data.len() < compressor.threshold() {
        assert(r.skip(1) =~= data);
    }
}

/// Sizes before and after a compression.
#[derive(Debug, Clone, Copy)]
pub struct CompressionStats {
    /// Size of the data in bytes.
    pub original_size: usize,
    /// Size of the output in bytes.
    pub compressed_size: usize,
    /// Whether the data reached the threshold.
    pub was_compressed: bool,
}

/// Compressor that cuts data into chunks of one size.
pub struct StreamingCompressor {
    compressor: Compressor,
    chunk_size: usize,
}

/// Number of pieces when `len` bytes are cut into pieces of `size`.
pub open spec fn piece_count(len: int, size: int) -> int {
    (len + size - 1) / size
}

/// Length of the first piece, which is the longest, when `len` bytes are cut into pieces of
/// `size`.
pub open spec fn first_piece(len: int, size: int) -> int {
    if len < size {
        len
    } else {
        size
    }
}

/// The `i`-th piece when `data` is cut into pieces of `size`.
pub open spec fn piece(data: Seq<u8>, size: int, i: int) -> Seq<u8> {
    data.subrange(i * size, if (i + 1) * size <= data.len() {
        (i + 1) * size
    } else {
        data.len() as int
    })
}

/// The first `n` pieces, one behind the other.
pub open spec fn pieces_joined(data: Seq<u8>, size: int, n: int) -> Seq<u8>
    decreases n,
{
    if n <= 0 {
        Seq::empty()
    } else {
        pieces_joined(data, size, n - 1) + piece(data, size, n - 1)
    }
}

proof fn lemma_pieces_joined(data: Seq<u8>, size: int, n: int)
    requires
        size > 0,
        0 <= n,
        (n - 1) * size < data.len(),
    ensures
        pieces_joined(data, size, n) == data.take(if n * size <= data.len() {
            n * size
        } else {
            data.len() as int
        }),
    decreases n,
{
    if n > 0 {
        assert((n - 1) * size >= 0 && (n - 2) * size == (n - 1) * size - size && n * size == (n - 1)
            * size + size) by (nonlinear_arith)
            requires
                n > 0,
                size > 0,
        ;
        lemma_pieces_joined(data, size, n - 1);
        assert(pieces_joined(data, size, n) =~= data.take(if n * size <= data.len() {
            n * size
        } else {
            data.len() as int
        }));
    } else {
        assert(n * size == 0) by (nonlinear_arith)
            requires
                n == 0,
        ;
        assert(pieces_joined(data, size, n) =~= data.take(0));
    }
}

/// The pieces that data is cut into make the data again.
pub proof fn law_pieces_make_the_data(data: Seq<u8>, size: int)
    requires
        size > 0,
    ensures
        pieces_joined(data, size, piece_count(data.len() as int, size)) == data,
{
    let n = piece_count(data.len() as int, size);
    let rest = (data.len() + size - 1) % size;
    vstd::arithmetic::div_mod::lemma_fundamental_div_mod(data.len() + size - 1, size);
    vstd::arithmetic::div_mod::lemma_mod_bound(data.len() + size - 1, size);
    vstd::arithmetic::div_mod::lemma_div_pos_is_pos(data.len() + size - 1, size);
    assert(size * n + rest == data.len() + size - 1);
    assert(n * size == size * n && (n - 1) * size == size * n - size) by (nonlinear_arith);
    if data.len() == 0 {
        vstd::arithmetic::div_mod::lemma_fundamental_div_mod_converse(
            size - 1,
            size,
            0,
            size - 1,
        );
        assert(pieces_joined(data, size, n) =~= data);
    } else {
        lemma_pieces_joined(data, size, n);
        assert(data.take(data.len() as int) =~= data);
    }
}

/// A stream of compressed pieces decompresses, piece by piece, to the data: there are as many
/// pieces as the data fills, each item gives its piece, and the pieces joined are the data. Only
/// the length of a piece is bounded.
pub proof fn law_stream_round_trip(
    compressor: &Compressor,
    data: Seq<u8>,
    size: int,
    items: Seq<Seq<u8>>,
)
    requires
        0 < size,
        compressor.restores(first_piece(data.len() as int, size)),
        items.len() == piece_count(data.len() as int, size),
        forall|i: int|
            0 <= i < items.len() ==> compressor.compresses(piece(data, size, i), #[trigger] items[i]),
    ensures
        forall|i: int|
            0 <= i < items.len() ==> decompressed(#[trigger] items[i]) == Ok::<
                Seq<u8>,
                CompressionError,
            >(piece(data, size, i)),
        pieces_joined(data, size, items.len() as int) == data,
{
    law_pieces_make_the_data(data, size);
    let n = items.len() as int;
    vstd::arithmetic::div_mod::lemma_fundamental_div_mod(data.len() + size - 1, size);
    vstd::arithmetic::div_mod::lemma_mod_bound(data.len() + size - 1, size);
    assert forall|i: int| 0 <= i < items.len() implies decompressed(#[trigger] items[i]) == Ok::<
        Seq<u8>,
        CompressionError,
    >(piece(data, size, i)) by {
        assert((i + 1) * size == i * size + size && 0 <= i * size && i * size <= (n - 1) * size && (n
            - 1) * size == size * n - size) by (nonlinear_arith)
            requires
                0 <= i < n,
                size > 0,
        ;
        law_compression_round_trip(compressor, piece(data, size, i), items[i]);
    }
}

impl StreamingCompressor {
    /// Size of a chunk.
    pub closed spec fn spec_chunk_size(&self) -> int {
        self.chunk_size as int
    }

    /// The compressor of the chunks.
    pub closed spec fn inner(&self) -> Compressor {
        self.compressor
    }

    /// Creates a compressor with the given chunk size.
    pub fn new(chunk_size: usize) -> (r: Self)
        ensures
            r.spec_chunk_size() == chunk_size,
            r.inner().threshold() == 64,
    {
        StreamingCompressor { compressor: Compressor::new(), chunk_size }
    }

    /// Cuts data into chunks and compresses each.
    pub fn compress_stream(&self, data: &[u8]) -> (r: Vec<Vec<u8>>)
        requires
            self.spec_chunk_size() > 0,
            self.inner().takes(first_piece(data@.len() as int, self.spec_chunk_size())),
        ensures
            r@.len() == piece_count(data@.len() as int, self.spec_chunk_size()),
            forall|i: int|
                0 <= i < r@.len() ==> self.inner().compresses(
                    piece(data@, self.spec_chunk_size(), i),
                    (#[trigger] r@[i])@,
                ),
            first_piece(data@.len() as int, self.spec_chunk_size()) <= u32::MAX ==> forall|i: int|
                0 <= i < r@.len() ==> decompressed((#[trigger] r@[i])@) == Ok::<
                    Seq<u8>,
                    CompressionError,
                >(piece(data@, self.spec_chunk_size(), i)),
    {
        let mut out: Vec<Vec<u8>> = Vec::new();
        let mut at: usize = 0;
        let size: usize = self.chunk_size;
        proof {
            assert(out@.len() * size == 0) by (nonlinear_arith)
                requires
                    out@.len() == 0,
            ;
            vstd::arithmetic::div_mod::lemma_fundamental_div_mod_converse(
                size - 1,
                size as int,
                0,
                size - 1,
            );
        }
        while at < data.len()
            invariant
                size == self.chunk_size,
                size > 0,
                self.inner().takes(first_piece(data@.len() as int, size as int)),
                at <= data@.len(),
                at < data@.len() ==> at == out@.len() * size,
                at == data@.len() ==> out@.len() == piece_count(at as int, size as int),
                forall|i: int|
                    0 <= i < out@.len() ==> self.inner().compresses(
                        piece(data@, size as int, i),
                        (#[trigger] out@[i])@,
                    ),
                first_piece(data@.len() as int, size as int) <= u32::MAX ==> forall|i: int|
                    0 <= i < out@.len() ==> decompressed((#[trigger] out@[i])@) == Ok::<
                        Seq<u8>,
                        CompressionError,
                    >(piece(data@, size as int, i)),
            decreases data@.len() - at,
        {
            let end: usize = if data.len() - at <= size {
                data.len()
            } else {
                at + size
            };
            let chunk = copy_range(data, at, end);
            let ghost k = out@.len() as int;
            proof {
                let z = size as int;
                assert((k + 1) * z == k * z + z) by (nonlinear_arith);
                assert(chunk@ == piece(data@, z, k));
                if end == data@.len() {
                    // k * z < len <= (k + 1) * z
                    vstd::arithmetic::div_mod::lemma_fundamental_div_mod_converse(
                        end + z - 1,
                        z,
                        k + 1,
                        end + z - 1 - (k + 1) * z,
                    );
                }
            }
            out.push(self.compressor.compress(chunk.as_slice()));
            at = end;
        }
        out
    }

    /// Decompresses each chunk.
    pub fn decompress_stream(&self, chunks: &[&[u8]]) -> (r: Vec<Result<Vec<u8>, CompressionError>>)
        ensures
            r@.len() == chunks@.len(),
            forall|i: int|
                0 <= i < chunks@.len() ==> outcome(#[trigger] r@[i]) == decompressed(chunks@[i]@),
    {
        let mut out: Vec<Result<Vec<u8>, CompressionError>> = Vec::new();
        let mut i: usize = 0;
        while i < chunks.len()
            invariant
                i <= chunks@.len(),
                out@.len() == i,
                forall|j: int|
                    0 <= j < i ==> outcome(#[trigger] out@[j]) == decompressed(chunks@[j]@),
            decreases chunks@.len() - i,
        {
            out.push(self.compressor.decompress(chunks[i]));
            i = i + 1;
        }
        out
    }
}

/// Data below the threshold is kept as it is behind a zero; other data is packed behind a one,
/// with its length in the four bytes that follow.
pub proof fn law_markers(compressor: &Compressor, data: Seq<u8>, r: Seq<u8>)
    requires
        compressor.compresses(data, r),
    ensures
        data.len() < compressor.threshold() ==> r.len() == data.len() + 1 && r[0] == 0 && r.skip(1)
            == data,
        data.len() >= compressor.threshold() ==> r.len() >= 5 && r[0] == 1 && read_le32(r, 1)
            == data.len() % 0x1_0000_0000,
{
    if data.len() < compressor.threshold() {
        assert(r.skip(1) =~= data);
    } else {
        reveal(read_le32);
    }
}

} // verus!
