//! Splitting files into fixed-size chunks with SHA-1 verification.
//!
//! A file of `n` bytes is cut into `ceil(n / chunk_size)` chunks; chunk `i`
//! starts at byte `i * chunk_size` and all chunks but the last are full.
//! Each chunk is identified by the lower-case hexadecimal SHA-1 of its bytes.
use sha1::Digest;
use crate::text::{hex_lower, to_hex_lower};
use vstd::prelude::*;

verus! {

/// Default chunk size: 512 KiB.
pub const CHUNK_SIZE: u32 = 512 * 1024;

/// Inputs at or above this many bytes are refused by the SHA-1 hasher
/// (its bit counter is a `u64`).
pub const SHA1_INPUT_LIMIT: u64 = 0x2000_0000_0000_0000;

/// Errors of chunk handling.
#[derive(Debug)]
pub enum ChunkerError {
    /// Reading or writing the file failed.
    Io(String),
    /// A chunk index outside the file.
    InvalidChunkIndex(u32),
    /// The chunk's SHA-1 is not the expected one.
    HashMismatch { expected: String, actual: String },
}

// ─── SHA-1 ──────────────────────────────────────────────────────────────────

/// The SHA-1 digest of `data`.
pub uninterp spec fn sha1_digest(data: Seq<u8>) -> Seq<u8>;

/// An incremental SHA-1 computation (a `sha1::Sha1` hasher).
#[verifier::external_body]
pub struct Sha1Stream {
    inner: sha1::Sha1,
}

/// The bytes fed so far to a hasher.
pub uninterp spec fn sha1_absorbed(h: Sha1Stream) -> Seq<u8>;

impl View for Sha1Stream {
    type V = Seq<u8>;

    open spec fn view(&self) -> Seq<u8> {
        sha1_absorbed(*self)
    }
}

/// `sha1::Sha1::new` (`Digest::new`): a hasher that has absorbed nothing.
#[verifier::external_body]
fn sha1_new() -> (h: Sha1Stream)
    ensures
        sha1_absorbed(h) == Seq::<u8>::empty(),
{
    Sha1Stream { inner: sha1::Sha1::new() }
}

/// `Digest::update` on a `sha1::Sha1`: absorbs `data` after what came before.
#[verifier::external_body]
fn sha1_update(h: &mut Sha1Stream, data: &[u8])
    requires
        sha1_absorbed(*old(h)).len() + data@.len() < SHA1_INPUT_LIMIT,
    ensures
        sha1_absorbed(*final(h)) == sha1_absorbed(*old(h)) + data@,
{
    h.inner.update(data)
}

/// `Digest::finalize` on a `sha1::Sha1`: the 20-byte SHA-1 digest of all
/// absorbed bytes. It panics on 2^61 bytes or more (bit counter overflow),
/// which `requires` rules out.
#[verifier::external_body]
fn sha1_finalize(h: Sha1Stream) -> (digest: Vec<u8>)
    requires
        sha1_absorbed(h).len() < SHA1_INPUT_LIMIT,
    ensures
        digest@ == sha1_digest(sha1_absorbed(h)),
        digest@.len() == 20,
{
    h.inner.finalize().to_vec()
}

impl Sha1Stream {
    /// A hasher that has absorbed nothing yet.
    pub fn new() -> (h: Sha1Stream)
        ensures
            h@ == Seq::<u8>::empty(),
    {
        sha1_new()
    }

    /// Absorbs `data`.
    pub fn update(&mut self, data: &[u8])
        requires
            old(self)@.len() + data@.len() < SHA1_INPUT_LIMIT,
        ensures
            final(self)@ == old(self)@ + data@,
    {
        sha1_update(self, data)
    }

    /// Lower-case hexadecimal SHA-1 of everything absorbed.
    pub fn finish_hex(self) -> (hex: String)
        requires
            self@.len() < SHA1_INPUT_LIMIT,
        ensures
            hex@ == sha1_hex_spec(self@),
    {
        let digest = sha1_finalize(self);
        to_hex_lower(&digest)
    }
}

// ─── Hex digests ────────────────────────────────────────────────────────────

/// Lower-case hexadecimal SHA-1 of `data`.
pub open spec fn sha1_hex_spec(data: Seq<u8>) -> Seq<char> {
    hex_lower(sha1_digest(data))
}

/// Lower-case hexadecimal SHA-1 of `data`.
pub fn sha1_hex(data: &[u8]) -> (hex: String)
    requires
        data@.len() < SHA1_INPUT_LIMIT,
    ensures
        hex@ == sha1_hex_spec(data@),
{
    let mut hasher = Sha1Stream::new();
    hasher.update(data);
    assert(hasher@ =~= data@);
    hasher.finish_hex()
}

// ─── Chunks ─────────────────────────────────────────────────────────────────

/// Number of chunks of `chunk_size` bytes needed for `file_size` bytes.
pub open spec fn ceil_div(file_size: int, chunk_size: int) -> int {
    (file_size + chunk_size - 1) / chunk_size
}

/// Chunk `i` of `data`: bytes `i * cs .. (i + 1) * cs`, cut at the end of `data`.
pub open spec fn chunk_at(data: Seq<u8>, i: int, cs: int) -> Seq<u8> {
    let start = if i * cs <= data.len() { i * cs } else { data.len() as int };
    let end = if (i + 1) * cs <= data.len() { (i + 1) * cs } else { data.len() as int };
    data.subrange(start, end)
}

/// The chunk map of `data`: the hexadecimal SHA-1 of each of its chunks.
pub open spec fn chunk_map_spec(data: Seq<u8>, cs: int) -> Seq<Seq<char>> {
    Seq::new(
        (ceil_div(data.len() as int, cs) as u32) as nat,
        |i: int| sha1_hex_spec(chunk_at(data, i, cs)),
    )
}

/// How many chunks of `chunk_size` bytes a file of `file_size` bytes needs,
/// as a `u32` (modulo 2^32).
pub fn chunk_count(file_size: u64, chunk_size: u32) -> (count: u32)
    requires
        chunk_size > 0,
        file_size + chunk_size <= u64::MAX,
    ensures
        count == #[verifier::truncate] (ceil_div(file_size as int, chunk_size as int) as u32),
{
    let chunk_size = chunk_size as u64;
    #[verifier::truncate]
    let count = ((file_size + chunk_size - 1) / chunk_size) as u32;
    count
}

/// Byte offset of chunk `chunk_index` in the file.
pub fn chunk_offset(chunk_index: u32, chunk_size: u32) -> (offset: u64)
    ensures
        offset == chunk_index * chunk_size,
{
    assert(chunk_index * chunk_size <= u32::MAX * u32::MAX) by (nonlinear_arith);
    (chunk_index as u64) * (chunk_size as u64)
}

proof fn lemma_chunk_start_inside(len: int, cs: int, i: int)
    requires
        cs > 0,
        len >= 0,
        0 <= i < ceil_div(len, cs),
    ensures
        i * cs < len,
        (i + 1) * cs <= len + cs - 1,
{
    let c = ceil_div(len, cs);
    assert(c * cs <= len + cs - 1) by (nonlinear_arith)
        requires
            c == (len + cs - 1) / cs,
            cs > 0,
    ;
    assert(i * cs + cs <= c * cs) by (nonlinear_arith)
        requires
            i + 1 <= c,
            cs > 0,
    ;
    assert((i + 1) * cs == i * cs + cs) by (nonlinear_arith);
}

/// Checks a received chunk against its expected hash.
pub fn verify_chunk(data: &[u8], expected_hash: &str) -> (r: Result<(), ChunkerError>)
    requires
        data@.len() < SHA1_INPUT_LIMIT,
    ensures
        r is Ok <==> sha1_hex_spec(data@) == expected_hash@,
        r is Err ==> (r matches Err(ChunkerError::HashMismatch { expected, actual })
            && expected@ == expected_hash@ && actual@ == sha1_hex_spec(data@)),
{
    let actual = sha1_hex(data);
    let expected = expected_hash.to_owned();
    if !(actual == expected) {
        return Err(ChunkerError::HashMismatch { expected, actual });
    }
    Ok(())
}

/// The chunk map of a file's contents: one lower-case hexadecimal SHA-1 per chunk.
pub fn build_chunk_map(data: &[u8], chunk_size: u32) -> (hashes: Vec<String>)
    requires
        chunk_size > 0,
        data@.len() + chunk_size <= u64::MAX,
    ensures
        hashes@.len() == chunk_map_spec(data@, chunk_size as int).len(),
        forall|i: int|
            0 <= i < hashes@.len() ==> #[trigger] hashes@[i]@ == chunk_map_spec(
                data@,
                chunk_size as int,
            )[i],
{
    let len = data.len();
    let count = chunk_count(len as u64, chunk_size);
    let ghost cs = chunk_size as int;
    let mut hashes: Vec<String> = Vec::new();
    let mut i: u32 = 0;
    while i < count
        invariant
            0 <= i <= count,
            count == ceil_div(len as int, cs) as u32,
            cs == chunk_size,
            cs > 0,
            len == data@.len(),
            hashes@.len() == i,
            forall|j: int|
                0 <= j < i ==> #[trigger] hashes@[j]@ == sha1_hex_spec(chunk_at(data@, j, cs)),
        decreases count - i,
    {
        proof {
            assert(count as int <= ceil_div(len as int, cs)) by {
                assert(ceil_div(len as int, cs) >= 0) by (nonlinear_arith)
                    requires
                        len >= 0,
                        cs > 0,
                ;
            }
            lemma_chunk_start_inside(len as int, cs, i as int);
        }
        let start: usize = (i as usize) * (chunk_size as usize);
        let end: usize = if len - start > chunk_size as usize {
            start + chunk_size as usize
        } else {
            len
        };
        let chunk = vstd::slice::slice_subrange(data, start, end);
        proof {
            assert((i + 1) * cs == i * cs + cs) by (nonlinear_arith);
            assert(chunk@ =~= chunk_at(data@, i as int, cs));
        }
        hashes.push(sha1_hex(chunk));
        i = i + 1;
    }
    hashes
}

// ─── Chunk map, one chunk at a time ─────────────────────────────────────────

/// The chunk map of a file built while the file is read chunk by chunk
/// (so the whole file never has to be in memory). Its view is the bytes
/// pushed so far; every chunk but the last pushed is full.
pub struct ChunkMapBuilder {
    chunk_size: u32,
    hashes: Vec<String>,
    size: u64,
    closed: bool,
    data: Ghost<Seq<u8>>,
}

impl View for ChunkMapBuilder {
    type V = Seq<u8>;

    closed spec fn view(&self) -> Seq<u8> {
        self.data@
    }
}

impl ChunkMapBuilder {
    /// The builder holds the hash of every chunk of the bytes pushed so far.
    pub closed spec fn wf(&self) -> bool {
        &&& self.chunk_size > 0
        &&& self.size == self.data@.len()
        &&& self.hashes@.len() == ceil_div(self.data@.len() as int, self.chunk_size as int)
        &&& self.hashes@.len() <= u32::MAX
        &&& !self.closed ==> self.data@.len() == self.hashes@.len() * self.chunk_size
        &&& forall|i: int|
            0 <= i < self.hashes@.len() ==> #[trigger] self.hashes@[i]@ == sha1_hex_spec(
                chunk_at(self.data@, i, self.chunk_size as int),
            )
    }

    /// The chunk size the map is built with.
    pub closed spec fn chunk_len(&self) -> u32 {
        self.chunk_size
    }

    /// Whether another chunk may follow: no short (last) chunk was pushed yet.
    pub closed spec fn accepts_more(&self) -> bool {
        !self.closed
    }

    /// An empty chunk map for chunks of `chunk_size` bytes.
    pub fn new(chunk_size: u32) -> (b: ChunkMapBuilder)
        requires
            chunk_size > 0,
        ensures
            b.wf(),
            b@ == Seq::<u8>::empty(),
            b.chunk_len() == chunk_size,
            b.accepts_more(),
    {
        let b = ChunkMapBuilder {
            chunk_size,
            hashes: Vec::new(),
            size: 0,
            closed: false,
            data: Ghost(Seq::empty()),
        };
        assert(ceil_div(0, chunk_size as int) == 0) by (nonlinear_arith)
            requires
                chunk_size > 0,
        ;
        b
    }

    /// The chunk size the map is built with.
    pub fn chunk_size(&self) -> (n: u32)
        ensures
            n == self.chunk_len(),
    {
        self.chunk_size
    }

    /// Number of bytes pushed so far.
    pub fn size(&self) -> (n: u64)
        requires
            self.wf(),
        ensures
            n == self@.len(),
    {
        self.size
    }

    /// Number of chunks pushed so far.
    pub fn chunks(&self) -> (n: usize)
        requires
            self.wf(),
        ensures
            n == ceil_div(self@.len() as int, self.chunk_len() as int),
    {
        self.hashes.len()
    }

    /// Records the next chunk of the file: `chunk` follows the bytes pushed
    /// so far. A chunk shorter than the chunk size is the file's last.
    pub fn push_chunk(&mut self, chunk: &[u8])
        requires
            old(self).wf(),
            old(self).accepts_more(),
            0 < chunk@.len() <= old(self).chunk_len(),
            old(self)@.len() + chunk@.len() + old(self).chunk_len() <= u64::MAX,
            ceil_div(old(self)@.len() as int, old(self).chunk_len() as int) < u32::MAX,
        ensures
            final(self).wf(),
            final(self)@ == old(self)@ + chunk@,
            final(self).chunk_len() == old(self).chunk_len(),
            final(self).accepts_more() == (chunk@.len() == old(self).chunk_len()),
    {
        let ghost d = self.data@;
        let ghost d2 = d + chunk@;
        let ghost cs = self.chunk_size as int;
        let ghost c = self.hashes@.len() as int;
        let ghost r = chunk@.len() as int;
        let h = sha1_hex(chunk);
        self.hashes.push(h);
        self.size = self.size + chunk.len() as u64;
        self.closed = chunk.len() < self.chunk_size as usize;
        self.data = Ghost(d2);
        proof {
            assert((c + 1) * cs == c * cs + cs) by (nonlinear_arith);
            assert forall|i: int| 0 <= i < c implies #[trigger] chunk_at(d2, i, cs) == chunk_at(d, i, cs) by {
                assert((i + 1) * cs <= c * cs) by (nonlinear_arith)
                    requires
                        i + 1 <= c,
                        cs > 0,
                ;
                assert(i * cs >= 0) by (nonlinear_arith)
                    requires
                        i >= 0,
                        cs > 0,
                ;
                assert((i + 1) * cs == i * cs + cs) by (nonlinear_arith);
                assert(chunk_at(d2, i, cs) =~= chunk_at(d, i, cs));
            }
            assert(chunk_at(d2, c, cs) =~= chunk@);
            if r < cs {
                lemma_chunk_count_exact(c, r, cs);
            } else {
                lemma_chunk_count_exact(c + 1, 0, cs);
            }
            assert forall|i: int| 0 <= i < self.hashes@.len() implies #[trigger] self.hashes@[i]@
                == sha1_hex_spec(chunk_at(self.data@, i, cs)) by {
                if i < c {
                    assert(self.hashes@[i] == old(self).hashes@[i]);
                }
            }
        }
    }

    /// The finished map: the file's size, its number of chunks and the
    /// hash of each chunk, exactly the chunk map of the bytes pushed.
    pub fn into_parts(self) -> (parts: (u64, u32, Vec<String>))
        requires
            self.wf(),
        ensures
            parts.0 == self@.len(),
            parts.1 == ceil_div(self@.len() as int, self.chunk_len() as int),
            parts.2.deep_view() == chunk_map_spec(self@, self.chunk_len() as int),
    {
        let n = self.hashes.len() as u32;
        let hashes = self.hashes;
        proof {
            assert(hashes.deep_view() =~= chunk_map_spec(self.data@, self.chunk_size as int));
        }
        (self.size, n, hashes)
    }
}

// ─── Laws ───────────────────────────────────────────────────────────────────

/// The first `k` chunks of `data`, joined.
pub open spec fn joined_chunks(data: Seq<u8>, cs: int, k: nat) -> Seq<u8>
    decreases k,
{
    if k == 0 {
        Seq::empty()
    } else {
        joined_chunks(data, cs, (k - 1) as nat) + chunk_at(data, k - 1, cs)
    }
}

proof fn lemma_joined_prefix(data: Seq<u8>, cs: int, k: nat)
    requires
        cs > 0,
    ensures
        joined_chunks(data, cs, k) == data.take(
            if k * cs <= data.len() {
                k * cs
            } else {
                data.len() as int
            },
        ),
    decreases k,
{
    if k == 0 {
        assert(data.take(0) =~= Seq::<u8>::empty());
    } else {
        lemma_joined_prefix(data, cs, (k - 1) as nat);
        assert(k * cs == (k - 1) * cs + cs) by (nonlinear_arith);
        assert((k - 1) * cs >= 0) by (nonlinear_arith)
            requires
                k >= 1,
                cs > 0,
        ;
        let prev = if (k - 1) * cs <= data.len() {
            (k - 1) * cs
        } else {
            data.len() as int
        };
        let cur = if k * cs <= data.len() {
            k * cs
        } else {
            data.len() as int
        };
        assert(data.take(prev) + chunk_at(data, k - 1, cs) =~= data.take(cur));
    }
}

/// Cutting a file into chunks loses and repeats nothing: chunk `i` starts at
/// byte `i * chunk_size` (where a receiver writes it), every chunk but the
/// last holds `chunk_size` bytes, the last one at least one byte, and the
/// chunks joined in order give back the whole file.
pub proof fn lemma_chunks_reassemble(data: Seq<u8>, chunk_size: int)
    requires
        chunk_size > 0,
    ensures
        joined_chunks(data, chunk_size, ceil_div(data.len() as int, chunk_size) as nat) == data,
        forall|i: int|
            0 <= i < ceil_div(data.len() as int, chunk_size) ==> {
                &&& #[trigger] chunk_at(data, i, chunk_size) == data.subrange(
                    i * chunk_size,
                    i * chunk_size + chunk_at(data, i, chunk_size).len(),
                )
                &&& 0 < chunk_at(data, i, chunk_size).len() <= chunk_size
                &&& i + 1 < ceil_div(data.len() as int, chunk_size) ==> chunk_at(
                    data,
                    i,
                    chunk_size,
                ).len() == chunk_size
            },
{
    let len = data.len() as int;
    let c = ceil_div(len, chunk_size);
    assert(c >= 0 && c * chunk_size >= len) by (nonlinear_arith)
        requires
            c == (len + chunk_size - 1) / chunk_size,
            chunk_size > 0,
            len >= 0,
    ;
    lemma_joined_prefix(data, chunk_size, c as nat);
    assert(data.take(len) =~= data);
    assert forall|i: int| 0 <= i < c implies {
        &&& #[trigger] chunk_at(data, i, chunk_size) == data.subrange(
            i * chunk_size,
            i * chunk_size + chunk_at(data, i, chunk_size).len(),
        )
        &&& 0 < chunk_at(data, i, chunk_size).len() <= chunk_size
        &&& i + 1 < c ==> chunk_at(data, i, chunk_size).len() == chunk_size
    } by {
        lemma_chunk_start_inside(len, chunk_size, i);
        assert((i + 1) * chunk_size == i * chunk_size + chunk_size) by (nonlinear_arith);
        assert(i * chunk_size >= 0) by (nonlinear_arith)
            requires
                i >= 0,
                chunk_size > 0,
        ;
        if i + 1 < c {
            lemma_chunk_start_inside(len, chunk_size, i + 1);
            assert((i + 2) * chunk_size == (i + 1) * chunk_size + chunk_size) by (nonlinear_arith);
        }
    }
}

/// The chunk map has one entry per chunk, and each chunk of the file passes
/// `verify_chunk` against its own entry.
pub proof fn lemma_chunk_map_verifies(data: Seq<u8>, chunk_size: int)
    requires
        chunk_size > 0,
        ceil_div(data.len() as int, chunk_size) <= u32::MAX,
    ensures
        chunk_map_spec(data, chunk_size).len() == ceil_div(data.len() as int, chunk_size),
        forall|i: int|
            0 <= i < ceil_div(data.len() as int, chunk_size) ==> sha1_hex_spec(
                #[trigger] chunk_at(data, i, chunk_size),
            ) == chunk_map_spec(data, chunk_size)[i],
{
    assert(ceil_div(data.len() as int, chunk_size) >= 0) by (nonlinear_arith)
        requires
            chunk_size > 0,
            data.len() >= 0,
    ;
}

/// `chunk_count` in numbers: a whole number `n` of full chunks gives `n`,
/// and any remainder adds one more chunk.
pub proof fn lemma_chunk_count_exact(n: int, rest: int, chunk_size: int)
    requires
        chunk_size > 0,
        n >= 0,
        0 <= rest < chunk_size,
    ensures
        ceil_div(n * chunk_size + rest, chunk_size) == if rest == 0 {
            n
        } else {
            n + 1
        },
{
    if rest == 0 {
        assert((n * chunk_size + chunk_size - 1) / chunk_size == n) by (nonlinear_arith)
            requires
                chunk_size > 0,
                n >= 0,
        ;
    } else {
        assert((n * chunk_size + rest + chunk_size - 1) / chunk_size == n + 1) by (nonlinear_arith)
            requires
                chunk_size > 0,
                n >= 0,
                0 < rest < chunk_size,
        ;
    }
}

} // verus!
